//! The reconciler: observed containers against KV records and the desired
//! count.
//!
//! Each tick the agent hands these functions what it observed — the running
//! containers with their KV records, the KV keys, the probe statuses — and
//! they decide everything: which containers to stop, which KV entries to
//! purge, how many workers to create, the new scores and categories, which
//! SUNDOWN workers are quiescent and leave, and the published order. The
//! surrounding process only performs the returned actions.
use vstd::prelude::*;
use vstd::multiset::Multiset;
use crate::keys::KvRecord;
use crate::worker::{Category, ItemModel, QueueItem, SCORE_MAX_MILLI};
use crate::dispatcher::QueueItemVecView;
use crate::scale::ScaleDecision;

verus! {

broadcast use vstd::seq_lib::group_to_multiset_ensures;

/// A SUNDOWN worker is quiescent once its network score reaches this (99.9
/// points in milli).
pub const NETWORK_IDLE_MILLI: i64 = 99_900;

/// One running container as observed, with its KV key and what the KV held
/// under that key.
pub struct ObservedContainer {
    pub name: Vec<u8>,
    pub key: Vec<u8>,
    pub record: Option<KvRecord>,
}

/// One worker's probe-derived status.
pub struct StatusInfo {
    pub name: Vec<u8>,
    pub overall_score_milli: i64,
    pub network_score_milli: i64,
    pub category: Category,
}

/// An observed container is kept when the KV holds a record for it.
pub open spec fn spec_kept(c: ObservedContainer) -> bool {
    c.record is Some
}

/// The fleet record a kept container contributes: a SUNDOWN record keeps
/// its state with a zero score; any other record enters with a full score
/// and its recorded category, or INIT when the record lacks one.
pub open spec fn spec_item_of(c: ObservedContainer) -> ItemModel {
    match c.record {
        Some(rec) => match rec.category {
            Some(Category::Sundown) => (c.name@, 0int, Category::Sundown),
            Some(cat) => (c.name@, SCORE_MAX_MILLI as int, cat),
            None => (c.name@, SCORE_MAX_MILLI as int, Category::Init),
        },
        None => (c.name@, 0int, Category::Init),
    }
}

/// The managed fleet: the kept containers, in observed order.
pub open spec fn spec_managed(s: Seq<ObservedContainer>) -> Seq<ItemModel>
    decreases s.len(),
{
    if s.len() == 0 {
        Seq::<ItemModel>::empty()
    } else {
        spec_managed(s.drop_last()) + (if spec_kept(s.last()) {
            seq![spec_item_of(s.last())]
        } else {
            Seq::<ItemModel>::empty()
        })
    }
}

/// The names of the observed containers with no KV record, in order; they
/// are stopped and removed.
pub open spec fn spec_stop_names(s: Seq<ObservedContainer>) -> Seq<Seq<u8>>
    decreases s.len(),
{
    if s.len() == 0 {
        Seq::<Seq<u8>>::empty()
    } else {
        spec_stop_names(s.drop_last()) + (if spec_kept(s.last()) {
            Seq::<Seq<u8>>::empty()
        } else {
            seq![s.last().name@]
        })
    }
}

/// Walks the observed containers: those with a KV record form the managed
/// fleet (SUNDOWN preserved with a zero score, others at full score with
/// their recorded category); those without one are named for stop and
/// removal.
pub fn manage_containers(observed: &Vec<ObservedContainer>) -> (r: (Vec<QueueItem>, Vec<Vec<u8>>))
    ensures
        r.0.deep_view_items() == spec_managed(observed@),
        r.1@.map(|i: int, n: Vec<u8>| n@) == spec_stop_names(observed@),
        forall|i: int|
            0 <= i < r.0.deep_view_items().len() ==> 0 <= (#[trigger] r.0.deep_view_items()[i]).1
                <= SCORE_MAX_MILLI,
        r.1@.len() == 0 <==> (forall|j: int|
            0 <= j < observed@.len() ==> spec_kept(#[trigger] observed@[j])),
    {
        let mut fleet: Vec<QueueItem> = Vec::new();
        let mut stops: Vec<Vec<u8>> = Vec::new();
        let mut i: usize = 0;
        proof {
            assert(observed@.take(0) =~= Seq::<ObservedContainer>::empty());
            assert(fleet.deep_view_items() =~= spec_managed(observed@.take(0)));
            assert(stops@.map(|k: int, n: Vec<u8>| n@) =~= spec_stop_names(observed@.take(0)));
        }
        while i < observed.len()
            invariant
                i <= observed@.len(),
                fleet.deep_view_items() == spec_managed(observed@.take(i as int)),
                stops@.map(|k: int, n: Vec<u8>| n@) == spec_stop_names(observed@.take(i as int)),
                forall|k: int|
                    0 <= k < fleet.deep_view_items().len() ==> 0 <= (
                    #[trigger] fleet.deep_view_items()[k]).1 <= SCORE_MAX_MILLI,
                stops@.len() == 0 <==> (forall|j: int|
                    0 <= j < i ==> spec_kept(#[trigger] observed@[j])),
            decreases observed@.len() - i,
        {
            let ghost fprev = fleet.deep_view_items();
            let ghost sprev = stops@.map(|k: int, n: Vec<u8>| n@);
            let c = &observed[i];
            match &c.record {
                Some(rec) => {
                    let item = match rec.category {
                        Some(Category::Sundown) => QueueItem {
                            dns_name: crate::cache::clone_bytes(&c.name),
                            score_milli: 0,
                            category: Category::Sundown,
                        },
                        Some(cat) => QueueItem {
                            dns_name: crate::cache::clone_bytes(&c.name),
                            score_milli: SCORE_MAX_MILLI,
                            category: cat,
                        },
                        None => QueueItem {
                            dns_name: crate::cache::clone_bytes(&c.name),
                            score_milli: SCORE_MAX_MILLI,
                            category: Category::Init,
                        },
                    };
                    proof {
                        assert(item@ == spec_item_of(observed@[i as int]));
                    }
                    fleet.push(item);
                    proof {
                        assert(fleet.deep_view_items() =~= fprev.push(
                            spec_item_of(observed@[i as int]),
                        ));
                    }
                },
                None => {
                    stops.push(crate::cache::clone_bytes(&c.name));
                    proof {
                        assert(stops@.map(|k: int, n: Vec<u8>| n@) =~= sprev.push(
                            observed@[i as int].name@,
                        ));
                    }
                },
            }
            proof {
                let t1 = observed@.take(i + 1);
                assert(t1.drop_last() =~= observed@.take(i as int));
                assert(t1.last() == observed@[i as int]);
                if spec_kept(observed@[i as int]) {
                    assert(spec_managed(t1) =~= spec_managed(observed@.take(i as int)).push(
                        spec_item_of(observed@[i as int]),
                    ));
                    assert(spec_stop_names(t1) =~= spec_stop_names(observed@.take(i as int)));
                } else {
                    assert(spec_managed(t1) =~= spec_managed(observed@.take(i as int)));
                    assert(spec_stop_names(t1) =~= spec_stop_names(observed@.take(i as int)).push(
                        observed@[i as int].name@,
                    ));
                }
            }
            i += 1;
        }
        proof {
            assert(observed@.take(observed@.len() as int) =~= observed@);
        }
        (fleet, stops)
    }

/// Whether some observed container carries this KV key.
pub open spec fn spec_key_observed(s: Seq<ObservedContainer>, key: Seq<u8>) -> bool {
    exists|i: int| 0 <= i < s.len() && (#[trigger] s[i]).key@ == key
}

/// The KV keys that belong to no observed container, in order; they are
/// orphans and are deleted.
pub open spec fn spec_orphans(keys: Seq<Seq<u8>>, s: Seq<ObservedContainer>) -> Seq<Seq<u8>>
    decreases keys.len(),
{
    if keys.len() == 0 {
        Seq::<Seq<u8>>::empty()
    } else {
        spec_orphans(keys.drop_last(), s) + (if spec_key_observed(s, keys.last()) {
            Seq::<Seq<u8>>::empty()
        } else {
            seq![keys.last()]
        })
    }
}

/// Whether any observed container carries the key.
fn key_is_observed(observed: &Vec<ObservedContainer>, key: &Vec<u8>) -> (r: bool)
    ensures
        r == spec_key_observed(observed@, key@),
{
    let mut i: usize = 0;
    while i < observed.len()
        invariant
            i <= observed@.len(),
            forall|j: int| 0 <= j < i ==> (#[trigger] observed@[j]).key@ != key@,
        decreases observed@.len() - i,
    {
        if crate::worker::bytes_eq(&observed[i].key, key) {
            proof {
                assert(0 <= i < observed@.len() && observed@[i as int].key@ == key@);
            }
            return true;
        }
        i += 1;
    }
    false
}

/// Finds the KV keys with no observed container behind them: exactly the
/// orphans, and none when every key is observed.
pub fn cleanup_orphaned_db_entries(
    kv_keys: &Vec<Vec<u8>>,
    observed: &Vec<ObservedContainer>,
) -> (r: Vec<Vec<u8>>)
    ensures
        r@.map(|i: int, n: Vec<u8>| n@) == spec_orphans(
            kv_keys@.map(|i: int, n: Vec<u8>| n@),
            observed@,
        ),
        r@.len() == 0 <==> (forall|j: int|
            0 <= j < kv_keys@.len() ==> spec_key_observed(
                observed@,
                (#[trigger] kv_keys@[j])@,
            )),
{
    let ghost keys = kv_keys@.map(|i: int, n: Vec<u8>| n@);
    let mut r: Vec<Vec<u8>> = Vec::new();
    let mut i: usize = 0;
    proof {
        assert(keys.take(0) =~= Seq::<Seq<u8>>::empty());
        assert(r@.map(|k: int, n: Vec<u8>| n@) =~= spec_orphans(keys.take(0), observed@));
    }
    while i < kv_keys.len()
        invariant
            i <= keys.len(),
            kv_keys@.len() == keys.len(),
            forall|j: int| 0 <= j < keys.len() ==> keys[j] == (#[trigger] kv_keys@[j])@,
            r@.map(|k: int, n: Vec<u8>| n@) == spec_orphans(keys.take(i as int), observed@),
            r@.len() == 0 <==> (forall|j: int|
                0 <= j < i ==> spec_key_observed(observed@, (#[trigger] kv_keys@[j])@)),
        decreases kv_keys@.len() - i,
    {
        let ghost rprev = r@.map(|k: int, n: Vec<u8>| n@);
        let observed_here = key_is_observed(observed, &kv_keys[i]);
        if !observed_here {
            r.push(crate::cache::clone_bytes(&kv_keys[i]));
            proof {
                assert(r@.map(|k: int, n: Vec<u8>| n@) =~= rprev.push(keys[i as int]));
            }
        }
        proof {
            let t1 = keys.take(i + 1);
            assert(t1.drop_last() =~= keys.take(i as int));
            assert(t1.last() == keys[i as int]);
            if observed_here {
                assert(spec_orphans(t1, observed@) =~= spec_orphans(
                    keys.take(i as int),
                    observed@,
                ));
            } else {
                assert(spec_orphans(t1, observed@) =~= spec_orphans(
                    keys.take(i as int),
                    observed@,
                ).push(keys[i as int]));
            }
        }
        i += 1;
    }
    proof {
        assert(keys.take(keys.len() as int) =~= keys);
    }
    r
}

/// How many workers must be created to reach the desired count.
pub fn fill_count(active_count: usize, desired: usize) -> (r: usize)
    ensures
        r == (if active_count < desired {
            desired - active_count
        } else {
            0int
        }),
{
    if active_count < desired {
        desired - active_count
    } else {
        0
    }
}

/// First status carried under this worker name, if any.
pub open spec fn spec_status_for(sts: Seq<StatusInfo>, name: Seq<u8>) -> Option<int>
    decreases sts.len(),
{
    if sts.len() == 0 {
        None
    } else if sts[0].name@ == name {
        Some(0int)
    } else {
        match spec_status_for(sts.drop_first(), name) {
            None => None,
            Some(i) => Some(i + 1),
        }
    }
}

/// The first-match characterization of `spec_status_for`.
pub proof fn lemma_status_for_props(sts: Seq<StatusInfo>, name: Seq<u8>)
    ensures
        match spec_status_for(sts, name) {
            Some(i) => 0 <= i < sts.len() && sts[i].name@ == name && (forall|j: int|
                0 <= j < i ==> (#[trigger] sts[j]).name@ != name),
            None => forall|j: int| 0 <= j < sts.len() ==> (#[trigger] sts[j]).name@ != name,
        },
    decreases sts.len(),
{
    if sts.len() > 0 && sts[0].name@ != name {
        let t = sts.drop_first();
        lemma_status_for_props(t, name);
        match spec_status_for(t, name) {
            Some(i) => {
                assert(t[i] == sts[i + 1]);
                assert forall|j: int| 0 <= j < i + 1 implies (#[trigger] sts[j]).name@ != name by {
                    if j > 0 {
                        assert(t[j - 1] == sts[j]);
                    }
                }
            },
            None => {
                assert forall|j: int| 0 <= j < sts.len() implies (#[trigger] sts[j]).name@
                    != name by {
                    if j > 0 {
                        assert(t[j - 1] == sts[j]);
                    }
                }
            },
        }
    }
}

/// Looks a worker's status up by name.
fn find_status(statuses: &Vec<StatusInfo>, name: &Vec<u8>) -> (r: Option<usize>)
    ensures
        match r {
            Some(k) => k < statuses@.len() && spec_status_for(statuses@, name@) == Some(k as int),
            None => spec_status_for(statuses@, name@) is None,
        },
{
    proof {
        lemma_status_for_props(statuses@, name@);
    }
    let mut i: usize = 0;
    while i < statuses.len()
        invariant
            i <= statuses@.len(),
            forall|j: int| 0 <= j < i ==> (#[trigger] statuses@[j]).name@ != name@,
        decreases statuses@.len() - i,
    {
        if crate::worker::bytes_eq(&statuses[i].name, name) {
            proof {
                lemma_status_for_props(statuses@, name@);
                match spec_status_for(statuses@, name@) {
                    Some(fi) => {
                        assert(fi == i as int);
                    },
                    None => {
                        assert(statuses@[i as int].name@ == name@);
                        assert(false);
                    },
                }
            }
            return Some(i);
        }
        i += 1;
    }
    proof {
        lemma_status_for_props(statuses@, name@);
        match spec_status_for(statuses@, name@) {
            Some(fi) => {
                assert(statuses@[fi].name@ != name@);
                assert(false);
            },
            None => {},
        }
    }
    None
}

/// What one fleet record becomes after scoring: INIT and SUNDOWN are
/// preserved untouched, as is a worker with no status; any other takes its
/// status's overall score and category.
pub open spec fn spec_scored_item(it: ItemModel, sts: Seq<StatusInfo>) -> ItemModel {
    if it.2 == Category::Init || it.2 == Category::Sundown {
        it
    } else {
        match spec_status_for(sts, it.0) {
            None => it,
            Some(k) => (it.0, sts[k].overall_score_milli as int, sts[k].category),
        }
    }
}

/// Applies the probe statuses to the fleet: each non-INIT, non-SUNDOWN
/// worker with a status takes that status's score and category; all others
/// are untouched.
pub fn apply_scores(fleet: &mut Vec<QueueItem>, statuses: &Vec<StatusInfo>)
    ensures
        final(fleet)@.len() == old(fleet)@.len(),
        forall|i: int|
            0 <= i < old(fleet)@.len() ==> (#[trigger] final(fleet)@[i])@ == spec_scored_item(
                old(fleet)@[i]@,
                statuses@,
            ),
{
    let mut i: usize = 0;
    while i < fleet.len()
        invariant
            i <= fleet@.len(),
            fleet@.len() == old(fleet)@.len(),
            forall|j: int|
                i <= j < fleet@.len() ==> (#[trigger] fleet@[j])@ == old(fleet)@[j]@,
            forall|j: int|
                0 <= j < i ==> (#[trigger] fleet@[j])@ == spec_scored_item(
                    old(fleet)@[j]@,
                    statuses@,
                ),
        decreases fleet@.len() - i,
    {
        let skip = matches!(fleet[i].category, Category::Init) || matches!(
            fleet[i].category,
            Category::Sundown,
        );
        if !skip {
            match find_status(statuses, &fleet[i].dns_name) {
                Some(k) => {
                    let score = statuses[k].overall_score_milli;
                    let cat = statuses[k].category;
                    fleet[i].score_milli = score;
                    fleet[i].category = cat;
                },
                None => {},
            }
        }
        i += 1;
    }
}

/// Whether a fleet record is a quiescent SUNDOWN worker: its network score
/// has reached the idle mark, or it has no status at all.
pub open spec fn spec_quiescent(it: ItemModel, sts: Seq<StatusInfo>) -> bool {
    it.2 == Category::Sundown && (match spec_status_for(sts, it.0) {
        Some(k) => sts[k].network_score_milli >= NETWORK_IDLE_MILLI,
        None => true,
    })
}

/// The fleet with quiescent SUNDOWN workers removed, in order.
pub open spec fn spec_kept_after_sundown(s: Seq<ItemModel>, sts: Seq<StatusInfo>) -> Seq<ItemModel>
    decreases s.len(),
{
    if s.len() == 0 {
        Seq::<ItemModel>::empty()
    } else {
        spec_kept_after_sundown(s.drop_last(), sts) + (if spec_quiescent(s.last(), sts) {
            Seq::<ItemModel>::empty()
        } else {
            seq![s.last()]
        })
    }
}

/// The names of the removed quiescent SUNDOWN workers, in order.
pub open spec fn spec_removed_sundown(s: Seq<ItemModel>, sts: Seq<StatusInfo>) -> Seq<Seq<u8>>
    decreases s.len(),
{
    if s.len() == 0 {
        Seq::<Seq<u8>>::empty()
    } else {
        spec_removed_sundown(s.drop_last(), sts) + (if spec_quiescent(s.last(), sts) {
            seq![s.last().0]
        } else {
            Seq::<Seq<u8>>::empty()
        })
    }
}

/// Splits the fleet into the workers that stay and the names of the
/// quiescent SUNDOWN workers, which are removed (their KV records purged by
/// the caller).
pub fn remove_inactive_sundown_containers(
    fleet: Vec<QueueItem>,
    statuses: &Vec<StatusInfo>,
) -> (r: (Vec<QueueItem>, Vec<Vec<u8>>))
    ensures
        r.0.deep_view_items() == spec_kept_after_sundown(fleet.deep_view_items(), statuses@),
        r.1@.map(|i: int, n: Vec<u8>| n@) == spec_removed_sundown(
            fleet.deep_view_items(),
            statuses@,
        ),
        r.1@.len() == 0 <==> (forall|j: int|
            0 <= j < fleet.deep_view_items().len() ==> !spec_quiescent(
                #[trigger] fleet.deep_view_items()[j],
                statuses@,
            )),
{
    let ghost s = fleet.deep_view_items();
    let mut kept: Vec<QueueItem> = Vec::new();
    let mut removed: Vec<Vec<u8>> = Vec::new();
    let mut i: usize = 0;
    proof {
        assert(s.take(0) =~= Seq::<ItemModel>::empty());
        assert(kept.deep_view_items() =~= spec_kept_after_sundown(s.take(0), statuses@));
        assert(removed@.map(|k: int, n: Vec<u8>| n@) =~= spec_removed_sundown(
            s.take(0),
            statuses@,
        ));
    }
    while i < fleet.len()
        invariant
            i <= s.len(),
            fleet@.len() == s.len(),
            forall|j: int| 0 <= j < s.len() ==> s[j] == (#[trigger] fleet@[j])@,
            kept.deep_view_items() == spec_kept_after_sundown(s.take(i as int), statuses@),
            removed@.map(|k: int, n: Vec<u8>| n@) == spec_removed_sundown(
                s.take(i as int),
                statuses@,
            ),
            removed@.len() == 0 <==> (forall|j: int|
                0 <= j < i ==> !spec_quiescent(#[trigger] s[j], statuses@)),
        decreases fleet@.len() - i,
    {
        let ghost kprev = kept.deep_view_items();
        let ghost rprev = removed@.map(|k: int, n: Vec<u8>| n@);
        let it = &fleet[i];
        let mut quiescent = false;
        if matches!(it.category, Category::Sundown) {
            match find_status(statuses, &it.dns_name) {
                Some(k) => {
                    if statuses[k].network_score_milli >= NETWORK_IDLE_MILLI {
                        quiescent = true;
                    }
                },
                None => {
                    quiescent = true;
                },
            }
        }
        proof {
            assert(quiescent == spec_quiescent(s[i as int], statuses@));
        }
        if quiescent {
            removed.push(crate::cache::clone_bytes(&it.dns_name));
            proof {
                assert(removed@.map(|k: int, n: Vec<u8>| n@) =~= rprev.push(s[i as int].0));
            }
        } else {
            kept.push(it.duplicate());
            proof {
                assert(kept.deep_view_items() =~= kprev.push(s[i as int]));
            }
        }
        proof {
            let t1 = s.take(i + 1);
            assert(t1.drop_last() =~= s.take(i as int));
            assert(t1.last() == s[i as int]);
            if quiescent {
                assert(spec_kept_after_sundown(t1, statuses@) =~= spec_kept_after_sundown(
                    s.take(i as int),
                    statuses@,
                ));
                assert(spec_removed_sundown(t1, statuses@) =~= spec_removed_sundown(
                    s.take(i as int),
                    statuses@,
                ).push(s[i as int].0));
            } else {
                assert(spec_kept_after_sundown(t1, statuses@) =~= spec_kept_after_sundown(
                    s.take(i as int),
                    statuses@,
                ).push(s[i as int]));
                assert(spec_removed_sundown(t1, statuses@) =~= spec_removed_sundown(
                    s.take(i as int),
                    statuses@,
                ));
            }
        }
        i += 1;
    }
    proof {
        assert(s.take(s.len() as int) =~= s);
    }
    (kept, removed)
}


/// Whether a worker may be marked SUNDOWN: neither just created nor
/// already on the way out.
pub open spec fn spec_eligible(it: ItemModel) -> bool {
    it.2 != Category::Sundown && it.2 != Category::Init
}

/// Whether the vector holds the index.
fn contains_idx(v: &Vec<usize>, x: usize) -> (r: bool)
    ensures
        r == v@.contains(x),
{
    let mut i: usize = 0;
    while i < v.len()
        invariant
            i <= v@.len(),
            forall|j: int| 0 <= j < i ==> v@[j] != x,
        decreases v@.len() - i,
    {
        if v[i] == x {
            proof {
                assert(v@[i as int] == x);
            }
            return true;
        }
        i += 1;
    }
    proof {
        if v@.contains(x) {
            let j = choose|j: int| 0 <= j < v@.len() && v@[j] == x;
            assert(false);
        }
    }
    false
}

/// Picks up to `k` workers to mark SUNDOWN: distinct eligible indices such
/// that every picked worker scores at least as high as every eligible
/// worker left unpicked; fewer than `k` are picked only when no eligible
/// worker is left unpicked.
pub fn select_sundown_victims(fleet: &Vec<QueueItem>, k: usize) -> (r: Vec<usize>)
    ensures
        r@.len() <= k,
        forall|a: int|
            0 <= a < r@.len() ==> (#[trigger] r@[a]) < fleet.deep_view_items().len()
                && spec_eligible(fleet.deep_view_items()[r@[a] as int]),
        forall|a: int, b: int| 0 <= a < b < r@.len() ==> r@[a] != r@[b],
        forall|a: int, j: int|
            0 <= a < r@.len() && 0 <= j < fleet.deep_view_items().len() && spec_eligible(
                fleet.deep_view_items()[j],
            ) && !r@.contains(j as usize) ==> (#[trigger] fleet.deep_view_items()[r@[a] as int]).1
                >= (#[trigger] fleet.deep_view_items()[j]).1,
        r@.len() < k ==> (forall|j: int|
            0 <= j < fleet.deep_view_items().len() && spec_eligible(
                #[trigger] fleet.deep_view_items()[j],
            ) ==> r@.contains(j as usize)),
{
    let ghost s = fleet.deep_view_items();
    let mut chosen: Vec<usize> = Vec::new();
    loop
        invariant
            s == fleet.deep_view_items(),
            fleet@.len() == s.len(),
            forall|j: int| 0 <= j < s.len() ==> s[j] == (#[trigger] fleet@[j])@,
            chosen@.len() <= k,
            forall|a: int|
                0 <= a < chosen@.len() ==> (#[trigger] chosen@[a]) < s.len() && spec_eligible(
                    s[chosen@[a] as int],
                ),
            forall|a: int, b: int| 0 <= a < b < chosen@.len() ==> chosen@[a] != chosen@[b],
            forall|a: int, j: int|
                0 <= a < chosen@.len() && 0 <= j < s.len() && spec_eligible(s[j])
                    && !chosen@.contains(j as usize) ==> (#[trigger] s[chosen@[a] as int]).1 >= (
                #[trigger] s[j]).1,
        decreases k - chosen@.len(),
    {
        if chosen.len() >= k {
            return chosen;
        }
        let mut best: Option<usize> = None;
        let mut j: usize = 0;
        while j < fleet.len()
            invariant
                s == fleet.deep_view_items(),
                fleet@.len() == s.len(),
                forall|jj: int| 0 <= jj < s.len() ==> s[jj] == (#[trigger] fleet@[jj])@,
                j <= s.len(),
                forall|a: int|
                    0 <= a < chosen@.len() ==> (#[trigger] chosen@[a]) < s.len() && spec_eligible(
                        s[chosen@[a] as int],
                    ),
                match best {
                    Some(m) => m < s.len() && spec_eligible(s[m as int]) && !chosen@.contains(m)
                        && (forall|jj: int|
                        0 <= jj < j && spec_eligible(#[trigger] s[jj]) && !chosen@.contains(
                            jj as usize,
                        ) ==> s[m as int].1 >= s[jj].1),
                    None => forall|jj: int|
                        0 <= jj < j ==> !(spec_eligible(#[trigger] s[jj]) && !chosen@.contains(
                            jj as usize,
                        )),
                },
            decreases fleet@.len() - j,
        {
            let eligible = !matches!(fleet[j].category, Category::Sundown) && !matches!(
                fleet[j].category,
                Category::Init,
            );
            if eligible && !contains_idx(&chosen, j) {
                match best {
                    Some(m) => {
                        if fleet[j].score_milli > fleet[m].score_milli {
                            best = Some(j);
                        }
                    },
                    None => {
                        best = Some(j);
                    },
                }
            }
            j += 1;
        }
        match best {
            Some(m) => {
                let ghost cprev = chosen@;
                chosen.push(m);
                proof {
                    assert forall|a: int, jj: int|
                        0 <= a < chosen@.len() && 0 <= jj < s.len() && spec_eligible(s[jj])
                            && !chosen@.contains(jj as usize) implies (
                    #[trigger] s[chosen@[a] as int]).1 >= (#[trigger] s[jj]).1 by {
                        assert(!cprev.contains(jj as usize)) by {
                            if cprev.contains(jj as usize) {
                                let w = choose|w: int|
                                    0 <= w < cprev.len() && cprev[w] == jj as usize;
                                assert(chosen@[w] == jj as usize);
                            }
                        }
                        if a < cprev.len() {
                            assert(chosen@[a] == cprev[a]);
                        } else {
                            assert(chosen@[a] == m);
                        }
                    }
                    assert forall|a: int, b: int|
                        0 <= a < b < chosen@.len() implies chosen@[a] != chosen@[b] by {
                        if b == chosen@.len() - 1 {
                            assert(cprev[a] == chosen@[a]);
                            if chosen@[a] == m {
                                assert(cprev.contains(m));
                            }
                        }
                    }
                }
            },
            None => {
                proof {
                    assert forall|jj: int|
                        0 <= jj < s.len() && spec_eligible(#[trigger] s[jj]) implies
                        chosen@.contains(jj as usize) by {}
                }
                return chosen;
            },
        }
    }
}

/// Marks the given workers SUNDOWN, leaving everything else untouched.
pub fn apply_sundown(fleet: &mut Vec<QueueItem>, victims: &Vec<usize>)
    ensures
        final(fleet)@.len() == old(fleet)@.len(),
        forall|i: int|
            0 <= i < old(fleet)@.len() ==> {
                let it = old(fleet)@[i]@;
                (#[trigger] final(fleet)@[i])@ == (
                    it.0,
                    it.1,
                    if victims@.contains(i as usize) {
                        Category::Sundown
                    } else {
                        it.2
                    },
                )
            },
{
    let mut i: usize = 0;
    while i < fleet.len()
        invariant
            i <= fleet@.len(),
            fleet@.len() == old(fleet)@.len(),
            forall|j: int|
                i <= j < fleet@.len() ==> (#[trigger] fleet@[j])@ == old(fleet)@[j]@,
            forall|j: int|
                0 <= j < i ==> {
                    let it = old(fleet)@[j]@;
                    (#[trigger] fleet@[j])@ == (
                        it.0,
                        it.1,
                        if victims@.contains(j as usize) {
                            Category::Sundown
                        } else {
                            it.2
                        },
                    )
                },
        decreases fleet@.len() - i,
    {
        if contains_idx(victims, i) {
            fleet[i].category = Category::Sundown;
        }
        i += 1;
    }
}

/// The published order: active workers before SUNDOWN ones, higher scores
/// first within each group.
pub open spec fn spec_order_le(a: ItemModel, b: ItemModel) -> bool {
    let ra: int = if a.2 == Category::Sundown {
        1
    } else {
        0
    };
    let rb: int = if b.2 == Category::Sundown {
        1
    } else {
        0
    };
    ra < rb || (ra == rb && a.1 >= b.1)
}

/// Whether `a` comes no later than `b` in the published order.
fn order_le(a: &QueueItem, b: &QueueItem) -> (r: bool)
    ensures
        r == spec_order_le(a@, b@),
{
    let ra: u8 = if matches!(a.category, Category::Sundown) {
        1
    } else {
        0
    };
    let rb: u8 = if matches!(b.category, Category::Sundown) {
        1
    } else {
        0
    };
    ra < rb || (ra == rb && a.score_milli >= b.score_milli)
}

/// A fleet sequence in the published order.
pub open spec fn spec_sorted(s: Seq<ItemModel>) -> bool {
    forall|i: int, j: int| 0 <= i < j < s.len() ==> spec_order_le(#[trigger] s[i], #[trigger] s[j])
}

/// The two parts together hold exactly the items of the whole.
pub open spec fn spec_same_items(a: Seq<ItemModel>, b: Seq<ItemModel>, whole: Seq<ItemModel>) -> bool {
    a.to_multiset().add(b.to_multiset()) == whole.to_multiset()
}

/// Every item of `a` comes no later than every item of `b`.
pub open spec fn spec_all_le(a: Seq<ItemModel>, b: Seq<ItemModel>) -> bool {
    forall|i: int, j: int|
        0 <= i < a.len() && 0 <= j < b.len() ==> spec_order_le(#[trigger] a[i], #[trigger] b[j])
}

/// Sorts the fleet for publication: non-SUNDOWN first, by descending
/// score, SUNDOWN last. The same workers come out that went in.
pub fn sort_fleet(fleet: Vec<QueueItem>) -> (r: Vec<QueueItem>)
    ensures
        (r.deep_view_items().to_multiset() == fleet.deep_view_items().to_multiset()),
        r@.len() == fleet@.len(),
        spec_sorted(r.deep_view_items()),
{
    broadcast use vstd::seq_lib::group_to_multiset_ensures;

    let ghost s0 = fleet.deep_view_items();
    let mut rest = fleet;
    let mut out: Vec<QueueItem> = Vec::new();
    proof {
        assert(out.deep_view_items() =~= Seq::<ItemModel>::empty());
        assert(out.deep_view_items().to_multiset().add(rest.deep_view_items().to_multiset())
            =~= s0.to_multiset());
    }
    while 0 < rest.len()
        invariant
            spec_same_items(out.deep_view_items(), rest.deep_view_items(), s0),
            out@.len() + rest@.len() == s0.len(),
            spec_sorted(out.deep_view_items()),
            spec_all_le(out.deep_view_items(), rest.deep_view_items()),
        decreases rest@.len(),
    {
        let ghost rs = rest.deep_view_items();
        let mut m: usize = 0;
        let mut j: usize = 1;
        while j < rest.len()
            invariant
                rs == rest.deep_view_items(),
                rest@.len() == rs.len(),
                0 < rs.len(),
                m < j <= rs.len(),
                spec_all_le(seq![rs[m as int]], rs.take(j as int)),
            decreases rest@.len() - j,
        {
            let swap_min = !order_le(&rest[m], &rest[j]);
            proof {
                assert(rs[m as int] == (rest@[m as int])@);
                assert(rs[j as int] == (rest@[j as int])@);
            }
            if swap_min {
                proof {
                    assert(spec_order_le(rs[j as int], rs[m as int]));
                    assert forall|a: int, b: int|
                        0 <= a < 1 && 0 <= b < j + 1 implies spec_order_le(
                        #[trigger] seq![rs[j as int]][a],
                        #[trigger] rs.take(j + 1)[b],
                    ) by {
                        if b < j {
                            assert(spec_order_le(seq![rs[m as int]][0], rs.take(j as int)[b]));
                            assert(rs.take(j as int)[b] == rs[b]);
                        }
                        assert(rs.take(j + 1)[b] == rs[b]);
                    }
                }
                m = j;
            } else {
                proof {
                    assert forall|a: int, b: int|
                        0 <= a < 1 && 0 <= b < j + 1 implies spec_order_le(
                        #[trigger] seq![rs[m as int]][a],
                        #[trigger] rs.take(j + 1)[b],
                    ) by {
                        if b < j {
                            assert(spec_order_le(seq![rs[m as int]][0], rs.take(j as int)[b]));
                            assert(rs.take(j as int)[b] == rs[b]);
                        }
                        assert(rs.take(j + 1)[b] == rs[b]);
                    }
                }
            }
            j += 1;
        }
        let ghost oout = out.deep_view_items();
        proof {
            assert(rs.take(rs.len() as int) =~= rs);
            assert forall|b: int| 0 <= b < rs.len() implies spec_order_le(
                rs[m as int],
                #[trigger] rs[b],
            ) by {
                assert(spec_order_le(seq![rs[m as int]][0], rs.take(rs.len() as int)[b]));
            }
        }
        let x = rest.remove(m);
        out.push(x);
        proof {
            assert(out.deep_view_items() =~= oout.push(rs[m as int]));
            assert(rest.deep_view_items() =~= rs.remove(m as int));
            assert(out.deep_view_items().to_multiset() =~= oout.to_multiset().insert(
                rs[m as int],
            ));
            assert(rest.deep_view_items().to_multiset() =~= rs.to_multiset().remove(
                rs[m as int],
            ));
            assert(rs.to_multiset().contains(rs[m as int])) by {
                assert(rs.contains(rs[m as int]));
            }
            assert(out.deep_view_items().to_multiset().add(rest.deep_view_items().to_multiset())
                =~= oout.to_multiset().add(rs.to_multiset()));
            assert forall|a: int, b: int|
                0 <= a < out@.len() && 0 <= b < rest@.len() implies spec_order_le(
                #[trigger] out.deep_view_items()[a],
                #[trigger] rest.deep_view_items()[b],
            ) by {
                let rb = rest.deep_view_items()[b];
                assert(rb == (if b < m { rs[b] } else { rs[b + 1] }));
                if a < out@.len() - 1 {
                    assert(out.deep_view_items()[a] == oout[a]);
                    assert(spec_order_le(oout[a], rb));
                } else {
                    assert(out.deep_view_items()[a] == rs[m as int]);
                    assert(spec_order_le(rs[m as int], rb));
                }
            }
            assert forall|a: int, b: int|
                0 <= a < b < out@.len() implies spec_order_le(
                #[trigger] out.deep_view_items()[a],
                #[trigger] out.deep_view_items()[b],
            ) by {
                if b < out@.len() - 1 {
                    assert(out.deep_view_items()[a] == oout[a]);
                    assert(out.deep_view_items()[b] == oout[b]);
                } else {
                    assert(out.deep_view_items()[a] == oout[a]);
                    assert(out.deep_view_items()[b] == rs[m as int]);
                    assert(spec_order_le(oout[a], rs[m as int]));
                }
            }
        }
    }
    proof {
        assert(rest.deep_view_items() =~= Seq::<ItemModel>::empty());
        assert(rest.deep_view_items().to_multiset() =~= Multiset::<ItemModel>::empty());
        assert(out.deep_view_items().to_multiset() =~= s0.to_multiset());
    }
    out
}

/// The fleet after scoring is applied to the managed fleet.
pub open spec fn spec_scored_fleet(
    obs: Seq<ObservedContainer>,
    sts: Seq<StatusInfo>,
) -> Seq<ItemModel> {
    spec_managed(obs).map(|i: int, it: ItemModel| spec_scored_item(it, sts))
}

/// The fleet after scoring and after quiescent SUNDOWN removal: what the
/// scaling controller sees.
pub open spec fn spec_mid_fleet(
    obs: Seq<ObservedContainer>,
    sts: Seq<StatusInfo>,
) -> Seq<ItemModel> {
    spec_kept_after_sundown(spec_scored_fleet(obs, sts), sts)
}

/// A worker this tick decided to create: its fresh name and host port.
/// The caller creates the container under this name, binds this port, and
/// stores the INIT record.
pub struct NewWorker {
    pub name: Vec<u8>,
    pub host_port: u16,
}

/// The fleet records of the workers a tick creates: INIT, full score.
pub open spec fn spec_created_items(created: Seq<NewWorker>) -> Seq<ItemModel> {
    created.map(|i: int, w: NewWorker| (w.name@, SCORE_MAX_MILLI as int, Category::Init))
}

/// The fleet the controller evaluates: the scored, sundown-swept fleet
/// together with this tick's newly created INIT workers.
pub open spec fn spec_staged_fleet(
    obs: Seq<ObservedContainer>,
    sts: Seq<StatusInfo>,
    created: Seq<NewWorker>,
) -> Seq<ItemModel> {
    spec_mid_fleet(obs, sts) + spec_created_items(created)
}

/// A fleet with the workers at the given positions marked SUNDOWN and
/// everything else untouched.
pub open spec fn spec_marked(s: Seq<ItemModel>, vs: Seq<usize>) -> Seq<ItemModel> {
    Seq::new(
        s.len(),
        |i: int|
            (
                s[i].0,
                s[i].1,
                if vs.contains(i as usize) {
                    Category::Sundown
                } else {
                    s[i].2
                },
            ),
    )
}

/// Everything one reconciliation tick decides. The caller performs the
/// actions: stop and remove the named containers, delete the orphan keys,
/// create the listed workers, remove the named quiescent SUNDOWN workers
/// and purge their records, persist the fleet's scores and categories and
/// the new SUNDOWN marks, store the desired count, and publish the fleet.
pub struct TickOutcome {
    pub fleet: Vec<QueueItem>,
    pub stop_names: Vec<Vec<u8>>,
    pub orphan_keys: Vec<Vec<u8>>,
    pub created: Vec<NewWorker>,
    pub removed_names: Vec<Vec<u8>>,
    pub sundown_indices: Vec<usize>,
    pub sundown_names: Vec<Vec<u8>>,
    pub decision: crate::scale::ScaleDecision,
    pub state: crate::scale::ScaleState,
    pub desired: usize,
}

/// Items kept through SUNDOWN removal keep their score bounds.
proof fn lemma_kept_scores_bounded(s: Seq<ItemModel>, sts: Seq<StatusInfo>)
    requires
        forall|i: int| 0 <= i < s.len() ==> 0 <= (#[trigger] s[i]).1 <= SCORE_MAX_MILLI,
    ensures
        forall|i: int|
            0 <= i < spec_kept_after_sundown(s, sts).len() ==> 0 <= (
            #[trigger] spec_kept_after_sundown(s, sts)[i]).1 <= SCORE_MAX_MILLI,
    decreases s.len(),
{
    if s.len() > 0 {
        let t = s.drop_last();
        assert(forall|i: int| 0 <= i < t.len() ==> t[i] == s[i]);
        lemma_kept_scores_bounded(t, sts);
        let kt = spec_kept_after_sundown(t, sts);
        assert forall|i: int|
            0 <= i < spec_kept_after_sundown(s, sts).len() implies 0 <= (
        #[trigger] spec_kept_after_sundown(s, sts)[i]).1 <= SCORE_MAX_MILLI by {
            if i < kt.len() {
                assert(spec_kept_after_sundown(s, sts)[i] == kt[i]);
            } else {
                assert(spec_kept_after_sundown(s, sts)[i] == s.last());
                assert(0 <= s[s.len() - 1].1 <= SCORE_MAX_MILLI);
            }
        }
    }
}

/// One reconciliation tick, as a pure decision over what was observed.
/// Containers without a KV record are named for stop and removal; KV keys
/// with no container behind them are orphans; fresh workers are generated
/// to fill the fleet to the desired count and published at once as INIT;
/// probe statuses set scores and categories (INIT and SUNDOWN untouched);
/// quiescent SUNDOWN workers are named for removal; the scaling controller
/// decides and may mark the best-scoring eligible workers SUNDOWN; the
/// fleet comes out in published order. The desired count ends within the
/// configured floor and ceiling.
pub fn build_queue(
    observed: &Vec<ObservedContainer>,
    kv_keys: &Vec<Vec<u8>>,
    statuses: &Vec<StatusInfo>,
    desired: usize,
    state: &crate::scale::ScaleState,
    cfg: &crate::scale::ScaleConfig,
    now_ms: u64,
) -> (r: TickOutcome)
    requires
        cfg.wf(),
        now_ms >= state.cooldown_at,
        now_ms >= state.last_check_at,
        forall|i: int|
            0 <= i < statuses@.len() ==> 0 <= (#[trigger] statuses@[i]).overall_score_milli
                <= SCORE_MAX_MILLI,
    ensures
        r.stop_names@.map(|i: int, n: Vec<u8>| n@) == spec_stop_names(observed@),
        r.orphan_keys@.map(|i: int, n: Vec<u8>| n@) == spec_orphans(
            kv_keys@.map(|i: int, n: Vec<u8>| n@),
            observed@,
        ),
        r.removed_names@.map(|i: int, n: Vec<u8>| n@) == spec_removed_sundown(
            spec_scored_fleet(observed@, statuses@),
            statuses@,
        ),
        r.created@.len() == (if crate::dispatcher::spec_install(spec_managed(observed@)).len()
            < desired {
            desired - crate::dispatcher::spec_install(spec_managed(observed@)).len()
        } else {
            0int
        }),
        forall|i: int|
            0 <= i < r.created@.len() ==> (#[trigger] r.created@[i]).name@.len() == 15 && r.created@[i].name@.take(7)
                == crate::keys::spec_worker_prefix() && crate::keys::PORT_RANGE_START
                <= r.created@[i].host_port < crate::keys::PORT_RANGE_END,
        r.decision == crate::scale::spec_scale_decision(
            spec_staged_fleet(observed@, statuses@, r.created@),
            desired,
            *state,
            *cfg,
            now_ms,
        ),
        r.state == crate::scale::spec_scale_state(*state, r.decision, now_ms),
        r.desired == crate::scale::spec_scale_desired(desired, r.decision, *cfg),
        cfg.default_containers <= r.desired <= cfg.max_containers,
        spec_sorted(r.fleet.deep_view_items()),
        r.fleet@.len() == spec_staged_fleet(observed@, statuses@, r.created@).len(),
        !(r.decision is Down) ==> (r.fleet.deep_view_items().to_multiset() == spec_staged_fleet(
            observed@,
            statuses@,
            r.created@,
        ).to_multiset()) && r.sundown_indices@.len() == 0 && r.sundown_names@.len() == 0,
        (r.decision matches ScaleDecision::Down { remove } ==> r.sundown_indices@.len() <= remove),
        (r.decision matches ScaleDecision::Down { remove } ==> (r.sundown_indices@.len() < remove
            ==> (forall|j: int|
            0 <= j < spec_staged_fleet(observed@, statuses@, r.created@).len() && spec_eligible(
                #[trigger] spec_staged_fleet(observed@, statuses@, r.created@)[j],
            ) ==> r.sundown_indices@.contains(j as usize)))),
        forall|a: int|
            0 <= a < r.sundown_indices@.len() ==> (#[trigger] r.sundown_indices@[a])
                < spec_staged_fleet(observed@, statuses@, r.created@).len() && spec_eligible(
                spec_staged_fleet(observed@, statuses@, r.created@)[r.sundown_indices@[a] as int],
            ),
        forall|a: int, b: int|
            0 <= a < b < r.sundown_indices@.len() ==> r.sundown_indices@[a]
                != r.sundown_indices@[b],
        forall|a: int, j: int|
            0 <= a < r.sundown_indices@.len() && 0 <= j < spec_staged_fleet(
                observed@,
                statuses@,
                r.created@,
            ).len() && spec_eligible(spec_staged_fleet(observed@, statuses@, r.created@)[j])
                && !r.sundown_indices@.contains(j as usize) ==> (#[trigger] spec_staged_fleet(
                observed@,
                statuses@,
                r.created@,
            )[r.sundown_indices@[a] as int]).1 >= (#[trigger] spec_staged_fleet(
                observed@,
                statuses@,
                r.created@,
            )[j]).1,
        r.sundown_names@.map(|i: int, n: Vec<u8>| n@) == r.sundown_indices@.map(
            |a: int, v: usize| spec_staged_fleet(observed@, statuses@, r.created@)[v as int].0,
        ),
        (r.decision is Down) ==> (r.fleet.deep_view_items().to_multiset() == spec_marked(
            spec_staged_fleet(observed@, statuses@, r.created@),
            r.sundown_indices@,
        ).to_multiset()),
{
    let (mut fleet, stop_names) = manage_containers(observed);
    let orphan_keys = cleanup_orphaned_db_entries(kv_keys, observed);
    let (active, _sum) = crate::scale::active_count_and_sum(&fleet);
    let need = fill_count(active, desired);
    apply_scores(&mut fleet, statuses);
    proof {
        assert(fleet.deep_view_items() =~= spec_scored_fleet(observed@, statuses@));
        assert forall|i: int|
            0 <= i < fleet.deep_view_items().len() implies 0 <= (
        #[trigger] fleet.deep_view_items()[i]).1 <= SCORE_MAX_MILLI by {
            let it = spec_managed(observed@)[i];
            assert(fleet.deep_view_items()[i] == spec_scored_item(it, statuses@));
            if !(it.2 == Category::Init || it.2 == Category::Sundown) {
                match spec_status_for(statuses@, it.0) {
                    Some(k) => {
                        lemma_status_for_props(statuses@, it.0);
                    },
                    None => {},
                }
            }
        }
    }
    let ghost scored = fleet.deep_view_items();
    let (mut fleet, removed_names) = remove_inactive_sundown_containers(fleet, statuses);
    proof {
        lemma_kept_scores_bounded(scored, statuses@);
        assert(fleet.deep_view_items() == spec_mid_fleet(observed@, statuses@));
    }
    let ghost mid = fleet.deep_view_items();
    let mut created: Vec<NewWorker> = Vec::new();
    let mut ci: usize = 0;
    proof {
        assert(spec_created_items(created@) =~= Seq::<ItemModel>::empty());
        assert(fleet.deep_view_items() =~= mid + spec_created_items(created@));
    }
    while ci < need
        invariant
            ci <= need,
            created@.len() == ci,
            mid == spec_mid_fleet(observed@, statuses@),
            fleet.deep_view_items() == mid + spec_created_items(created@),
            forall|i: int|
                0 <= i < fleet.deep_view_items().len() ==> 0 <= (
                #[trigger] fleet.deep_view_items()[i]).1 <= SCORE_MAX_MILLI,
            forall|i: int|
                0 <= i < created@.len() ==> (#[trigger] created@[i]).name@.len() == 15
                    && created@[i].name@.take(7) == crate::keys::spec_worker_prefix()
                    && crate::keys::PORT_RANGE_START <= created@[i].host_port
                    < crate::keys::PORT_RANGE_END,
        decreases need - ci,
    {
        let ghost cprev = created@;
        let ghost fprev = fleet.deep_view_items();
        let name = crate::keys::fresh_worker_name();
        let ghost namev = name@;
        let host_port = crate::keys::fresh_host_port();
        fleet.push(
            QueueItem {
                dns_name: crate::cache::clone_bytes(&name),
                score_milli: SCORE_MAX_MILLI,
                category: Category::Init,
            },
        );
        created.push(NewWorker { name, host_port });
        proof {
            assert(created@.last().name@ == namev);
            assert(fleet@.last()@ == (namev, SCORE_MAX_MILLI as int, Category::Init));
            assert(fleet.deep_view_items() =~= fprev.push(
                (namev, SCORE_MAX_MILLI as int, Category::Init),
            ));
            assert(spec_created_items(created@) =~= spec_created_items(cprev).push(
                (namev, SCORE_MAX_MILLI as int, Category::Init),
            ));
            assert(fleet.deep_view_items() =~= mid + spec_created_items(created@));
            assert forall|i: int|
                0 <= i < fleet.deep_view_items().len() implies 0 <= (
            #[trigger] fleet.deep_view_items()[i]).1 <= SCORE_MAX_MILLI by {
                if i < fprev.len() {
                    assert(fleet.deep_view_items()[i] == fprev[i]);
                } else {
                    assert(fleet.deep_view_items()[i] == (
                        namev,
                        SCORE_MAX_MILLI as int,
                        Category::Init,
                    ));
                }
            }
        }
        ci += 1;
    }
    let ghost staged = fleet.deep_view_items();
    proof {
        assert(staged == spec_staged_fleet(observed@, statuses@, created@));
    }
    let (decision, new_state, new_desired) = crate::scale::check_and_scale(
        &fleet,
        desired,
        state,
        cfg,
        now_ms,
    );
    let mut sundown_indices: Vec<usize> = Vec::new();
    let mut sundown_names: Vec<Vec<u8>> = Vec::new();
    match decision {
        crate::scale::ScaleDecision::Down { remove } => {
            let victims = select_sundown_victims(&fleet, remove);
            let mut vi: usize = 0;
            proof {
                assert(sundown_names@.map(|i: int, n: Vec<u8>| n@) =~= victims@.take(0).map(
                    |a: int, v: usize| staged[v as int].0,
                ));
            }
            while vi < victims.len()
                invariant
                    vi <= victims@.len(),
                    staged == fleet.deep_view_items(),
                    fleet@.len() == staged.len(),
                    forall|a: int|
                        0 <= a < victims@.len() ==> (#[trigger] victims@[a]) < staged.len(),
                    forall|j: int|
                        0 <= j < staged.len() ==> staged[j] == (#[trigger] fleet@[j])@,
                    sundown_names@.map(|i: int, n: Vec<u8>| n@) == victims@.take(vi as int).map(
                        |a: int, v: usize| staged[v as int].0,
                    ),
                decreases victims@.len() - vi,
            {
                let ghost nprev = sundown_names@.map(|i: int, n: Vec<u8>| n@);
                sundown_names.push(crate::cache::clone_bytes(&fleet[victims[vi]].dns_name));
                proof {
                    assert(sundown_names@.map(|i: int, n: Vec<u8>| n@) =~= nprev.push(
                        staged[victims@[vi as int] as int].0,
                    ));
                    assert(victims@.take(vi + 1).map(|a: int, v: usize| staged[v as int].0)
                        =~= victims@.take(vi as int).map(
                        |a: int, v: usize| staged[v as int].0,
                    ).push(staged[victims@[vi as int] as int].0));
                }
                vi += 1;
            }
            proof {
                assert(victims@.take(victims@.len() as int) =~= victims@);
            }
            apply_sundown(&mut fleet, &victims);
            proof {
                assert(fleet.deep_view_items() =~= spec_marked(staged, victims@));
            }
            sundown_indices = victims;
        },
        _ => {
            proof {
                assert(sundown_names@.map(|i: int, n: Vec<u8>| n@) =~= sundown_indices@.map(
                    |a: int, v: usize| staged[v as int].0,
                ));
            }
        },
    }
    let fleet = sort_fleet(fleet);
    TickOutcome {
        fleet,
        stop_names,
        orphan_keys,
        created,
        removed_names,
        sundown_indices,
        sundown_names,
        decision,
        state: new_state,
        desired: new_desired,
    }
}

/// With every observed container recorded, no name is listed for stopping.
pub proof fn lemma_stop_names_all_kept(s: Seq<ObservedContainer>)
    requires
        forall|j: int| 0 <= j < s.len() ==> spec_kept(#[trigger] s[j]),
    ensures
        spec_stop_names(s).len() == 0,
    decreases s.len(),
{
    if s.len() > 0 {
        let t = s.drop_last();
        assert(forall|j: int| 0 <= j < t.len() ==> t[j] == s[j]);
        lemma_stop_names_all_kept(t);
        assert(spec_kept(s[s.len() - 1]));
    }
}

/// With every KV key behind an observed container, no key is an orphan.
pub proof fn lemma_orphans_all_observed(keys: Seq<Seq<u8>>, s: Seq<ObservedContainer>)
    requires
        forall|j: int| 0 <= j < keys.len() ==> spec_key_observed(s, #[trigger] keys[j]),
    ensures
        spec_orphans(keys, s).len() == 0,
    decreases keys.len(),
{
    if keys.len() > 0 {
        let t = keys.drop_last();
        assert(forall|j: int| 0 <= j < t.len() ==> t[j] == keys[j]);
        lemma_orphans_all_observed(t, s);
        assert(spec_key_observed(s, keys[keys.len() - 1]));
    }
}

/// With no quiescent SUNDOWN worker, no worker is removed.
pub proof fn lemma_removed_none_quiescent(s: Seq<ItemModel>, sts: Seq<StatusInfo>)
    requires
        forall|j: int| 0 <= j < s.len() ==> !spec_quiescent(#[trigger] s[j], sts),
    ensures
        spec_removed_sundown(s, sts).len() == 0,
    decreases s.len(),
{
    if s.len() > 0 {
        let t = s.drop_last();
        assert(forall|j: int| 0 <= j < t.len() ==> t[j] == s[j]);
        lemma_removed_none_quiescent(t, sts);
        assert(!spec_quiescent(s[s.len() - 1], sts));
    }
}

/// A settled state of the world, in which a tick has nothing to do: every
/// observed container has its KV record, every KV key its container, the
/// active fleet covers the desired count, no SUNDOWN worker is quiescent,
/// the load calls for no scaling, and the desired count is within bounds.
pub open spec fn spec_tick_quiescent(
    obs: Seq<ObservedContainer>,
    keys: Seq<Seq<u8>>,
    sts: Seq<StatusInfo>,
    desired: usize,
    cfg: crate::scale::ScaleConfig,
) -> bool {
    &&& forall|j: int| 0 <= j < obs.len() ==> spec_kept(#[trigger] obs[j])
    &&& forall|j: int| 0 <= j < keys.len() ==> spec_key_observed(obs, #[trigger] keys[j])
    &&& forall|j: int|
        0 <= j < spec_scored_fleet(obs, sts).len() ==> !spec_quiescent(
            #[trigger] spec_scored_fleet(obs, sts)[j],
            sts,
        )
    &&& crate::dispatcher::spec_install(spec_managed(obs)).len() >= desired
    &&& crate::scale::spec_scale_noop(spec_mid_fleet(obs, sts), desired, cfg)
    &&& cfg.default_containers <= desired <= cfg.max_containers
}

/// The reconciler is idempotent: in a settled state a tick stops nothing,
/// deletes nothing, creates nothing, removes nothing, decides no scaling,
/// and leaves the desired count exactly as it is — whatever the
/// controller's timestamps and the clock. The tick hands back the same
/// observations-to-action inputs, so the next tick, with the observed and
/// KV state unchanged, does the same: two consecutive ticks produce no
/// side effects.
pub proof fn lemma_reconcile_idempotent(
    obs: Seq<ObservedContainer>,
    keys: Seq<Seq<u8>>,
    sts: Seq<StatusInfo>,
    desired: usize,
    cfg: crate::scale::ScaleConfig,
    st: crate::scale::ScaleState,
    now: u64,
)
    requires
        cfg.wf(),
        spec_tick_quiescent(obs, keys, sts, desired, cfg),
    ensures
        spec_stop_names(obs).len() == 0,
        spec_orphans(keys, obs).len() == 0,
        spec_removed_sundown(spec_scored_fleet(obs, sts), sts).len() == 0,
        crate::dispatcher::spec_install(spec_managed(obs)).len() >= desired,
        crate::scale::spec_scale_decision(
            spec_mid_fleet(obs, sts),
            desired,
            st,
            cfg,
            now,
        ) is Skipped || crate::scale::spec_scale_decision(
            spec_mid_fleet(obs, sts),
            desired,
            st,
            cfg,
            now,
        ) is NoChange,
        crate::scale::spec_scale_desired(
            desired,
            crate::scale::spec_scale_decision(spec_mid_fleet(obs, sts), desired, st, cfg, now),
            cfg,
        ) == desired,
{
    lemma_stop_names_all_kept(obs);
    lemma_orphans_all_observed(keys, obs);
    lemma_removed_none_quiescent(spec_scored_fleet(obs, sts), sts);
    crate::scale::lemma_scale_noop(spec_mid_fleet(obs, sts), desired, st, cfg, now);
}


/// How long to wait before retrying a failed worker creation or image
/// pull: transient runtime failures are retried twice more, five seconds
/// apart at first and doubling, then given up until the next tick.
pub fn provision_retry_delay(attempt: u8) -> (r: Option<u64>)
    ensures
        attempt == 0 ==> r == Some(5_000u64),
        attempt == 1 ==> r == Some(10_000u64),
        attempt >= 2 ==> r is None,
{
    if attempt == 0 {
        Some(5_000)
    } else if attempt == 1 {
        Some(10_000)
    } else {
        None
    }
}

} // verus!
