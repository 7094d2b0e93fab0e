//! Weighted dispatcher: per-request worker selection.
//!
//! The dispatcher holds the latest fleet snapshot with SUNDOWN workers
//! excluded entirely. Each worker gets a weight equal to its score; a score
//! outside the valid range falls back to a default weight of one point.
//! Selection draws a number uniformly below the total weight and picks the
//! first worker whose cumulative weight exceeds the draw, so each worker is
//! chosen with relative frequency weight / total. When every weight is zero
//! the choice is uniform.
use vstd::prelude::*;
use crate::worker::{Category, ItemModel, QueueItem};

verus! {

/// Default weight (one point, in milli) for a score outside 0..=100 points.
pub const DEFAULT_WEIGHT_MILLI: i64 = 1000;

/// The weight assigned to a score: the score itself when it lies in the
/// valid range, otherwise the default weight.
pub open spec fn spec_weight(score_milli: int) -> int {
    if score_milli < 0 || score_milli > crate::worker::SCORE_MAX_MILLI {
        DEFAULT_WEIGHT_MILLI as int
    } else {
        score_milli
    }
}

/// What installing a snapshot keeps: every worker except SUNDOWN ones, in
/// order.
pub open spec fn spec_install(s: Seq<ItemModel>) -> Seq<ItemModel> {
    s.filter(|it: ItemModel| it.2 != Category::Sundown)
}

/// Total weight of a fleet.
pub open spec fn spec_total(s: Seq<ItemModel>) -> int
    decreases s.len(),
{
    if s.len() == 0 {
        0
    } else {
        spec_weight(s[0].1) + spec_total(s.drop_first())
    }
}

/// The index selected by a draw `u`: the first index whose cumulative weight
/// exceeds `u`.
pub open spec fn spec_select(s: Seq<ItemModel>, u: int) -> int
    decreases s.len(),
{
    if s.len() == 0 {
        0
    } else if u < spec_weight(s[0].1) {
        0
    } else {
        1 + spec_select(s.drop_first(), u - spec_weight(s[0].1))
    }
}

/// Every weight lies in 0..=100_000 milli.
pub proof fn lemma_weight_range(score_milli: int)
    ensures
        0 <= spec_weight(score_milli) <= crate::worker::SCORE_MAX_MILLI,
{
}

/// The total weight is non-negative and additive over a split at `i`.
pub proof fn lemma_total_split(s: Seq<ItemModel>, i: int)
    requires
        0 <= i <= s.len(),
    ensures
        spec_total(s) == spec_total(s.take(i)) + spec_total(s.skip(i)),
        spec_total(s) >= 0,
    decreases s.len(),
{
    if s.len() == 0 {
        assert(s.take(i) =~= s);
        assert(s.skip(i) =~= s);
    } else if i == 0 {
        assert(s.take(0) =~= Seq::<ItemModel>::empty());
        assert(s.skip(0) =~= s);
        lemma_total_split(s.drop_first(), 0);
    } else {
        let t = s.drop_first();
        lemma_total_split(t, i - 1);
        assert(s.take(i).drop_first() =~= t.take(i - 1));
        assert(s.take(i)[0] == s[0]);
        assert(s.skip(i) =~= t.skip(i - 1));
        lemma_total_split(t, 0);
    }
}

/// Extending a prefix by one item adds that item's weight.
pub proof fn lemma_prefix_step(s: Seq<ItemModel>, i: int)
    requires
        0 <= i < s.len(),
    ensures
        spec_total(s.take(i + 1)) == spec_total(s.take(i)) + spec_weight(s[i].1),
    decreases s.len(),
{
    if i == 0 {
        assert(s.take(1).drop_first() =~= Seq::<ItemModel>::empty());
        assert(s.take(1)[0] == s[0]);
        assert(s.take(0) =~= Seq::<ItemModel>::empty());
    } else {
        let t = s.drop_first();
        lemma_prefix_step(t, i - 1);
        assert(s.take(i + 1).drop_first() =~= t.take(i));
        assert(s.take(i).drop_first() =~= t.take(i - 1));
        assert(s.take(i + 1)[0] == s[0]);
        assert(s.take(i)[0] == s[0]);
        assert(t[i - 1] == s[i]);
    }
}

/// Which draws select which worker: draw `u` picks index `i` exactly when
/// `u` falls in the half-open interval of length `weight(i)` that starts at
/// the cumulative weight of the first `i` workers. Over draws uniform on
/// `[0, total)`, worker `i` is therefore selected with relative frequency
/// `weight(i) / total`.
pub proof fn lemma_selection_frequency(s: Seq<ItemModel>, u: int, i: int)
    requires
        0 <= u < spec_total(s),
        0 <= i < s.len(),
    ensures
        spec_select(s, u) == i <==> (spec_total(s.take(i)) <= u < spec_total(s.take(i))
            + spec_weight(s[i].1)),
    decreases s.len(),
{
    lemma_weight_range(s[0].1);
    if i == 0 {
        assert(s.take(0) =~= Seq::<ItemModel>::empty());
        if u >= spec_weight(s[0].1) {
            let t = s.drop_first();
            lemma_select_in_range(t, u - spec_weight(s[0].1));
        }
    } else {
        let t = s.drop_first();
        let w0 = spec_weight(s[0].1);
        assert(s.take(i).drop_first() =~= t.take(i - 1));
        assert(s.take(i)[0] == s[0]);
        assert(spec_total(s.take(i)) == w0 + spec_total(t.take(i - 1)));
        assert(t[i - 1] == s[i]);
        if u < w0 {
            lemma_total_split(t.take(i - 1), 0);
            lemma_total_nonneg(t.take(i - 1));
        } else {
            lemma_selection_frequency(t, u - w0, i - 1);
        }
    }
}

/// Totals are never negative.
pub proof fn lemma_total_nonneg(s: Seq<ItemModel>)
    ensures
        spec_total(s) >= 0,
    decreases s.len(),
{
    if s.len() > 0 {
        lemma_weight_range(s[0].1);
        lemma_total_nonneg(s.drop_first());
    }
}

/// The total weight is at most 100_000 milli per worker.
pub proof fn lemma_total_bound(s: Seq<ItemModel>)
    ensures
        0 <= spec_total(s) <= s.len() * (crate::worker::SCORE_MAX_MILLI as int),
    decreases s.len(),
{
    if s.len() > 0 {
        lemma_weight_range(s[0].1);
        lemma_total_bound(s.drop_first());
        assert(s.len() * (crate::worker::SCORE_MAX_MILLI as int) == (crate::worker::SCORE_MAX_MILLI
            as int) + (s.len() - 1) * (crate::worker::SCORE_MAX_MILLI as int)) by (nonlinear_arith);
    }
}

/// A draw below the total always selects a valid index.
pub proof fn lemma_select_in_range(s: Seq<ItemModel>, u: int)
    requires
        0 <= u < spec_total(s),
    ensures
        0 <= spec_select(s, u) < s.len(),
    decreases s.len(),
{
    lemma_total_nonneg(s);
    if s.len() > 0 {
        lemma_weight_range(s[0].1);
        if u >= spec_weight(s[0].1) {
            lemma_select_in_range(s.drop_first(), u - spec_weight(s[0].1));
        }
    }
}

/// No SUNDOWN worker is ever selected: whatever snapshot is installed and
/// whatever number is drawn, the chosen worker's category is not SUNDOWN,
/// because installation excludes SUNDOWN workers and selection picks an
/// installed worker.
pub proof fn lemma_sundown_never_selected(s: Seq<ItemModel>, u: int)
    requires
        0 <= u < spec_total(spec_install(s)),
    ensures
        0 <= spec_select(spec_install(s), u) < spec_install(s).len(),
        spec_install(s)[spec_select(spec_install(s), u)].2 != Category::Sundown,
{
    let f = spec_install(s);
    lemma_select_in_range(f, u);
    let i = spec_select(f, u);
    s.lemma_filter_pred(|it: ItemModel| it.2 != Category::Sundown, i);
}

/// Every installed worker is non-SUNDOWN, whatever the snapshot held.
pub proof fn lemma_install_excludes_sundown(s: Seq<ItemModel>, i: int)
    requires
        0 <= i < spec_install(s).len(),
    ensures
        spec_install(s)[i].2 != Category::Sundown,
{
    s.lemma_filter_pred(|it: ItemModel| it.2 != Category::Sundown, i);
}

/// One entry of the dispatcher: the worker and its cached weight.
struct WeightedEntry {
    item: QueueItem,
    weight_milli: i64,
}

/// Adaptive weighted dispatcher over the current fleet snapshot.
pub struct DynamicWeightedBalancer {
    items: Vec<WeightedEntry>,
    last_update: u64,
    update_interval: u64,
}

impl View for DynamicWeightedBalancer {
    type V = Seq<ItemModel>;

    closed spec fn view(&self) -> Seq<ItemModel> {
        self.items@.map(|i: int, e: WeightedEntry| e.item@)
    }
}

impl DynamicWeightedBalancer {
    /// Internal consistency: only non-SUNDOWN workers are held and each
    /// cached weight matches its score.
    pub closed spec fn wf(&self) -> bool {
        forall|i: int|
            0 <= i < self.items@.len() ==> (#[trigger] self.items@[i]).item@.2 != Category::Sundown
                && self.items@[i].weight_milli == spec_weight(self.items@[i].item@.1)
    }

    pub closed spec fn last_update_spec(&self) -> u64 {
        self.last_update
    }

    pub closed spec fn update_interval_spec(&self) -> u64 {
        self.update_interval
    }

    /// A dispatcher over the given snapshot; SUNDOWN workers are dropped.
    pub fn new(queue_items: Vec<QueueItem>, now: u64) -> (r: DynamicWeightedBalancer)
        ensures
            r.wf(),
            r@ == spec_install(queue_items.deep_view_items()),
            r.last_update_spec() == now,
            r.update_interval_spec() == 10_000,
    {
        let mut r = DynamicWeightedBalancer { items: Vec::new(), last_update: now, update_interval: 10_000 };
        r.install(&queue_items);
        r
    }

    /// Replaces the held snapshot with a new one; SUNDOWN workers are
    /// dropped and weights are recomputed.
    pub fn set_queue_items(&mut self, queue_items: &Vec<QueueItem>)
        ensures
            final(self).wf(),
            final(self)@ == spec_install(queue_items.deep_view_items()),
            final(self).last_update_spec() == old(self).last_update_spec(),
            final(self).update_interval_spec() == old(self).update_interval_spec(),
    {
        self.install(queue_items);
    }

    fn install(&mut self, queue_items: &Vec<QueueItem>)
        ensures
            final(self).wf(),
            final(self)@ == spec_install(queue_items.deep_view_items()),
            final(self).last_update_spec() == old(self).last_update_spec(),
            final(self).update_interval_spec() == old(self).update_interval_spec(),
    {
        let ghost src = queue_items.deep_view_items();
        let mut held: Vec<WeightedEntry> = Vec::new();
        let mut i: usize = 0;
        proof {
            reveal(Seq::filter);
            assert(held@.map(|k: int, e: WeightedEntry| e.item@) =~= spec_install(src.take(0)));
        }
        while i < queue_items.len()
            invariant
                i <= src.len(),
                queue_items@.len() == src.len(),
                forall|j: int| 0 <= j < src.len() ==> src[j] == (#[trigger] queue_items@[j])@,
                held@.map(|k: int, e: WeightedEntry| e.item@) == spec_install(src.take(i as int)),
                forall|k: int|
                    0 <= k < held@.len() ==> (#[trigger] held@[k]).item@.2 != Category::Sundown
                        && held@[k].weight_milli == spec_weight(held@[k].item@.1),
            decreases queue_items.len() - i,
        {
            let ghost prevm = held@.map(|k: int, e: WeightedEntry| e.item@);
            let it = &queue_items[i];
            let keep = !matches!(it.category, Category::Sundown);
            if keep {
                let item = it.duplicate();
                let weight_milli = Self::calculate_weight(item.score_milli);
                held.push(WeightedEntry { item, weight_milli });
            }
            proof {
                reveal(Seq::filter);
                let t1 = src.take(i + 1);
                assert(t1.drop_last() =~= src.take(i as int));
                assert(t1.last() == src[i as int]);
                if keep {
                    assert(held@.map(|k: int, e: WeightedEntry| e.item@) =~= prevm.push(
                        src[i as int],
                    ));
                }
            }
            i += 1;
        }
        proof {
            assert(src.take(src.len() as int) =~= src);
        }
        self.items = held;
    }

    /// The weight of a score: the score itself when valid, otherwise the
    /// default weight of one point.
    pub fn calculate_weight(score_milli: i64) -> (r: i64)
        ensures
            r == spec_weight(score_milli as int),
    {
        if score_milli < 0 || score_milli > crate::worker::SCORE_MAX_MILLI {
            DEFAULT_WEIGHT_MILLI
        } else {
            score_milli
        }
    }

    /// Rebuilds weights when the update interval has elapsed. Weights are a
    /// function of the held scores, so the fleet model is unchanged; only
    /// the rebuild timestamp moves.
    pub fn update_weights(&mut self, now: u64)
        requires
            old(self).wf(),
            now >= old(self).last_update_spec(),
        ensures
            final(self).wf(),
            final(self)@ == old(self)@,
            final(self).update_interval_spec() == old(self).update_interval_spec(),
            final(self).last_update_spec() == (if now - old(self).last_update_spec() >= old(
                self,
            ).update_interval_spec() {
                now
            } else {
                old(self).last_update_spec()
            }),
    {
        if now - self.last_update >= self.update_interval {
            let mut i: usize = 0;
            while i < self.items.len()
                invariant
                    old(self).wf(),
                    self.items@.len() == old(self).items@.len(),
                    self.last_update == old(self).last_update,
                    self.update_interval == old(self).update_interval,
                    forall|j: int| 0 <= j < self.items@.len() ==> (#[trigger] self.items@[j]).item@
                        == old(self).items@[j].item@,
                    forall|j: int|
                        0 <= j < self.items@.len() ==> (#[trigger] self.items@[j]).weight_milli
                            == spec_weight(self.items@[j].item@.1),
                decreases self.items.len() - i,
            {
                let w = Self::calculate_weight(self.items[i].item.score_milli);
                self.items[i].weight_milli = w;
                i += 1;
            }
            self.last_update = now;
            proof {
                assert(self@ =~= old(self)@);
            }
        }
    }

    /// How many workers are currently selectable.
    pub fn len(&self) -> (r: usize)
        ensures
            r == self@.len(),
    {
        self.items.len()
    }

    /// Selects one worker. The fleet is empty exactly when nothing is
    /// returned; a returned worker is a held one, and is never SUNDOWN; and
    /// while any worker carries a positive weight, a zero-weight worker is
    /// never chosen. The draw is random: when the total weight is positive
    /// the worker at `spec_select` of the drawn number is returned, and
    /// when every weight is zero the choice is uniform.
    pub fn next(&self) -> (r: Option<QueueItem>)
        requires
            self.wf(),
        ensures
            (r is None) <==> self@.len() == 0,
            match r {
                Some(it) => (exists|i: int|
                    0 <= i < self@.len() && it@ == self@[i]) && it@.2 != Category::Sundown && (
                spec_total(self@) > 0 ==> spec_weight(it@.1) > 0),
                None => true,
            },
    {
        if self.items.len() == 0 {
            return None;
        }
        let total = self.total_weight();
        let idx: usize;
        if total == 0 {
            idx = crate::rng::rand_below(self.items.len() as u128) as usize;
        } else {
            let u = crate::rng::rand_below(total);
            idx = self.select_index(u, total);
            proof {
                lemma_selection_frequency(self@, u as int, idx as int);
                lemma_total_nonneg(self@.take(idx as int));
                lemma_weight_range(self@[idx as int].1);
            }
        }
        let chosen = self.items[idx].item.duplicate();
        proof {
            assert(chosen@ == self@[idx as int]);
        }
        Some(chosen)
    }

    /// Total weight of the held fleet.
    fn total_weight(&self) -> (r: u128)
        requires
            self.wf(),
        ensures
            r == spec_total(self@),
    {
        let ghost s = self@;
        let mut sum: u128 = 0;
        let mut i: usize = 0;
        proof {
            assert(s.take(0) =~= Seq::<ItemModel>::empty());
            lemma_total_bound(s);
        }
        while i < self.items.len()
            invariant
                self.wf(),
                s == self@,
                i <= self.items@.len(),
                s.len() == self.items@.len(),
                sum == spec_total(s.take(i as int)),
                sum <= i * (crate::worker::SCORE_MAX_MILLI as int),
            decreases self.items.len() - i,
        {
            proof {
                lemma_prefix_step(s, i as int);
                lemma_weight_range(s[i as int].1);
                assert((i + 1) * (crate::worker::SCORE_MAX_MILLI as int) == i * (
                crate::worker::SCORE_MAX_MILLI as int) + (crate::worker::SCORE_MAX_MILLI as int))
                    by (nonlinear_arith);
                assert(i * (crate::worker::SCORE_MAX_MILLI as int) <= usize::MAX * (
                crate::worker::SCORE_MAX_MILLI as int)) by (nonlinear_arith)
                    requires
                        0 <= i <= usize::MAX,
                ;
            }
            sum = sum + (self.items[i].weight_milli as u128);
            i += 1;
        }
        proof {
            assert(s.take(s.len() as int) =~= s);
        }
        sum
    }

    /// The first index whose cumulative weight exceeds the draw.
    fn select_index(&self, u: u128, total: u128) -> (r: usize)
        requires
            self.wf(),
            total == spec_total(self@),
            u < total,
        ensures
            r == spec_select(self@, u as int),
            0 <= r < self@.len(),
    {
        let ghost s = self@;
        proof {
            lemma_select_in_range(s, u as int);
        }
        let mut cum: u128 = 0;
        let mut i: usize = 0;
        proof {
            assert(s.take(0) =~= Seq::<ItemModel>::empty());
        }
        while i < self.items.len()
            invariant
                self.wf(),
                s == self@,
                i <= self.items@.len(),
                s.len() == self.items@.len(),
                cum == spec_total(s.take(i as int)),
                cum <= u,
                u < spec_total(s),
                spec_total(s) == total,
                0 <= spec_select(s, u as int) < s.len(),
            decreases self.items.len() - i,
        {
            proof {
                lemma_prefix_step(s, i as int);
                lemma_weight_range(s[i as int].1);
                lemma_total_nonneg(s.take(i as int));
                lemma_total_split(s, i + 1);
                lemma_total_nonneg(s.skip(i + 1));
                assert(spec_total(s.take(i + 1)) <= spec_total(s));
                assert(s[i as int] == self.items@[i as int].item@);
                assert(self.items@[i as int].weight_milli == spec_weight(s[i as int].1));
            }
            let w = self.items[i].weight_milli as u128;
            if u < cum + w {
                proof {
                    lemma_selection_frequency(s, u as int, i as int);
                }
                return i;
            }
            cum = cum + w;
            i += 1;
        }
        proof {
            assert(s.take(s.len() as int) =~= s);
            assert(false);
        }
        0
    }
}

/// Helper view of a vector of records as a sequence of models.
pub trait QueueItemVecView {
    spec fn deep_view_items(&self) -> Seq<ItemModel>;
}

impl QueueItemVecView for Vec<QueueItem> {
    open spec fn deep_view_items(&self) -> Seq<ItemModel> {
        self@.map(|i: int, it: QueueItem| it@)
    }
}

} // verus!
