//! The scaling controller: hysteresis-gated scale-up and graceful
//! scale-down decisions over the active fleet.
//!
//! The controller is a pure decision function: the reconciler hands it the
//! managed fleet, the desired-replica count, its own timestamps and the
//! clock, and receives the decision, the new timestamps and the new desired
//! count. Low average scores (high load) or a critically loaded worker
//! scale the fleet up, at most once per cooldown period; high average
//! scores scale it down by marking the best-scoring workers SUNDOWN.
use vstd::prelude::*;
use crate::dispatcher::spec_install;
use crate::worker::{Category, ItemModel, QueueItem, SCORE_MAX_MILLI};
use crate::dispatcher::QueueItemVecView;

verus! {

/// Tunables of the controller, with the defaults of the deployment.
pub struct ScaleConfig {
    /// Below this average score the fleet is under high load: 55 points.
    pub high_load_milli: i64,
    /// A worker below this score is critically loaded: 20 points.
    pub critical_load_milli: i64,
    /// Above this average score the fleet is under low load: 80 points.
    pub low_load_milli: i64,
    /// Hard ceiling on the fleet size.
    pub max_containers: usize,
    /// Least wall time between two scale actions, in milliseconds.
    pub cooldown_ms: u64,
    /// Least wall time between two scale evaluations, in milliseconds.
    pub scale_check_ms: u64,
    /// How many workers one action adds or removes.
    pub scale_step: usize,
    /// Floor on the fleet size, from configuration.
    pub default_containers: usize,
}

impl ScaleConfig {
    /// A usable configuration: the floor is positive and no higher than
    /// the ceiling, the step positive, the periods positive.
    pub open spec fn wf(&self) -> bool {
        1 <= self.default_containers <= self.max_containers && self.scale_step >= 1
            && self.cooldown_ms >= 1 && self.scale_check_ms >= 1
    }

    /// The default tunables around the given fleet floor.
    pub fn new_default(default_containers: usize) -> (r: ScaleConfig)
        requires
            1 <= default_containers <= 15,
        ensures
            r.wf(),
            r.high_load_milli == 55_000,
            r.critical_load_milli == 20_000,
            r.low_load_milli == 80_000,
            r.max_containers == 15,
            r.cooldown_ms == 5_000,
            r.scale_check_ms == 10_000,
            r.scale_step == 1,
            r.default_containers == default_containers,
    {
        ScaleConfig {
            high_load_milli: 55_000,
            critical_load_milli: 20_000,
            low_load_milli: 80_000,
            max_containers: 15,
            cooldown_ms: 5_000,
            scale_check_ms: 10_000,
            scale_step: 1,
            default_containers,
        }
    }
}

/// The controller's timestamps: when it last acted and last evaluated.
#[derive(Clone, Copy, Debug, PartialEq, Eq, Structural)]
pub struct ScaleState {
    pub cooldown_at: u64,
    pub last_check_at: u64,
}

/// What one evaluation decides.
#[derive(Clone, Copy, Debug, PartialEq, Eq, Structural)]
pub enum ScaleDecision {
    /// The evaluation period has not elapsed; nothing was evaluated.
    Skipped,
    /// Evaluated, and the load calls for no action.
    NoChange,
    /// Add this many workers.
    Up { add: usize },
    /// Mark this many workers for graceful shutdown.
    Down { remove: usize },
}

/// Sum of the scores of a fleet.
pub open spec fn spec_score_sum(s: Seq<ItemModel>) -> int
    decreases s.len(),
{
    if s.len() == 0 {
        0
    } else {
        s[0].1 + spec_score_sum(s.drop_first())
    }
}

/// Mean score of the active (non-SUNDOWN) fleet; meaningful only when some
/// worker is active.
pub open spec fn spec_avg_load(s: Seq<ItemModel>) -> int {
    spec_score_sum(spec_install(s)) / (spec_install(s).len() as int)
}

/// Whether some active worker is critically loaded.
pub open spec fn spec_has_critical(s: Seq<ItemModel>, critical: int) -> bool {
    exists|i: int| 0 <= i < s.len() && s[i].2 != Category::Sundown && s[i].1 < critical
}

/// Clamped into the configured fleet bounds.
pub open spec fn spec_clamp_desired(v: int, cfg: ScaleConfig) -> int {
    if v < cfg.default_containers {
        cfg.default_containers as int
    } else if v > cfg.max_containers {
        cfg.max_containers as int
    } else {
        v
    }
}

/// What the controller decides: nothing before the evaluation period has
/// passed, and nothing with an empty active fleet; up by one step under
/// high load or a critical worker, at most once per cooldown and only
/// below the ceiling; down by one step (bounded by the floor and by the
/// desired count) under low load, the ceiling notwithstanding; else
/// nothing.
pub open spec fn spec_scale_decision(
    s: Seq<ItemModel>,
    desired: usize,
    st: ScaleState,
    cfg: ScaleConfig,
    now: u64,
) -> ScaleDecision {
    if now - st.last_check_at < cfg.scale_check_ms {
        ScaleDecision::Skipped
    } else {
        let n = spec_install(s).len() as int;
        if n == 0 {
            ScaleDecision::NoChange
        } else if n < cfg.max_containers && now - st.cooldown_at >= cfg.cooldown_ms && (
        spec_avg_load(s) < cfg.high_load_milli || spec_has_critical(
            s,
            cfg.critical_load_milli as int,
        )) {
            let add = if cfg.scale_step <= cfg.max_containers - n {
                cfg.scale_step as int
            } else {
                cfg.max_containers - n
            };
            ScaleDecision::Up { add: add as usize }
        } else if spec_avg_load(s) > cfg.low_load_milli && n > cfg.default_containers {
            let headroom = if desired > cfg.default_containers {
                desired - cfg.default_containers
            } else {
                0
            };
            let room = if n - cfg.default_containers <= headroom {
                n - cfg.default_containers
            } else {
                headroom as int
            };
            let k = if cfg.scale_step <= room {
                cfg.scale_step as int
            } else {
                room
            };
            if k > 0 {
                ScaleDecision::Down { remove: k as usize }
            } else {
                ScaleDecision::NoChange
            }
        } else {
            ScaleDecision::NoChange
        }
    }
}

/// The timestamps after a decision: an evaluation moves the check time to
/// now; an action moves the cooldown to now.
pub open spec fn spec_scale_state(
    st: ScaleState,
    decision: ScaleDecision,
    now: u64,
) -> ScaleState {
    match decision {
        ScaleDecision::Skipped => st,
        ScaleDecision::NoChange => ScaleState { cooldown_at: st.cooldown_at, last_check_at: now },
        ScaleDecision::Up { add } => ScaleState { cooldown_at: now, last_check_at: now },
        ScaleDecision::Down { remove } => ScaleState {
            cooldown_at: st.cooldown_at,
            last_check_at: now,
        },
    }
}

/// The desired count after a decision, always clamped into the configured
/// bounds.
pub open spec fn spec_scale_desired(
    desired: usize,
    decision: ScaleDecision,
    cfg: ScaleConfig,
) -> int {
    match decision {
        ScaleDecision::Up { add } => spec_clamp_desired(desired + add, cfg),
        ScaleDecision::Down { remove } => spec_clamp_desired(desired - remove, cfg),
        _ => spec_clamp_desired(desired as int, cfg),
    }
}

/// Scores bounded per item bound the sum.
pub proof fn lemma_score_sum_bound(s: Seq<ItemModel>)
    requires
        forall|i: int| 0 <= i < s.len() ==> 0 <= (#[trigger] s[i]).1 <= SCORE_MAX_MILLI,
    ensures
        0 <= spec_score_sum(s) <= s.len() * (SCORE_MAX_MILLI as int),
    decreases s.len(),
{
    if s.len() > 0 {
        let t = s.drop_first();
        assert(forall|i: int| 0 <= i < t.len() ==> t[i] == s[i + 1]);
        lemma_score_sum_bound(t);
        assert(s.len() * (SCORE_MAX_MILLI as int) == SCORE_MAX_MILLI + (s.len() - 1) * (
        SCORE_MAX_MILLI as int)) by (nonlinear_arith);
    }
}

/// A prefix extended by one item adds that item's score.
pub proof fn lemma_score_sum_step(s: Seq<ItemModel>, i: int)
    requires
        0 <= i < s.len(),
    ensures
        spec_score_sum(s.take(i + 1)) == spec_score_sum(s.take(i)) + s[i].1,
    decreases s.len(),
{
    if i == 0 {
        assert(s.take(1).drop_first() =~= Seq::<ItemModel>::empty());
        assert(s.take(1)[0] == s[0]);
        assert(s.take(0) =~= Seq::<ItemModel>::empty());
        assert(spec_score_sum(Seq::<ItemModel>::empty()) == 0);
    } else {
        let t = s.drop_first();
        lemma_score_sum_step(t, i - 1);
        assert(s.take(i + 1).drop_first() =~= t.take(i));
        assert(s.take(i).drop_first() =~= t.take(i - 1));
        assert(s.take(i + 1)[0] == s[0]);
        assert(s.take(i)[0] == s[0]);
        assert(t[i - 1] == s[i]);
    }
}

/// Evaluates the controller. The decision, the new timestamps and the new
/// desired count are exactly the spec-level decision; the desired count
/// stays within the configured floor and ceiling; and a scale-up happens
/// only when a full cooldown period has passed since the last action, which
/// it restarts.
pub fn check_and_scale(
    items: &Vec<QueueItem>,
    desired: usize,
    state: &ScaleState,
    cfg: &ScaleConfig,
    now_ms: u64,
) -> (r: (ScaleDecision, ScaleState, usize))
    requires
        cfg.wf(),
        now_ms >= state.cooldown_at,
        now_ms >= state.last_check_at,
        forall|i: int|
            0 <= i < items.deep_view_items().len() ==> 0 <= (#[trigger] items.deep_view_items()[i]).1
                <= SCORE_MAX_MILLI,
    ensures
        r.0 == spec_scale_decision(items.deep_view_items(), desired, *state, *cfg, now_ms),
        r.1 == spec_scale_state(*state, r.0, now_ms),
        r.2 == spec_scale_desired(desired, r.0, *cfg),
        cfg.default_containers <= r.2 <= cfg.max_containers,
        (r.0 is Up) ==> now_ms - state.cooldown_at >= cfg.cooldown_ms && r.1.cooldown_at == now_ms,
        !(r.0 is Up) ==> r.1.cooldown_at == state.cooldown_at,
{
    let ghost s = items.deep_view_items();
    let decision: ScaleDecision;
    if now_ms - state.last_check_at < cfg.scale_check_ms {
        decision = ScaleDecision::Skipped;
    } else {
        let (n, sum) = active_count_and_sum(items);
        if n == 0 {
            decision = ScaleDecision::NoChange;
        } else {
            let avg: i64 = (sum / (n as u128)) as i64;
            proof {
                let f = spec_install(s);
                lemma_install_scores_bounded(s);
                lemma_score_sum_bound(f);
                let total = spec_score_sum(f);
                assert(total / (n as int) <= SCORE_MAX_MILLI) by (nonlinear_arith)
                    requires
                        n > 0,
                        0 <= total <= (n as int) * (SCORE_MAX_MILLI as int),
                ;
            }
            let critical = has_critical(items, cfg.critical_load_milli);
            if n < cfg.max_containers && now_ms - state.cooldown_at >= cfg.cooldown_ms && (avg
                < cfg.high_load_milli || critical) {
                let add: usize = if cfg.scale_step <= cfg.max_containers - n {
                    cfg.scale_step
                } else {
                    cfg.max_containers - n
                };
                decision = ScaleDecision::Up { add };
            } else if avg > cfg.low_load_milli && n > cfg.default_containers {
                let headroom: usize = if desired > cfg.default_containers {
                    desired - cfg.default_containers
                } else {
                    0
                };
                let room: usize = if n - cfg.default_containers <= headroom {
                    n - cfg.default_containers
                } else {
                    headroom
                };
                let k: usize = if cfg.scale_step <= room {
                    cfg.scale_step
                } else {
                    room
                };
                if k > 0 {
                    decision = ScaleDecision::Down { remove: k };
                } else {
                    decision = ScaleDecision::NoChange;
                }
            } else {
                decision = ScaleDecision::NoChange;
            }
        }
    }
    let new_state = match decision {
        ScaleDecision::Skipped => ScaleState {
            cooldown_at: state.cooldown_at,
            last_check_at: state.last_check_at,
        },
        ScaleDecision::NoChange => ScaleState {
            cooldown_at: state.cooldown_at,
            last_check_at: now_ms,
        },
        ScaleDecision::Up { add: _ } => ScaleState { cooldown_at: now_ms, last_check_at: now_ms },
        ScaleDecision::Down { remove: _ } => ScaleState {
            cooldown_at: state.cooldown_at,
            last_check_at: now_ms,
        },
    };
    let raw: usize = match decision {
        ScaleDecision::Up { add } => {
            if desired <= usize::MAX - add {
                desired + add
            } else {
                usize::MAX
            }
        },
        ScaleDecision::Down { remove } => {
            if desired >= remove {
                desired - remove
            } else {
                0
            }
        },
        _ => desired,
    };
    let new_desired: usize = if raw < cfg.default_containers {
        cfg.default_containers
    } else if raw > cfg.max_containers {
        cfg.max_containers
    } else {
        raw
    };
    proof {
        match decision {
            ScaleDecision::Up { add } => {
                assert(add <= cfg.max_containers);
                if desired > usize::MAX - add {
                    assert(desired + add > usize::MAX >= cfg.max_containers);
                    assert(spec_clamp_desired(desired + add, *cfg) == cfg.max_containers as int);
                }
            },
            _ => {},
        }
    }
    (decision, new_state, new_desired)
}

/// Installed items keep their score bounds.
proof fn lemma_install_scores_bounded(s: Seq<ItemModel>)
    requires
        forall|i: int| 0 <= i < s.len() ==> 0 <= (#[trigger] s[i]).1 <= SCORE_MAX_MILLI,
    ensures
        forall|i: int|
            0 <= i < spec_install(s).len() ==> 0 <= (#[trigger] spec_install(s)[i]).1
                <= SCORE_MAX_MILLI,
    decreases s.len(),
{
    reveal(Seq::filter);
    if s.len() > 0 {
        let t = s.drop_last();
        assert(forall|i: int| 0 <= i < t.len() ==> t[i] == s[i]);
        lemma_install_scores_bounded(t);
        let ft = spec_install(t);
        assert forall|i: int|
            0 <= i < spec_install(s).len() implies 0 <= (#[trigger] spec_install(s)[i]).1
            <= SCORE_MAX_MILLI by {
            if i < ft.len() {
                assert(spec_install(s)[i] == ft[i]);
            } else {
                assert(spec_install(s)[i] == s.last());
                assert(0 <= s[s.len() - 1].1 <= SCORE_MAX_MILLI);
            }
        }
    }
}

/// Counts the active workers and sums their scores.
pub fn active_count_and_sum(items: &Vec<QueueItem>) -> (r: (usize, u128))
    requires
        forall|i: int|
            0 <= i < items.deep_view_items().len() ==> 0 <= (#[trigger] items.deep_view_items()[i]).1
                <= SCORE_MAX_MILLI,
    ensures
        r.0 == spec_install(items.deep_view_items()).len(),
        r.1 == spec_score_sum(spec_install(items.deep_view_items())),
{
    let ghost s = items.deep_view_items();
    let mut n: usize = 0;
    let mut sum: u128 = 0;
    let mut i: usize = 0;
    proof {
        reveal(Seq::filter);
        assert(spec_install(s.take(0)) =~= Seq::<ItemModel>::empty());
        assert(spec_score_sum(Seq::<ItemModel>::empty()) == 0);
    }
    while i < items.len()
        invariant
            i <= s.len(),
            items@.len() == s.len(),
            forall|j: int| 0 <= j < s.len() ==> s[j] == (#[trigger] items@[j])@,
            forall|j: int| 0 <= j < s.len() ==> 0 <= (#[trigger] s[j]).1 <= SCORE_MAX_MILLI,
            n == spec_install(s.take(i as int)).len(),
            sum == spec_score_sum(spec_install(s.take(i as int))),
            sum <= (n as int) * (SCORE_MAX_MILLI as int),
            n <= i,
        decreases items@.len() - i,
    {
        let ghost fprev = spec_install(s.take(i as int));
        let active = !matches!(items[i].category, Category::Sundown);
        proof {
            reveal(Seq::filter);
            let t1 = s.take(i + 1);
            assert(t1.drop_last() =~= s.take(i as int));
            assert(t1.last() == s[i as int]);
            if active {
                assert(spec_install(s.take(i + 1)) =~= fprev.push(s[i as int]));
                lemma_score_sum_push(fprev, s[i as int]);
                assert((n + 1) as int * (SCORE_MAX_MILLI as int) == (n as int) * (SCORE_MAX_MILLI
                    as int) + SCORE_MAX_MILLI) by (nonlinear_arith);
            } else {
                assert(spec_install(s.take(i + 1)) =~= fprev);
            }
        }
        if active {
            n = n + 1;
            sum = sum + (items[i].score_milli as u128);
        }
        i += 1;
    }
    proof {
        assert(s.take(s.len() as int) =~= s);
    }
    (n, sum)
}

/// Appending adds to the score sum.
pub proof fn lemma_score_sum_push(s: Seq<ItemModel>, x: ItemModel)
    ensures
        spec_score_sum(s.push(x)) == spec_score_sum(s) + x.1,
    decreases s.len(),
{
    assert(spec_score_sum(Seq::<ItemModel>::empty()) == 0);
    if s.len() == 0 {
        assert(s.push(x)[0] == x);
        assert(s.push(x).drop_first() =~= Seq::<ItemModel>::empty());
    } else {
        assert(s.push(x)[0] == s[0]);
        assert(s.push(x).drop_first() =~= s.drop_first().push(x));
        lemma_score_sum_push(s.drop_first(), x);
    }
}

/// Whether some active worker scores below the critical threshold.
fn has_critical(items: &Vec<QueueItem>, critical: i64) -> (r: bool)
    ensures
        r == spec_has_critical(items.deep_view_items(), critical as int),
{
    let ghost s = items.deep_view_items();
    let mut i: usize = 0;
    while i < items.len()
        invariant
            i <= s.len(),
            items@.len() == s.len(),
            s == items.deep_view_items(),
            forall|j: int| 0 <= j < s.len() ==> s[j] == (#[trigger] items@[j])@,
            forall|j: int|
                0 <= j < i ==> !((#[trigger] s[j]).2 != Category::Sundown && s[j].1 < critical),
        decreases items@.len() - i,
    {
        if !matches!(items[i].category, Category::Sundown) && items[i].score_milli < critical {
            proof {
                let w = i as int;
                assert(0 <= w < s.len() && s[w].2 != Category::Sundown && s[w].1 < critical);
                assert(spec_has_critical(s, critical as int));
            }
            return true;
        }
        i += 1;
    }
    false
}

/// Scale-up actions separated by at least one cooldown period each cover at
/// least `(n - 1) * cooldown` of wall time between the first and the last.
/// With the evaluator's contract — a scale-up only when a full cooldown has
/// passed, and the cooldown restarted at each — any run of scale-up times
/// satisfies the spacing hypothesis, so a minute holds at most
/// `60_000 / cooldown` scale-ups.
pub proof fn lemma_scale_up_spacing(times: Seq<u64>, cooldown: u64)
    requires
        cooldown >= 1,
        forall|i: int| 0 <= i < times.len() - 1 ==> times[i] + cooldown <= #[trigger] times[i + 1],
    ensures
        times.len() >= 1 ==> times.last() - times[0] >= (times.len() - 1) * cooldown,
    decreases times.len(),
{
    if times.len() >= 2 {
        let t = times.drop_last();
        assert(forall|i: int| 0 <= i < t.len() ==> t[i] == times[i]);
        assert forall|i: int| 0 <= i < t.len() - 1 implies t[i] + cooldown <= #[trigger] t[i + 1] by {
            assert(times[i] + cooldown <= times[i + 1]);
            assert(t[i] == times[i]);
            assert(t[i + 1] == times[i + 1]);
        }
        lemma_scale_up_spacing(t, cooldown);
        let k = times.len() - 2;
        assert(times[k] + cooldown <= times[k + 1]);
        assert(times.last() == times[times.len() - 1]);
        assert(t.last() == times[k]);
        assert(t[0] == times[0]);
        assert(t.last() - t[0] >= (t.len() - 1) * cooldown);
        assert((times.len() - 1) * cooldown == (times.len() - 2) * cooldown + cooldown)
            by (nonlinear_arith);
        assert((t.len() - 1) * cooldown == (times.len() - 2) * cooldown);
        assert(times.last() - times[0] >= (times.len() - 1) * cooldown);
    } else if times.len() == 1 {
        assert(times.last() == times[0]);
        assert((times.len() - 1) * cooldown == 0) by (nonlinear_arith)
            requires
                times.len() == 1,
        ;
    }
}

/// In any window shorter than `window`, scale-up times spaced by a full
/// cooldown each number at most `(window - 1) / cooldown + 1`; for the
/// default five-second cooldown that is twelve per minute.
pub proof fn lemma_scale_rate_bound(times: Seq<u64>, cooldown: u64, window: u64)
    requires
        cooldown >= 1,
        window >= 1,
        forall|i: int| 0 <= i < times.len() - 1 ==> times[i] + cooldown <= #[trigger] times[i + 1],
        times.len() >= 1 ==> times.last() - times[0] < window,
    ensures
        times.len() <= (window - 1) / (cooldown as int) + 1,
        cooldown == 5_000 && window == 60_000 ==> times.len() <= 12,
{
    if times.len() >= 1 {
        lemma_scale_up_spacing(times, cooldown);
        let n = times.len() as int;
        assert((n - 1) * cooldown < window);
        assert(n - 1 <= (window - 1) / (cooldown as int)) by (nonlinear_arith)
            requires
                cooldown >= 1,
                window >= 1,
                (n - 1) * cooldown < window,
                n >= 1,
        ;
    }
}


/// The load conditions under which the controller acts on no evaluation,
/// whatever its timestamps and the clock: the active fleet is empty, or
/// neither direction is called for — no scale-up because the fleet is at
/// the ceiling or the load is calm with no critical worker, and no
/// scale-down because the average is no higher than the low-load mark, or
/// the fleet or the desired count is at the floor.
pub open spec fn spec_scale_noop(s: Seq<ItemModel>, desired: usize, cfg: ScaleConfig) -> bool {
    let n = spec_install(s).len() as int;
    n == 0 || ((n >= cfg.max_containers || (spec_avg_load(s) >= cfg.high_load_milli
        && !spec_has_critical(s, cfg.critical_load_milli as int))) && (spec_avg_load(s)
        <= cfg.low_load_milli || n <= cfg.default_containers || desired
        <= cfg.default_containers))
}

/// Under the no-op conditions the controller never acts: whatever its
/// timestamps and the clock, the decision is to skip or to change nothing,
/// and a desired count already within bounds stays exactly as it is.
pub proof fn lemma_scale_noop(
    s: Seq<ItemModel>,
    desired: usize,
    st: ScaleState,
    cfg: ScaleConfig,
    now: u64,
)
    requires
        cfg.wf(),
        spec_scale_noop(s, desired, cfg),
    ensures
        spec_scale_decision(s, desired, st, cfg, now) is Skipped || spec_scale_decision(
            s,
            desired,
            st,
            cfg,
            now,
        ) is NoChange,
        spec_scale_desired(
            desired,
            spec_scale_decision(s, desired, st, cfg, now),
            cfg,
        ) == spec_clamp_desired(desired as int, cfg),
        cfg.default_containers <= desired <= cfg.max_containers ==> spec_scale_desired(
            desired,
            spec_scale_decision(s, desired, st, cfg, now),
            cfg,
        ) == desired,
{
    let d = spec_scale_decision(s, desired, st, cfg, now);
    if !(now - st.last_check_at < cfg.scale_check_ms) {
        let n = spec_install(s).len() as int;
        if n != 0 {
            if n < cfg.max_containers {
                assert(spec_avg_load(s) >= cfg.high_load_milli);
                assert(!spec_has_critical(s, cfg.critical_load_milli as int));
            }
            if spec_avg_load(s) > cfg.low_load_milli && n > cfg.default_containers {
                assert(desired <= cfg.default_containers);
            }
        }
    }
}

/// The controller's hysteresis in one sentence: two scale-ups are always a
/// full cooldown apart, because a scale-up requires the cooldown to have
/// elapsed and restarts it, so a minute of wall time holds at most
/// `60 / cooldown-seconds` of them.
pub proof fn lemma_scale_up_rate_per_minute(times: Seq<u64>)
    requires
        forall|i: int| 0 <= i < times.len() - 1 ==> times[i] + 5_000 <= #[trigger] times[i + 1],
        times.len() >= 1 ==> times.last() - times[0] < 60_000,
    ensures
        times.len() <= 12,
{
    lemma_scale_rate_bound(times, 5_000, 60_000);
}

} // verus!
