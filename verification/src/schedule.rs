//! Drift-corrected fixed-tick timing. The timer keeps a carry,
//! `next_target_micros`: each tick the caller reports how long the tick
//! really took and how long the corrective sleep really lasted, and any
//! surplus or deficit — a sleep that overshot, a tick that ran past its
//! carry — is subtracted from the next tick's budget instead of being
//! discarded, so the long-run average period converges to the target.
//!
//! The timer itself never sleeps and never reads a clock; the caller
//! measures and sleeps, and hands the measured durations in, all in
//! microseconds.

use vstd::prelude::*;

verus! {

/// How long to sleep this tick: the remaining budget where the tick left
/// any, nothing where it already ran long. (The deficit of a long tick is
/// not forgotten: `settle` charges it to the next carry.)
pub open spec fn spec_budget(next_target: int, elapsed: int) -> int {
    if next_target >= elapsed {
        next_target - elapsed
    } else {
        0
    }
}

/// The next tick's carry: the target, plus what was left of this tick's
/// carry after its measured elapsed time, minus what was actually slept —
/// so both a sleep's overshoot and a tick's overrun shrink the next
/// budget. Clamped into the u64 range; in particular never negative.
pub open spec fn spec_next_target(target: int, next_target: int, elapsed: int, slept: int) -> int {
    let v = target + (next_target - elapsed) - slept;
    if v < 0 {
        0
    } else if v > u64::MAX {
        u64::MAX as int
    } else {
        v
    }
}

/// The self-correcting tick timer.
pub struct TickTimer {
    /// The configured tick length, in microseconds.
    pub target_micros: u64,
    /// What the coming tick should last to keep the average on target.
    pub next_target_micros: u64,
}

impl TickTimer {
    pub fn new(target_micros: u64) -> (t: TickTimer)
        ensures
            t.target_micros == target_micros,
            t.next_target_micros == target_micros,
    {
        TickTimer { target_micros, next_target_micros: target_micros }
    }

    /// How long to sleep, given the time already elapsed since the
    /// previous wake.
    pub fn sleep_budget(&self, elapsed_micros: u64) -> (r: u64)
        ensures
            r == spec_budget(self.next_target_micros as int, elapsed_micros as int),
    {
        if self.next_target_micros >= elapsed_micros {
            self.next_target_micros - elapsed_micros
        } else {
            0
        }
    }

    /// Folds one tick's measured times back into the carry: the tick's
    /// elapsed time and the actual sleep are charged against the carry,
    /// so an overshoot, an undershoot, or a tick that ran past its carry
    /// all correct the next tick instead of being discarded.
    pub fn settle(&mut self, elapsed_micros: u64, slept_micros: u64)
        ensures
            final(self).target_micros == old(self).target_micros,
            final(self).next_target_micros == spec_next_target(
                old(self).target_micros as int,
                old(self).next_target_micros as int,
                elapsed_micros as int,
                slept_micros as int,
            ),
    {
        let v: i128 = self.target_micros as i128 + self.next_target_micros as i128
            - elapsed_micros as i128 - slept_micros as i128;
        let next: u64 = if v < 0 {
            0
        } else if v > u64::MAX as i128 {
            u64::MAX
        } else {
            v as u64
        };
        self.next_target_micros = next;
    }
}

/// The carry held after a run of ticks: each step is the pair (elapsed
/// since previous wake, time actually slept), starting from a fresh timer
/// whose carry is the target itself.
pub open spec fn spec_carry(target: int, steps: Seq<(int, int)>) -> int
    decreases steps.len(),
{
    if steps.len() == 0 {
        target
    } else {
        let prev = spec_carry(target, steps.drop_last());
        spec_next_target(target, prev, steps.last().0, steps.last().1)
    }
}

/// Total wall-clock time of a run: each tick lasts its measured elapsed
/// time plus its actual sleep.
pub open spec fn spec_periods_sum(steps: Seq<(int, int)>) -> int
    decreases steps.len(),
{
    if steps.len() == 0 {
        0
    } else {
        spec_periods_sum(steps.drop_last()) + steps.last().0 + steps.last().1
    }
}

/// A run in which the carry update never clamps: each tick's sleep stays
/// within target-plus-signed-budget (so the carry does not hit zero —
/// overruns of up to a whole target beyond the carry are fine), and the
/// arithmetic stays within u64.
pub open spec fn spec_run_tame(target: int, steps: Seq<(int, int)>) -> bool
    decreases steps.len(),
{
    if steps.len() == 0 {
        true
    } else {
        let prev = spec_carry(target, steps.drop_last());
        let e = steps.last().0;
        let a = steps.last().1;
        &&& spec_run_tame(target, steps.drop_last())
        &&& 0 <= e
        &&& 0 <= a <= target + (prev - e)
        &&& target + prev <= u64::MAX
    }
}

/// A tame run in which, additionally, every sleep lasts at least the
/// budget that was asked for (the sleep may overshoot, never undershoot).
pub open spec fn spec_run_punctual(target: int, steps: Seq<(int, int)>) -> bool
    decreases steps.len(),
{
    if steps.len() == 0 {
        true
    } else {
        let prev = spec_carry(target, steps.drop_last());
        &&& spec_run_punctual(target, steps.drop_last())
        &&& steps.last().1 >= spec_budget(prev, steps.last().0)
    }
}

/// Drift accounting telescopes: over any tame run, the total time spent
/// differs from `len * target` by exactly the change of the carry — the
/// deviation is bounded per run, not cumulative in the number of ticks,
/// whether a tick overran or a sleep overshot.
pub proof fn lemma_drift_telescopes(target: int, steps: Seq<(int, int)>)
    requires
        target >= 0,
        spec_run_tame(target, steps),
    ensures
        spec_periods_sum(steps) + spec_carry(target, steps) == steps.len() * target + target,
    decreases steps.len(),
{
    if steps.len() == 0 {
    } else {
        lemma_drift_telescopes(target, steps.drop_last());
        assert(steps.len() * target == (steps.len() - 1) * target + target) by (nonlinear_arith);
    }
}

/// Drift convergence: over a tame run whose sleeps never undershoot their
/// budget, the total time of `K` ticks lies between `K * target` and
/// `K * target + target`, so the running average period converges to the
/// target as `K` grows.
pub proof fn lemma_drift_convergence(target: int, steps: Seq<(int, int)>)
    requires
        target >= 0,
        spec_run_tame(target, steps),
        spec_run_punctual(target, steps),
    ensures
        spec_carry(target, steps) <= target,
        steps.len() * target <= spec_periods_sum(steps) <= steps.len() * target + target,
    decreases steps.len(),
{
    if steps.len() == 0 {
    } else {
        lemma_drift_convergence(target, steps.drop_last());
    }
    lemma_drift_telescopes(target, steps);
}

} // verus!
