//! The load of a task: its weight scaled by the share of time it was runnable,
//! smoothed over the balancing periods.
use crate::units::{MAX_TASK_LOAD, UNIT};
use vstd::prelude::*;

verus! {

/// What the kernel side reports of one task.
#[derive(Clone, Copy, Debug, PartialEq, Eq, Structural)]
pub struct TaskCtx {
    pub pid: i32,
    /// When the task last became runnable, in nanoseconds of the monotonic
    /// clock; 0 while it is not runnable.
    pub runnable_at: u64,
    /// For how long the task has been runnable in all, in nanoseconds.
    pub runnable_for: u64,
    pub weight: u32,
    /// The domain the task is in.
    pub dom_id: u32,
    /// The domains the task may run in, one bit per domain.
    pub dom_mask: u64,
    pub is_kworker: bool,
}

/// What the balancer remembers of a task from one period to the next.
#[derive(Clone, Copy, Debug, PartialEq, Eq, Structural)]
pub struct TaskLoad {
    /// The task's `runnable_for` when it was last seen.
    pub runnable_for: u64,
    /// The task's smoothed load, in millionths of a weight unit.
    pub load: u64,
}

/// The time for which a task that is runnable right now has been so since it
/// was last charged.
pub open spec fn inflight(runnable_at: u64, now: u64) -> int {
    if 0 < runnable_at < now {
        now - runnable_at
    } else {
        0
    }
}

/// The time for which a task was runnable during the last period: what
/// `runnable_for` gained since the task was last seen (all of it for a new
/// task, nothing where it fell), plus the time in flight, at most the period.
pub open spec fn runnable_delta(prev: Option<TaskLoad>, ctx: TaskCtx, now: u64, period: u64) -> int {
    let gained: int = match prev {
        Some(p) => if ctx.runnable_for >= p.runnable_for {
            ctx.runnable_for - p.runnable_for
        } else {
            0
        },
        None => ctx.runnable_for as int,
    };
    let delta = gained + inflight(ctx.runnable_at, now);
    if delta < period {
        delta
    } else {
        period as int
    }
}

/// The load of one sample: the weight times the share of the period for which
/// the task was runnable, in millionths, rounded down.
pub open spec fn raw_load(weight: u32, delta: int, period: u64) -> int {
    weight * UNIT * delta / (period as int)
}

/// The smoothed load: `decay` millionths of the old load and the rest of the
/// new sample, rounded down.
pub open spec fn smoothed_load(prev: int, raw: int, decay: int) -> int {
    (prev * decay + raw * (UNIT - decay)) / (UNIT as int)
}

/// The load of a task after a period.
pub open spec fn task_load(
    prev: Option<TaskLoad>,
    ctx: TaskCtx,
    now: u64,
    period: u64,
    decay: u64,
) -> int {
    let raw = raw_load(ctx.weight, runnable_delta(prev, ctx, now, period), period);
    match prev {
        Some(p) => smoothed_load(p.load as int, raw, decay as int),
        None => raw,
    }
}

/// The load of one sample lies between 0 and the weight.
pub proof fn lemma_raw_load_bounds(weight: u32, delta: int, period: u64)
    requires
        0 <= delta <= period,
        period > 0,
    ensures
        0 <= raw_load(weight, delta, period) <= weight * UNIT,
        weight * UNIT <= MAX_TASK_LOAD,
        0 <= weight * UNIT * delta <= weight * UNIT * period,
{
    let a: int = weight * UNIT;
    let p: int = period as int;
    assert(0 <= a * delta <= a * p) by (nonlinear_arith)
        requires
            0 <= a,
            0 <= delta <= p,
    ;
    assert((a * delta) / p <= a && 0 <= (a * delta) / p) by (nonlinear_arith)
        requires
            0 <= a * delta <= a * p,
            p > 0,
    ;
}

/// The smoothed load lies between the old load and the new sample.
pub proof fn lemma_smoothed_load_bounds(prev: int, raw: int, decay: int)
    requires
        0 <= decay <= UNIT,
    ensures
        prev <= raw ==> prev <= smoothed_load(prev, raw, decay) <= raw,
        raw <= prev ==> raw <= smoothed_load(prev, raw, decay) <= prev,
{
    let u: int = UNIT as int;
    let rest: int = u - decay;
    let mix: int = prev * decay + raw * rest;
    if prev <= raw {
        assert(prev * u <= mix <= raw * u) by (nonlinear_arith)
            requires
                prev <= raw,
                0 <= decay,
                0 <= rest,
                decay + rest == u,
                mix == prev * decay + raw * rest,
        ;
        assert(prev <= mix / u <= raw) by (nonlinear_arith)
            requires
                prev * u <= mix <= raw * u,
                u > 0,
        ;
    }
    if raw <= prev {
        assert(raw * u <= mix <= prev * u) by (nonlinear_arith)
            requires
                raw <= prev,
                0 <= decay,
                0 <= rest,
                decay + rest == u,
                mix == prev * decay + raw * rest,
        ;
        assert(raw <= mix / u <= prev) by (nonlinear_arith)
            requires
                raw * u <= mix <= prev * u,
                u > 0,
        ;
    }
}

/// Whatever a task did, its load stays within the largest load a task can have.
pub proof fn lemma_task_load_bounds(
    prev: Option<TaskLoad>,
    ctx: TaskCtx,
    now: u64,
    period: u64,
    decay: u64,
)
    requires
        period > 0,
        decay <= UNIT,
        prev matches Some(p) ==> p.load <= MAX_TASK_LOAD,
    ensures
        0 <= task_load(prev, ctx, now, period, decay) <= MAX_TASK_LOAD,
{
    let delta = runnable_delta(prev, ctx, now, period);
    lemma_raw_load_bounds(ctx.weight, delta, period);
    let raw = raw_load(ctx.weight, delta, period);
    if let Some(p) = prev {
        lemma_smoothed_load_bounds(p.load as int, raw, decay as int);
    }
}

/// Computes the load of a task after a period of `period` nanoseconds that
/// ended at `now`.
pub fn sample_load(prev: Option<TaskLoad>, ctx: &TaskCtx, now: u64, period: u64, decay: u64) -> (load:
    u64)
    requires
        period > 0,
        decay <= UNIT,
        prev matches Some(p) ==> p.load <= MAX_TASK_LOAD,
    ensures
        load == task_load(prev, *ctx, now, period, decay),
        load <= MAX_TASK_LOAD,
{
    let gained: u64 = match prev {
        Some(p) => if ctx.runnable_for >= p.runnable_for {
            ctx.runnable_for - p.runnable_for
        } else {
            0
        },
        None => ctx.runnable_for,
    };
    let flying: u64 = if ctx.runnable_at > 0 && ctx.runnable_at < now {
        now - ctx.runnable_at
    } else {
        0
    };
    let sum: u128 = gained as u128 + flying as u128;
    let delta: u128 = if sum < period as u128 {
        sum
    } else {
        period as u128
    };
    proof {
        assert(delta == runnable_delta(prev, *ctx, now, period));
        lemma_raw_load_bounds(ctx.weight, delta as int, period);
        lemma_task_load_bounds(prev, *ctx, now, period, decay);
    }
    let scaled: u128 = ctx.weight as u128 * UNIT as u128;
    proof {
        assert(scaled * period <= MAX_TASK_LOAD * 0xffff_ffff_ffff_ffff) by (nonlinear_arith)
            requires
                0 <= scaled <= MAX_TASK_LOAD,
                0 <= period <= 0xffff_ffff_ffff_ffff,
        ;
    }
    let raw: u128 = scaled * delta / period as u128;
    match prev {
        Some(p) => {
            proof {
                lemma_smoothed_load_bounds(p.load as int, raw as int, decay as int);
                assert(p.load * decay <= MAX_TASK_LOAD * UNIT) by (nonlinear_arith)
                    requires
                        0 <= p.load <= MAX_TASK_LOAD,
                        0 <= decay <= UNIT,
                ;
                assert(raw * (UNIT - decay) <= MAX_TASK_LOAD * UNIT) by (nonlinear_arith)
                    requires
                        0 <= raw <= MAX_TASK_LOAD,
                        0 <= UNIT - decay <= UNIT,
                ;
            }
            let mixed: u128 = (p.load as u128 * decay as u128 + raw * (UNIT - decay) as u128)
                / UNIT as u128;
            mixed as u64
        },
        None => raw as u64,
    }
}

} // verus!
