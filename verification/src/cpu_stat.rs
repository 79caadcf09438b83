//! CPU time counters and the utilization between two readings of them.
use crate::units::UNIT;
use std::collections::BTreeMap;
use vstd::prelude::*;

verus! {

/// The tick counters of one CPU, or of all CPUs together, at one moment.
#[derive(Clone, Copy, Debug, PartialEq, Eq, Structural)]
pub struct CpuStat {
    pub user: u64,
    pub nice: u64,
    pub system: u64,
    pub idle: u64,
    pub iowait: u64,
    pub irq: u64,
    pub softirq: u64,
    pub steal: u64,
}

/// One reading of the counters: of all CPUs together, and of each CPU that was
/// online.
pub struct ProcStat {
    pub total: CpuStat,
    pub cpus: BTreeMap<usize, CpuStat>,
}

impl CpuStat {
    /// The ticks spent on anything but waiting.
    pub open spec fn busy(self) -> int {
        self.user + self.system + self.nice + self.irq + self.softirq + self.steal
    }

    /// All ticks.
    pub open spec fn total(self) -> int {
        self.busy() + self.idle + self.iowait
    }

    /// The utilization between an earlier reading and this one, in millionths:
    /// the share of busy ticks among all ticks since, kept within 0 and 1 and
    /// rounded down. Where no tick has passed, it is 1.
    pub open spec fn util(self, prev: CpuStat) -> int {
        let busy = self.busy() - prev.busy();
        let total = self.total() - prev.total();
        if total > 0 {
            if busy <= 0 {
                0
            } else if busy >= total {
                UNIT as int
            } else {
                busy * UNIT / total
            }
        } else {
            UNIT as int
        }
    }

    /// All counters at zero.
    pub fn zero_stat() -> (s: CpuStat)
        ensures
            s == (CpuStat {
                user: 0,
                nice: 0,
                system: 0,
                idle: 0,
                iowait: 0,
                irq: 0,
                softirq: 0,
                steal: 0,
            }),
    {
        CpuStat { user: 0, nice: 0, system: 0, idle: 0, iowait: 0, irq: 0, softirq: 0, steal: 0 }
    }

    /// The busy ticks and all ticks of this reading.
    pub fn busy_and_total(&self) -> (r: (u128, u128))
        ensures
            r.0 == self.busy(),
            r.1 == self.total(),
    {
        let busy: u128 = self.user as u128 + self.system as u128 + self.nice as u128
            + self.irq as u128 + self.softirq as u128 + self.steal as u128;
        (busy, busy + self.idle as u128 + self.iowait as u128)
    }

    /// The utilization between an earlier reading and this one.
    pub fn calc_util(&self, prev: &CpuStat) -> (u: u64)
        ensures
            u == self.util(*prev),
            u <= UNIT,
    {
        let (curr_busy, curr_total) = self.busy_and_total();
        let (prev_busy, prev_total) = prev.busy_and_total();
        if curr_total > prev_total {
            let total: u128 = curr_total - prev_total;
            if curr_busy <= prev_busy {
                0
            } else {
                let busy: u128 = curr_busy - prev_busy;
                if busy >= total {
                    UNIT
                } else {
                    proof {
                        lemma_share(busy as int, total as int);
                    }
                    (busy * (UNIT as u128) / total) as u64
                }
            }
        } else {
            UNIT
        }
    }
}

/// A share of less than the whole is less than one.
proof fn lemma_share(part: int, whole: int)
    requires
        0 <= part < whole,
    ensures
        0 <= part * UNIT / whole < UNIT,
        part * UNIT == part * 1_000_000,
{
    assert(0 <= part * UNIT < whole * UNIT) by (nonlinear_arith)
        requires
            0 <= part < whole,
    ;
    assert(0 <= (part * UNIT) / whole < UNIT) by (nonlinear_arith)
        requires
            0 <= part * UNIT < whole * UNIT,
            whole > 0,
    ;
}

/// Between any two readings the utilization lies within 0 and 1.
pub proof fn lemma_util_bounds(curr: CpuStat, prev: CpuStat)
    ensures
        0 <= curr.util(prev) <= UNIT,
{
    let busy = curr.busy() - prev.busy();
    let total = curr.total() - prev.total();
    if total > 0 && 0 < busy < total {
        lemma_share(busy, total);
    }
}

/// Where no tick has passed between two readings, the utilization is 1.
pub proof fn lemma_util_no_time(curr: CpuStat, prev: CpuStat)
    requires
        curr.total() == prev.total(),
    ensures
        curr.util(prev) == UNIT,
{
}

} // verus!
