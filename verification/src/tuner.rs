//! The tuner: takes the utilization of every domain and tells the kernel side
//! which CPUs may take part in greedy dispatch.
use crate::cpu_stat::{lemma_util_bounds, CpuStat};
use crate::cpumask::word_has_bit;
use crate::topology::Topology;
use crate::units::{ALWAYS_ON_ABOVE, MAX_CPUS, MAX_DOMS, UNIT};
use std::collections::BTreeMap;
use vstd::prelude::*;

verus! {

/// What the tuner hands to the kernel side.
#[derive(Clone, Copy, Debug, PartialEq, Eq)]
pub struct TuneInput {
    /// Counts the publications, so that the kernel side notices a new one.
    pub gen: u64,
    /// The CPUs that remote tasks may be pushed to directly.
    pub direct_greedy_cpumask: [u64; 8],
    /// The CPUs that may be kicked to steal from a saturated domain.
    pub kick_greedy_cpumask: [u64; 8],
}

/// The state of the tuner, as plain mathematics.
pub struct TunerView {
    pub nr_doms: nat,
    /// The domain of every CPU; `None` for an offline CPU.
    pub cpu_dom: Seq<Option<usize>>,
    /// The two thresholds, in millionths.
    pub direct_greedy_under: u64,
    pub kick_greedy_under: u64,
    /// The counters of every CPU at the last step.
    pub prev: Map<usize, CpuStat>,
    /// The utilization of every domain at the last step, in millionths.
    pub dom_utils: Seq<u64>,
}

impl TunerView {
    /// One utilization per domain, and every CPU in a domain that exists.
    pub open spec fn wf(self) -> bool {
        &&& self.nr_doms <= MAX_DOMS
        &&& self.cpu_dom.len() <= MAX_CPUS
        &&& self.dom_utils.len() == self.nr_doms
        &&& forall|c: int|
            0 <= c < self.cpu_dom.len() ==> (#[trigger] self.cpu_dom[c] matches Some(d) ==> d
                < self.nr_doms)
    }
}

/// Whether CPU `c` is counted for domain `dom`: it belongs to the domain and
/// has counters both at the last step and now.
pub open spec fn counted(
    cpu_dom: Seq<Option<usize>>,
    prev: Map<usize, CpuStat>,
    curr: Map<usize, CpuStat>,
    dom: int,
    c: int,
) -> bool {
    &&& 0 <= c < cpu_dom.len()
    &&& cpu_dom[c] == Some(dom as usize)
    &&& prev.contains_key(c as usize)
    &&& curr.contains_key(c as usize)
}

/// The number of CPUs below `n` that are counted for a domain.
pub open spec fn util_count(
    cpu_dom: Seq<Option<usize>>,
    prev: Map<usize, CpuStat>,
    curr: Map<usize, CpuStat>,
    dom: int,
    n: int,
) -> int
    decreases n,
{
    if n <= 0 {
        0
    } else {
        util_count(cpu_dom, prev, curr, dom, n - 1) + if counted(cpu_dom, prev, curr, dom, n - 1) {
            1int
        } else {
            0int
        }
    }
}

/// The sum of the utilization of the CPUs below `n` that are counted for a
/// domain.
pub open spec fn util_sum(
    cpu_dom: Seq<Option<usize>>,
    prev: Map<usize, CpuStat>,
    curr: Map<usize, CpuStat>,
    dom: int,
    n: int,
) -> int
    decreases n,
{
    if n <= 0 {
        0
    } else {
        util_sum(cpu_dom, prev, curr, dom, n - 1) + if counted(cpu_dom, prev, curr, dom, n - 1) {
            curr[(n - 1) as usize].util(prev[(n - 1) as usize])
        } else {
            0
        }
    }
}

/// The utilization of a domain: the average over its counted CPUs, rounded
/// down, and 0 where none is counted.
pub open spec fn dom_util(
    cpu_dom: Seq<Option<usize>>,
    prev: Map<usize, CpuStat>,
    curr: Map<usize, CpuStat>,
    dom: int,
) -> int {
    let count = util_count(cpu_dom, prev, curr, dom, cpu_dom.len() as int);
    if count == 0 {
        0
    } else {
        util_sum(cpu_dom, prev, curr, dom, cpu_dom.len() as int) / count
    }
}

/// Whether a CPU of a domain with the given utilization is in a greedy mask
/// with the given threshold: the threshold is at the top, or the utilization
/// strictly below it.
pub open spec fn greedy_enabled(threshold: u64, util: u64) -> bool {
    threshold > ALWAYS_ON_ABOVE || util < threshold
}

/// Whether the bit of CPU `c` is set in a mask.
pub open spec fn mask_bit(mask: Seq<u64>, c: int) -> bool {
    word_has_bit(mask[c / 64], c % 64)
}

/// What tuning does to a mask: the bit of every CPU that has a domain says
/// whether the domain is below the threshold, every other bit stays.
pub open spec fn mask_tuned(
    before: Seq<u64>,
    after: Seq<u64>,
    cpu_dom: Seq<Option<usize>>,
    utils: Seq<u64>,
    threshold: u64,
) -> bool {
    &&& after.len() == 8
    &&& forall|c: int|
        0 <= c < MAX_CPUS ==> #[trigger] mask_bit(after, c) == if c < cpu_dom.len()
            && cpu_dom[c] is Some {
            greedy_enabled(threshold, utils[cpu_dom[c]->Some_0 as int])
        } else {
            mask_bit(before, c)
        }
}

/// A higher threshold only adds CPUs to a mask: with the same utilization, a
/// CPU that is in the mask under the lower threshold is in it under the higher.
pub proof fn lemma_tune_mask_monotone(
    before: Seq<u64>,
    low: Seq<u64>,
    high: Seq<u64>,
    cpu_dom: Seq<Option<usize>>,
    utils: Seq<u64>,
    t1: u64,
    t2: u64,
)
    requires
        t1 < t2,
        mask_tuned(before, low, cpu_dom, utils, t1),
        mask_tuned(before, high, cpu_dom, utils, t2),
    ensures
        forall|c: int| 0 <= c < MAX_CPUS && mask_bit(low, c) ==> #[trigger] mask_bit(high, c),
{
    assert forall|c: int| 0 <= c < MAX_CPUS && mask_bit(low, c) implies #[trigger] mask_bit(
        high,
        c,
    ) by {
        assert(mask_bit(low, c));
    }
}

/// A threshold of 0 switches a mask off: whatever the utilization, no CPU
/// that has a domain is in it.
pub proof fn lemma_threshold_zero(
    before: Seq<u64>,
    after: Seq<u64>,
    cpu_dom: Seq<Option<usize>>,
    utils: Seq<u64>,
)
    requires
        mask_tuned(before, after, cpu_dom, utils, 0),
    ensures
        forall|c: int|
            0 <= c < MAX_CPUS && c < cpu_dom.len() && cpu_dom[c] is Some ==> !#[trigger] mask_bit(
                after,
                c,
            ),
{
}

/// A threshold of 1 switches a mask on: whatever the utilization, every CPU
/// that has a domain is in it.
pub proof fn lemma_threshold_one(
    before: Seq<u64>,
    after: Seq<u64>,
    cpu_dom: Seq<Option<usize>>,
    utils: Seq<u64>,
)
    requires
        mask_tuned(before, after, cpu_dom, utils, UNIT),
    ensures
        forall|c: int|
            0 <= c < MAX_CPUS && c < cpu_dom.len() && cpu_dom[c] is Some ==> #[trigger] mask_bit(
                after,
                c,
            ),
{
}

proof fn lemma_set_bit(w: u64, k: u64, j: u64)
    by (bit_vector)
    requires
        k < 64,
        j < 64,
    ensures
        (((w | (1u64 << k)) >> j) & 1 == 1) == (j == k || (w >> j) & 1 == 1),
{
}

proof fn lemma_clear_bit(w: u64, k: u64, j: u64)
    by (bit_vector)
    requires
        k < 64,
        j < 64,
    ensures
        (((w & !(1u64 << k)) >> j) & 1 == 1) == (j != k && (w >> j) & 1 == 1),
{
}

/// Sets the bit of every CPU that has a domain to what the utilization of the
/// domain and the threshold say.
fn tune_mask(mask: &mut [u64; 8], cpu_dom: &Vec<Option<usize>>, utils: &Vec<u64>, threshold: u64)
    requires
        cpu_dom@.len() <= MAX_CPUS,
        forall|c: int|
            0 <= c < cpu_dom@.len() ==> (#[trigger] cpu_dom@[c] matches Some(d) ==> d
                < utils@.len()),
    ensures
        mask_tuned(old(mask)@, final(mask)@, cpu_dom@, utils@, threshold),
{
    let ghost before = mask@;
    let mut cpu: usize = 0;
    while cpu < cpu_dom.len()
        invariant
            0 <= cpu <= cpu_dom@.len() <= MAX_CPUS,
            before == old(mask)@,
            forall|c: int|
                0 <= c < cpu_dom@.len() ==> (#[trigger] cpu_dom@[c] matches Some(d) ==> d
                    < utils@.len()),
            forall|c: int|
                0 <= c < MAX_CPUS ==> #[trigger] mask_bit(mask@, c) == if c < cpu && cpu_dom@[c]
                    is Some {
                    greedy_enabled(threshold, utils@[cpu_dom@[c]->Some_0 as int])
                } else {
                    mask_bit(before, c)
                },
        decreases cpu_dom@.len() - cpu,
    {
        match cpu_dom[cpu] {
            Some(dom) => {
                let on: bool = threshold > ALWAYS_ON_ABOVE || utils[dom] < threshold;
                let w: usize = cpu / 64;
                let k: u64 = (cpu % 64) as u64;
                let word: u64 = mask[w];
                let ghost mask1 = mask@;
                let new_word: u64 = if on {
                    word | (1u64 << k)
                } else {
                    word & !(1u64 << k)
                };
                mask[w] = new_word;
                proof {
                    assert forall|c: int| 0 <= c < MAX_CPUS implies #[trigger] mask_bit(mask@, c)
                        == if c < cpu + 1 && cpu_dom@[c] is Some {
                        greedy_enabled(threshold, utils@[cpu_dom@[c]->Some_0 as int])
                    } else {
                        mask_bit(before, c)
                    } by {
                        assert(mask_bit(mask1, c) == if c < cpu && cpu_dom@[c] is Some {
                            greedy_enabled(threshold, utils@[cpu_dom@[c]->Some_0 as int])
                        } else {
                            mask_bit(before, c)
                        });
                        if c / 64 == w {
                            let j: u64 = (c % 64) as u64;
                            lemma_set_bit(word, k, j);
                            lemma_clear_bit(word, k, j);
                        } else {
                            assert(mask@[c / 64] == mask1[c / 64]);
                        }
                    }
                }
            },
            None => {},
        }
        cpu += 1;
    }
}

/// The tuner.
pub struct Tuner {
    nr_doms: usize,
    cpu_dom: Vec<Option<usize>>,
    direct_greedy_under: u64,
    kick_greedy_under: u64,
    prev_cpu_stats: BTreeMap<usize, CpuStat>,
    dom_utils: Vec<u64>,
}

impl View for Tuner {
    type V = TunerView;

    closed spec fn view(&self) -> TunerView {
        TunerView {
            nr_doms: self.nr_doms as nat,
            cpu_dom: self.cpu_dom@,
            direct_greedy_under: self.direct_greedy_under,
            kick_greedy_under: self.kick_greedy_under,
            prev: self.prev_cpu_stats@,
            dom_utils: self.dom_utils@,
        }
    }
}

/// One more CPU: what the count and the sum of every domain gain from it.
proof fn lemma_util_step(
    cpu_dom: Seq<Option<usize>>,
    prev: Map<usize, CpuStat>,
    curr: Map<usize, CpuStat>,
    dom: int,
    n: int,
)
    requires
        0 <= n,
    ensures
        0 <= util_count(cpu_dom, prev, curr, dom, n) <= n,
        0 <= util_sum(cpu_dom, prev, curr, dom, n) <= util_count(cpu_dom, prev, curr, dom, n)
            * UNIT,
    decreases n,
{
    if n > 0 {
        lemma_util_step(cpu_dom, prev, curr, dom, n - 1);
        if counted(cpu_dom, prev, curr, dom, n - 1) {
            lemma_util_bounds(curr[(n - 1) as usize], prev[(n - 1) as usize]);
        }
    }
}

impl Tuner {
    /// One utilization per domain, and every CPU in a domain that exists.
    pub open spec fn wf(&self) -> bool {
        self@.wf()
    }

    /// A tuner for the domains of `top`. The thresholds are in millionths;
    /// `prev_cpu_stats` are the counters of every CPU as they stand now.
    pub fn new(
        top: &Topology,
        direct_greedy_under: u64,
        kick_greedy_under: u64,
        prev_cpu_stats: BTreeMap<usize, CpuStat>,
    ) -> (t: Tuner)
        requires
            top.wf(),
        ensures
            t.wf(),
            t@ == (TunerView {
                nr_doms: top@.nr_doms,
                cpu_dom: top@.cpu_dom,
                direct_greedy_under,
                kick_greedy_under,
                prev: prev_cpu_stats@,
                dom_utils: Seq::new(top@.nr_doms, |d: int| 0u64),
            }),
    {
        proof {
            top.lemma_wf_view();
        }
        let nr_doms: usize = top.nr_doms();
        let mut dom_utils: Vec<u64> = Vec::new();
        let mut d: usize = 0;
        while d < nr_doms
            invariant
                0 <= d <= nr_doms,
                dom_utils@ == Seq::new(d as nat, |i: int| 0u64),
            decreases nr_doms - d,
        {
            dom_utils.push(0);
            d += 1;
            assert(dom_utils@ =~= Seq::new(d as nat, |i: int| 0u64));
        }
        Tuner {
            nr_doms,
            cpu_dom: top.cpu_doms(),
            direct_greedy_under,
            kick_greedy_under,
            prev_cpu_stats,
            dom_utils,
        }
    }

    /// The utilization of a domain at the last step, in millionths; 0 for a
    /// domain that does not exist.
    pub fn dom_util(&self, dom: usize) -> (u: u64)
        ensures
            u == if dom < self@.dom_utils.len() {
                self@.dom_utils[dom as int]
            } else {
                0
            },
    {
        if dom < self.dom_utils.len() {
            self.dom_utils[dom]
        } else {
            0
        }
    }

    /// One step of the tuner. `curr_cpu_stats` are the counters of every CPU
    /// as they stand now. The utilization of every domain is taken against the
    /// counters of the last step, both masks are set from it, and the
    /// generation counter goes up by one.
    pub fn step(&mut self, curr_cpu_stats: BTreeMap<usize, CpuStat>, ti: &mut TuneInput)
        requires
            old(self).wf(),
            old(ti).gen < u64::MAX,
        ensures
            final(self).wf(),
            final(self)@ == (TunerView {
                prev: curr_cpu_stats@,
                dom_utils: Seq::new(
                    old(self)@.nr_doms,
                    |d: int|
                        dom_util(old(self)@.cpu_dom, old(self)@.prev, curr_cpu_stats@, d) as u64,
                ),
                ..old(self)@
            }),
            mask_tuned(
                old(ti).direct_greedy_cpumask@,
                final(ti).direct_greedy_cpumask@,
                old(self)@.cpu_dom,
                final(self)@.dom_utils,
                old(self)@.direct_greedy_under,
            ),
            mask_tuned(
                old(ti).kick_greedy_cpumask@,
                final(ti).kick_greedy_cpumask@,
                old(self)@.cpu_dom,
                final(self)@.dom_utils,
                old(self)@.kick_greedy_under,
            ),
            final(ti).gen == old(ti).gen + 1,
    {
        let nr_doms: usize = self.nr_doms;
        let nr_cpus: usize = self.cpu_dom.len();
        let ghost cpu_dom = self.cpu_dom@;
        let ghost prev = self.prev_cpu_stats@;
        let ghost curr = curr_cpu_stats@;
        let mut dom_nr_cpus: Vec<u64> = Vec::new();
        let mut dom_util_sum: Vec<u64> = Vec::new();
        let mut d: usize = 0;
        while d < nr_doms
            invariant
                0 <= d <= nr_doms,
                dom_nr_cpus@.len() == d,
                dom_util_sum@.len() == d,
                forall|i: int| 0 <= i < d ==> #[trigger] dom_nr_cpus@[i] == 0,
                forall|i: int| 0 <= i < d ==> #[trigger] dom_util_sum@[i] == 0,
            decreases nr_doms - d,
        {
            dom_nr_cpus.push(0);
            dom_util_sum.push(0);
            d += 1;
        }
        let mut cpu: usize = 0;
        while cpu < nr_cpus
            invariant
                self.wf(),
                self@ == old(self)@,
                cpu_dom == self@.cpu_dom,
                prev == self@.prev,
                curr == curr_cpu_stats@,
                nr_doms == self@.nr_doms,
                nr_cpus == cpu_dom.len(),
                0 <= cpu <= nr_cpus,
                dom_nr_cpus@.len() == nr_doms,
                dom_util_sum@.len() == nr_doms,
                forall|i: int|
                    0 <= i < nr_doms ==> #[trigger] dom_nr_cpus@[i] == util_count(
                        cpu_dom,
                        prev,
                        curr,
                        i,
                        cpu as int,
                    ),
                forall|i: int|
                    0 <= i < nr_doms ==> #[trigger] dom_util_sum@[i] == util_sum(
                        cpu_dom,
                        prev,
                        curr,
                        i,
                        cpu as int,
                    ),
            decreases nr_cpus - cpu,
        {
            match self.cpu_dom[cpu] {
                Some(dom) => {
                    match (curr_cpu_stats.get(&cpu), self.prev_cpu_stats.get(&cpu)) {
                        (Some(now_stat), Some(prev_stat)) => {
                            let util: u64 = now_stat.calc_util(prev_stat);
                            proof {
                                assert(counted(cpu_dom, prev, curr, dom as int, cpu as int));
                                lemma_util_step(cpu_dom, prev, curr, dom as int, cpu as int);
                                let n = util_count(cpu_dom, prev, curr, dom as int, cpu as int);
                                assert(n * UNIT <= cpu * UNIT) by (nonlinear_arith)
                                    requires
                                        0 <= n <= cpu,
                                ;
                            }
                            let nr: u64 = dom_nr_cpus[dom];
                            let sum: u64 = dom_util_sum[dom];
                            dom_nr_cpus.set(dom, nr + 1);
                            dom_util_sum.set(dom, sum + util);
                        },
                        _ => {},
                    }
                },
                None => {},
            }
            cpu += 1;
        }
        let mut utils: Vec<u64> = Vec::new();
        let mut d: usize = 0;
        while d < nr_doms
            invariant
                0 <= d <= nr_doms,
                nr_cpus == cpu_dom.len(),
                dom_nr_cpus@.len() == nr_doms,
                dom_util_sum@.len() == nr_doms,
                utils@.len() == d,
                forall|i: int|
                    0 <= i < nr_doms ==> #[trigger] dom_nr_cpus@[i] == util_count(
                        cpu_dom,
                        prev,
                        curr,
                        i,
                        nr_cpus as int,
                    ),
                forall|i: int|
                    0 <= i < nr_doms ==> #[trigger] dom_util_sum@[i] == util_sum(
                        cpu_dom,
                        prev,
                        curr,
                        i,
                        nr_cpus as int,
                    ),
                forall|i: int|
                    0 <= i < d ==> #[trigger] utils@[i] == dom_util(cpu_dom, prev, curr, i),
            decreases nr_doms - d,
        {
            let nr: u64 = dom_nr_cpus[d];
            let util: u64 = if nr == 0 {
                0
            } else {
                dom_util_sum[d] / nr
            };
            utils.push(util);
            d += 1;
        }
        let mut direct: [u64; 8] = ti.direct_greedy_cpumask;
        let mut kick: [u64; 8] = ti.kick_greedy_cpumask;
        tune_mask(&mut direct, &self.cpu_dom, &utils, self.direct_greedy_under);
        tune_mask(&mut kick, &self.cpu_dom, &utils, self.kick_greedy_under);
        ti.direct_greedy_cpumask = direct;
        ti.kick_greedy_cpumask = kick;
        ti.gen = ti.gen + 1;
        self.dom_utils = utils;
        self.prev_cpu_stats = curr_cpu_stats;
        proof {
            assert(self@.dom_utils =~= Seq::new(
                old(self)@.nr_doms,
                |d: int| dom_util(old(self)@.cpu_dom, old(self)@.prev, curr_cpu_stats@, d) as u64,
            ));
        }
    }
}

} // verus!
