//! What the scheduler is set up with, what it publishes to the kernel side at
//! start, and one round of load balancing from end to end.
use crate::balance_types::{LoadError, Migration};
use crate::cpumask::word_has_bit;
use crate::error::ConfigError;
use crate::load::TaskCtx;
use crate::load_balancer::{
    fresh_view, planned, read_task_loads_spec, view_after_calc, view_after_read, LoadBalancer,
};
use crate::plan::plan_lawful;
use crate::sampling::TaskLoads;
use crate::topology::Topology;
use crate::units::{MASK_WORDS, MAX_CPUS};
use vstd::prelude::*;

verus! {

/// The options of the scheduler. Fractions are in millionths: a decay factor
/// of 0.5 is 500_000, a threshold of 90% is 900_000.
pub struct Options {
    /// Scheduling slice in microseconds.
    pub slice_us: u64,
    /// Time between two rounds of load balancing, in nanoseconds.
    pub interval: u64,
    /// Time between two steps of the tuner, in nanoseconds.
    pub tune_interval: u64,
    /// The cache level by which CPUs are grouped where no masks are given.
    pub cache_level: u32,
    /// One CPU mask per domain; empty to group by cache.
    pub cpumasks: Vec<String>,
    /// The queue length from which a domain may be stolen from; 0 for never.
    pub greedy_threshold: u32,
    pub load_decay_factor: u64,
    pub no_load_balance: bool,
    pub kthreads_local: bool,
    pub balanced_kworkers: bool,
    pub fifo_sched: bool,
    pub direct_greedy_under: u64,
    pub kick_greedy_under: u64,
    pub partial: bool,
}

/// What the kernel side is told before it is attached.
pub struct KernelConfig {
    pub nr_doms: u32,
    pub nr_cpus: u32,
    /// The domain of every CPU, 0 for a CPU without one.
    pub cpu_dom_id_map: Vec<u32>,
    /// The CPU set of every domain, in words of 64 CPUs.
    pub dom_cpumasks: Vec<Vec<u64>>,
    pub slice_ns: u64,
    pub kthreads_local: bool,
    pub fifo_sched: bool,
    pub switch_partial: bool,
    pub greedy_threshold: u32,
}

impl Options {
    /// Whether the domains come from masks rather than from the caches.
    pub fn uses_cpumasks(&self) -> (r: bool)
        ensures
            r == (self.cpumasks@.len() > 0),
    {
        self.cpumasks.len() > 0
    }

    /// Whether the rounds plan moves at all.
    pub fn balance_load(&self) -> (r: bool)
        ensures
            r == !self.no_load_balance,
    {
        !self.no_load_balance
    }
}

/// Whether the configuration says of a topology and of the options what it
/// has to say.
pub open spec fn config_matches(c: KernelConfig, top: Topology, opts: Options) -> bool {
    &&& c.nr_doms == top@.nr_doms
    &&& c.nr_cpus == top@.nr_cpus
    &&& c.cpu_dom_id_map@.len() == top@.nr_cpus
    &&& forall|cpu: int|
        0 <= cpu < top@.nr_cpus ==> #[trigger] c.cpu_dom_id_map@[cpu] == match top@.cpu_dom[cpu] {
            Some(d) => d as u32,
            None => 0u32,
        }
    &&& c.dom_cpumasks@.len() == top@.nr_doms
    &&& forall|d: int| 0 <= d < top@.nr_doms ==> (#[trigger] c.dom_cpumasks@[d])@.len() == MASK_WORDS
    &&& forall|d: int, cpu: int|
        0 <= d < top@.nr_doms && 0 <= cpu < MAX_CPUS ==> word_has_bit(
            c.dom_cpumasks@[d]@[cpu / 64],
            cpu % 64,
        ) == #[trigger] top@.dom_cpus[d].contains(cpu)
    &&& c.slice_ns == opts.slice_us * 1000
    &&& c.kthreads_local == opts.kthreads_local
    &&& c.fifo_sched == opts.fifo_sched
    &&& c.switch_partial == opts.partial
    &&& c.greedy_threshold == opts.greedy_threshold
}

/// Puts together what the kernel side is told before it is attached. Fails
/// where the slice in nanoseconds does not fit in 64 bits.
pub fn kernel_config(top: &Topology, opts: &Options) -> (r: Result<KernelConfig, ConfigError>)
    requires
        top.wf(),
    ensures
        match r {
            Ok(c) => opts.slice_us * 1000 <= u64::MAX && config_matches(c, *top, *opts),
            Err(ConfigError::SliceTooLong { slice_us }) => slice_us == opts.slice_us
                && opts.slice_us * 1000 > u64::MAX,
            Err(_) => false,
        },
{
    proof {
        top.lemma_wf_view();
    }
    if opts.slice_us > u64::MAX / 1000 {
        return Err(ConfigError::SliceTooLong { slice_us: opts.slice_us });
    }
    let nr_doms: usize = top.nr_doms();
    let mut dom_cpumasks: Vec<Vec<u64>> = Vec::new();
    let mut dom: usize = 0;
    while dom < nr_doms
        invariant
            top.wf(),
            nr_doms == top@.nr_doms,
            0 <= dom <= nr_doms,
            dom_cpumasks@.len() == dom,
            forall|d: int| 0 <= d < dom ==> (#[trigger] dom_cpumasks@[d])@.len() == MASK_WORDS,
            forall|d: int, cpu: int|
                0 <= d < dom && 0 <= cpu < MAX_CPUS ==> word_has_bit(
                    dom_cpumasks@[d]@[cpu / 64],
                    cpu % 64,
                ) == #[trigger] top@.dom_cpus[d].contains(cpu),
        decreases nr_doms - dom,
    {
        let words = top.dom_cpumask(dom);
        dom_cpumasks.push(words);
        dom += 1;
    }
    Ok(
        KernelConfig {
            nr_doms: nr_doms as u32,
            nr_cpus: top.nr_cpus() as u32,
            cpu_dom_id_map: top.cpu_dom_id_map(),
            dom_cpumasks,
            slice_ns: opts.slice_us * 1000,
            kthreads_local: opts.kthreads_local,
            fifo_sched: opts.fifo_sched,
            switch_partial: opts.partial,
            greedy_threshold: opts.greedy_threshold,
        },
    )
}

/// What one round of load balancing has found.
pub struct RoundReport {
    pub load_avg: i128,
    pub dom_loads: Vec<i128>,
    /// How far every domain is off the average; 0 where too little to act on.
    pub imbal: Vec<i128>,
    /// The tasks to move, in the order they are to be handed over.
    pub moves: Vec<Migration>,
}

/// What a round comes to, given what the last round remembered of the tasks:
/// the loads are read, the domains off the average are found, and, where
/// `balance_load` is set, the moves are planned. A report that names a pid
/// twice fails the round, so that no pid moves twice in a round.
pub open spec fn round_spec(
    nr_doms: nat,
    task_loads: Map<i32, crate::load::TaskLoad>,
    tasks: Seq<TaskCtx>,
    now: u64,
    period: u64,
    load_decay_factor: u64,
    skip_kworkers: bool,
    balance_load: bool,
    remembered: Map<i32, crate::load::TaskLoad>,
    r: Result<RoundReport, LoadError>,
) -> bool {
    let v0 = fresh_view(nr_doms, task_loads, load_decay_factor, skip_kworkers);
    match r {
        Err(e) => {
            &&& read_task_loads_spec(v0, tasks, now, period, Err(e), v0)
            &&& remembered == task_loads
        },
        Ok(report) => {
            let v1 = view_after_read(v0, tasks, now, period);
            let v2 = view_after_calc(v1);
            &&& read_task_loads_spec(v0, tasks, now, period, Ok(()), v1)
            &&& remembered == v1.task_loads
            &&& report.load_avg == v2.load_avg
            &&& report.dom_loads@ == v2.dom_loads
            &&& report.imbal@ == v2.imbal
            &&& report.moves@ == if balance_load {
                planned(v2).moves
            } else {
                Seq::empty()
            }
            &&& plan_lawful(v2.tasks_by_load, v2.dom_loads, skip_kworkers, report.moves@)
            &&& forall|a: int, b: int|
                0 <= a < b < report.moves@.len() ==> (#[trigger] report.moves@[a]).pid != (
                #[trigger] report.moves@[b]).pid
        },
    }
}

/// One round of load balancing. `task_loads` is what the last round
/// remembered; what this round remembers comes back with the report. Where
/// the loads cannot be read, nothing is forgotten. A report that names a pid
/// twice cannot be read, so that no pid moves twice in a round.
pub fn lb_step(
    top: &Topology,
    task_loads: TaskLoads,
    tasks: &Vec<TaskCtx>,
    now: u64,
    period: u64,
    load_decay_factor: u64,
    skip_kworkers: bool,
    balance_load: bool,
) -> (r: (TaskLoads, Result<RoundReport, LoadError>))
    requires
        top.wf(),
        task_loads.wf(),
    ensures
        r.0.wf(),
        round_spec(
            top@.nr_doms,
            task_loads@,
            tasks@,
            now,
            period,
            load_decay_factor,
            skip_kworkers,
            balance_load,
            r.0@,
            r.1,
        ),
{
    let mut lb = LoadBalancer::new(top, task_loads, load_decay_factor, skip_kworkers);
    match lb.read_task_loads(tasks, now, period) {
        Err(e) => {
            return (lb.into_task_loads(), Err(e));
        },
        Ok(()) => {},
    }
    lb.calculate_dom_load_balance();
    let load_avg: i128 = lb.load_avg();
    let dom_loads = lb.dom_loads();
    let imbal = lb.imbal();
    let moves: Vec<Migration> = if balance_load {
        lb.load_balance()
    } else {
        Vec::new()
    };
    let report = RoundReport { load_avg, dom_loads, imbal, moves };
    (lb.into_task_loads(), Ok(report))
}

} // verus!
