//! The load balancer: reads the load of every task, finds the domains that
//! are off the average, and plans which tasks move where.
use crate::balance_types::{
    doms_distinct, entries_bounded, imbal_insert, imbal_rank, imbal_sorted, imbals_bounded,
    index_sorted, insert_by_imbal, insert_by_load, lacks_dom, lemma_imbal_rank,
    lemma_index_insert_sorted, lemma_load_rank, load_rank, DomImbal, LoadEntry, LoadError,
    Migration, TaskInfo, MAX_TOTAL_LOAD,
};
use crate::load::{sample_load, TaskCtx, TaskLoad};
use crate::plan::{
    drain, drain_dom, drain_facts, lemma_drained_same_pids, lemma_empty_pids_distinct,
    lemma_imbal_insert_wf, lemma_plan_end, lemma_plan_facts_step, lemma_plan_lawful,
    lemma_plan_step, lemma_same_pids_distinct, move_takes, plan, plan_facts, plan_lawful,
    pids_distinct, same_pids, Plan,
};
use crate::sampling::{
    first_repeat, lemma_index_pids_distinct, lemma_no_repeat_step, lemma_remembered_pids,
    lemma_sampling_step, loads_bounded, lookup, task_pids_distinct, Sampling, TaskLoads,
};
use crate::topology::Topology;
use crate::units::{MAX_DECAY, MAX_DOMS, MAX_TASK_LOAD};
use crate::victim::{can_move, dist, lemma_victim, new_imbal, pick_from, victim};
use vstd::prelude::*;

verus! {

/// The state of the balancer, as plain mathematics.
pub struct LoadBalancerView {
    pub nr_doms: nat,
    /// The decay factor, in millionths.
    pub decay: u64,
    pub skip_kworkers: bool,
    pub task_loads: Map<i32, TaskLoad>,
    /// For each domain, its tasks that may move, in ascending order of load.
    pub tasks_by_load: Seq<Seq<LoadEntry>>,
    pub load_avg: i128,
    pub dom_loads: Seq<i128>,
    /// For each domain, how far its load is off the average; 0 where that is
    /// too little to act on.
    pub imbal: Seq<i128>,
    /// The domains with too much load, the one with the least excess first.
    pub doms_to_push: Seq<DomImbal>,
    /// The domains with too little load, the one with the least lack first.
    pub doms_to_pull: Seq<DomImbal>,
}

impl LoadBalancerView {
    /// One index and one load per domain, every index in ascending order of
    /// load, no pid twice in the indexes, every list of domains in order and
    /// without repeats, and every amount within what the arithmetic can hold.
    pub open spec fn wf(self) -> bool {
        &&& self.nr_doms <= MAX_DOMS
        &&& self.decay <= MAX_DECAY
        &&& loads_bounded(self.task_loads)
        &&& self.tasks_by_load.len() == self.nr_doms
        &&& self.dom_loads.len() == self.nr_doms
        &&& self.imbal.len() == self.nr_doms
        &&& forall|d: int|
            0 <= d < self.nr_doms ==> index_sorted(#[trigger] self.tasks_by_load[d])
                && entries_bounded(self.tasks_by_load[d])
        &&& forall|d: int| 0 <= d < self.nr_doms ==> 0 <= #[trigger] self.dom_loads[d] <= MAX_TOTAL_LOAD
        &&& 0 <= self.load_avg <= MAX_TOTAL_LOAD
        &&& pids_distinct(self.tasks_by_load)
        &&& imbal_sorted(self.doms_to_push)
        &&& imbals_bounded(self.doms_to_push, self.nr_doms)
        &&& doms_distinct(self.doms_to_push)
        &&& imbal_sorted(self.doms_to_pull)
        &&& imbals_bounded(self.doms_to_pull, self.nr_doms)
        &&& doms_distinct(self.doms_to_pull)
    }
}

/// The state of a balancer that has seen no task yet.
pub open spec fn fresh_view(
    nr_doms: nat,
    task_loads: Map<i32, TaskLoad>,
    load_decay_factor: u64,
    skip_kworkers: bool,
) -> LoadBalancerView {
    LoadBalancerView {
        nr_doms,
        decay: if load_decay_factor <= MAX_DECAY {
            load_decay_factor
        } else {
            MAX_DECAY
        },
        skip_kworkers,
        task_loads,
        tasks_by_load: Seq::new(nr_doms, |d: int| Seq::<LoadEntry>::empty()),
        load_avg: 0,
        dom_loads: Seq::new(nr_doms, |d: int| 0i128),
        imbal: Seq::new(nr_doms, |d: int| 0i128),
        doms_to_push: Seq::empty(),
        doms_to_pull: Seq::empty(),
    }
}

/// The state after the loads of the tasks have been read: what is remembered,
/// the loads of the domains, their average and the index of every domain are
/// new, the rest is as before.
pub open spec fn view_after_read(
    pre: LoadBalancerView,
    tasks: Seq<TaskCtx>,
    now: u64,
    period: u64,
) -> LoadBalancerView {
    let s = Sampling { prev: pre.task_loads, now, period, decay: pre.decay };
    LoadBalancerView {
        task_loads: s.loads_after(tasks),
        tasks_by_load: Seq::new(pre.nr_doms, |d: int| s.index_of(tasks, d)),
        load_avg: (s.total_load(tasks) / (pre.nr_doms as int)) as i128,
        dom_loads: Seq::new(pre.nr_doms, |d: int| s.dom_load(tasks, d) as i128),
        ..pre
    }
}

/// Whether task `k` is the first that is in a domain that does not exist.
pub open spec fn first_bad_domain(tasks: Seq<TaskCtx>, nr_doms: nat, k: int) -> bool {
    &&& 0 <= k < tasks.len()
    &&& tasks[k].dom_id >= nr_doms
    &&& forall|j: int| 0 <= j < k ==> (#[trigger] tasks[j]).dom_id < nr_doms
}

/// What reading the loads does: it fails where no time has passed, where
/// there is no domain, on the first task in a domain that does not exist, and,
/// where every task is in a domain that exists, on the first task whose pid an
/// earlier task has; and then changes nothing. Else it replaces what is
/// remembered, the loads of the domains, their average and the index of every
/// domain.
pub open spec fn read_task_loads_spec(
    pre: LoadBalancerView,
    tasks: Seq<TaskCtx>,
    now: u64,
    period: u64,
    r: Result<(), LoadError>,
    post: LoadBalancerView,
) -> bool {
    match r {
        Ok(()) => {
            &&& period > 0
            &&& pre.nr_doms > 0
            &&& forall|k: int| 0 <= k < tasks.len() ==> (#[trigger] tasks[k]).dom_id < pre.nr_doms
            &&& task_pids_distinct(tasks)
            &&& post == view_after_read(pre, tasks, now, period)
        },
        Err(LoadError::ZeroPeriod) => period == 0 && post == pre,
        Err(LoadError::NoDomains) => period > 0 && pre.nr_doms == 0 && post == pre,
        Err(LoadError::BadDomain { pid, dom_id }) => {
            &&& period > 0
            &&& pre.nr_doms > 0
            &&& post == pre
            &&& exists|k: int|
                #[trigger] first_bad_domain(tasks, pre.nr_doms, k) && tasks[k].pid == pid
                    && tasks[k].dom_id == dom_id
        },
        Err(LoadError::DuplicatePid { pid }) => {
            &&& period > 0
            &&& pre.nr_doms > 0
            &&& forall|k: int| 0 <= k < tasks.len() ==> (#[trigger] tasks[k]).dom_id < pre.nr_doms
            &&& post == pre
            &&& exists|k: int| #[trigger] first_repeat(tasks, k) && tasks[k].pid == pid
        },
    }
}

/// The balancer of one round.
pub struct LoadBalancer {
    nr_doms: usize,
    task_loads: TaskLoads,
    load_decay_factor: u64,
    skip_kworkers: bool,
    tasks_by_load: Vec<Vec<LoadEntry>>,
    load_avg: i128,
    dom_loads: Vec<i128>,
    imbal: Vec<i128>,
    doms_to_push: Vec<DomImbal>,
    doms_to_pull: Vec<DomImbal>,
}

impl View for LoadBalancer {
    type V = LoadBalancerView;

    closed spec fn view(&self) -> LoadBalancerView {
        LoadBalancerView {
            nr_doms: self.nr_doms as nat,
            decay: self.load_decay_factor,
            skip_kworkers: self.skip_kworkers,
            task_loads: self.task_loads@,
            tasks_by_load: Seq::new(self.tasks_by_load@.len(), |d: int| self.tasks_by_load@[d]@),
            load_avg: self.load_avg,
            dom_loads: self.dom_loads@,
            imbal: self.imbal@,
            doms_to_push: self.doms_to_push@,
            doms_to_pull: self.doms_to_pull@,
        }
    }
}

/// A list of `n` zeros.
fn zeros(n: usize) -> (v: Vec<i128>)
    ensures
        v@ == Seq::new(n as nat, |i: int| 0i128),
{
    let mut v: Vec<i128> = Vec::new();
    let mut i: usize = 0;
    while i < n
        invariant
            0 <= i <= n,
            v@ == Seq::new(i as nat, |j: int| 0i128),
        decreases n - i,
    {
        v.push(0);
        i += 1;
        assert(v@ =~= Seq::new(i as nat, |j: int| 0i128));
    }
    v
}

/// A list of `n` empty indexes.
fn empty_indexes(n: usize) -> (v: Vec<Vec<LoadEntry>>)
    ensures
        v@.len() == n,
        forall|d: int| 0 <= d < n ==> (#[trigger] v@[d])@ == Seq::<LoadEntry>::empty(),
{
    let mut v: Vec<Vec<LoadEntry>> = Vec::new();
    let mut i: usize = 0;
    while i < n
        invariant
            0 <= i <= n,
            v@.len() == i,
            forall|d: int| 0 <= d < i ==> (#[trigger] v@[d])@ == Seq::<LoadEntry>::empty(),
        decreases n - i,
    {
        v.push(Vec::new());
        i += 1;
    }
    v
}

impl LoadBalancer {
    /// The state is sound: one index and one load per domain, every index in
    /// ascending order, every list of domains in order and without repeats,
    /// and all amounts within what the arithmetic can hold.
    pub open spec fn wf(&self) -> bool {
        self@.wf()
    }

    /// A balancer for the domains of `top` that has seen no task yet.
    /// `task_loads` is what the last round remembered. The decay factor is in
    /// millionths and is cut to `MAX_DECAY`.
    pub fn new(
        top: &Topology,
        task_loads: TaskLoads,
        load_decay_factor: u64,
        skip_kworkers: bool,
    ) -> (lb: LoadBalancer)
        requires
            top.wf(),
            task_loads.wf(),
        ensures
            lb.wf(),
            lb@ == fresh_view(top@.nr_doms, task_loads@, load_decay_factor, skip_kworkers),
    {
        proof {
            top.lemma_wf_view();
            lemma_empty_pids_distinct(top@.nr_doms);
        }
        let nr_doms: usize = top.nr_doms();
        let lb = LoadBalancer {
            nr_doms,
            task_loads,
            load_decay_factor: if load_decay_factor <= MAX_DECAY {
                load_decay_factor
            } else {
                MAX_DECAY
            },
            skip_kworkers,
            tasks_by_load: empty_indexes(nr_doms),
            load_avg: 0,
            dom_loads: zeros(nr_doms),
            imbal: zeros(nr_doms),
            doms_to_push: Vec::new(),
            doms_to_pull: Vec::new(),
        };
        assert(lb@.tasks_by_load =~= Seq::new(top@.nr_doms, |d: int| Seq::<LoadEntry>::empty()));
        lb
    }

    /// Gives back what this round remembers of the tasks, for the next round.
    pub fn into_task_loads(self) -> (t: TaskLoads)
        requires
            self.wf(),
        ensures
            t@ == self@.task_loads,
            t.wf(),
    {
        self.task_loads
    }
}

impl LoadBalancer {
    /// Takes the load of every task reported by the kernel side. `now` is the
    /// reading of the monotonic clock and `period` the time since the last
    /// round, both in nanoseconds. A report that names a pid twice is refused.
    pub fn read_task_loads(&mut self, tasks: &Vec<TaskCtx>, now: u64, period: u64) -> (r: Result<
        (),
        LoadError,
    >)
        requires
            old(self).wf(),
        ensures
            final(self).wf(),
            read_task_loads_spec(old(self)@, tasks@, now, period, r, final(self)@),
    {
        if period == 0 {
            return Err(LoadError::ZeroPeriod);
        }
        let nr_doms: usize = self.nr_doms;
        if nr_doms == 0 {
            return Err(LoadError::NoDomains);
        }
        let n: usize = tasks.len();
        let mut k: usize = 0;
        while k < n
            invariant
                n == tasks@.len(),
                0 <= k <= n,
                period > 0,
                self.wf(),
                self@ == old(self)@,
                0 < nr_doms == self@.nr_doms,
                forall|j: int| 0 <= j < k ==> (#[trigger] tasks@[j]).dom_id < nr_doms,
            decreases n - k,
        {
            if tasks[k].dom_id as usize >= nr_doms {
                assert(first_bad_domain(tasks@, nr_doms as nat, k as int));
                return Err(LoadError::BadDomain { pid: tasks[k].pid, dom_id: tasks[k].dom_id });
            }
            k += 1;
        }
        let ghost s = Sampling {
            prev: self.task_loads@,
            now,
            period,
            decay: self.load_decay_factor,
        };
        let decay: u64 = self.load_decay_factor;
        let mut loads = TaskLoads::new();
        let mut dom_loads: Vec<i128> = zeros(nr_doms);
        let mut index: Vec<Vec<LoadEntry>> = empty_indexes(nr_doms);
        let mut load_sum: i128 = 0;
        let mut i: usize = 0;
        while i < n
            invariant
                n == tasks@.len(),
                0 <= i <= n,
                0 < nr_doms <= MAX_DOMS,
                period > 0,
                decay <= MAX_DECAY,
                forall|j: int| 0 <= j < n ==> (#[trigger] tasks@[j]).dom_id < nr_doms,
                self.wf(),
                self@ == old(self)@,
                nr_doms == self@.nr_doms,
                task_pids_distinct(tasks@.take(i as int)),
                s == (Sampling { prev: self.task_loads@, now, period, decay }),
                loads_bounded(self.task_loads@),
                loads.wf(),
                loads@ == s.loads_after(tasks@.take(i as int)),
                load_sum == s.total_load(tasks@.take(i as int)),
                0 <= load_sum <= i * MAX_TASK_LOAD,
                dom_loads@.len() == nr_doms,
                forall|d: int|
                    0 <= d < nr_doms ==> #[trigger] dom_loads@[d] == s.dom_load(
                        tasks@.take(i as int),
                        d,
                    ) && 0 <= dom_loads@[d] <= load_sum,
                index@.len() == nr_doms,
                forall|d: int|
                    0 <= d < nr_doms ==> (#[trigger] index@[d])@ == s.index_of(
                        tasks@.take(i as int),
                        d,
                    ) && index_sorted(index@[d]@) && entries_bounded(index@[d]@),
            decreases n - i,
        {
            let ctx: TaskCtx = tasks[i];
            proof {
                lemma_remembered_pids(s, tasks@.take(i as int));
            }
            if loads.get(ctx.pid).is_some() {
                assert(first_repeat(tasks@, i as int));
                return Err(LoadError::DuplicatePid { pid: ctx.pid });
            }
            proof {
                lemma_no_repeat_step(tasks@, i as int);
            }
            let dom: usize = ctx.dom_id as usize;
            let prev: Option<TaskLoad> = self.task_loads.get(ctx.pid);
            let load: u64 = sample_load(prev, &ctx, now, period, decay);
            proof {
                lemma_sampling_step(s, tasks@, i as int);
                assert(load == s.load_of(ctx));
            }
            loads.insert(ctx.pid, TaskLoad { runnable_for: ctx.runnable_for, load });
            load_sum = load_sum + load as i128;
            let dom_load: i128 = dom_loads[dom];
            dom_loads.set(dom, dom_load + load as i128);
            if ctx.dom_mask != (1u64 << (ctx.dom_id as u64)) {
                let entry = LoadEntry {
                    load,
                    task: TaskInfo {
                        pid: ctx.pid,
                        dom_mask: ctx.dom_mask,
                        migrated: false,
                        is_kworker: ctx.is_kworker,
                    },
                };
                proof {
                    assert(entry == s.entry_of(ctx));
                    lemma_index_insert_sorted(index@[dom as int]@, entry);
                }
                insert_by_load(&mut index[dom], entry);
                proof {
                    let t = index@[dom as int]@;
                    assert forall|j: int| 0 <= j < t.len() implies (#[trigger] t[j]).load
                        <= MAX_TASK_LOAD by {
                        lemma_load_rank(
                            s.index_of(tasks@.take(i as int), dom as int),
                            load,
                        );
                        let r = load_rank(
                            s.index_of(tasks@.take(i as int), dom as int),
                            load,
                        );
                        let before = s.index_of(tasks@.take(i as int), dom as int);
                        if j < r {
                            assert(t[j] == before[j]);
                        } else if j > r {
                            assert(t[j] == before[j - 1]);
                        }
                    }
                }
            }
            i += 1;
        }
        proof {
            assert(tasks@.take(n as int) == tasks@);
            assert(load_sum <= MAX_TOTAL_LOAD);
            lemma_index_pids_distinct(s, tasks@, nr_doms as nat);
        }
        let ghost pre = self@;
        self.task_loads = loads;
        self.dom_loads = dom_loads;
        self.tasks_by_load = index;
        self.load_avg = load_sum / (nr_doms as i128);
        proof {
            let post = self@;
            assert(post.tasks_by_load =~= Seq::new(pre.nr_doms, |d: int| s.index_of(tasks@, d)));
            assert(post.dom_loads =~= Seq::new(
                pre.nr_doms,
                |d: int| s.dom_load(tasks@, d) as i128,
            ));
            assert(post.load_avg == (s.total_load(tasks@) / (pre.nr_doms as int)) as i128);
        }
        Ok(())
    }
}

/// Whether a domain is far enough off the average to act on: by a tenth of
/// the average or more.
pub open spec fn acts_on(avg: int, off: int) -> bool {
    10 * dist(off, 0) >= avg
}

/// The domains among the first `n` with too much load, in order.
pub open spec fn pushes_upto(dom_loads: Seq<i128>, avg: i128, n: int) -> Seq<DomImbal>
    decreases n,
{
    if n <= 0 {
        Seq::empty()
    } else {
        let rest = pushes_upto(dom_loads, avg, n - 1);
        let off = dom_loads[n - 1] - avg;
        if acts_on(avg as int, off) && off > 0 {
            imbal_insert(rest, DomImbal { imbal: off as i128, dom: (n - 1) as u32 })
        } else {
            rest
        }
    }
}

/// The domains among the first `n` with too little load, in order.
pub open spec fn pulls_upto(dom_loads: Seq<i128>, avg: i128, n: int) -> Seq<DomImbal>
    decreases n,
{
    if n <= 0 {
        Seq::empty()
    } else {
        let rest = pulls_upto(dom_loads, avg, n - 1);
        let off = dom_loads[n - 1] - avg;
        if acts_on(avg as int, off) && off < 0 {
            imbal_insert(rest, DomImbal { imbal: (-off) as i128, dom: (n - 1) as u32 })
        } else {
            rest
        }
    }
}

/// How far the load of a domain is off the average, where that is enough to
/// act on, else 0.
pub open spec fn imbal_of(dom_loads: Seq<i128>, avg: i128, d: int) -> i128 {
    let off = dom_loads[d] - avg;
    if acts_on(avg as int, off) {
        off as i128
    } else {
        0
    }
}

/// The state after the domains off the average have been found.
pub open spec fn view_after_calc(pre: LoadBalancerView) -> LoadBalancerView {
    LoadBalancerView {
        imbal: Seq::new(pre.nr_doms, |d: int| imbal_of(pre.dom_loads, pre.load_avg, d)),
        doms_to_push: pushes_upto(pre.dom_loads, pre.load_avg, pre.nr_doms as int),
        doms_to_pull: pulls_upto(pre.dom_loads, pre.load_avg, pre.nr_doms as int),
        ..pre
    }
}

/// Every entry of the list is for a domain below `n`.
spec fn doms_below(s: Seq<DomImbal>, n: int) -> bool {
    forall|i: int| 0 <= i < s.len() ==> (#[trigger] s[i]).dom < n
}

/// What putting the next domain into a list keeps.
proof fn lemma_imbal_insert_keeps(s: Seq<DomImbal>, e: DomImbal, nr_doms: nat, n: int)
    requires
        imbal_sorted(s),
        imbals_bounded(s, nr_doms),
        doms_distinct(s),
        doms_below(s, n),
        e.dom == n,
        n < nr_doms,
        -(MAX_TASK_LOAD as int) <= e.imbal <= MAX_TOTAL_LOAD,
    ensures
        imbal_sorted(imbal_insert(s, e)),
        imbals_bounded(imbal_insert(s, e), nr_doms),
        doms_distinct(imbal_insert(s, e)),
        doms_below(imbal_insert(s, e), n + 1),
{
    assert(lacks_dom(s, e.dom));
    lemma_imbal_insert_wf(s, e, nr_doms);
    lemma_imbal_rank(s, e);
    let r = imbal_rank(s, e);
    let t = imbal_insert(s, e);
    assert forall|i: int| 0 <= i < t.len() implies (#[trigger] t[i]).dom < n + 1 by {
        if i < r {
            assert(t[i] == s[i]);
        } else if i > r {
            assert(t[i] == s[i - 1]);
        }
    }
}

impl LoadBalancer {
    /// Finds the domains whose load is off the average by a tenth of the
    /// average or more: those above it are to push, those below it to pull.
    /// A domain whose load is the average is in neither list.
    pub fn calculate_dom_load_balance(&mut self)
        requires
            old(self).wf(),
        ensures
            final(self).wf(),
            final(self)@ == view_after_calc(old(self)@),
    {
        let nr_doms: usize = self.nr_doms;
        let avg: i128 = self.load_avg;
        let mut pushes: Vec<DomImbal> = Vec::new();
        let mut pulls: Vec<DomImbal> = Vec::new();
        let mut imbal: Vec<i128> = Vec::new();
        let mut dom: usize = 0;
        while dom < nr_doms
            invariant
                self.wf(),
                self@ == old(self)@,
                nr_doms == self@.nr_doms,
                avg == self@.load_avg,
                0 <= dom <= nr_doms,
                imbal@.len() == dom,
                forall|d: int|
                    0 <= d < dom ==> #[trigger] imbal@[d] == imbal_of(self@.dom_loads, avg, d),
                pushes@ == pushes_upto(self@.dom_loads, avg, dom as int),
                pulls@ == pulls_upto(self@.dom_loads, avg, dom as int),
                imbal_sorted(pushes@),
                imbals_bounded(pushes@, nr_doms as nat),
                doms_distinct(pushes@),
                doms_below(pushes@, dom as int),
                imbal_sorted(pulls@),
                imbals_bounded(pulls@, nr_doms as nat),
                doms_distinct(pulls@),
                doms_below(pulls@, dom as int),
            decreases nr_doms - dom,
        {
            let dom_load: i128 = self.dom_loads[dom];
            assert(dom_load == self@.dom_loads[dom as int]);
            let off: i128 = dom_load - avg;
            let far: i128 = if off >= 0 {
                off
            } else {
                -off
            };
            if far * 10 >= avg {
                if off > 0 {
                    let e = DomImbal { imbal: off, dom: dom as u32 };
                    proof {
                        lemma_imbal_insert_keeps(pushes@, e, nr_doms as nat, dom as int);
                    }
                    insert_by_imbal(&mut pushes, e);
                } else if off < 0 {
                    let e = DomImbal { imbal: -off, dom: dom as u32 };
                    proof {
                        lemma_imbal_insert_keeps(pulls@, e, nr_doms as nat, dom as int);
                    }
                    insert_by_imbal(&mut pulls, e);
                }
                imbal.push(off);
            } else {
                imbal.push(0);
            }
            dom += 1;
        }
        self.doms_to_push = pushes;
        self.doms_to_pull = pulls;
        self.imbal = imbal;
        proof {
            assert(self@.imbal =~= Seq::new(
                old(self)@.nr_doms,
                |d: int| imbal_of(old(self)@.dom_loads, old(self)@.load_avg, d),
            ));
            assert(self@.tasks_by_load =~= old(self)@.tasks_by_load);
        }
    }
}

impl LoadBalancer {
    /// Picks the task to move from domain `push.0`, which has `push.1` too
    /// much, to domain `pull.0`, which has `pull.1` too little. Gives the place
    /// of the task in the index of its domain, and its load.
    pub fn pick_victim(&self, push: (u32, i128), pull: (u32, i128)) -> (r: Option<(usize, u64)>)
        requires
            self.wf(),
            push.0 < self@.nr_doms,
            pull.0 < self@.nr_doms,
            -MAX_TOTAL_LOAD <= push.1 <= MAX_TOTAL_LOAD,
            -MAX_TOTAL_LOAD <= pull.1 <= MAX_TOTAL_LOAD,
        ensures
            match r {
                Some((i, load)) => {
                    let tasks = self@.tasks_by_load[push.0 as int];
                    &&& victim(tasks, push.1 as int, pull.1 as int, pull.0, self@.skip_kworkers)
                        == Some(i as int)
                    &&& i < tasks.len()
                    &&& load == tasks[i as int].load
                    &&& can_move(tasks[i as int], pull.0, self@.skip_kworkers)
                    &&& new_imbal(push.1 as int, pull.1 as int, load as int) < push.1 + pull.1
                },
                None => victim(
                    self@.tasks_by_load[push.0 as int],
                    push.1 as int,
                    pull.1 as int,
                    pull.0,
                    self@.skip_kworkers,
                ) is None,
            },
    {
        let r = pick_from(
            &self.tasks_by_load[push.0 as usize],
            push.1,
            pull.1,
            pull.0,
            self.skip_kworkers,
        );
        proof {
            if r is Some {
                lemma_victim(
                    self@.tasks_by_load[push.0 as int],
                    push.1 as int,
                    pull.1 as int,
                    pull.0,
                    self@.skip_kworkers,
                );
            }
        }
        r
    }
}

/// The plan of a round, from the state that the round has reached.
pub open spec fn planned(pre: LoadBalancerView) -> Plan {
    plan(pre.tasks_by_load, pre.doms_to_push, pre.doms_to_pull, pre.dom_loads, pre.skip_kworkers)
}

/// The state after the moves have been planned: the tasks that move are
/// marked, the domains to pull lack less, and none is left to push from.
pub open spec fn view_after_plan(pre: LoadBalancerView) -> LoadBalancerView {
    LoadBalancerView {
        tasks_by_load: planned(pre).index,
        doms_to_push: Seq::empty(),
        doms_to_pull: planned(pre).pulls,
        ..pre
    }
}

impl LoadBalancer {
    /// Plans the moves of this round; see [`plan`]. The moves come back in the
    /// order they were picked, to be handed to the kernel side.
    pub fn load_balance(&mut self) -> (moves: Vec<Migration>)
        requires
            old(self).wf(),
        ensures
            final(self).wf(),
            moves@ == planned(old(self)@).moves,
            final(self)@ == view_after_plan(old(self)@),
            plan_lawful(
                old(self)@.tasks_by_load,
                old(self)@.dom_loads,
                old(self)@.skip_kworkers,
                moves@,
            ),
            forall|a: int, b: int|
                0 <= a < b < moves@.len() ==> (#[trigger] moves@[a]).pid != (
                #[trigger] moves@[b]).pid,
    {
        let ghost pre = self@;
        let ghost goal = plan(
            pre.tasks_by_load,
            pre.doms_to_push,
            pre.doms_to_pull,
            pre.dom_loads,
            pre.skip_kworkers,
        );
        let ghost nr_doms = pre.nr_doms;
        let mut moves: Vec<Migration> = Vec::new();
        let ghost mut places: Seq<(int, int)> = Seq::empty();
        proof {
            reveal(plan_facts);
        }
        while self.doms_to_push.len() > 0
            invariant
                self.wf(),
                nr_doms == pre.nr_doms,
                pre.tasks_by_load.len() == nr_doms,
                self@ == (LoadBalancerView {
                    tasks_by_load: self@.tasks_by_load,
                    doms_to_push: self@.doms_to_push,
                    doms_to_pull: self@.doms_to_pull,
                    ..pre
                }),
                pre.wf(),
                same_pids(pre.tasks_by_load, self@.tasks_by_load),
                plan_facts(pre.tasks_by_load, pre.dom_loads, pre.skip_kworkers, moves@, places),
                forall|j: int|
                    0 <= j < moves@.len() ==> lacks_dom(
                        self@.doms_to_push,
                        (#[trigger] moves@[j]).from_dom,
                    ),
                forall|k: int|
                    0 <= k < self@.doms_to_push.len() ==> self@.tasks_by_load[(
                    #[trigger] self@.doms_to_push[k]).dom as int]
                        == pre.tasks_by_load[self@.doms_to_push[k].dom as int],
                ({
                    let rest = plan(
                        self@.tasks_by_load,
                        self@.doms_to_push,
                        self@.doms_to_pull,
                        pre.dom_loads,
                        pre.skip_kworkers,
                    );
                    &&& goal.index == rest.index
                    &&& goal.pulls == rest.pulls
                    &&& goal.moves == moves@ + rest.moves
                }),
            decreases self.doms_to_push.len(),
        {
            let ghost cur = self@;
            let ghost moves1 = moves@;
            proof {
                lemma_plan_step(
                    cur.tasks_by_load,
                    cur.doms_to_push,
                    cur.doms_to_pull,
                    pre.dom_loads,
                    pre.skip_kworkers,
                );
            }
            let push: DomImbal = self.doms_to_push.pop().unwrap();
            assert(push == cur.doms_to_push.last());
            assert(push.dom < nr_doms);
            let dom: usize = push.dom as usize;
            let dom_load: i128 = self.dom_loads[dom];
            let skip_kworkers: bool = self.skip_kworkers;
            assert(cur.tasks_by_load[dom as int] == pre.tasks_by_load[dom as int]);
            let (mut block, Ghost(picked)) = drain_dom(
                &mut self.tasks_by_load[dom],
                &mut self.doms_to_pull,
                push.dom,
                push.imbal,
                dom_load,
                skip_kworkers,
                Ghost(nr_doms),
            );
            let ghost block_moves = block@;
            moves.append(&mut block);
            proof {
                let d = drain(
                    cur.tasks_by_load[dom as int],
                    cur.doms_to_pull,
                    push.dom,
                    push.imbal as int,
                    0,
                    dom_load as int,
                    skip_kworkers,
                );
                assert(self@.tasks_by_load =~= cur.tasks_by_load.update(dom as int, d.tasks));
                assert(self@.doms_to_push == cur.doms_to_push.drop_last());
                assert(self@.doms_to_pull == d.pulls);
                assert(moves@ == moves1 + block_moves);
                assert forall|j: int| 0 <= j < moves1.len() implies (#[trigger] moves1[j]).from_dom
                    != push.dom by {
                    assert(lacks_dom(cur.doms_to_push, moves1[j].from_dom));
                    assert(cur.doms_to_push[cur.doms_to_push.len() - 1].dom == push.dom);
                }
                lemma_plan_facts_step(
                    pre.tasks_by_load,
                    pre.dom_loads,
                    pre.skip_kworkers,
                    moves1,
                    places,
                    d.tasks,
                    block_moves,
                    picked,
                    push.dom,
                );
                places = places + Seq::new(picked.len(), |j: int| (push.dom as int, picked[j]));
                let rest = plan(
                    self@.tasks_by_load,
                    self@.doms_to_push,
                    self@.doms_to_pull,
                    pre.dom_loads,
                    pre.skip_kworkers,
                );
                assert(moves1 + (block_moves + rest.moves) == moves@ + rest.moves);
                assert forall|j: int| 0 <= j < moves@.len() implies lacks_dom(
                    self@.doms_to_push,
                    (#[trigger] moves@[j]).from_dom,
                ) by {
                    if j < moves1.len() {
                        assert(moves@[j] == moves1[j]);
                        assert(lacks_dom(cur.doms_to_push, moves1[j].from_dom));
                    } else {
                        reveal(drain_facts);
                        assert(moves@[j] == block_moves[j - moves1.len()]);
                        assert(move_takes(
                            pre.tasks_by_load[dom as int],
                            picked[j - moves1.len()],
                            block_moves[j - moves1.len()],
                            skip_kworkers,
                        ));
                        assert(moves@[j].from_dom == push.dom);
                    }
                    assert forall|k: int| 0 <= k < self@.doms_to_push.len() implies (
                    #[trigger] self@.doms_to_push[k]).dom != moves@[j].from_dom by {
                        assert(self@.doms_to_push[k] == cur.doms_to_push[k]);
                    }
                }
                assert forall|k: int| 0 <= k < self@.doms_to_push.len() implies self@.tasks_by_load[(
                #[trigger] self@.doms_to_push[k]).dom as int]
                    == pre.tasks_by_load[self@.doms_to_push[k].dom as int] by {
                    assert(self@.doms_to_push[k] == cur.doms_to_push[k]);
                    assert(cur.doms_to_push[k].dom != push.dom);
                }
                lemma_drained_same_pids(
                    pre.tasks_by_load,
                    cur.tasks_by_load,
                    d.tasks,
                    block_moves,
                    picked,
                    push.dom,
                    dom_load as int,
                    skip_kworkers,
                    nr_doms,
                );
                lemma_same_pids_distinct(pre.tasks_by_load, self@.tasks_by_load);
                assert(self@.wf()) by {
                    assert forall|d2: int| 0 <= d2 < nr_doms implies index_sorted(
                        #[trigger] self@.tasks_by_load[d2],
                    ) && entries_bounded(self@.tasks_by_load[d2]) by {
                        if d2 != dom {
                            assert(self@.tasks_by_load[d2] == cur.tasks_by_load[d2]);
                        }
                    }
                }
            }
        }
        proof {
            lemma_plan_end(
                self@.tasks_by_load,
                self@.doms_to_push,
                self@.doms_to_pull,
                pre.dom_loads,
                pre.skip_kworkers,
            );
            lemma_plan_lawful(pre.tasks_by_load, pre.dom_loads, pre.skip_kworkers, moves@, places);
            assert(self@.doms_to_push =~= Seq::<DomImbal>::empty());
        }
        moves
    }
}

/// A copy of a list.
fn copy_of<T: Copy>(v: &Vec<T>) -> (r: Vec<T>)
    ensures
        r@ == v@,
{
    let mut r: Vec<T> = Vec::new();
    let mut i: usize = 0;
    while i < v.len()
        invariant
            0 <= i <= v@.len(),
            r@ == v@.take(i as int),
        decreases v@.len() - i,
    {
        r.push(v[i]);
        assert(v@.take(i + 1) == v@.take(i as int).push(v@[i as int]));
        i += 1;
    }
    assert(v@.take(v@.len() as int) == v@);
    r
}

impl LoadBalancer {
    /// The average load of a domain.
    pub fn load_avg(&self) -> (r: i128)
        ensures
            r == self@.load_avg,
    {
        self.load_avg
    }

    /// The load of every domain.
    pub fn dom_loads(&self) -> (r: Vec<i128>)
        ensures
            r@ == self@.dom_loads,
    {
        copy_of(&self.dom_loads)
    }

    /// How far every domain is off the average; 0 where that is too little
    /// to act on.
    pub fn imbal(&self) -> (r: Vec<i128>)
        ensures
            r@ == self@.imbal,
    {
        copy_of(&self.imbal)
    }

    /// The domains with too much load, the one with the least excess first.
    pub fn doms_to_push(&self) -> (r: Vec<DomImbal>)
        ensures
            r@ == self@.doms_to_push,
    {
        copy_of(&self.doms_to_push)
    }

    /// The domains with too little load, the one with the least lack first.
    pub fn doms_to_pull(&self) -> (r: Vec<DomImbal>)
        ensures
            r@ == self@.doms_to_pull,
    {
        copy_of(&self.doms_to_pull)
    }

    /// The tasks of a domain that may move, in ascending order of load; none
    /// for a domain that does not exist.
    pub fn tasks_by_load(&self, dom: usize) -> (r: Vec<LoadEntry>)
        ensures
            r@ == if dom < self@.tasks_by_load.len() {
                self@.tasks_by_load[dom as int]
            } else {
                Seq::empty()
            },
    {
        if dom < self.tasks_by_load.len() {
            copy_of(&self.tasks_by_load[dom])
        } else {
            Vec::new()
        }
    }

    /// What this round remembers of a task.
    pub fn task_load(&self, pid: i32) -> (r: Option<TaskLoad>)
        ensures
            r == lookup(self@.task_loads, pid),
    {
        self.task_loads.get(pid)
    }
}

} // verus!
