//! Taking the load of every task that the kernel side reports.
use crate::balance_types::{index_insert, lemma_load_rank, load_rank, LoadEntry, TaskInfo};
use crate::load::{task_load, TaskCtx, TaskLoad};
use crate::plan::pids_distinct;
use crate::units::MAX_TASK_LOAD;
use std::collections::BTreeMap;
use vstd::prelude::*;

verus! {

/// What is remembered of a task under its pid, if anything.
pub open spec fn lookup(m: Map<i32, TaskLoad>, pid: i32) -> Option<TaskLoad> {
    if m.contains_key(pid) {
        Some(m[pid])
    } else {
        None
    }
}

/// No remembered load is larger than a task's load can be.
pub open spec fn loads_bounded(m: Map<i32, TaskLoad>) -> bool {
    forall|pid: i32| m.contains_key(pid) ==> (#[trigger] m[pid]).load <= MAX_TASK_LOAD
}

/// The load of every task seen in the last round, by pid.
pub struct TaskLoads {
    map: BTreeMap<i32, TaskLoad>,
}

impl View for TaskLoads {
    type V = Map<i32, TaskLoad>;

    closed spec fn view(&self) -> Map<i32, TaskLoad> {
        self.map@
    }
}

impl TaskLoads {
    /// Every remembered load is one that a task can have.
    pub open spec fn wf(&self) -> bool {
        loads_bounded(self@)
    }

    /// A table that remembers nothing.
    pub fn new() -> (t: TaskLoads)
        ensures
            t@ == Map::<i32, TaskLoad>::empty(),
            t.wf(),
    {
        TaskLoads { map: BTreeMap::new() }
    }

    /// What is remembered of a task.
    pub fn get(&self, pid: i32) -> (r: Option<TaskLoad>)
        ensures
            r == lookup(self@, pid),
    {
        match self.map.get(&pid) {
            Some(load) => Some(*load),
            None => None,
        }
    }

    /// The number of tasks remembered.
    pub fn len(&self) -> (n: usize)
        ensures
            n == self@.len(),
    {
        self.map.len()
    }

    pub(crate) fn insert(&mut self, pid: i32, load: TaskLoad)
        requires
            old(self).wf(),
            load.load <= MAX_TASK_LOAD,
        ensures
            final(self).wf(),
            final(self)@ == old(self)@.insert(pid, load),
    {
        self.map.insert(pid, load);
    }
}

/// How the loads of one round are taken: against what was remembered, at
/// time `now`, over the `period` that has passed, with decay factor `decay`.
pub struct Sampling {
    pub prev: Map<i32, TaskLoad>,
    pub now: u64,
    pub period: u64,
    pub decay: u64,
}

/// Whether a task may run anywhere but in the domain it is in.
pub open spec fn can_migrate(ctx: TaskCtx) -> bool {
    ctx.dom_mask != (1u64 << (ctx.dom_id as u64))
}

impl Sampling {
    /// The load of a task in this round.
    pub open spec fn load_of(self, ctx: TaskCtx) -> int {
        task_load(lookup(self.prev, ctx.pid), ctx, self.now, self.period, self.decay)
    }

    /// The entry of a task in the index of its domain.
    pub open spec fn entry_of(self, ctx: TaskCtx) -> LoadEntry {
        LoadEntry {
            load: self.load_of(ctx) as u64,
            task: TaskInfo {
                pid: ctx.pid,
                dom_mask: ctx.dom_mask,
                migrated: false,
                is_kworker: ctx.is_kworker,
            },
        }
    }

    /// What is remembered after the round: of each task seen, its reading and
    /// its load; where a pid comes twice, of the later one.
    pub open spec fn loads_after(self, tasks: Seq<TaskCtx>) -> Map<i32, TaskLoad>
        decreases tasks.len(),
    {
        if tasks.len() == 0 {
            Map::empty()
        } else {
            let t = tasks.last();
            self.loads_after(tasks.drop_last()).insert(
                t.pid,
                TaskLoad { runnable_for: t.runnable_for, load: self.load_of(t) as u64 },
            )
        }
    }

    /// The load of a domain: the sum of the loads of the tasks in it.
    pub open spec fn dom_load(self, tasks: Seq<TaskCtx>, dom: int) -> int
        decreases tasks.len(),
    {
        if tasks.len() == 0 {
            0
        } else {
            self.dom_load(tasks.drop_last(), dom) + if tasks.last().dom_id == dom {
                self.load_of(tasks.last())
            } else {
                0
            }
        }
    }

    /// The load of all tasks together.
    pub open spec fn total_load(self, tasks: Seq<TaskCtx>) -> int
        decreases tasks.len(),
    {
        if tasks.len() == 0 {
            0
        } else {
            self.total_load(tasks.drop_last()) + self.load_of(tasks.last())
        }
    }

    /// The index of a domain: its tasks that may run elsewhere, in ascending
    /// order of load, and among equal loads in the order they were seen.
    pub open spec fn index_of(self, tasks: Seq<TaskCtx>, dom: int) -> Seq<LoadEntry>
        decreases tasks.len(),
    {
        if tasks.len() == 0 {
            Seq::empty()
        } else {
            let rest = self.index_of(tasks.drop_last(), dom);
            let t = tasks.last();
            if t.dom_id == dom && can_migrate(t) {
                index_insert(rest, self.entry_of(t))
            } else {
                rest
            }
        }
    }
}

/// One more task: what each sum and each index gains from it.
pub(crate) proof fn lemma_sampling_step(s: Sampling, tasks: Seq<TaskCtx>, i: int)
    requires
        0 <= i < tasks.len(),
    ensures
        s.loads_after(tasks.take(i + 1)) == s.loads_after(tasks.take(i)).insert(
            tasks[i].pid,
            TaskLoad { runnable_for: tasks[i].runnable_for, load: s.load_of(tasks[i]) as u64 },
        ),
        s.total_load(tasks.take(i + 1)) == s.total_load(tasks.take(i)) + s.load_of(tasks[i]),
        forall|d: int|
            #[trigger] s.dom_load(tasks.take(i + 1), d) == s.dom_load(tasks.take(i), d)
                + if tasks[i].dom_id == d {
                s.load_of(tasks[i])
            } else {
                0
            },
        forall|d: int|
            #[trigger] s.index_of(tasks.take(i + 1), d) == if tasks[i].dom_id == d && can_migrate(
                tasks[i],
            ) {
                index_insert(s.index_of(tasks.take(i), d), s.entry_of(tasks[i]))
            } else {
                s.index_of(tasks.take(i), d)
            },
{
    let next = tasks.take(i + 1);
    assert(next.drop_last() == tasks.take(i));
    assert(next.last() == tasks[i]);
}

/// No pid is reported twice.
pub open spec fn task_pids_distinct(tasks: Seq<TaskCtx>) -> bool {
    forall|a: int, b: int| 0 <= a < b < tasks.len() ==> tasks[a].pid != tasks[b].pid
}

/// Whether one of the tasks in domain `dom` has the given pid.
pub open spec fn reported_in(tasks: Seq<TaskCtx>, dom: int, pid: i32) -> bool {
    exists|k: int| 0 <= k < tasks.len() && (#[trigger] tasks[k]).pid == pid && tasks[k].dom_id == dom
}

/// Every entry of the index of a domain is for a task reported in that
/// domain, and where no pid is reported twice, none is in the index twice.
proof fn lemma_index_origin(s: Sampling, tasks: Seq<TaskCtx>, dom: int)
    ensures
        forall|i: int|
            0 <= i < s.index_of(tasks, dom).len() ==> reported_in(
                tasks,
                dom,
                (#[trigger] s.index_of(tasks, dom)[i]).task.pid,
            ),
        task_pids_distinct(tasks) ==> forall|i: int, j: int|
            0 <= i < j < s.index_of(tasks, dom).len() ==> s.index_of(tasks, dom)[i].task.pid
                != s.index_of(tasks, dom)[j].task.pid,
    decreases tasks.len(),
{
    if tasks.len() > 0 {
        let before = tasks.drop_last();
        let t = tasks.last();
        let rest = s.index_of(before, dom);
        let all = s.index_of(tasks, dom);
        lemma_index_origin(s, before, dom);
        assert forall|pid: i32| reported_in(before, dom, pid) implies reported_in(
            tasks,
            dom,
            pid,
        ) by {
            let k = choose|k: int|
                0 <= k < before.len() && (#[trigger] before[k]).pid == pid && before[k].dom_id
                    == dom;
            assert(tasks[k] == before[k]);
        }
        if task_pids_distinct(tasks) {
            assert(task_pids_distinct(before)) by {
                assert forall|a: int, b: int| 0 <= a < b < before.len() implies before[a].pid
                    != before[b].pid by {
                    assert(before[a] == tasks[a]);
                    assert(before[b] == tasks[b]);
                }
            }
            assert forall|pid: i32| reported_in(before, dom, pid) implies pid != t.pid by {
                let k = choose|k: int|
                    0 <= k < before.len() && (#[trigger] before[k]).pid == pid && before[k].dom_id
                        == dom;
                assert(tasks[k] == before[k]);
            }
        }
        if t.dom_id == dom && can_migrate(t) {
            let e = s.entry_of(t);
            lemma_load_rank(rest, e.load);
            let r = load_rank(rest, e.load);
            assert(all == rest.insert(r, e));
            assert(reported_in(tasks, dom, t.pid)) by {
                assert(tasks[tasks.len() - 1] == t);
            }
            assert forall|i: int| 0 <= i < all.len() implies reported_in(
                tasks,
                dom,
                (#[trigger] all[i]).task.pid,
            ) by {
                if i < r {
                    assert(all[i] == rest[i]);
                } else if i > r {
                    assert(all[i] == rest[i - 1]);
                }
            }
            if task_pids_distinct(tasks) {
                assert forall|i: int, j: int| 0 <= i < j < all.len() implies all[i].task.pid
                    != all[j].task.pid by {
                    let a = if i < r {
                        rest[i]
                    } else if i == r {
                        e
                    } else {
                        rest[i - 1]
                    };
                    let b = if j < r {
                        rest[j]
                    } else if j == r {
                        e
                    } else {
                        rest[j - 1]
                    };
                    assert(all[i] == a);
                    assert(all[j] == b);
                    if i != r {
                        assert(reported_in(before, dom, a.task.pid));
                    }
                    if j != r {
                        assert(reported_in(before, dom, b.task.pid));
                    }
                }
            }
        } else {
            assert(all == rest);
        }
    }
}

/// Where the kernel side reports no pid twice, no pid is twice in the indexes
/// that are made of its report.
pub proof fn lemma_index_pids_distinct(s: Sampling, tasks: Seq<TaskCtx>, nr_doms: nat)
    requires
        task_pids_distinct(tasks),
    ensures
        pids_distinct(Seq::new(nr_doms, |d: int| s.index_of(tasks, d))),
{
    reveal(pids_distinct);
    let index = Seq::new(nr_doms, |d: int| s.index_of(tasks, d));
    assert forall|dom_a: int, i: int, dom_b: int, j: int|
        0 <= dom_a < index.len() && 0 <= i < index[dom_a].len() && 0 <= dom_b < index.len() && 0 <= j
            < index[dom_b].len() && (dom_a != dom_b || i != j) implies (#[trigger] index[dom_a][i]).task.pid
        != (#[trigger] index[dom_b][j]).task.pid by {
        lemma_index_origin(s, tasks, dom_a);
        lemma_index_origin(s, tasks, dom_b);
        let pid_a = s.index_of(tasks, dom_a)[i].task.pid;
        let pid_b = s.index_of(tasks, dom_b)[j].task.pid;
        assert(reported_in(tasks, dom_a, pid_a));
        assert(reported_in(tasks, dom_b, pid_b));
        if dom_a != dom_b {
            let ka = choose|k: int|
                0 <= k < tasks.len() && (#[trigger] tasks[k]).pid == pid_a && tasks[k].dom_id == dom_a;
            let kb = choose|k: int|
                0 <= k < tasks.len() && (#[trigger] tasks[k]).pid == pid_b && tasks[k].dom_id == dom_b;
            assert(ka != kb);
        }
    }
}

/// Whether one of the tasks has the given pid.
pub open spec fn reported(tasks: Seq<TaskCtx>, pid: i32) -> bool {
    exists|k: int| 0 <= k < tasks.len() && (#[trigger] tasks[k]).pid == pid
}

/// After a round exactly the pids that were reported are remembered.
pub proof fn lemma_remembered_pids(s: Sampling, tasks: Seq<TaskCtx>)
    ensures
        forall|pid: i32| #[trigger] s.loads_after(tasks).contains_key(pid) <==> reported(tasks, pid),
    decreases tasks.len(),
{
    if tasks.len() > 0 {
        let before = tasks.drop_last();
        lemma_remembered_pids(s, before);
        assert forall|pid: i32| #[trigger]
            s.loads_after(tasks).contains_key(pid) <==> reported(tasks, pid) by {
            let earlier = s.loads_after(before).contains_key(pid);
            assert(earlier <==> reported(before, pid));
            assert(s.loads_after(tasks).contains_key(pid) <==> (earlier || tasks.last().pid
                == pid));
            if reported(before, pid) {
                let k = choose|k: int| 0 <= k < before.len() && (#[trigger] before[k]).pid == pid;
                assert(tasks[k] == before[k]);
                assert(reported(tasks, pid));
            }
            if tasks.last().pid == pid {
                assert(tasks[tasks.len() - 1].pid == pid);
                assert(reported(tasks, pid));
            }
            if reported(tasks, pid) && tasks.last().pid != pid {
                let k = choose|k: int| 0 <= k < tasks.len() && (#[trigger] tasks[k]).pid == pid;
                assert(before[k] == tasks[k]);
                assert(reported(before, pid));
            }
        }
    }
}

/// Whether task `k` is the first whose pid an earlier task has.
pub open spec fn first_repeat(tasks: Seq<TaskCtx>, k: int) -> bool {
    &&& 0 <= k < tasks.len()
    &&& task_pids_distinct(tasks.take(k))
    &&& reported(tasks.take(k), tasks[k].pid)
}

/// One more task whose pid no earlier task has leaves the pids distinct.
pub(crate) proof fn lemma_no_repeat_step(tasks: Seq<TaskCtx>, i: int)
    requires
        0 <= i < tasks.len(),
        task_pids_distinct(tasks.take(i)),
        !reported(tasks.take(i), tasks[i].pid),
    ensures
        task_pids_distinct(tasks.take(i + 1)),
{
    let before = tasks.take(i);
    let next = tasks.take(i + 1);
    assert forall|a: int, b: int| 0 <= a < b < next.len() implies next[a].pid != next[b].pid by {
        assert(next[a] == before[a]);
        if b < i {
            assert(next[b] == before[b]);
        } else {
            assert(next[b] == tasks[i]);
            assert(before[a].pid != tasks[i].pid);
        }
    }
}

} // verus!
