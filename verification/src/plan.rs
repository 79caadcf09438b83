//! The plan of a round: which tasks move from the domains with too much load
//! to the domains with too little.
use crate::balance_types::{
    doms_distinct, entries_bounded, imbal_insert, imbal_lt, imbal_rank, imbal_sorted,
    imbals_bounded, index_sorted, insert_by_imbal, lacks_dom, lemma_imbal_insert_sorted,
    lemma_imbal_rank, DomImbal, LoadEntry, Migration, TaskInfo, MAX_TOTAL_LOAD,
};
use crate::units::{MAX_DOMS, MAX_TASK_LOAD};
use crate::victim::{can_move, lemma_victim, pick_from, victim};
use vstd::prelude::*;

verus! {

/// The number of tasks of an index that have not been picked.
pub open spec fn unmigrated(tasks: Seq<LoadEntry>) -> nat
    decreases tasks.len(),
{
    if tasks.len() == 0 {
        0
    } else {
        unmigrated(tasks.drop_last()) + if tasks.last().task.migrated {
            0nat
        } else {
            1nat
        }
    }
}

/// The index with task `i` marked as picked.
pub open spec fn mark_migrated(tasks: Seq<LoadEntry>, i: int) -> Seq<LoadEntry> {
    tasks.update(
        i,
        LoadEntry {
            load: tasks[i].load,
            task: TaskInfo {
                pid: tasks[i].task.pid,
                dom_mask: tasks[i].task.dom_mask,
                migrated: true,
                is_kworker: tasks[i].task.is_kworker,
            },
        },
    )
}

/// Marking a task that was not picked leaves one fewer to pick.
pub proof fn lemma_mark_migrated(tasks: Seq<LoadEntry>, i: int)
    requires
        0 <= i < tasks.len(),
        !tasks[i].task.migrated,
    ensures
        unmigrated(mark_migrated(tasks, i)) + 1 == unmigrated(tasks),
    decreases tasks.len(),
{
    let marked = mark_migrated(tasks, i);
    if i == tasks.len() - 1 {
        assert(marked.drop_last() == tasks.drop_last());
    } else {
        assert(marked.drop_last() == mark_migrated(tasks.drop_last(), i));
        lemma_mark_migrated(tasks.drop_last(), i);
    }
}

/// The list of domains to pull once domain `k` of it has taken `load`: what
/// it lacks is less by that much, and it moves to its new place in the order.
pub open spec fn charge_pull(pulls: Seq<DomImbal>, k: int, load: u64) -> Seq<DomImbal> {
    imbal_insert(
        pulls.remove(k),
        DomImbal { imbal: (pulls[k].imbal - load) as i128, dom: pulls[k].dom },
    )
}

/// Whether a task can move from the pushing domain to entry `k` of the list
/// of domains to pull.
pub open spec fn pull_has_victim(
    tasks: Seq<LoadEntry>,
    pulls: Seq<DomImbal>,
    to_push: int,
    skip_kworkers: bool,
    k: int,
) -> bool {
    &&& 0 <= k < pulls.len()
    &&& victim(tasks, to_push, pulls[k].imbal as int, pulls[k].dom, skip_kworkers) is Some
}

/// Whether entry `k` is the one that a pass settles on: the domain that
/// lacks most among those that a task can move to.
pub open spec fn is_pass_pick(
    tasks: Seq<LoadEntry>,
    pulls: Seq<DomImbal>,
    to_push: int,
    skip_kworkers: bool,
    k: int,
) -> bool {
    &&& pull_has_victim(tasks, pulls, to_push, skip_kworkers, k)
    &&& forall|j: int| #[trigger]
        pull_has_victim(tasks, pulls, to_push, skip_kworkers, j) ==> j <= k
}

/// The domain that a pass moves a task to, if it moves one: the domains to
/// pull are tried from the one that lacks most down, and the first that a
/// task can move to is taken.
pub open spec fn pass_pick(
    tasks: Seq<LoadEntry>,
    pulls: Seq<DomImbal>,
    to_push: int,
    skip_kworkers: bool,
) -> Option<int> {
    if exists|k: int| is_pass_pick(tasks, pulls, to_push, skip_kworkers, k) {
        Some(choose|k: int| is_pass_pick(tasks, pulls, to_push, skip_kworkers, k))
    } else {
        None
    }
}

/// There is at most one domain that a pass settles on.
pub proof fn lemma_pass_pick_is(
    tasks: Seq<LoadEntry>,
    pulls: Seq<DomImbal>,
    to_push: int,
    skip_kworkers: bool,
    k: int,
)
    requires
        is_pass_pick(tasks, pulls, to_push, skip_kworkers, k),
    ensures
        pass_pick(tasks, pulls, to_push, skip_kworkers) == Some(k),
{
    let c = choose|c: int| is_pass_pick(tasks, pulls, to_push, skip_kworkers, c);
    assert(pull_has_victim(tasks, pulls, to_push, skip_kworkers, c));
    assert(pull_has_victim(tasks, pulls, to_push, skip_kworkers, k));
}

/// What a pass settles on is an entry of the list that a task can move to.
pub proof fn lemma_pass_pick(
    tasks: Seq<LoadEntry>,
    pulls: Seq<DomImbal>,
    to_push: int,
    skip_kworkers: bool,
)
    requires
        pass_pick(tasks, pulls, to_push, skip_kworkers) is Some,
    ensures
        pull_has_victim(
            tasks,
            pulls,
            to_push,
            skip_kworkers,
            pass_pick(tasks, pulls, to_push, skip_kworkers)->Some_0,
        ),
{
    let k = pass_pick(tasks, pulls, to_push, skip_kworkers)->Some_0;
    assert(is_pass_pick(tasks, pulls, to_push, skip_kworkers, k));
}

/// What pushing from one domain comes to.
pub struct Drained {
    /// The index of the domain, with the tasks that move marked.
    pub tasks: Seq<LoadEntry>,
    /// The domains to pull, with what they still lack.
    pub pulls: Seq<DomImbal>,
    /// The tasks to move, in the order they were picked.
    pub moves: Seq<Migration>,
}

/// Pushes from one domain: pass after pass moves one task, until a pass
/// finds none to move or half of the load of the domain has been moved.
/// `to_push` is what the domain still has too much and `pushed` what it has
/// given away so far.
#[verifier::opaque]
pub open spec fn drain(
    tasks: Seq<LoadEntry>,
    pulls: Seq<DomImbal>,
    push_dom: u32,
    to_push: int,
    pushed: int,
    dom_load: int,
    skip_kworkers: bool,
) -> Drained
    decreases unmigrated(tasks),
    via drain_decreases
{
    match pass_pick(tasks, pulls, to_push, skip_kworkers) {
        None => Drained { tasks, pulls, moves: Seq::empty() },
        Some(k) => {
            let i = victim(
                tasks,
                to_push,
                pulls[k].imbal as int,
                pulls[k].dom,
                skip_kworkers,
            )->Some_0;
            let load = tasks[i].load;
            let m = Migration {
                pid: tasks[i].task.pid,
                from_dom: push_dom,
                to_dom: pulls[k].dom,
                load,
            };
            let tasks2 = mark_migrated(tasks, i);
            let pulls2 = charge_pull(pulls, k, load);
            if 2 * (pushed + load) >= dom_load {
                Drained { tasks: tasks2, pulls: pulls2, moves: seq![m] }
            } else {
                let r = drain(
                    tasks2,
                    pulls2,
                    push_dom,
                    to_push - load,
                    pushed + load,
                    dom_load,
                    skip_kworkers,
                );
                Drained { tasks: r.tasks, pulls: r.pulls, moves: seq![m] + r.moves }
            }
        },
    }
}

#[via_fn]
proof fn drain_decreases(
    tasks: Seq<LoadEntry>,
    pulls: Seq<DomImbal>,
    push_dom: u32,
    to_push: int,
    pushed: int,
    dom_load: int,
    skip_kworkers: bool,
) {
    if pass_pick(tasks, pulls, to_push, skip_kworkers) is Some {
        let k = pass_pick(tasks, pulls, to_push, skip_kworkers)->Some_0;
        lemma_pass_pick(tasks, pulls, to_push, skip_kworkers);
        lemma_victim(tasks, to_push, pulls[k].imbal as int, pulls[k].dom, skip_kworkers);
        let i = victim(tasks, to_push, pulls[k].imbal as int, pulls[k].dom, skip_kworkers)->Some_0;
        lemma_mark_migrated(tasks, i);
    }
}

/// What the whole plan comes to.
pub struct Plan {
    /// The index of every domain, with the tasks that move marked.
    pub index: Seq<Seq<LoadEntry>>,
    /// The domains to pull, with what they still lack.
    pub pulls: Seq<DomImbal>,
    /// The tasks to move, in the order they were picked.
    pub moves: Seq<Migration>,
}

/// Plans the moves of a round: the domains to push are taken from the one
/// with the largest excess down, and each is pushed from in turn.
#[verifier::opaque]
pub open spec fn plan(
    index: Seq<Seq<LoadEntry>>,
    pushes: Seq<DomImbal>,
    pulls: Seq<DomImbal>,
    dom_loads: Seq<i128>,
    skip_kworkers: bool,
) -> Plan
    decreases pushes.len(),
{
    if pushes.len() == 0 {
        Plan { index, pulls, moves: Seq::empty() }
    } else {
        let p = pushes.last();
        let d = drain(
            index[p.dom as int],
            pulls,
            p.dom,
            p.imbal as int,
            0,
            dom_loads[p.dom as int] as int,
            skip_kworkers,
        );
        let rest = plan(
            index.update(p.dom as int, d.tasks),
            pushes.drop_last(),
            d.pulls,
            dom_loads,
            skip_kworkers,
        );
        Plan { index: rest.index, pulls: rest.pulls, moves: d.moves + rest.moves }
    }
}

/// What putting a domain into a list keeps, where the list has no entry for
/// that domain yet.
pub(crate) proof fn lemma_imbal_insert_wf(s: Seq<DomImbal>, e: DomImbal, nr_doms: nat)
    requires
        imbal_sorted(s),
        imbals_bounded(s, nr_doms),
        doms_distinct(s),
        lacks_dom(s, e.dom),
        e.dom < nr_doms,
        -(MAX_TASK_LOAD as int) <= e.imbal <= MAX_TOTAL_LOAD,
    ensures
        imbal_sorted(imbal_insert(s, e)),
        imbals_bounded(imbal_insert(s, e), nr_doms),
        doms_distinct(imbal_insert(s, e)),
        imbal_insert(s, e).len() == s.len() + 1,
{
    lemma_imbal_insert_sorted(s, e);
    lemma_imbal_rank(s, e);
    let r = imbal_rank(s, e);
    let t = imbal_insert(s, e);
    assert forall|i: int| 0 <= i < t.len() implies (#[trigger] t[i]).dom < nr_doms && -(
    MAX_TASK_LOAD as int) <= t[i].imbal <= MAX_TOTAL_LOAD by {
        if i < r {
            assert(t[i] == s[i]);
        } else if i > r {
            assert(t[i] == s[i - 1]);
        }
    }
    assert forall|i: int, j: int| 0 <= i < j < t.len() implies t[i].dom != t[j].dom by {
        let a = if i < r {
            s[i]
        } else if i == r {
            e
        } else {
            s[i - 1]
        };
        let b = if j < r {
            s[j]
        } else if j == r {
            e
        } else {
            s[j - 1]
        };
        assert(t[i] == a);
        assert(t[j] == b);
    }
}

/// What charging a domain to pull keeps.
proof fn lemma_charge_pull_wf(pulls: Seq<DomImbal>, k: int, load: u64, nr_doms: nat)
    requires
        imbal_sorted(pulls),
        imbals_bounded(pulls, nr_doms),
        doms_distinct(pulls),
        0 <= k < pulls.len(),
        pulls[k].imbal > 0,
        load <= MAX_TASK_LOAD,
    ensures
        imbal_sorted(charge_pull(pulls, k, load)),
        imbals_bounded(charge_pull(pulls, k, load), nr_doms),
        doms_distinct(charge_pull(pulls, k, load)),
        charge_pull(pulls, k, load).len() == pulls.len(),
{
    let rest = pulls.remove(k);
    let e = DomImbal { imbal: (pulls[k].imbal - load) as i128, dom: pulls[k].dom };
    assert forall|i: int| 0 <= i < rest.len() implies #[trigger] rest[i] == pulls[if i < k {
        i
    } else {
        i + 1
    }] by {}
    assert(imbal_sorted(rest)) by {
        assert forall|i: int, j: int| 0 <= i < j < rest.len() implies imbal_lt(
            rest[i],
            rest[j],
        ) by {
            let a = if i < k {
                i
            } else {
                i + 1
            };
            let b = if j < k {
                j
            } else {
                j + 1
            };
            assert(rest[i] == pulls[a]);
            assert(rest[j] == pulls[b]);
        }
    }
    assert(doms_distinct(rest)) by {
        assert forall|i: int, j: int| 0 <= i < j < rest.len() implies rest[i].dom
            != rest[j].dom by {
            let a = if i < k {
                i
            } else {
                i + 1
            };
            let b = if j < k {
                j
            } else {
                j + 1
            };
            assert(rest[i] == pulls[a]);
            assert(rest[j] == pulls[b]);
        }
    }
    assert(lacks_dom(rest, e.dom)) by {
        assert forall|i: int| 0 <= i < rest.len() implies (#[trigger] rest[i]).dom != e.dom by {
            let a = if i < k {
                i
            } else {
                i + 1
            };
            assert(rest[i] == pulls[a]);
        }
    }
    assert(imbals_bounded(rest, nr_doms));
    assert(pulls[k].dom < nr_doms);
    lemma_imbal_insert_wf(rest, e, nr_doms);
}

/// What the index of a domain and the list of domains to pull keep while
/// the domain is pushed from.
#[verifier::opaque]
spec fn drain_wf(tasks: Seq<LoadEntry>, pulls: Seq<DomImbal>, nr_doms: nat) -> bool {
    &&& nr_doms <= MAX_DOMS
    &&& index_sorted(tasks)
    &&& entries_bounded(tasks)
    &&& imbal_sorted(pulls)
    &&& imbals_bounded(pulls, nr_doms)
    &&& doms_distinct(pulls)
}

/// Tries the domains to pull from the one that lacks most down and picks the
/// first that a task can move to, with the task.
fn find_pull(
    tasks: &Vec<LoadEntry>,
    pulls: &Vec<DomImbal>,
    to_push: i128,
    skip_kworkers: bool,
    Ghost(nr_doms): Ghost<nat>,
) -> (r: Option<(usize, usize, u64)>)
    requires
        drain_wf(tasks@, pulls@, nr_doms),
        -MAX_TOTAL_LOAD <= to_push <= MAX_TOTAL_LOAD,
    ensures
        match r {
            Some((k, i, load)) => {
                &&& pass_pick(tasks@, pulls@, to_push as int, skip_kworkers) == Some(k as int)
                &&& k < pulls@.len()
                &&& victim(
                    tasks@,
                    to_push as int,
                    pulls@[k as int].imbal as int,
                    pulls@[k as int].dom,
                    skip_kworkers,
                ) == Some(i as int)
                &&& i < tasks@.len()
                &&& load == tasks@[i as int].load
                &&& 0 < load <= MAX_TASK_LOAD
                &&& 0 < to_push
                &&& 0 < pulls@[k as int].imbal <= MAX_TOTAL_LOAD
                &&& pulls@[k as int].dom < nr_doms
            },
            None => pass_pick(tasks@, pulls@, to_push as int, skip_kworkers) is None,
        },
{
    proof {
        reveal(drain_wf);
    }
    let mut k: usize = pulls.len();
    while k > 0
        invariant
            0 <= k <= pulls@.len(),
            nr_doms <= MAX_DOMS,
            imbals_bounded(pulls@, nr_doms),
            entries_bounded(tasks@),
            -MAX_TOTAL_LOAD <= to_push <= MAX_TOTAL_LOAD,
            forall|j: int|
                k <= j < pulls@.len() ==> !#[trigger] pull_has_victim(
                    tasks@,
                    pulls@,
                    to_push as int,
                    skip_kworkers,
                    j,
                ),
        decreases k,
    {
        let pull: DomImbal = pulls[k - 1];
        match pick_from(tasks, to_push, pull.imbal, pull.dom, skip_kworkers) {
            Some((i, load)) => {
                proof {
                    assert(pull_has_victim(
                        tasks@,
                        pulls@,
                        to_push as int,
                        skip_kworkers,
                        k - 1,
                    ));
                    lemma_pass_pick_is(tasks@, pulls@, to_push as int, skip_kworkers, k - 1);
                    lemma_victim(
                        tasks@,
                        to_push as int,
                        pull.imbal as int,
                        pull.dom,
                        skip_kworkers,
                    );
                }
                return Some((k - 1, i, load));
            },
            None => {},
        }
        k -= 1;
    }
    proof {
        if pass_pick(tasks@, pulls@, to_push as int, skip_kworkers) is Some {
            lemma_pass_pick(tasks@, pulls@, to_push as int, skip_kworkers);
        }
    }
    None
}

/// The load that a list of moves carries.
pub open spec fn moved_load(moves: Seq<Migration>) -> int
    decreases moves.len(),
{
    if moves.len() == 0 {
        0
    } else {
        moved_load(moves.drop_last()) + moves.last().load
    }
}

/// Whether move `m` takes entry `i` of an index: the entry has not been
/// picked before, is the task that moves, and may move where it goes.
pub open spec fn move_takes(tasks: Seq<LoadEntry>, i: int, m: Migration, skip_kworkers: bool) -> bool {
    &&& 0 <= i < tasks.len()
    &&& tasks[i].task.pid == m.pid
    &&& tasks[i].load == m.load
    &&& can_move(tasks[i], m.to_dom, skip_kworkers)
}

/// The second index is the first with some more tasks marked as picked.
pub open spec fn marks_added(before: Seq<LoadEntry>, after: Seq<LoadEntry>) -> bool {
    &&& after.len() == before.len()
    &&& forall|i: int|
        0 <= i < before.len() ==> {
            &&& (#[trigger] after[i]).load == before[i].load
            &&& after[i].task.pid == before[i].task.pid
            &&& after[i].task.dom_mask == before[i].task.dom_mask
            &&& after[i].task.is_kworker == before[i].task.is_kworker
            &&& (before[i].task.migrated ==> after[i].task.migrated)
        }
}

/// What is known of the moves out of one domain besides what they are.
#[verifier::opaque]
pub open spec fn drain_facts(
    before: Seq<LoadEntry>,
    after: Seq<LoadEntry>,
    moves: Seq<Migration>,
    picked: Seq<int>,
    push_dom: u32,
    dom_load: int,
    skip_kworkers: bool,
    nr_doms: nat,
) -> bool {
    &&& marks_added(before, after)
    &&& picked.len() == moves.len()
    &&& forall|j: int|
        0 <= j < moves.len() ==> {
            &&& move_takes(before, #[trigger] picked[j], moves[j], skip_kworkers)
            &&& after[picked[j]].task.migrated
            &&& moves[j].from_dom == push_dom
            &&& moves[j].to_dom < nr_doms
        }
    &&& forall|a: int, b: int| 0 <= a < b < picked.len() ==> picked[a] != picked[b]
    &&& forall|j: int|
        1 <= j < moves.len() ==> 2 * moved_load(#[trigger] moves.take(j)) < dom_load
}

/// One pass of [`drain`] that moves a task, written out.
proof fn lemma_drain_step(
    tasks: Seq<LoadEntry>,
    pulls: Seq<DomImbal>,
    push_dom: u32,
    to_push: int,
    pushed: int,
    dom_load: int,
    skip_kworkers: bool,
    k: int,
    i: int,
)
    requires
        pass_pick(tasks, pulls, to_push, skip_kworkers) == Some(k),
        victim(tasks, to_push, pulls[k].imbal as int, pulls[k].dom, skip_kworkers) == Some(i),
    ensures
        ({
            let load = tasks[i].load;
            let m = Migration {
                pid: tasks[i].task.pid,
                from_dom: push_dom,
                to_dom: pulls[k].dom,
                load,
            };
            let whole = drain(tasks, pulls, push_dom, to_push, pushed, dom_load, skip_kworkers);
            let tasks_next = mark_migrated(tasks, i);
            let pulls_next = charge_pull(pulls, k, load);
            if 2 * (pushed + load) >= dom_load {
                whole == (Drained { tasks: tasks_next, pulls: pulls_next, moves: seq![m] })
            } else {
                let later = drain(
                    tasks_next,
                    pulls_next,
                    push_dom,
                    to_push - load,
                    pushed + load,
                    dom_load,
                    skip_kworkers,
                );
                &&& whole.tasks == later.tasks
                &&& whole.pulls == later.pulls
                &&& whole.moves == seq![m] + later.moves
            }
        }),
{
    reveal(drain);
}

/// A pass of [`drain`] that finds no task to move ends it.
proof fn lemma_drain_end(
    tasks: Seq<LoadEntry>,
    pulls: Seq<DomImbal>,
    push_dom: u32,
    to_push: int,
    pushed: int,
    dom_load: int,
    skip_kworkers: bool,
)
    requires
        pass_pick(tasks, pulls, to_push, skip_kworkers) is None,
    ensures
        drain(tasks, pulls, push_dom, to_push, pushed, dom_load, skip_kworkers) == (Drained {
            tasks,
            pulls,
            moves: Seq::empty(),
        }),
{
    reveal(drain);
}

/// What one more move keeps.
proof fn lemma_facts_step(
    before: Seq<LoadEntry>,
    tasks: Seq<LoadEntry>,
    moves: Seq<Migration>,
    picked: Seq<int>,
    push_dom: u32,
    dom_load: int,
    skip_kworkers: bool,
    nr_doms: nat,
    i: int,
    m: Migration,
)
    requires
        drain_facts(before, tasks, moves, picked, push_dom, dom_load, skip_kworkers, nr_doms),
        index_sorted(tasks),
        entries_bounded(tasks),
        0 <= i < tasks.len(),
        can_move(tasks[i], m.to_dom, skip_kworkers),
        m.pid == tasks[i].task.pid,
        m.load == tasks[i].load,
        m.from_dom == push_dom,
        m.to_dom < nr_doms,
        moves.len() >= 1 ==> 2 * moved_load(moves) < dom_load,
    ensures
        drain_facts(
            before,
            mark_migrated(tasks, i),
            moves.push(m),
            picked.push(i),
            push_dom,
            dom_load,
            skip_kworkers,
            nr_doms,
        ),
        index_sorted(mark_migrated(tasks, i)),
        entries_bounded(mark_migrated(tasks, i)),
        moved_load(moves.push(m)) == moved_load(moves) + m.load,
{
    reveal(drain_facts);
    let tasks2 = mark_migrated(tasks, i);
    let moves2 = moves.push(m);
    let picked2 = picked.push(i);
    assert(moves2.drop_last() == moves);
    assert(moves2.last() == m);
    assert forall|j: int| 1 <= j < moves2.len() implies 2 * moved_load(#[trigger] moves2.take(j))
        < dom_load by {
        if j < moves.len() {
            assert(moves2.take(j) == moves.take(j));
        } else {
            assert(moves2.take(j) == moves);
        }
    }
    assert forall|j: int| 0 <= j < moves2.len() implies {
        &&& move_takes(before, #[trigger] picked2[j], moves2[j], skip_kworkers)
        &&& tasks2[picked2[j]].task.migrated
        &&& moves2[j].from_dom == push_dom
        &&& moves2[j].to_dom < nr_doms
    } by {
        if j < moves.len() {
            assert(picked2[j] == picked[j]);
            assert(moves2[j] == moves[j]);
        } else {
            assert(picked2[j] == i);
            assert(moves2[j] == m);
        }
    }
    assert forall|a: int, b: int| 0 <= a < b < picked2.len() implies picked2[a] != picked2[b] by {
        if b == picked2.len() - 1 {
            assert(picked2[a] == picked[a]);
            assert(tasks[picked[a]].task.migrated);
        } else {
            assert(picked2[a] == picked[a]);
            assert(picked2[b] == picked[b]);
        }
    }
    assert(marks_added(before, tasks2));
}

/// Before any move, nothing is known nor needed.
proof fn lemma_facts_start(
    before: Seq<LoadEntry>,
    push_dom: u32,
    dom_load: int,
    skip_kworkers: bool,
    nr_doms: nat,
)
    ensures
        drain_facts(
            before,
            before,
            Seq::empty(),
            Seq::empty(),
            push_dom,
            dom_load,
            skip_kworkers,
            nr_doms,
        ),
{
    reveal(drain_facts);
}

/// All that one more move keeps and brings.
proof fn lemma_drain_dom_step(
    before: Seq<LoadEntry>,
    tasks: Seq<LoadEntry>,
    pulls: Seq<DomImbal>,
    moves: Seq<Migration>,
    picked: Seq<int>,
    push_dom: u32,
    to_push: int,
    pushed: int,
    dom_load: int,
    skip_kworkers: bool,
    nr_doms: nat,
    k: int,
    i: int,
)
    requires
        drain_wf(tasks, pulls, nr_doms),
        drain_facts(before, tasks, moves, picked, push_dom, dom_load, skip_kworkers, nr_doms),
        pass_pick(tasks, pulls, to_push, skip_kworkers) == Some(k),
        0 <= k < pulls.len(),
        victim(tasks, to_push, pulls[k].imbal as int, pulls[k].dom, skip_kworkers) == Some(i),
        pushed == moved_load(moves),
        moves.len() >= 1 ==> 2 * pushed < dom_load,
    ensures
        ({
            let load = tasks[i].load;
            let m = Migration {
                pid: tasks[i].task.pid,
                from_dom: push_dom,
                to_dom: pulls[k].dom,
                load,
            };
            let tasks_next = mark_migrated(tasks, i);
            let pulls_next = charge_pull(pulls, k, load);
            let whole = drain(tasks, pulls, push_dom, to_push, pushed, dom_load, skip_kworkers);
            &&& drain_wf(tasks_next, pulls_next, nr_doms)
            &&& drain_facts(
                before,
                tasks_next,
                moves.push(m),
                picked.push(i),
                push_dom,
                dom_load,
                skip_kworkers,
                nr_doms,
            )
            &&& moved_load(moves.push(m)) == pushed + load
            &&& unmigrated(tasks_next) + 1 == unmigrated(tasks)
            &&& if 2 * (pushed + load) >= dom_load {
                whole == (Drained { tasks: tasks_next, pulls: pulls_next, moves: seq![m] })
            } else {
                let later = drain(
                    tasks_next,
                    pulls_next,
                    push_dom,
                    to_push - load,
                    pushed + load,
                    dom_load,
                    skip_kworkers,
                );
                &&& whole.tasks == later.tasks
                &&& whole.pulls == later.pulls
                &&& whole.moves == seq![m] + later.moves
            }
        }),
{
    reveal(drain_wf);
    let load = tasks[i].load;
    let m = Migration { pid: tasks[i].task.pid, from_dom: push_dom, to_dom: pulls[k].dom, load };
    lemma_victim(tasks, to_push, pulls[k].imbal as int, pulls[k].dom, skip_kworkers);
    lemma_mark_migrated(tasks, i);
    lemma_charge_pull_wf(pulls, k, load, nr_doms);
    lemma_facts_step(
        before,
        tasks,
        moves,
        picked,
        push_dom,
        dom_load,
        skip_kworkers,
        nr_doms,
        i,
        m,
    );
    lemma_drain_step(tasks, pulls, push_dom, to_push, pushed, dom_load, skip_kworkers, k, i);
}

/// Pushes from one domain; see [`drain`].
pub(crate) fn drain_dom(
    tasks: &mut Vec<LoadEntry>,
    pulls: &mut Vec<DomImbal>,
    push_dom: u32,
    excess: i128,
    dom_load: i128,
    skip_kworkers: bool,
    Ghost(nr_doms): Ghost<nat>,
) -> (r: (Vec<Migration>, Ghost<Seq<int>>))
    requires
        nr_doms <= MAX_DOMS,
        index_sorted(old(tasks)@),
        entries_bounded(old(tasks)@),
        imbal_sorted(old(pulls)@),
        imbals_bounded(old(pulls)@, nr_doms),
        doms_distinct(old(pulls)@),
        -(MAX_TASK_LOAD as int) <= excess <= MAX_TOTAL_LOAD,
        0 <= dom_load <= MAX_TOTAL_LOAD,
    ensures
        ({
            let d = drain(
                old(tasks)@,
                old(pulls)@,
                push_dom,
                excess as int,
                0,
                dom_load as int,
                skip_kworkers,
            );
            &&& final(tasks)@ == d.tasks
            &&& final(pulls)@ == d.pulls
            &&& r.0@ == d.moves
        }),
        index_sorted(final(tasks)@),
        entries_bounded(final(tasks)@),
        imbal_sorted(final(pulls)@),
        imbals_bounded(final(pulls)@, nr_doms),
        doms_distinct(final(pulls)@),
        drain_facts(
            old(tasks)@,
            final(tasks)@,
            r.0@,
            r.1@,
            push_dom,
            dom_load as int,
            skip_kworkers,
            nr_doms,
        ),
{
    let ghost goal = drain(
        tasks@,
        pulls@,
        push_dom,
        excess as int,
        0,
        dom_load as int,
        skip_kworkers,
    );
    let ghost before = tasks@;
    let mut moves: Vec<Migration> = Vec::new();
    let ghost mut picked: Seq<int> = Seq::empty();
    let mut to_push: i128 = excess;
    let mut pushed: i128 = 0;
    let mut stop: bool = false;
    proof {
        lemma_facts_start(before, push_dom, dom_load as int, skip_kworkers, nr_doms);
        reveal(drain_wf);
    }
    while !stop
        invariant
            drain_wf(tasks@, pulls@, nr_doms),
            0 <= dom_load <= MAX_TOTAL_LOAD,
            to_push + pushed == excess,
            -(MAX_TASK_LOAD as int) <= excess <= MAX_TOTAL_LOAD,
            -(MAX_TASK_LOAD as int) <= to_push <= MAX_TOTAL_LOAD,
            0 <= pushed,
            pushed == moved_load(moves@),
            !stop && moves@.len() >= 1 ==> 2 * pushed < dom_load,
            drain_facts(
                before,
                tasks@,
                moves@,
                picked,
                push_dom,
                dom_load as int,
                skip_kworkers,
                nr_doms,
            ),
            if stop {
                &&& goal.tasks == tasks@
                &&& goal.pulls == pulls@
                &&& goal.moves == moves@
            } else {
                let d = drain(
                    tasks@,
                    pulls@,
                    push_dom,
                    to_push as int,
                    pushed as int,
                    dom_load as int,
                    skip_kworkers,
                );
                &&& goal.tasks == d.tasks
                &&& goal.pulls == d.pulls
                &&& goal.moves == moves@ + d.moves
            },
        decreases
                unmigrated(tasks@) + if stop {
                    0nat
                } else {
                    1nat
                },
    {
        let ghost tasks1 = tasks@;
        let ghost pulls1 = pulls@;
        let ghost moves1 = moves@;
        match find_pull(tasks, pulls, to_push, skip_kworkers, Ghost(nr_doms)) {
            None => {
                stop = true;
                proof {
                    lemma_drain_end(
                        tasks@,
                        pulls@,
                        push_dom,
                        to_push as int,
                        pushed as int,
                        dom_load as int,
                        skip_kworkers,
                    );
                    assert(moves@ + Seq::<Migration>::empty() == moves@);
                }
            },
            Some((k, i, load)) => {
                let pull: DomImbal = pulls[k];
                let entry: LoadEntry = tasks[i];
                let m = Migration { pid: entry.task.pid, from_dom: push_dom, to_dom: pull.dom, load };
                proof {
                    lemma_drain_dom_step(
                        before,
                        tasks1,
                        pulls1,
                        moves1,
                        picked,
                        push_dom,
                        to_push as int,
                        pushed as int,
                        dom_load as int,
                        skip_kworkers,
                        nr_doms,
                        k as int,
                        i as int,
                    );
                }
                tasks.set(
                    i,
                    LoadEntry {
                        load: entry.load,
                        task: TaskInfo {
                            pid: entry.task.pid,
                            dom_mask: entry.task.dom_mask,
                            migrated: true,
                            is_kworker: entry.task.is_kworker,
                        },
                    },
                );
                pulls.remove(k);
                insert_by_imbal(pulls, DomImbal { imbal: pull.imbal - load as i128, dom: pull.dom });
                to_push = to_push - load as i128;
                pushed = pushed + load as i128;
                moves.push(m);
                proof {
                    assert(tasks@ == mark_migrated(tasks1, i as int));
                    assert(pulls@ == charge_pull(pulls1, k as int, load));
                    assert(moves@ == moves1.push(m));
                    picked = picked.push(i as int);
                    assert(moves1 + seq![m] == moves@);
                }
                if pushed >= dom_load - pushed {
                    stop = true;
                } else {
                    proof {
                        let d = drain(
                            tasks@,
                            pulls@,
                            push_dom,
                            to_push as int,
                            pushed as int,
                            dom_load as int,
                            skip_kworkers,
                        );
                        assert(moves1 + (seq![m] + d.moves) == moves@ + d.moves);
                    }
                }
            },
        }
    }
    proof {
        reveal(drain_wf);
    }
    (moves, Ghost(picked))
}

/// The load that, of a list of moves, leaves domain `dom`.
pub open spec fn outflow(moves: Seq<Migration>, dom: u32) -> int
    decreases moves.len(),
{
    if moves.len() == 0 {
        0
    } else {
        outflow(moves.drop_last(), dom) + if moves.last().from_dom == dom {
            moves.last().load as int
        } else {
            0
        }
    }
}

/// Whether move `j` started while its domain had given away nothing yet or
/// less than half of its load.
pub open spec fn started_below_cap(moves: Seq<Migration>, dom_loads: Seq<i128>, j: int) -> bool {
    let dom = moves[j].from_dom;
    let out = outflow(moves.take(j), dom);
    out == 0 || 2 * out < dom_loads[dom as int]
}

/// Whether a move takes a task of the index of its domain that may move
/// where it goes.
pub open spec fn move_allowed(
    index: Seq<Seq<LoadEntry>>,
    m: Migration,
    skip_kworkers: bool,
) -> bool {
    &&& m.from_dom < index.len()
    &&& m.to_dom < index.len()
    &&& exists|i: int| move_takes(index[m.from_dom as int], i, m, skip_kworkers)
}

/// No pid is in the indexes twice.
#[verifier::opaque]
pub open spec fn pids_distinct(index: Seq<Seq<LoadEntry>>) -> bool {
    forall|whole: int, i1: int, later: int, i2: int|
        0 <= whole < index.len() && 0 <= i1 < index[whole].len() && 0 <= later < index.len() && 0 <= i2
            < index[later].len() && (whole != later || i1 != i2) ==> (#[trigger] index[whole][i1]).task.pid
            != (#[trigger] index[later][i2]).task.pid
}

/// What holds of every plan: each move takes a task that may move where it
/// goes, no task moves twice, and each move starts while its domain has given
/// away less than half of its load.
pub open spec fn plan_lawful(
    index: Seq<Seq<LoadEntry>>,
    dom_loads: Seq<i128>,
    skip_kworkers: bool,
    moves: Seq<Migration>,
) -> bool {
    &&& forall|j: int| 0 <= j < moves.len() ==> move_allowed(index, #[trigger] moves[j], skip_kworkers)
    &&& pids_distinct(index) ==> forall|a: int, b: int|
        0 <= a < b < moves.len() ==> (#[trigger] moves[a]).pid != (#[trigger] moves[b]).pid
    &&& forall|j: int| 0 <= j < moves.len() ==> #[trigger] started_below_cap(moves, dom_loads, j)
}

/// What is known of the moves planned so far, with the place in the indexes
/// that each move takes its task from.
#[verifier::opaque]
pub(crate) open spec fn plan_facts(
    index: Seq<Seq<LoadEntry>>,
    dom_loads: Seq<i128>,
    skip_kworkers: bool,
    moves: Seq<Migration>,
    places: Seq<(int, int)>,
) -> bool {
    &&& places.len() == moves.len()
    &&& forall|j: int|
        0 <= j < moves.len() ==> {
            &&& (#[trigger] places[j]).0 == moves[j].from_dom
            &&& moves[j].from_dom < index.len()
            &&& moves[j].to_dom < index.len()
            &&& move_takes(index[places[j].0], places[j].1, moves[j], skip_kworkers)
        }
    &&& forall|a: int, b: int| 0 <= a < b < places.len() ==> places[a] != places[b]
    &&& forall|j: int| 0 <= j < moves.len() ==> #[trigger] started_below_cap(moves, dom_loads, j)
}

/// What leaves a domain in two lists of moves one after the other.
proof fn lemma_outflow_concat(a: Seq<Migration>, b: Seq<Migration>, dom: u32)
    ensures
        outflow(a + b, dom) == outflow(a, dom) + outflow(b, dom),
    decreases b.len(),
{
    if b.len() == 0 {
        assert(a + b == a);
    } else {
        assert((a + b).drop_last() == a + b.drop_last());
        assert((a + b).last() == b.last());
        lemma_outflow_concat(a, b.drop_last(), dom);
    }
}

/// Nothing leaves a domain that no move is from.
proof fn lemma_outflow_none(moves: Seq<Migration>, dom: u32)
    requires
        forall|j: int| 0 <= j < moves.len() ==> (#[trigger] moves[j]).from_dom != dom,
    ensures
        outflow(moves, dom) == 0,
    decreases moves.len(),
{
    if moves.len() > 0 {
        assert forall|j: int| 0 <= j < moves.drop_last().len() implies (
        #[trigger] moves.drop_last()[j]).from_dom != dom by {
            assert(moves.drop_last()[j] == moves[j]);
        }
        lemma_outflow_none(moves.drop_last(), dom);
    }
}

/// Where every move is from one domain, all the load leaves that domain.
proof fn lemma_outflow_all(moves: Seq<Migration>, dom: u32)
    requires
        forall|j: int| 0 <= j < moves.len() ==> (#[trigger] moves[j]).from_dom == dom,
    ensures
        outflow(moves, dom) == moved_load(moves),
    decreases moves.len(),
{
    if moves.len() > 0 {
        assert forall|j: int| 0 <= j < moves.drop_last().len() implies (
        #[trigger] moves.drop_last()[j]).from_dom == dom by {
            assert(moves.drop_last()[j] == moves[j]);
        }
        lemma_outflow_all(moves.drop_last(), dom);
    }
}

/// The moves out of one more domain keep what is known of the plan.
pub(crate) proof fn lemma_plan_facts_step(
    index: Seq<Seq<LoadEntry>>,
    dom_loads: Seq<i128>,
    skip_kworkers: bool,
    moves: Seq<Migration>,
    places: Seq<(int, int)>,
    after: Seq<LoadEntry>,
    block: Seq<Migration>,
    picked: Seq<int>,
    push_dom: u32,
)
    requires
        plan_facts(index, dom_loads, skip_kworkers, moves, places),
        push_dom < index.len(),
        index.len() == dom_loads.len(),
        drain_facts(
            index[push_dom as int],
            after,
            block,
            picked,
            push_dom,
            dom_loads[push_dom as int] as int,
            skip_kworkers,
            index.len(),
        ),
        forall|j: int| 0 <= j < moves.len() ==> (#[trigger] moves[j]).from_dom != push_dom,
    ensures
        plan_facts(
            index,
            dom_loads,
            skip_kworkers,
            moves + block,
            places + Seq::new(picked.len(), |j: int| (push_dom as int, picked[j])),
        ),
{
    reveal(plan_facts);
    reveal(drain_facts);
    let moves2 = moves + block;
    let more = Seq::new(picked.len(), |j: int| (push_dom as int, picked[j]));
    let places2 = places + more;
    assert forall|j: int| 0 <= j < moves2.len() implies {
        &&& (#[trigger] places2[j]).0 == moves2[j].from_dom
        &&& moves2[j].from_dom < index.len()
        &&& moves2[j].to_dom < index.len()
        &&& move_takes(index[places2[j].0], places2[j].1, moves2[j], skip_kworkers)
    } by {
        if j < moves.len() {
            assert(places2[j] == places[j]);
            assert(moves2[j] == moves[j]);
        } else {
            let jj = j - moves.len();
            assert(places2[j] == more[jj]);
            assert(moves2[j] == block[jj]);
            assert(move_takes(index[push_dom as int], picked[jj], block[jj], skip_kworkers));
        }
    }
    assert forall|a: int, b: int| 0 <= a < b < places2.len() implies places2[a] != places2[b] by {
        if b < moves.len() {
            assert(places2[a] == places[a]);
            assert(places2[b] == places[b]);
        } else if a < moves.len() {
            assert(places2[a] == places[a]);
            assert(places2[b] == more[b - moves.len()]);
            assert(places[a].0 == moves[a].from_dom);
        } else {
            assert(places2[a] == more[a - moves.len()]);
            assert(places2[b] == more[b - moves.len()]);
            assert(picked[a - moves.len()] != picked[b - moves.len()]);
        }
    }
    assert forall|j: int| 0 <= j < moves2.len() implies #[trigger] started_below_cap(
        moves2,
        dom_loads,
        j,
    ) by {
        if j < moves.len() {
            assert(moves2.take(j) == moves.take(j));
            assert(moves2[j] == moves[j]);
            assert(started_below_cap(moves, dom_loads, j));
        } else {
            let jj = j - moves.len();
            assert(moves2[j] == block[jj]);
            assert(move_takes(index[push_dom as int], picked[jj], block[jj], skip_kworkers));
            assert(block[jj].from_dom == push_dom);
            assert(moves2.take(j) == moves + block.take(jj));
            lemma_outflow_concat(moves, block.take(jj), push_dom);
            lemma_outflow_none(moves, push_dom);
            assert forall|x: int| 0 <= x < block.take(jj).len() implies (#[trigger] block.take(
                jj,
            )[x]).from_dom == push_dom by {
                assert(block.take(jj)[x] == block[x]);
                assert(move_takes(index[push_dom as int], picked[x], block[x], skip_kworkers));
            }
            lemma_outflow_all(block.take(jj), push_dom);
            if jj >= 1 {
                assert(2 * moved_load(block.take(jj)) < dom_loads[push_dom as int]);
            }
        }
    }
}

/// What is known of the plan with its places gives what holds of it without.
pub(crate) proof fn lemma_plan_lawful(
    index: Seq<Seq<LoadEntry>>,
    dom_loads: Seq<i128>,
    skip_kworkers: bool,
    moves: Seq<Migration>,
    places: Seq<(int, int)>,
)
    requires
        plan_facts(index, dom_loads, skip_kworkers, moves, places),
    ensures
        plan_lawful(index, dom_loads, skip_kworkers, moves),
{
    reveal(plan_facts);
    reveal(pids_distinct);
    assert forall|j: int| 0 <= j < moves.len() implies move_allowed(
        index,
        #[trigger] moves[j],
        skip_kworkers,
    ) by {
        assert(move_takes(index[places[j].0], places[j].1, moves[j], skip_kworkers));
    }
    if pids_distinct(index) {
        assert forall|a: int, b: int| 0 <= a < b < moves.len() implies (#[trigger] moves[a]).pid
            != (#[trigger] moves[b]).pid by {
            assert(move_takes(index[places[a].0], places[a].1, moves[a], skip_kworkers));
            assert(move_takes(index[places[b].0], places[b].1, moves[b], skip_kworkers));
            assert(places[a] != places[b]);
            let ea = index[places[a].0][places[a].1];
            let eb = index[places[b].0][places[b].1];
            assert(ea.task.pid != eb.task.pid);
        }
    }
}

/// [`plan`] with no domain left to push from.
pub(crate) proof fn lemma_plan_end(
    index: Seq<Seq<LoadEntry>>,
    pushes: Seq<DomImbal>,
    pulls: Seq<DomImbal>,
    dom_loads: Seq<i128>,
    skip_kworkers: bool,
)
    requires
        pushes.len() == 0,
    ensures
        plan(index, pushes, pulls, dom_loads, skip_kworkers) == (Plan {
            index,
            pulls,
            moves: Seq::empty(),
        }),
{
    reveal(plan);
}

/// [`plan`] with a domain to push from, written out.
pub(crate) proof fn lemma_plan_step(
    index: Seq<Seq<LoadEntry>>,
    pushes: Seq<DomImbal>,
    pulls: Seq<DomImbal>,
    dom_loads: Seq<i128>,
    skip_kworkers: bool,
)
    requires
        pushes.len() > 0,
    ensures
        ({
            let p = pushes.last();
            let d = drain(
                index[p.dom as int],
                pulls,
                p.dom,
                p.imbal as int,
                0,
                dom_loads[p.dom as int] as int,
                skip_kworkers,
            );
            let rest = plan(
                index.update(p.dom as int, d.tasks),
                pushes.drop_last(),
                d.pulls,
                dom_loads,
                skip_kworkers,
            );
            let all = plan(index, pushes, pulls, dom_loads, skip_kworkers);
            &&& all.index == rest.index
            &&& all.pulls == rest.pulls
            &&& all.moves == d.moves + rest.moves
        }),
{
    reveal(plan);
}

/// What a domain gives away in all is what it had given away before its last
/// move, and the load of that move; and before its last move it had given
/// away nothing or less than half of its load.
pub proof fn lemma_outflow_but_last(
    moves: Seq<Migration>,
    dom_loads: Seq<i128>,
    dom: u32,
    last: int,
)
    requires
        0 <= last < moves.len(),
        moves[last].from_dom == dom,
        forall|j: int| last < j < moves.len() ==> (#[trigger] moves[j]).from_dom != dom,
        started_below_cap(moves, dom_loads, last),
    ensures
        outflow(moves, dom) == outflow(moves.take(last), dom) + moves[last].load,
        outflow(moves.take(last), dom) == 0 || 2 * outflow(moves.take(last), dom)
            < dom_loads[dom as int],
{
    let head = moves.take(last + 1);
    let rest = moves.skip(last + 1);
    assert(moves == head + rest);
    lemma_outflow_concat(head, rest, dom);
    assert forall|j: int| 0 <= j < rest.len() implies (#[trigger] rest[j]).from_dom != dom by {
        assert(rest[j] == moves[last + 1 + j]);
    }
    lemma_outflow_none(rest, dom);
    assert(head.drop_last() == moves.take(last));
    assert(head.last() == moves[last]);
}

/// A domain gives away at most half of its load in a round, unless its last
/// move alone takes it over that: the cap is looked at between the moves, not
/// within one.
pub proof fn lemma_outflow_cap(
    moves: Seq<Migration>,
    dom_loads: Seq<i128>,
    dom: u32,
    last: int,
)
    requires
        0 <= last < moves.len(),
        moves[last].from_dom == dom,
        forall|j: int| last < j < moves.len() ==> (#[trigger] moves[j]).from_dom != dom,
        2 * (outflow(moves.take(last), dom) + moves[last].load) <= dom_loads[dom as int],
    ensures
        2 * outflow(moves, dom) <= dom_loads[dom as int],
{
    let head = moves.take(last + 1);
    let rest = moves.skip(last + 1);
    assert(moves == head + rest);
    lemma_outflow_concat(head, rest, dom);
    assert forall|j: int| 0 <= j < rest.len() implies (#[trigger] rest[j]).from_dom != dom by {
        assert(rest[j] == moves[last + 1 + j]);
    }
    lemma_outflow_none(rest, dom);
    assert(head.drop_last() == moves.take(last));
    assert(head.last() == moves[last]);
}

/// The second indexes hold the same tasks as the first, place by place.
pub open spec fn same_pids(a: Seq<Seq<LoadEntry>>, b: Seq<Seq<LoadEntry>>) -> bool {
    &&& a.len() == b.len()
    &&& forall|d: int| 0 <= d < a.len() ==> (#[trigger] a[d]).len() == b[d].len()
    &&& forall|d: int, i: int|
        0 <= d < a.len() && 0 <= i < a[d].len() ==> (#[trigger] a[d][i]).task.pid
            == b[d][i].task.pid
}

/// Indexes that hold the same tasks hold no pid twice if the others hold none.
pub proof fn lemma_same_pids_distinct(a: Seq<Seq<LoadEntry>>, b: Seq<Seq<LoadEntry>>)
    requires
        pids_distinct(a),
        same_pids(a, b),
    ensures
        pids_distinct(b),
{
    reveal(pids_distinct);
    assert forall|d1: int, i1: int, d2: int, i2: int|
        0 <= d1 < b.len() && 0 <= i1 < b[d1].len() && 0 <= d2 < b.len() && 0 <= i2 < b[d2].len()
            && (d1 != d2 || i1 != i2) implies (#[trigger] b[d1][i1]).task.pid != (
    #[trigger] b[d2][i2]).task.pid by {
        assert(a[d1].len() == b[d1].len());
        assert(a[d2].len() == b[d2].len());
        assert(a[d1][i1].task.pid == b[d1][i1].task.pid);
        assert(a[d2][i2].task.pid == b[d2][i2].task.pid);
    }
}

/// Pushing from a domain leaves every index with the tasks it had.
pub(crate) proof fn lemma_drained_same_pids(
    first: Seq<Seq<LoadEntry>>,
    index: Seq<Seq<LoadEntry>>,
    after: Seq<LoadEntry>,
    moves: Seq<Migration>,
    picked: Seq<int>,
    push_dom: u32,
    dom_load: int,
    skip_kworkers: bool,
    nr_doms: nat,
)
    requires
        same_pids(first, index),
        push_dom < index.len(),
        drain_facts(
            index[push_dom as int],
            after,
            moves,
            picked,
            push_dom,
            dom_load,
            skip_kworkers,
            nr_doms,
        ),
    ensures
        same_pids(first, index.update(push_dom as int, after)),
{
    reveal(drain_facts);
    let next = index.update(push_dom as int, after);
    assert forall|d: int| 0 <= d < first.len() implies (#[trigger] first[d]).len()
        == next[d].len() by {
        assert(first[d].len() == index[d].len());
    }
    assert forall|d: int, i: int| 0 <= d < first.len() && 0 <= i < first[d].len() implies (
    #[trigger] first[d][i]).task.pid == next[d][i].task.pid by {
        assert(first[d].len() == index[d].len());
        assert(first[d][i].task.pid == index[d][i].task.pid);
        if d == push_dom {
            assert(after[i].task.pid == index[d][i].task.pid);
        }
    }
}

/// Indexes without a task hold no pid twice.
pub proof fn lemma_empty_pids_distinct(nr_doms: nat)
    ensures
        pids_distinct(Seq::new(nr_doms, |d: int| Seq::<LoadEntry>::empty())),
{
    reveal(pids_distinct);
}

} // verus!
