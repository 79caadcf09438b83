//! Picking the task to move between two domains.
use crate::balance_types::{index_sorted, LoadEntry, MAX_TOTAL_LOAD};
use vstd::prelude::*;

verus! {

/// How far two amounts are apart.
pub open spec fn dist(a: int, b: int) -> int {
    if a >= b {
        a - b
    } else {
        b - a
    }
}

/// Whether a task may be moved to domain `pull_dom`: it has not been picked
/// yet, it may run there, and it is no kworker where those stay put.
pub open spec fn can_move(e: LoadEntry, pull_dom: u32, skip_kworkers: bool) -> bool {
    &&& !e.task.migrated
    &&& e.task.dom_mask & (1u64 << (pull_dom as u64)) != 0
    &&& !(skip_kworkers && e.task.is_kworker)
}

/// Whether a load lies on the given side of the target: at or below half of
/// `twice_target`, or at or above it.
pub open spec fn on_side(load: u64, below: bool, twice_target: int) -> bool {
    if below {
        2 * load <= twice_target
    } else {
        2 * load >= twice_target
    }
}

/// Whether entry `i` may be moved and lies on the given side of the target.
pub open spec fn is_candidate(
    tasks: Seq<LoadEntry>,
    i: int,
    below: bool,
    twice_target: int,
    pull_dom: u32,
    skip_kworkers: bool,
) -> bool {
    &&& 0 <= i < tasks.len()
    &&& can_move(tasks[i], pull_dom, skip_kworkers)
    &&& on_side(tasks[i].load, below, twice_target)
}

/// Whether entry `i` is the candidate nearest to the target on the given
/// side: the last one in the index below, the first one above.
pub open spec fn is_first_candidate(
    tasks: Seq<LoadEntry>,
    i: int,
    below: bool,
    twice_target: int,
    pull_dom: u32,
    skip_kworkers: bool,
) -> bool {
    &&& is_candidate(tasks, i, below, twice_target, pull_dom, skip_kworkers)
    &&& forall|j: int| #[trigger]
        is_candidate(tasks, j, below, twice_target, pull_dom, skip_kworkers) ==> if below {
            j <= i
        } else {
            i <= j
        }
}

/// The candidate nearest to the target on the given side, if there is one.
pub open spec fn first_candidate(
    tasks: Seq<LoadEntry>,
    below: bool,
    twice_target: int,
    pull_dom: u32,
    skip_kworkers: bool,
) -> Option<int> {
    if exists|i: int|
        is_first_candidate(tasks, i, below, twice_target, pull_dom, skip_kworkers) {
        Some(
            choose|i: int|
                is_first_candidate(tasks, i, below, twice_target, pull_dom, skip_kworkers),
        )
    } else {
        None
    }
}

/// There is at most one nearest candidate.
pub proof fn lemma_first_candidate_is(
    tasks: Seq<LoadEntry>,
    i: int,
    below: bool,
    twice_target: int,
    pull_dom: u32,
    skip_kworkers: bool,
)
    requires
        is_first_candidate(tasks, i, below, twice_target, pull_dom, skip_kworkers),
    ensures
        first_candidate(tasks, below, twice_target, pull_dom, skip_kworkers) == Some(i),
{
    let c = choose|c: int|
        is_first_candidate(tasks, c, below, twice_target, pull_dom, skip_kworkers);
    assert(is_candidate(tasks, c, below, twice_target, pull_dom, skip_kworkers));
    assert(is_candidate(tasks, i, below, twice_target, pull_dom, skip_kworkers));
}

/// Finds the task nearest to the target on one side of it that has not been
/// picked yet and can run in `pull_dom`.
pub fn find_first_candidate(
    tasks: &Vec<LoadEntry>,
    below: bool,
    twice_target: i128,
    pull_dom: u32,
    skip_kworkers: bool,
) -> (r: Option<usize>)
    requires
        pull_dom < 64,
    ensures
        match r {
            Some(i) => first_candidate(tasks@, below, twice_target as int, pull_dom, skip_kworkers)
                == Some(i as int),
            None => first_candidate(tasks@, below, twice_target as int, pull_dom, skip_kworkers)
                is None,
        },
{
    let n: usize = tasks.len();
    let bit: u64 = 1u64 << (pull_dom as u64);
    if below {
        let mut p: usize = n;
        while p > 0
            invariant
                n == tasks@.len(),
                0 <= p <= n,
                below,
                bit == 1u64 << (pull_dom as u64),
                forall|j: int|
                    p <= j < n ==> !#[trigger] is_candidate(
                        tasks@,
                        j,
                        below,
                        twice_target as int,
                        pull_dom,
                        skip_kworkers,
                    ),
            decreases p,
        {
            let e: LoadEntry = tasks[p - 1];
            if !e.task.migrated && e.task.dom_mask & bit != 0 && !(skip_kworkers
                && e.task.is_kworker) && 2 * (e.load as i128) <= twice_target {
                proof {
                    assert(is_candidate(
                        tasks@,
                        p - 1,
                        below,
                        twice_target as int,
                        pull_dom,
                        skip_kworkers,
                    ));
                    lemma_first_candidate_is(
                        tasks@,
                        p - 1,
                        below,
                        twice_target as int,
                        pull_dom,
                        skip_kworkers,
                    );
                }
                return Some(p - 1);
            }
            p -= 1;
        }
        None
    } else {
        let mut p: usize = 0;
        while p < n
            invariant
                n == tasks@.len(),
                0 <= p <= n,
                !below,
                bit == 1u64 << (pull_dom as u64),
                forall|j: int|
                    0 <= j < p ==> !#[trigger] is_candidate(
                        tasks@,
                        j,
                        below,
                        twice_target as int,
                        pull_dom,
                        skip_kworkers,
                    ),
            decreases n - p,
        {
            let e: LoadEntry = tasks[p];
            if !e.task.migrated && e.task.dom_mask & bit != 0 && !(skip_kworkers
                && e.task.is_kworker) && 2 * (e.load as i128) >= twice_target {
                proof {
                    assert(is_candidate(
                        tasks@,
                        p as int,
                        below,
                        twice_target as int,
                        pull_dom,
                        skip_kworkers,
                    ));
                    lemma_first_candidate_is(
                        tasks@,
                        p as int,
                        below,
                        twice_target as int,
                        pull_dom,
                        skip_kworkers,
                    );
                }
                return Some(p);
            }
            p += 1;
        }
        None
    }
}

/// What is left off balance between two domains once `load` has moved from
/// the one to the other.
pub open spec fn new_imbal(to_push: int, to_pull: int, load: int) -> int {
    dist(to_push, load) + dist(to_pull, load)
}

/// The smaller of two amounts.
pub open spec fn lesser(a: int, b: int) -> int {
    if a <= b {
        a
    } else {
        b
    }
}

/// The task to move from a domain that has `to_push` too much to one that has
/// `to_pull` too little. The target is half of the smaller of the two. Of the
/// nearest candidate at or below the target and the nearest at or above it,
/// the one that leaves less off balance is taken, the lower one where both
/// leave the same. It is moved only if that leaves less off balance than
/// there is now.
pub open spec fn victim(
    tasks: Seq<LoadEntry>,
    to_push: int,
    to_pull: int,
    pull_dom: u32,
    skip_kworkers: bool,
) -> Option<int> {
    let target = lesser(to_push, to_pull);
    let lo = first_candidate(tasks, true, target, pull_dom, skip_kworkers);
    let hi = first_candidate(tasks, false, target, pull_dom, skip_kworkers);
    let best = match (lo, hi) {
        (None, None) => None,
        (Some(a), None) => Some(a),
        (None, Some(b)) => Some(b),
        (Some(a), Some(b)) => if new_imbal(to_push, to_pull, tasks[a].load as int) <= new_imbal(
            to_push,
            to_pull,
            tasks[b].load as int,
        ) {
            Some(a)
        } else {
            Some(b)
        },
    };
    match best {
        Some(i) => if new_imbal(to_push, to_pull, tasks[i].load as int) < to_push + to_pull {
            Some(i)
        } else {
            None
        },
        None => None,
    }
}

/// A task that is picked may be moved, is in the index, and leaves strictly
/// less off balance between the two domains than there was; so both domains
/// were off balance, and the task has some load.
pub proof fn lemma_victim(
    tasks: Seq<LoadEntry>,
    to_push: int,
    to_pull: int,
    pull_dom: u32,
    skip_kworkers: bool,
)
    requires
        victim(tasks, to_push, to_pull, pull_dom, skip_kworkers) is Some,
    ensures
        ({
            let i = victim(tasks, to_push, to_pull, pull_dom, skip_kworkers)->Some_0;
            &&& 0 <= i < tasks.len()
            &&& can_move(tasks[i], pull_dom, skip_kworkers)
            &&& new_imbal(to_push, to_pull, tasks[i].load as int) < to_push + to_pull
            &&& to_push > 0
            &&& to_pull > 0
            &&& tasks[i].load > 0
        }),
{
    let target = lesser(to_push, to_pull);
    let lo = first_candidate(tasks, true, target, pull_dom, skip_kworkers);
    let hi = first_candidate(tasks, false, target, pull_dom, skip_kworkers);
    if lo is Some {
        let a = lo->Some_0;
        assert(is_first_candidate(tasks, a, true, target, pull_dom, skip_kworkers));
    }
    if hi is Some {
        let b = hi->Some_0;
        assert(is_first_candidate(tasks, b, false, target, pull_dom, skip_kworkers));
    }
}

/// Picks the task to move between two domains.
pub fn pick_from(
    tasks: &Vec<LoadEntry>,
    to_push: i128,
    to_pull: i128,
    pull_dom: u32,
    skip_kworkers: bool,
) -> (r: Option<(usize, u64)>)
    requires
        pull_dom < 64,
        -MAX_TOTAL_LOAD <= to_push <= MAX_TOTAL_LOAD,
        -MAX_TOTAL_LOAD <= to_pull <= MAX_TOTAL_LOAD,
    ensures
        match r {
            Some((i, load)) => victim(
                tasks@,
                to_push as int,
                to_pull as int,
                pull_dom,
                skip_kworkers,
            ) == Some(i as int) && i < tasks@.len() && load == tasks@[i as int].load,
            None => victim(tasks@, to_push as int, to_pull as int, pull_dom, skip_kworkers)
                is None,
        },
{
    let target: i128 = if to_push <= to_pull {
        to_push
    } else {
        to_pull
    };
    let lo = find_first_candidate(tasks, true, target, pull_dom, skip_kworkers);
    let hi = find_first_candidate(tasks, false, target, pull_dom, skip_kworkers);
    proof {
        if lo is Some {
            assert(is_first_candidate(
                tasks@,
                lo->Some_0 as int,
                true,
                target as int,
                pull_dom,
                skip_kworkers,
            ));
        }
        if hi is Some {
            assert(is_first_candidate(
                tasks@,
                hi->Some_0 as int,
                false,
                target as int,
                pull_dom,
                skip_kworkers,
            ));
        }
    }
    let best: usize = match (lo, hi) {
        (None, None) => {
            return None;
        },
        (Some(a), None) => a,
        (None, Some(b)) => b,
        (Some(a), Some(b)) => {
            if left_over(to_push, to_pull, tasks[a].load) <= left_over(
                to_push,
                to_pull,
                tasks[b].load,
            ) {
                a
            } else {
                b
            }
        },
    };
    let load: u64 = tasks[best].load;
    if left_over(to_push, to_pull, load) < to_push + to_pull {
        Some((best, load))
    } else {
        None
    }
}

/// Computes what is left off balance once `load` has moved.
fn left_over(to_push: i128, to_pull: i128, load: u64) -> (r: i128)
    requires
        -MAX_TOTAL_LOAD <= to_push <= MAX_TOTAL_LOAD,
        -MAX_TOTAL_LOAD <= to_pull <= MAX_TOTAL_LOAD,
    ensures
        r == new_imbal(to_push as int, to_pull as int, load as int),
{
    let l: i128 = load as i128;
    let a: i128 = if to_push >= l {
        to_push - l
    } else {
        l - to_push
    };
    let b: i128 = if to_pull >= l {
        to_pull - l
    } else {
        l - to_pull
    };
    a + b
}

/// In an index in ascending order of load, the candidate that is picked on a
/// side of the target is the nearest to it: no candidate on that side has a
/// load between the two.
pub proof fn lemma_first_candidate_nearest(
    tasks: Seq<LoadEntry>,
    i: int,
    below: bool,
    twice_target: int,
    pull_dom: u32,
    skip_kworkers: bool,
)
    requires
        index_sorted(tasks),
        is_first_candidate(tasks, i, below, twice_target, pull_dom, skip_kworkers),
    ensures
        forall|j: int| #[trigger]
            is_candidate(tasks, j, below, twice_target, pull_dom, skip_kworkers) ==> if below {
                tasks[j].load <= tasks[i].load
            } else {
                tasks[i].load <= tasks[j].load
            },
{
}

} // verus!
