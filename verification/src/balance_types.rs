//! The records that the load balancer keeps and hands out.
use crate::units::MAX_TASK_LOAD;
use vstd::prelude::*;

verus! {

/// Largest load that a domain, or all domains together, can carry: more
/// tasks than fit in memory, each with the largest load.
pub const MAX_TOTAL_LOAD: i128 = 0x10_0000_0000_0000_0000_0000_0000_0000;

/// One task that may move to another domain.
#[derive(Clone, Copy, Debug, PartialEq, Eq, Structural)]
pub struct TaskInfo {
    pub pid: i32,
    /// The domains the task may run in, one bit per domain.
    pub dom_mask: u64,
    /// Whether the task was picked to move in this round.
    pub migrated: bool,
    pub is_kworker: bool,
}

/// A task in the index of its domain, with the load it is ranked by.
#[derive(Clone, Copy, Debug, PartialEq, Eq, Structural)]
pub struct LoadEntry {
    pub load: u64,
    pub task: TaskInfo,
}

/// A domain whose load is off the average, with how much of that is left
/// to move. What is left falls below zero where a move overshoots.
#[derive(Clone, Copy, Debug, PartialEq, Eq, Structural)]
pub struct DomImbal {
    pub imbal: i128,
    pub dom: u32,
}

/// One task to move: `pid` goes from `from_dom` to `to_dom` and takes `load`
/// along.
#[derive(Clone, Copy, Debug, PartialEq, Eq, Structural)]
pub struct Migration {
    pub pid: i32,
    pub from_dom: u32,
    pub to_dom: u32,
    pub load: u64,
}

/// Why the loads could not be read.
#[derive(Clone, Copy, Debug, PartialEq, Eq, Structural)]
pub enum LoadError {
    /// No time has passed since the last round, so no share of it can be taken.
    ZeroPeriod,
    /// There is no domain to average over.
    NoDomains,
    /// A task is in a domain that does not exist.
    BadDomain { pid: i32, dom_id: u32 },
    /// A pid is reported twice.
    DuplicatePid { pid: i32 },
}

/// The index of a domain is in ascending order of load.
pub open spec fn index_sorted(s: Seq<LoadEntry>) -> bool {
    forall|i: int, j: int| 0 <= i < j < s.len() ==> s[i].load <= s[j].load
}

/// Where an entry of the given load goes in an index: behind the last entry
/// that is not heavier.
pub open spec fn load_rank(s: Seq<LoadEntry>, load: u64) -> int
    decreases s.len(),
{
    if s.len() == 0 {
        0
    } else if s.last().load <= load {
        s.len() as int
    } else {
        load_rank(s.drop_last(), load)
    }
}

/// The index with one more entry.
pub open spec fn index_insert(s: Seq<LoadEntry>, e: LoadEntry) -> Seq<LoadEntry> {
    s.insert(load_rank(s, e.load), e)
}

/// The rank is a place in the index, everything before it is not heavier,
/// and in a sorted index everything from it on is heavier.
pub proof fn lemma_load_rank(s: Seq<LoadEntry>, load: u64)
    ensures
        0 <= load_rank(s, load) <= s.len(),
        load_rank(s, load) > 0 ==> s[load_rank(s, load) - 1].load <= load,
        forall|j: int| load_rank(s, load) <= j < s.len() ==> (#[trigger] s[j]).load > load,
    decreases s.len(),
{
    if s.len() > 0 && s.last().load > load {
        lemma_load_rank(s.drop_last(), load);
        assert forall|j: int| load_rank(s, load) <= j < s.len() implies (#[trigger] s[j]).load
            > load by {
            if j < s.len() - 1 {
                assert(s.drop_last()[j] == s[j]);
            }
        }
    }
}

/// Putting an entry into a sorted index leaves it sorted.
pub proof fn lemma_index_insert_sorted(s: Seq<LoadEntry>, e: LoadEntry)
    requires
        index_sorted(s),
    ensures
        index_sorted(index_insert(s, e)),
{
    lemma_load_rank(s, e.load);
    let r = load_rank(s, e.load);
    let t = index_insert(s, e);
    assert forall|i: int, j: int| 0 <= i < j < t.len() implies t[i].load <= t[j].load by {
        if r > 0 {
            assert(s[r - 1].load <= e.load);
        }
        if i < r && j == r {
            assert(t[i] == s[i]);
            if i < r - 1 {
                assert(s[i].load <= s[r - 1].load);
            }
        } else if i == r {
            assert(t[j] == s[j - 1]);
        } else if i < r {
            assert(t[i] == s[i]);
            if j < r {
                assert(t[j] == s[j]);
            } else {
                assert(t[j] == s[j - 1]);
            }
        } else {
            assert(t[i] == s[i - 1]);
            assert(t[j] == s[j - 1]);
        }
    }
}

/// Puts an entry into the index of its domain.
pub fn insert_by_load(index: &mut Vec<LoadEntry>, e: LoadEntry)
    ensures
        final(index)@ == index_insert(old(index)@, e),
{
    let mut p: usize = index.len();
    assert(index@.take(p as int) == index@);
    while p > 0 && index[p - 1].load > e.load
        invariant
            index@ == old(index)@,
            0 <= p <= index@.len(),
            load_rank(index@, e.load) == load_rank(index@.take(p as int), e.load),
        decreases p,
    {
        proof {
            assert(index@.take(p as int).drop_last() == index@.take(p - 1));
        }
        p -= 1;
    }
    proof {
        if p == 0 {
            assert(index@.take(0).len() == 0);
        } else {
            assert(index@.take(p as int).last() == index@[p - 1]);
        }
    }
    proof {
        assert(index@.take(index@.len() as int) == index@);
    }
    index.insert(p, e);
}

/// The order in which domains off the average are kept: by what is left to
/// move, and by domain where that is equal.
pub open spec fn imbal_lt(a: DomImbal, b: DomImbal) -> bool {
    a.imbal < b.imbal || (a.imbal == b.imbal && a.dom < b.dom)
}

/// Strictly ascending in that order.
pub open spec fn imbal_sorted(s: Seq<DomImbal>) -> bool {
    forall|i: int, j: int| 0 <= i < j < s.len() ==> imbal_lt(s[i], s[j])
}

/// Where a domain goes in the list: behind the last one that comes before it.
pub open spec fn imbal_rank(s: Seq<DomImbal>, e: DomImbal) -> int
    decreases s.len(),
{
    if s.len() == 0 {
        0
    } else if imbal_lt(s.last(), e) {
        s.len() as int
    } else {
        imbal_rank(s.drop_last(), e)
    }
}

/// The list with one more domain.
pub open spec fn imbal_insert(s: Seq<DomImbal>, e: DomImbal) -> Seq<DomImbal> {
    s.insert(imbal_rank(s, e), e)
}

/// No entry of the list is for domain `dom`.
pub open spec fn lacks_dom(s: Seq<DomImbal>, dom: u32) -> bool {
    forall|i: int| 0 <= i < s.len() ==> (#[trigger] s[i]).dom != dom
}

/// The rank is a place in the list, and nothing from it on comes before the
/// new domain.
pub proof fn lemma_imbal_rank(s: Seq<DomImbal>, e: DomImbal)
    ensures
        0 <= imbal_rank(s, e) <= s.len(),
        imbal_rank(s, e) > 0 ==> imbal_lt(s[imbal_rank(s, e) - 1], e),
        forall|j: int| imbal_rank(s, e) <= j < s.len() ==> !imbal_lt(#[trigger] s[j], e),
    decreases s.len(),
{
    if s.len() > 0 && !imbal_lt(s.last(), e) {
        lemma_imbal_rank(s.drop_last(), e);
        assert forall|j: int| imbal_rank(s, e) <= j < s.len() implies !imbal_lt(
            #[trigger] s[j],
            e,
        ) by {
            if j < s.len() - 1 {
                assert(s.drop_last()[j] == s[j]);
            }
        }
    }
}

/// Putting a domain that is not yet in a sorted list into it leaves the list
/// sorted.
pub proof fn lemma_imbal_insert_sorted(s: Seq<DomImbal>, e: DomImbal)
    requires
        imbal_sorted(s),
        lacks_dom(s, e.dom),
    ensures
        imbal_sorted(imbal_insert(s, e)),
{
    lemma_imbal_rank(s, e);
    let r = imbal_rank(s, e);
    let t = imbal_insert(s, e);
    assert forall|i: int, j: int| 0 <= i < j < t.len() implies imbal_lt(t[i], t[j]) by {
        if i < r && j == r {
            assert(t[i] == s[i]);
            if i < r - 1 {
                assert(imbal_lt(s[i], s[r - 1]));
            }
        } else if i == r {
            assert(t[j] == s[j - 1]);
            assert(!imbal_lt(s[j - 1], e));
            assert(s[j - 1].dom != e.dom);
        } else if i < r {
            assert(t[i] == s[i]);
            if j < r {
                assert(t[j] == s[j]);
            } else {
                assert(t[j] == s[j - 1]);
            }
        } else {
            assert(t[i] == s[i - 1]);
            assert(t[j] == s[j - 1]);
        }
    }
}

/// Puts a domain into the list.
pub fn insert_by_imbal(list: &mut Vec<DomImbal>, e: DomImbal)
    ensures
        final(list)@ == imbal_insert(old(list)@, e),
{
    let mut p: usize = list.len();
    assert(list@.take(p as int) == list@);
    while p > 0 && !(list[p - 1].imbal < e.imbal || (list[p - 1].imbal == e.imbal && list[p
        - 1].dom < e.dom))
        invariant
            list@ == old(list)@,
            0 <= p <= list@.len(),
            imbal_rank(list@, e) == imbal_rank(list@.take(p as int), e),
        decreases p,
    {
        proof {
            assert(list@.take(p as int).drop_last() == list@.take(p - 1));
        }
        p -= 1;
    }
    proof {
        if p == 0 {
            assert(list@.take(0).len() == 0);
        } else {
            assert(list@.take(p as int).last() == list@[p - 1]);
        }
        assert(list@.take(list@.len() as int) == list@);
    }
    list.insert(p, e);
}

/// Every entry of a list is for a domain that exists and holds a sane amount.
pub open spec fn imbals_bounded(s: Seq<DomImbal>, nr_doms: nat) -> bool {
    forall|i: int|
        0 <= i < s.len() ==> (#[trigger] s[i]).dom < nr_doms && -(MAX_TASK_LOAD as int)
            <= s[i].imbal <= MAX_TOTAL_LOAD
}

/// No two entries of a list are for the same domain.
pub open spec fn doms_distinct(s: Seq<DomImbal>) -> bool {
    forall|i: int, j: int| 0 <= i < j < s.len() ==> s[i].dom != s[j].dom
}

/// Every entry of an index has a load that a task can have.
pub open spec fn entries_bounded(s: Seq<LoadEntry>) -> bool {
    forall|i: int| 0 <= i < s.len() ==> (#[trigger] s[i]).load <= MAX_TASK_LOAD
}

} // verus!
