//! The caches that the CPUs share, and the order of their IDs.
use std::collections::{BTreeMap, BTreeSet};
use vstd::prelude::*;
use vstd::std_specs::btree::{axiom_increasing_seq_meaning, increasing_seq};
use vstd::std_specs::cmp::OrdSpec;
use vstd::std_specs::iter::IteratorSpec;

verus! {

/// The cache IDs that the online CPUs report.
pub open spec fn cache_id_set(cache: Seq<Option<usize>>) -> Set<usize> {
    Set::new(|id: usize| cache.contains(Some(id)))
}

/// Whether `rank` numbers the IDs in ascending order from 0 without gaps.
pub open spec fn ranked(ids: Set<usize>, rank: Map<usize, usize>) -> bool {
    &&& rank.dom() == ids
    &&& forall|a: usize| ids.contains(a) ==> (#[trigger] rank[a]) < ids.len()
    &&& forall|a: usize, b: usize|
        ids.contains(a) && ids.contains(b) ==> (a < b <==> (#[trigger] rank[a]) < (
        #[trigger] rank[b]))
    &&& forall|d: int| 0 <= d < ids.len() ==> #[trigger] rank_taken(ids, rank, d)
}

/// Whether one of the IDs has rank `d`.
pub open spec fn rank_taken(ids: Set<usize>, rank: Map<usize, usize>, d: int) -> bool {
    exists|a: usize| ids.contains(a) && #[trigger] rank[a] == d
}

/// One more CPU: its ID, if it has one, joins the IDs of the CPUs before it.
proof fn lemma_cache_id_step(cache: Seq<Option<usize>>, cpu: int)
    requires
        0 <= cpu < cache.len(),
    ensures
        cache_id_set(cache.take(cpu + 1)) == match cache[cpu] {
            Some(id) => cache_id_set(cache.take(cpu)).insert(id),
            None => cache_id_set(cache.take(cpu)),
        },
{
    let next = cache.take(cpu + 1);
    let prev = cache.take(cpu);
    assert(next == prev.push(cache[cpu]));
    assert forall|x: usize| cache_id_set(next).contains(x) <==> (cache_id_set(prev).contains(x)
        || cache[cpu] == Some(x)) by {
        if prev.contains(Some(x)) {
            let i = choose|i: int| 0 <= i < prev.len() && prev[i] == Some(x);
            assert(next[i] == Some(x));
        }
        if cache[cpu] == Some(x) {
            assert(next[cpu] == Some(x));
        }
        if next.contains(Some(x)) {
            let i = choose|i: int| 0 <= i < next.len() && next[i] == Some(x);
            if i < cpu {
                assert(prev[i] == Some(x));
            }
        }
    }
    match cache[cpu] {
        Some(id) => {
            assert(cache_id_set(next) =~= cache_id_set(prev).insert(id));
        },
        None => {
            assert(cache_id_set(next) =~= cache_id_set(prev));
        },
    }
}

/// Collects the cache IDs of the online CPUs.
pub fn collect_cache_ids(cpu_to_cache: &Vec<Option<usize>>) -> (ids: BTreeSet<usize>)
    ensures
        ids@ == cache_id_set(cpu_to_cache@),
{
    let mut ids: BTreeSet<usize> = BTreeSet::new();
    let mut cpu: usize = 0;
    assert(ids@ =~= cache_id_set(cpu_to_cache@.take(0)));
    while cpu < cpu_to_cache.len()
        invariant
            0 <= cpu <= cpu_to_cache@.len(),
            ids@ == cache_id_set(cpu_to_cache@.take(cpu as int)),
        decreases cpu_to_cache@.len() - cpu,
    {
        proof {
            lemma_cache_id_step(cpu_to_cache@, cpu as int);
        }
        match cpu_to_cache[cpu] {
            Some(id) => {
                ids.insert(id);
            },
            None => {},
        }
        cpu += 1;
    }
    assert(cpu_to_cache@.take(cpu_to_cache@.len() as int) == cpu_to_cache@);
    ids
}

/// References to integers are ordered as the integers are.
proof fn lemma_refs_ordered()
    ensures
        vstd::laws_cmp::obeys_cmp::<&usize>(),
{
    broadcast use vstd::laws_eq::group_laws_eq;

    reveal(vstd::laws_eq::obeys_eq_spec_properties);
    reveal(vstd::laws_cmp::obeys_partial_cmp_spec_properties);
    reveal(vstd::laws_cmp::obeys_cmp_partial_ord);
    reveal(vstd::laws_cmp::obeys_cmp_ord);
}

/// What a set hands out in order is strictly ascending.
proof fn lemma_increasing(s: Seq<&usize>)
    requires
        increasing_seq(s),
    ensures
        forall|i: int, j: int| 0 <= i < j < s.len() ==> *s[i] < *s[j],
{
    lemma_refs_ordered();
    axiom_increasing_seq_meaning(s);
    assert forall|i: int, j: int| 0 <= i < j < s.len() implies *s[i] < *s[j] by {
        assert(OrdSpec::cmp_spec(&s[i], &s[j]) is Less);
    }
}

/// Numbers the IDs in ascending order from 0: existing IDs get consecutive
/// numbers, whatever gaps lie between them.
pub fn rank_ids(ids: &BTreeSet<usize>) -> (rank: BTreeMap<usize, usize>)
    ensures
        ranked(ids@, rank@),
{
    let mut rank: BTreeMap<usize, usize> = BTreeMap::new();
    let total: usize = ids.len();
    let mut n: usize = 0;
    let in_order = ids.iter();
    let ghost s = IteratorSpec::remaining(&in_order);
    proof {
        lemma_increasing(s);
    }
    for id in it: in_order
        invariant
            it.seq() == s,
            s.len() == ids@.len(),
            s.len() == total,
            s.unref().to_set() == ids@,
            forall|i: int, j: int| 0 <= i < j < s.len() ==> *s[i] < *s[j],
            n == it.index(),
            forall|k: int|
                0 <= k < n ==> rank@.contains_key(*#[trigger] s[k]) && rank@[*s[k]] == k,
            forall|a: usize|
                rank@.contains_key(a) ==> exists|k: int| 0 <= k < n && *#[trigger] s[k] == a,
    {
        let ghost before = rank@;
        assert(*id == *s[n as int]);
        rank.insert(*id, n);
        n = n + 1;
        proof {
            assert forall|k: int| 0 <= k < n implies rank@.contains_key(*#[trigger] s[k])
                && rank@[*s[k]] == k by {
                if k < n - 1 {
                    assert(before.contains_key(*s[k]));
                    assert(*s[k] < *s[n - 1]);
                }
            }
            assert forall|a: usize| rank@.contains_key(a) implies exists|k: int|
                0 <= k < n && *#[trigger] s[k] == a by {
                if a == *id {
                    assert(*s[n - 1] == a);
                } else {
                    assert(before.contains_key(a));
                    let k = choose|k: int| 0 <= k < n - 1 && *#[trigger] s[k] == a;
                    assert(*s[k] == a);
                }
            }
        }
    }
    proof {
        assert forall|a: usize| ids@.contains(a) implies rank@.contains_key(a) by {
            assert(s.unref().to_set().contains(a));
            let k = choose|k: int| 0 <= k < s.unref().len() && s.unref()[k] == a;
            assert(*s[k] == a);
        }
        assert forall|a: usize| rank@.contains_key(a) implies ids@.contains(a) by {
            let k = choose|k: int| 0 <= k < n && *#[trigger] s[k] == a;
            assert(s.unref()[k] == a);
            assert(s.unref().to_set().contains(a));
        }
        assert(rank@.dom() =~= ids@);
        assert forall|a: usize, b: usize| ids@.contains(a) && ids@.contains(b) implies (a < b <==> (
        #[trigger] rank@[a]) < (#[trigger] rank@[b])) by {
            let ka = choose|k: int| 0 <= k < n && *#[trigger] s[k] == a;
            let kb = choose|k: int| 0 <= k < n && *#[trigger] s[k] == b;
            assert(rank@[*s[ka]] == ka);
            assert(rank@[*s[kb]] == kb);
            if ka < kb {
                assert(*s[ka] < *s[kb]);
            } else if kb < ka {
                assert(*s[kb] < *s[ka]);
            }
        }
        assert forall|a: usize| ids@.contains(a) implies (#[trigger] rank@[a]) < ids@.len() by {
            let ka = choose|k: int| 0 <= k < n && *#[trigger] s[k] == a;
            assert(rank@[*s[ka]] == ka);
        }
        assert forall|d: int| 0 <= d < ids@.len() implies #[trigger] rank_taken(
            ids@,
            rank@,
            d,
        ) by {
            let a = *s[d];
            assert(rank@.contains_key(*s[d]));
            assert(rank@[a] == d);
        }
    }
    rank
}

} // verus!
