//! Partition of the CPUs into scheduling domains.
use crate::cache_ids::{cache_id_set, collect_cache_ids, rank_ids, rank_taken, ranked};
use crate::cpumask::{
    cpumask_bits, cpumask_clear_unused, cpumask_count_ones, cpumask_raw_words, cpumask_set,
    cpumask_zeros, count_set, word_has_bit, CpuMask,
};
use crate::error::{ConfigError, SetupError, TopologyError};
use crate::hexmask::{mask_text_bytes, mask_text_valid, parse_mask};
use crate::units::{MASK_WORDS, MAX_CPUS, MAX_DOMS};
use vstd::prelude::*;
use vstd::utf8::encode_utf8;

verus! {

/// Which CPUs belong to which scheduling domain. Fixed once built.
pub struct Topology {
    nr_cpus: usize,
    nr_doms: usize,
    dom_cpus: Vec<CpuMask>,
    cpu_dom: Vec<Option<usize>>,
}

/// What a topology says, as plain mathematics.
pub struct TopologyView {
    /// Number of CPUs the machine can have.
    pub nr_cpus: nat,
    /// Number of domains.
    pub nr_doms: nat,
    /// The domain of each CPU; `None` for a CPU that was offline.
    pub cpu_dom: Seq<Option<usize>>,
    /// The CPU set of each domain as the kernel side keeps it.
    pub dom_cpus: Seq<Set<int>>,
}

/// The CPUs whose bit is set.
pub open spec fn mask_cpu_set(bits: Seq<bool>) -> Set<int> {
    Set::new(|c: int| 0 <= c < bits.len() && bits[c])
}

impl TopologyView {
    /// Whether the set of domain `d` is where CPU `c` is kept: in the set of its
    /// own domain, or, for an offline CPU, in the set of domain 0.
    pub open spec fn keeps(self, d: int, c: int) -> bool {
        match self.cpu_dom[c] {
            Some(x) => x == d,
            None => d == 0,
        }
    }

    /// The two maps have the right sizes and say the same thing.
    pub open spec fn wf(self) -> bool {
        &&& self.nr_cpus <= MAX_CPUS
        &&& self.nr_doms <= MAX_DOMS
        &&& self.cpu_dom.len() == self.nr_cpus
        &&& self.dom_cpus.len() == self.nr_doms
        &&& forall|c: int|
            0 <= c < self.nr_cpus ==> (#[trigger] self.cpu_dom[c] matches Some(d) ==> d
                < self.nr_doms)
        &&& forall|d: int, c: int|
            0 <= d < self.nr_doms ==> (#[trigger] self.dom_cpus[d].contains(c) <==> 0 <= c
                < self.nr_cpus && self.keeps(d, c))
    }

    /// Every CPU has a domain.
    pub open spec fn fully_assigned(self) -> bool {
        forall|c: int| 0 <= c < self.nr_cpus ==> (#[trigger] self.cpu_dom[c]) is Some
    }
}

impl View for Topology {
    type V = TopologyView;

    closed spec fn view(&self) -> TopologyView {
        TopologyView {
            nr_cpus: self.nr_cpus as nat,
            nr_doms: self.nr_doms as nat,
            cpu_dom: self.cpu_dom@,
            dom_cpus: Seq::new(
                self.dom_cpus@.len(),
                |d: int| mask_cpu_set(cpumask_bits(self.dom_cpus@[d])),
            ),
        }
    }
}

/// The text of every mask, as the bytes of the string.
pub open spec fn mask_texts(cpumasks: Seq<String>) -> Seq<Seq<u8>> {
    Seq::new(cpumasks.len(), |i: int| encode_utf8(cpumasks[i]@))
}

/// Whether bit `bit` of a byte is set, counting from the least significant bit.
pub open spec fn byte_has_bit(byte: u8, bit: int) -> bool {
    0 <= bit < 8 && (byte >> (bit as u8)) & 1 == 1
}

/// Whether the bytes of a mask, most significant byte first, name CPU `cpu`.
pub open spec fn mask_bytes_have_cpu(bytes: Seq<u8>, cpu: int) -> bool {
    0 <= cpu < 8 * bytes.len() && byte_has_bit(bytes[bytes.len() - 1 - cpu / 8], cpu % 8)
}

/// Whether a mask as written names CPU `cpu`.
pub open spec fn text_has_cpu(text: Seq<u8>, cpu: int) -> bool {
    mask_bytes_have_cpu(mask_text_bytes(text), cpu)
}

/// Whether one of the first `dom` masks names CPU `cpu`.
pub open spec fn claimed_before(texts: Seq<Seq<u8>>, dom: int, cpu: int) -> bool {
    exists|j: int| 0 <= j < dom && #[trigger] text_has_cpu(texts[j], cpu)
}

/// Whether mask `dom` may not name CPU `cpu` but does: the machine has no
/// such CPU, or an earlier mask has taken it.
pub open spec fn cpu_fault(texts: Seq<Seq<u8>>, nr_cpus: int, dom: int, cpu: int) -> bool {
    text_has_cpu(texts[dom], cpu) && (cpu >= nr_cpus || claimed_before(texts, dom, cpu))
}

/// Whether `cpu` is the lowest CPU that mask `dom` may not name but does.
pub open spec fn first_fault(texts: Seq<Seq<u8>>, nr_cpus: int, dom: int, cpu: int) -> bool {
    &&& cpu_fault(texts, nr_cpus, dom, cpu)
    &&& forall|c: int| 0 <= c < cpu ==> !#[trigger] cpu_fault(texts, nr_cpus, dom, c)
}

/// Whether mask `dom` can be read and names only CPUs that it may name.
pub open spec fn mask_accepted(texts: Seq<Seq<u8>>, nr_cpus: int, dom: int) -> bool {
    &&& mask_text_valid(texts[dom])
    &&& forall|c: int| !#[trigger] cpu_fault(texts, nr_cpus, dom, c)
}

/// Whether each of the first `upto` masks is accepted.
pub open spec fn masks_accepted(texts: Seq<Seq<u8>>, nr_cpus: int, upto: int) -> bool {
    forall|j: int| 0 <= j < upto ==> #[trigger] mask_accepted(texts, nr_cpus, j)
}

/// A CPU number as an error reports it.
pub open spec fn reported_cpu(cpu: int) -> int {
    if cpu <= usize::MAX {
        cpu
    } else {
        usize::MAX as int
    }
}

/// What building a topology from masks gives. More masks than `MAX_DOMS` are
/// refused before anything else, then more CPUs than `MAX_CPUS`. After that the
/// masks are taken in order and each from its lowest CPU up; the first thing
/// found wrong is the error. A CPU that no mask names is found last.
pub open spec fn from_cpumasks_spec(
    texts: Seq<Seq<u8>>,
    nr_cpus: int,
    r: Result<Topology, SetupError>,
) -> bool {
    match r {
        Ok(top) => {
            &&& nr_cpus <= MAX_CPUS
            &&& texts.len() <= MAX_DOMS
            &&& masks_accepted(texts, nr_cpus, texts.len() as int)
            &&& forall|c: int| 0 <= c < nr_cpus ==> #[trigger] claimed_before(texts, texts.len() as int, c)
            &&& top.wf()
            &&& top@.nr_cpus == nr_cpus
            &&& top@.nr_doms == texts.len()
            &&& top@.fully_assigned()
            &&& forall|d: int, c: int|
                0 <= d < texts.len() ==> (#[trigger] top@.dom_cpus[d].contains(c) <==> text_has_cpu(
                    texts[d],
                    c,
                ))
        },
        Err(SetupError::Topology(TopologyError::TooManyDoms { nr_doms })) => {
            &&& nr_doms == texts.len()
            &&& texts.len() > MAX_DOMS
        },
        Err(SetupError::Config(ConfigError::TooManyCpus { nr_cpus: n })) => {
            &&& texts.len() <= MAX_DOMS
            &&& n == nr_cpus
            &&& nr_cpus > MAX_CPUS
        },
        Err(SetupError::Config(ConfigError::BadCpumask { dom })) => {
            &&& nr_cpus <= MAX_CPUS
            &&& dom < texts.len() <= MAX_DOMS
            &&& masks_accepted(texts, nr_cpus, dom as int)
            &&& !mask_text_valid(texts[dom as int])
        },
        Err(SetupError::Topology(TopologyError::CpuOutOfRange { cpu, dom })) => {
            &&& nr_cpus <= MAX_CPUS
            &&& dom < texts.len() <= MAX_DOMS
            &&& masks_accepted(texts, nr_cpus, dom as int)
            &&& mask_text_valid(texts[dom as int])
            &&& exists|c: int|
                #[trigger] first_fault(texts, nr_cpus, dom as int, c) && c >= nr_cpus && cpu
                    == reported_cpu(c)
        },
        Err(SetupError::Topology(TopologyError::CpuDoubleAssigned { cpu, dom, other_dom })) => {
            &&& nr_cpus <= MAX_CPUS
            &&& dom < texts.len() <= MAX_DOMS
            &&& masks_accepted(texts, nr_cpus, dom as int)
            &&& mask_text_valid(texts[dom as int])
            &&& first_fault(texts, nr_cpus, dom as int, cpu as int)
            &&& cpu < nr_cpus
            &&& other_dom < dom
            &&& text_has_cpu(texts[other_dom as int], cpu as int)
        },
        Err(SetupError::Topology(TopologyError::CpuUnassigned { cpu })) => {
            &&& nr_cpus <= MAX_CPUS
            &&& texts.len() <= MAX_DOMS
            &&& masks_accepted(texts, nr_cpus, texts.len() as int)
            &&& cpu < nr_cpus
            &&& !claimed_before(texts, texts.len() as int, cpu as int)
            &&& forall|c: int| 0 <= c < cpu ==> #[trigger] claimed_before(texts, texts.len() as int, c)
        },
        Err(_) => false,
    }
}

/// The state of the CPU-to-domain map after the first `dom` masks were taken.
spec fn assigned_upto(
    texts: Seq<Seq<u8>>,
    nr_cpus: int,
    dom: int,
    cpu_dom: Seq<Option<usize>>,
) -> bool {
    &&& cpu_dom.len() == nr_cpus
    &&& forall|c: int|
        0 <= c < nr_cpus ==> match #[trigger] cpu_dom[c] {
            Some(j) => j < dom && text_has_cpu(texts[j as int], c),
            None => !claimed_before(texts, dom, c),
        }
}

/// The mask of a domain holds exactly the CPUs that its text names.
spec fn mask_matches_text(mask: CpuMask, text: Seq<u8>) -> bool {
    &&& cpumask_bits(mask).len() == MAX_CPUS
    &&& forall|c: int| 0 <= c < MAX_CPUS ==> #[trigger] cpumask_bits(mask)[c] == text_has_cpu(text, c)
}

/// Two accepted masks name no CPU in common.
proof fn lemma_accepted_disjoint(texts: Seq<Seq<u8>>, nr_cpus: int, upto: int, a: int, b: int, c: int)
    requires
        masks_accepted(texts, nr_cpus, upto),
        0 <= a < b < upto,
        text_has_cpu(texts[a], c),
    ensures
        !text_has_cpu(texts[b], c),
{
    assert(mask_accepted(texts, nr_cpus, b));
    if text_has_cpu(texts[b], c) {
        assert(claimed_before(texts, b, c));
        assert(cpu_fault(texts, nr_cpus, b, c));
    }
}

/// Takes the CPUs that one mask names, lowest first, and gives each to
/// domain `dom`.
fn assign_mask(
    bytes: &Vec<u8>,
    dom: usize,
    nr_cpus: usize,
    cpu_dom: &mut Vec<Option<usize>>,
    mask: &mut CpuMask,
    Ghost(texts): Ghost<Seq<Seq<u8>>>,
) -> (r: Result<(), TopologyError>)
    requires
        nr_cpus <= MAX_CPUS,
        0 <= dom < texts.len(),
        bytes@ == mask_text_bytes(texts[dom as int]),
        assigned_upto(texts, nr_cpus as int, dom as int, old(cpu_dom)@),
        cpumask_bits(*old(mask)) == Seq::new(MAX_CPUS as nat, |i: int| false),
    ensures
        match r {
            Ok(()) => {
                &&& forall|c: int| !#[trigger] cpu_fault(texts, nr_cpus as int, dom as int, c)
                &&& assigned_upto(texts, nr_cpus as int, dom + 1, final(cpu_dom)@)
                &&& mask_matches_text(*final(mask), texts[dom as int])
            },
            Err(TopologyError::CpuOutOfRange { cpu, dom: d }) => {
                &&& d == dom
                &&& exists|c: int|
                    #[trigger] first_fault(texts, nr_cpus as int, dom as int, c) && c >= nr_cpus
                        && cpu == reported_cpu(c)
            },
            Err(TopologyError::CpuDoubleAssigned { cpu, dom: d, other_dom }) => {
                &&& d == dom
                &&& first_fault(texts, nr_cpus as int, dom as int, cpu as int)
                &&& cpu < nr_cpus
                &&& other_dom < dom
                &&& text_has_cpu(texts[other_dom as int], cpu as int)
            },
            Err(_) => false,
        },
{
    let n: usize = bytes.len();
    let ghost before = cpu_dom@;
    let ghost text = texts[dom as int];
    let mut index: usize = 0;
    while index < n
        invariant
            nr_cpus <= MAX_CPUS,
            0 <= dom < texts.len(),
            text == texts[dom as int],
            n == bytes@.len(),
            bytes@ == mask_text_bytes(text),
            0 <= index <= n,
            assigned_upto(texts, nr_cpus as int, dom as int, before),
            cpu_dom@.len() == nr_cpus,
            cpumask_bits(*mask).len() == MAX_CPUS,
            forall|c: int|
                0 <= c < MAX_CPUS ==> #[trigger] cpumask_bits(*mask)[c] == (c < 8 * index
                    && text_has_cpu(text, c)),
            forall|c: int|
                0 <= c < nr_cpus ==> #[trigger] cpu_dom@[c] == if c < 8 * index && text_has_cpu(
                    text,
                    c,
                ) {
                    Some(dom)
                } else {
                    before[c]
                },
            forall|c: int|
                0 <= c < 8 * index ==> !#[trigger] cpu_fault(texts, nr_cpus as int, dom as int, c),
        decreases n - index,
    {
        let val: u8 = bytes[n - 1 - index];
        let mut bit: usize = 0;
        while bit < 8
            invariant
                nr_cpus <= MAX_CPUS,
                0 <= dom < texts.len(),
                text == texts[dom as int],
                n == bytes@.len(),
                bytes@ == mask_text_bytes(text),
                0 <= index < n,
                val == bytes@[n - 1 - index],
                0 <= bit <= 8,
                assigned_upto(texts, nr_cpus as int, dom as int, before),
                cpu_dom@.len() == nr_cpus,
                cpumask_bits(*mask).len() == MAX_CPUS,
                forall|c: int|
                    0 <= c < MAX_CPUS ==> #[trigger] cpumask_bits(*mask)[c] == (c < 8 * index + bit
                        && text_has_cpu(text, c)),
                forall|c: int|
                    0 <= c < nr_cpus ==> #[trigger] cpu_dom@[c] == if c < 8 * index + bit
                        && text_has_cpu(text, c) {
                        Some(dom)
                    } else {
                        before[c]
                    },
                forall|c: int|
                    0 <= c < 8 * index + bit ==> !#[trigger] cpu_fault(
                        texts,
                        nr_cpus as int,
                        dom as int,
                        c,
                    ),
            decreases 8 - bit,
        {
            let ghost here: int = 8 * index + bit;
            assert(here / 8 == index && here % 8 == bit);
            assert(text_has_cpu(text, here) == ((val >> (bit as u8)) & 1 == 1));
            if (val >> (bit as u8)) & 1 == 1 {
                if index > (usize::MAX - 7) / 8 {
                    proof {
                        assert(cpu_fault(texts, nr_cpus as int, dom as int, here));
                        assert(first_fault(texts, nr_cpus as int, dom as int, here));
                    }
                    return Err(TopologyError::CpuOutOfRange { cpu: usize::MAX, dom });
                }
                let cpu: usize = index * 8 + bit;
                if cpu >= nr_cpus {
                    proof {
                        assert(cpu_fault(texts, nr_cpus as int, dom as int, here));
                        assert(first_fault(texts, nr_cpus as int, dom as int, here));
                    }
                    return Err(TopologyError::CpuOutOfRange { cpu, dom });
                }
                match cpu_dom[cpu] {
                    Some(other_dom) => {
                        proof {
                            assert(cpu_dom@[here] == before[here]);
                            assert(text_has_cpu(texts[other_dom as int], here));
                            assert(claimed_before(texts, dom as int, here));
                            assert(cpu_fault(texts, nr_cpus as int, dom as int, here));
                        }
                        return Err(
                            TopologyError::CpuDoubleAssigned { cpu, dom, other_dom },
                        );
                    },
                    None => {},
                }
                proof {
                    assert(before[here] is None);
                    assert(!claimed_before(texts, dom as int, here));
                }
                cpu_dom.set(cpu, Some(dom));
                cpumask_set(mask, cpu);
            }
            bit += 1;
        }
        index += 1;
    }
    proof {
        assert forall|c: int| !#[trigger] cpu_fault(texts, nr_cpus as int, dom as int, c) by {
            if c >= 8 * n {
                assert(!text_has_cpu(text, c));
            }
        }
        assert forall|c: int| 0 <= c < nr_cpus implies match #[trigger] cpu_dom@[c] {
            Some(j) => j < dom + 1 && text_has_cpu(texts[j as int], c),
            None => !claimed_before(texts, dom + 1, c),
        } by {
            if text_has_cpu(text, c) {
            } else {
                match before[c] {
                    Some(j) => {},
                    None => {
                        assert(!claimed_before(texts, dom as int, c));
                    },
                }
            }
        }
    }
    Ok(())
}

/// Whether some CPU belongs to domain `d`.
pub open spec fn dom_has_member(cpu_dom: Seq<Option<usize>>, d: int) -> bool {
    exists|c: int| 0 <= c < cpu_dom.len() && #[trigger] cpu_dom[c] == Some(d as usize)
}

/// What building a topology from cache IDs gives: `cache[c]` is the ID of the
/// cache that CPU `c` shares, or `None` for an offline CPU. The domains are the
/// distinct IDs in ascending order, numbered from 0 without gaps. More distinct
/// IDs than `MAX_DOMS` are refused before anything else, then more CPUs than
/// `MAX_CPUS`.
pub open spec fn from_cache_level_spec(
    cache: Seq<Option<usize>>,
    r: Result<Topology, SetupError>,
) -> bool {
    match r {
        Ok(top) => {
            &&& cache.len() <= MAX_CPUS
            &&& cache_id_set(cache).len() <= MAX_DOMS
            &&& cache.len() > 0 ==> exists|c: int| 0 <= c < cache.len() && (#[trigger] cache[c]) is Some
            &&& top.wf()
            &&& top@.nr_cpus == cache.len()
            &&& top@.nr_doms == cache_id_set(cache).len()
            &&& forall|c: int|
                0 <= c < cache.len() ==> ((#[trigger] top@.cpu_dom[c]) is None <==> cache[c] is None)
            &&& forall|a: int, b: int|
                0 <= a < cache.len() && 0 <= b < cache.len() && cache[a] is Some && cache[b] is Some
                    ==> ((#[trigger] top@.cpu_dom[a])->Some_0 < (#[trigger] top@.cpu_dom[b])->Some_0
                    <==> cache[a]->Some_0 < cache[b]->Some_0)
            &&& forall|d: int| 0 <= d < top@.nr_doms ==> #[trigger] dom_has_member(top@.cpu_dom, d)
        },
        Err(SetupError::Topology(TopologyError::TooManyDoms { nr_doms })) => {
            &&& nr_doms == cache_id_set(cache).len()
            &&& nr_doms > MAX_DOMS
        },
        Err(SetupError::Config(ConfigError::TooManyCpus { nr_cpus })) => {
            &&& cache_id_set(cache).len() <= MAX_DOMS
            &&& nr_cpus == cache.len()
            &&& cache.len() > MAX_CPUS
        },
        Err(SetupError::Topology(TopologyError::NoDomains)) => {
            &&& 0 < cache.len() <= MAX_CPUS
            &&& forall|c: int| 0 <= c < cache.len() ==> (#[trigger] cache[c]) is None
        },
        Err(_) => false,
    }
}

impl Topology {
    /// The representation is sound: every mask is `MAX_CPUS` bits wide and the
    /// two maps agree.
    pub closed spec fn wf(&self) -> bool {
        &&& self@.wf()
        &&& forall|d: int|
            0 <= d < self.dom_cpus@.len() ==> (#[trigger] cpumask_bits(self.dom_cpus@[d])).len()
                == MAX_CPUS
    }

    /// A sound topology has a sound view.
    pub proof fn lemma_wf_view(&self)
        requires
            self.wf(),
        ensures
            self@.wf(),
    {
    }

    /// Builds the partition from one hexadecimal mask per domain: bit `k` of
    /// mask `i` puts CPU `k` into domain `i`. A mask may start with `0x` and
    /// hold `_` separators. Every CPU below `nr_cpus` must be named by exactly
    /// one mask.
    pub fn from_cpumasks(cpumasks: &[String], nr_cpus: usize) -> (r: Result<Topology, SetupError>)
        ensures
            from_cpumasks_spec(mask_texts(cpumasks@), nr_cpus as int, r),
    {
        let ghost texts = mask_texts(cpumasks@);
        let nr_doms: usize = cpumasks.len();
        if nr_doms > MAX_DOMS {
            return Err(SetupError::Topology(TopologyError::TooManyDoms { nr_doms }));
        }
        if nr_cpus > MAX_CPUS {
            return Err(SetupError::Config(ConfigError::TooManyCpus { nr_cpus }));
        }
        let mut cpu_dom: Vec<Option<usize>> = Vec::new();
        let mut cpu: usize = 0;
        while cpu < nr_cpus
            invariant
                cpu <= nr_cpus,
                cpu_dom@.len() == cpu,
                forall|c: int| 0 <= c < cpu ==> (#[trigger] cpu_dom@[c]) is None,
            decreases nr_cpus - cpu,
        {
            cpu_dom.push(None);
            cpu += 1;
        }
        let mut dom_cpus: Vec<CpuMask> = Vec::new();
        let mut dom: usize = 0;
        while dom < nr_doms
            invariant
                nr_cpus <= MAX_CPUS,
                nr_doms == cpumasks@.len(),
                nr_doms <= MAX_DOMS,
                texts == mask_texts(cpumasks@),
                0 <= dom <= nr_doms,
                masks_accepted(texts, nr_cpus as int, dom as int),
                assigned_upto(texts, nr_cpus as int, dom as int, cpu_dom@),
                dom_cpus@.len() == dom,
                forall|d: int| 0 <= d < dom ==> mask_matches_text(#[trigger] dom_cpus@[d], texts[d]),
            decreases nr_doms - dom,
        {
            let text = cpumasks[dom].as_str().as_bytes();
            assert(text@ == texts[dom as int]);
            let bytes = match parse_mask(text) {
                Some(bytes) => bytes,
                None => {
                    return Err(SetupError::Config(ConfigError::BadCpumask { dom }));
                },
            };
            let mut mask = cpumask_zeros(MAX_CPUS);
            match assign_mask(&bytes, dom, nr_cpus, &mut cpu_dom, &mut mask, Ghost(texts)) {
                Ok(()) => {},
                Err(e) => {
                    return Err(SetupError::Topology(e));
                },
            }
            cpumask_clear_unused(&mut mask);
            dom_cpus.push(mask);
            proof {
                assert(mask_accepted(texts, nr_cpus as int, dom as int));
            }
            dom += 1;
        }
        let mut cpu: usize = 0;
        while cpu < nr_cpus
            invariant
                cpu <= nr_cpus,
                nr_cpus <= MAX_CPUS,
                nr_doms <= MAX_DOMS,
                texts == mask_texts(cpumasks@),
                texts.len() == nr_doms,
                cpu_dom@.len() == nr_cpus,
                masks_accepted(texts, nr_cpus as int, nr_doms as int),
                assigned_upto(texts, nr_cpus as int, nr_doms as int, cpu_dom@),
                forall|c: int| 0 <= c < cpu ==> (#[trigger] cpu_dom@[c]) is Some,
            decreases nr_cpus - cpu,
        {
            if cpu_dom[cpu].is_none() {
                proof {
                    assert forall|c: int| 0 <= c < cpu implies #[trigger] claimed_before(
                        texts,
                        texts.len() as int,
                        c,
                    ) by {
                        let j = cpu_dom@[c]->Some_0;
                        assert(text_has_cpu(texts[j as int], c));
                    }
                    assert(cpu_dom@[cpu as int] is None);
                    assert(!claimed_before(texts, texts.len() as int, cpu as int));
                }
                return Err(SetupError::Topology(TopologyError::CpuUnassigned { cpu }));
            }
            cpu += 1;
        }
        let top = Topology { nr_cpus, nr_doms, dom_cpus, cpu_dom };
        proof {
            assert forall|c: int| 0 <= c < nr_cpus implies #[trigger] claimed_before(
                texts,
                texts.len() as int,
                c,
            ) by {
                let j = top.cpu_dom@[c]->Some_0;
                assert(text_has_cpu(texts[j as int], c));
            }
            assert forall|d: int, c: int| 0 <= d < texts.len() implies (
            #[trigger] top@.dom_cpus[d].contains(c) <==> text_has_cpu(texts[d], c)) by {
                assert(mask_matches_text(top.dom_cpus@[d], texts[d]));
                if text_has_cpu(texts[d], c) {
                    assert(mask_accepted(texts, nr_cpus as int, d));
                    assert(!cpu_fault(texts, nr_cpus as int, d, c));
                }
            }
            assert forall|d: int, c: int| 0 <= d < top@.nr_doms implies (
            #[trigger] top@.dom_cpus[d].contains(c) <==> 0 <= c < top@.nr_cpus && top@.keeps(
                d,
                c,
            )) by {
                if text_has_cpu(texts[d], c) {
                    assert(mask_accepted(texts, nr_cpus as int, d));
                    assert(!cpu_fault(texts, nr_cpus as int, d, c));
                    let j = top.cpu_dom@[c]->Some_0;
                    if j < d {
                        lemma_accepted_disjoint(texts, nr_cpus as int, nr_doms as int, j as int, d, c);
                    } else if d < j {
                        lemma_accepted_disjoint(texts, nr_cpus as int, nr_doms as int, d, j as int, c);
                    }
                }
            }
        }
        Ok(top)
    }

    /// Builds the partition from the cache that each CPU shares: `cpu_to_cache[c]`
    /// is the ID of CPU `c`'s cache, or `None` where CPU `c` is offline. CPUs
    /// with the same ID form one domain. An offline CPU gets no domain; its bit
    /// is kept in the CPU set of domain 0.
    pub fn from_cache_level(cpu_to_cache: &Vec<Option<usize>>) -> (r: Result<Topology, SetupError>)
        ensures
            from_cache_level_spec(cpu_to_cache@, r),
    {
        let ghost cache = cpu_to_cache@;
        let nr_cpus: usize = cpu_to_cache.len();
        let cache_ids = collect_cache_ids(cpu_to_cache);
        // The IDs may have gaps between them; the domains are numbered without.
        let cache_to_dom = rank_ids(&cache_ids);
        let nr_doms: usize = cache_ids.len();
        if nr_doms > MAX_DOMS {
            return Err(SetupError::Topology(TopologyError::TooManyDoms { nr_doms }));
        }
        if nr_cpus > MAX_CPUS {
            return Err(SetupError::Config(ConfigError::TooManyCpus { nr_cpus }));
        }
        let mut dom_cpus: Vec<CpuMask> = Vec::new();
        let mut dom: usize = 0;
        while dom < nr_doms
            invariant
                0 <= dom <= nr_doms,
                dom_cpus@.len() == dom,
                forall|d: int|
                    0 <= d < dom ==> cpumask_bits(#[trigger] dom_cpus@[d]) == Seq::new(
                        MAX_CPUS as nat,
                        |i: int| false,
                    ),
            decreases nr_doms - dom,
        {
            dom_cpus.push(cpumask_zeros(MAX_CPUS));
            dom += 1;
        }
        let mut cpu_dom: Vec<Option<usize>> = Vec::new();
        let mut cpu: usize = 0;
        while cpu < nr_cpus
            invariant
                cache == cpu_to_cache@,
                nr_cpus == cache.len(),
                nr_cpus <= MAX_CPUS,
                nr_doms == cache_id_set(cache).len(),
                nr_doms <= MAX_DOMS,
                0 <= cpu <= nr_cpus,
                ranked(cache_id_set(cache), cache_to_dom@),
                cpu_dom@.len() == cpu,
                dom_cpus@.len() == nr_doms,
                forall|c: int|
                    0 <= c < cpu ==> match cache[c] {
                        Some(id) => (#[trigger] cpu_dom@[c]) == Some(cache_to_dom@[id]),
                        None => cpu_dom@[c] is None && nr_doms > 0,
                    },
                forall|d: int|
                    0 <= d < nr_doms ==> (#[trigger] cpumask_bits(dom_cpus@[d])).len() == MAX_CPUS,
                forall|d: int, c: int|
                    0 <= d < nr_doms && 0 <= c < MAX_CPUS ==> (#[trigger] cpumask_bits(
                        dom_cpus@[d],
                    )[c] <==> c < cpu && match cpu_dom@[c] {
                        Some(x) => x == d,
                        None => d == 0,
                    }),
            decreases nr_cpus - cpu,
        {
            let ghost masks_before = dom_cpus@;
            let ghost doms_before = cpu_dom@;
            match cpu_to_cache[cpu] {
                Some(id) => {
                    assert(cache.contains(Some(id)));
                    assert(cache_id_set(cache).contains(id));
                    let dom_id: usize = match cache_to_dom.get(&id) {
                        Some(d) => *d,
                        None => unreached(),
                    };
                    cpumask_set(&mut dom_cpus[dom_id], cpu);
                    cpu_dom.push(Some(dom_id));
                },
                None => {
                    if nr_doms == 0 {
                        proof {
                            assert forall|c: int| 0 <= c < cache.len() implies (
                            #[trigger] cache[c]) is None by {
                                if cache[c] is Some {
                                    assert(cache.contains(cache[c]));
                                    assert(cache_id_set(cache).contains(cache[c]->Some_0));
                                    assert(cache_to_dom@[cache[c]->Some_0] < 0);
                                }
                            }
                        }
                        return Err(SetupError::Topology(TopologyError::NoDomains));
                    }
                    cpumask_set(&mut dom_cpus[0], cpu);
                    cpu_dom.push(None);
                },
            }
            proof {
                assert forall|d: int, c: int| 0 <= d < nr_doms && 0 <= c < MAX_CPUS implies (
                #[trigger] cpumask_bits(dom_cpus@[d])[c] <==> c < cpu + 1 && match cpu_dom@[c] {
                    Some(x) => x == d,
                    None => d == 0,
                }) by {
                    assert(cpumask_bits(masks_before[d]).len() == MAX_CPUS);
                    if c < cpu {
                        assert(cpu_dom@[c] == doms_before[c]);
                    }
                }
            }
            cpu += 1;
        }
        let top = Topology { nr_cpus, nr_doms, dom_cpus, cpu_dom };
        proof {
            let ids = cache_id_set(cache);
            assert forall|c: int| 0 <= c < cache.len() && cache[c] is Some implies ids.contains(
                cache[c]->Some_0,
            ) && #[trigger] top.cpu_dom@[c] == Some(cache_to_dom@[cache[c]->Some_0]) by {
                assert(cache.contains(cache[c]));
            }
            assert forall|c: int| 0 <= c < top@.nr_cpus implies (
            #[trigger] top@.cpu_dom[c] matches Some(d) ==> d < top@.nr_doms) by {
                if cache[c] is Some {
                    assert(cache.contains(cache[c]));
                }
            }
            assert forall|d: int, c: int| 0 <= d < top@.nr_doms implies (
            #[trigger] top@.dom_cpus[d].contains(c) <==> 0 <= c < top@.nr_cpus && top@.keeps(
                d,
                c,
            )) by {
                assert(cpumask_bits(top.dom_cpus@[d]).len() == MAX_CPUS);
            }
            assert forall|c: int| 0 <= c < cache.len() implies ((#[trigger] top@.cpu_dom[c]) is None
                <==> cache[c] is None) by {
                if cache[c] is Some {
                }
            }
            assert forall|a: int, b: int|
                0 <= a < cache.len() && 0 <= b < cache.len() && cache[a] is Some
                    && cache[b] is Some implies ((#[trigger] top@.cpu_dom[a])->Some_0 < (
                #[trigger] top@.cpu_dom[b])->Some_0 <==> cache[a]->Some_0 < cache[b]->Some_0) by {
                assert(cache.contains(cache[a]));
                assert(cache.contains(cache[b]));
                assert(top.cpu_dom@[a] == Some(cache_to_dom@[cache[a]->Some_0]));
                assert(top.cpu_dom@[b] == Some(cache_to_dom@[cache[b]->Some_0]));
            }
            assert forall|d: int| 0 <= d < top@.nr_doms implies #[trigger] dom_has_member(
                top@.cpu_dom,
                d,
            ) by {
                assert(rank_taken(ids, cache_to_dom@, d));
                let id = choose|a: usize| ids.contains(a) && #[trigger] cache_to_dom@[a] == d;
                assert(cache.contains(Some(id)));
                let c = choose|c: int| 0 <= c < cache.len() && cache[c] == Some(id);
                assert(top.cpu_dom@[c] == Some(cache_to_dom@[id]));
            }
            if cache.len() > 0 {
                if cache[0] is None {
                    assert(top.cpu_dom@[0] is None);
                    assert(rank_taken(ids, cache_to_dom@, 0));
                    let id = choose|a: usize| ids.contains(a) && #[trigger] cache_to_dom@[a] == 0;
                    assert(cache.contains(Some(id)));
                }
            }
        }
        Ok(top)
    }

    /// Number of CPUs the machine can have.
    pub fn nr_cpus(&self) -> (n: usize)
        ensures
            n == self@.nr_cpus,
    {
        self.nr_cpus
    }

    /// Number of domains.
    pub fn nr_doms(&self) -> (n: usize)
        ensures
            n == self@.nr_doms,
    {
        self.nr_doms
    }

    /// The domain of a CPU; `None` for an offline CPU and for a CPU that the
    /// machine does not have.
    pub fn cpu_dom(&self, cpu: usize) -> (d: Option<usize>)
        requires
            self.wf(),
        ensures
            d == if cpu < self@.nr_cpus {
                self@.cpu_dom[cpu as int]
            } else {
                None
            },
    {
        if cpu < self.nr_cpus {
            self.cpu_dom[cpu]
        } else {
            None
        }
    }

    /// The domain of every CPU; `None` for an offline CPU.
    pub fn cpu_doms(&self) -> (doms: Vec<Option<usize>>)
        ensures
            doms@ == self@.cpu_dom,
    {
        let mut doms: Vec<Option<usize>> = Vec::new();
        let mut cpu: usize = 0;
        while cpu < self.cpu_dom.len()
            invariant
                0 <= cpu <= self.cpu_dom@.len(),
                doms@ == self.cpu_dom@.take(cpu as int),
            decreases self.cpu_dom@.len() - cpu,
        {
            doms.push(self.cpu_dom[cpu]);
            assert(self.cpu_dom@.take(cpu + 1) == self.cpu_dom@.take(cpu as int).push(
                self.cpu_dom@[cpu as int],
            ));
            cpu += 1;
        }
        assert(self.cpu_dom@.take(self.cpu_dom@.len() as int) == self.cpu_dom@);
        doms
    }

    /// The CPU set of a domain as the kernel side takes it: `MASK_WORDS` words,
    /// CPU `c` being bit `c % 64` of word `c / 64`.
    pub fn dom_cpumask(&self, dom: usize) -> (words: Vec<u64>)
        requires
            self.wf(),
            dom < self@.nr_doms,
        ensures
            words@.len() == MASK_WORDS,
            forall|c: int|
                0 <= c < MAX_CPUS ==> word_has_bit(#[trigger] words@[c / 64], c % 64)
                    == self@.dom_cpus[dom as int].contains(c),
    {
        cpumask_raw_words(&self.dom_cpus[dom])
    }

    /// The number of CPUs in the CPU set of a domain.
    pub fn dom_nr_cpus(&self, dom: usize) -> (n: usize)
        requires
            self.wf(),
            dom < self@.nr_doms,
        ensures
            n == self@.dom_cpus[dom as int].len(),
    {
        proof {
            lemma_count_set(cpumask_bits(self.dom_cpus@[dom as int]));
        }
        cpumask_count_ones(&self.dom_cpus[dom])
    }

    /// The domain of every CPU as the kernel side takes it: a CPU without a
    /// domain is entered under domain 0.
    pub fn cpu_dom_id_map(&self) -> (map: Vec<u32>)
        requires
            self.wf(),
        ensures
            map@.len() == self@.nr_cpus,
            forall|c: int|
                0 <= c < self@.nr_cpus ==> #[trigger] map@[c] == match self@.cpu_dom[c] {
                    Some(d) => d as u32,
                    None => 0u32,
                },
    {
        let mut map: Vec<u32> = Vec::new();
        let mut cpu: usize = 0;
        while cpu < self.nr_cpus
            invariant
                self.wf(),
                0 <= cpu <= self.nr_cpus,
                map@.len() == cpu,
                forall|c: int|
                    0 <= c < cpu ==> #[trigger] map@[c] == match self@.cpu_dom[c] {
                        Some(d) => d as u32,
                        None => 0u32,
                    },
            decreases self.nr_cpus - cpu,
        {
            let id: u32 = match self.cpu_dom[cpu] {
                Some(d) => d as u32,
                None => 0,
            };
            map.push(id);
            cpu += 1;
        }
        map
    }
}

/// Counting the set bits of a mask gives the size of its CPU set.
proof fn lemma_count_set(bits: Seq<bool>)
    ensures
        mask_cpu_set(bits).finite(),
        mask_cpu_set(bits).len() == count_set(bits),
    decreases bits.len(),
{
    if bits.len() == 0 {
        assert(mask_cpu_set(bits) =~= Set::<int>::empty());
    } else {
        let rest = bits.drop_last();
        lemma_count_set(rest);
        let last = bits.len() - 1;
        if bits.last() {
            assert(mask_cpu_set(bits) =~= mask_cpu_set(rest).insert(last));
        } else {
            assert(mask_cpu_set(bits) =~= mask_cpu_set(rest));
        }
    }
}

/// The CPUs that are in the CPU set of some domain.
pub open spec fn all_dom_cpus(top: TopologyView) -> Set<int> {
    Set::new(|c: int| exists|d: int| 0 <= d < top.nr_doms && #[trigger] top.dom_cpus[d].contains(c))
}

/// Where every CPU has a domain, as after building from masks, the CPU sets of
/// the domains are a partition of the CPUs: no two of them share a CPU, and
/// together they hold exactly the CPUs `0 .. nr_cpus`.
pub proof fn lemma_partition(top: TopologyView)
    requires
        top.wf(),
        top.fully_assigned(),
    ensures
        forall|i: int, j: int|
            0 <= i < top.nr_doms && 0 <= j < top.nr_doms && i != j ==> (
            #[trigger] top.dom_cpus[i]).disjoint(#[trigger] top.dom_cpus[j]),
        all_dom_cpus(top) == Set::new(|c: int| 0 <= c < top.nr_cpus),
{
    assert forall|i: int, j: int|
        0 <= i < top.nr_doms && 0 <= j < top.nr_doms && i != j implies (
    #[trigger] top.dom_cpus[i]).disjoint(#[trigger] top.dom_cpus[j]) by {
        assert forall|c: int| !(top.dom_cpus[i].contains(c) && top.dom_cpus[j].contains(c)) by {
            if top.dom_cpus[i].contains(c) && top.dom_cpus[j].contains(c) {
                assert(top.cpu_dom[c] is Some);
            }
        }
    }
    assert forall|c: int| all_dom_cpus(top).contains(c) <==> 0 <= c < top.nr_cpus by {
        if 0 <= c < top.nr_cpus {
            let d = top.cpu_dom[c]->Some_0;
            assert(top.dom_cpus[d as int].contains(c));
        }
    }
    assert(all_dom_cpus(top) =~= Set::new(|c: int| 0 <= c < top.nr_cpus));
}

/// A topology built from masks is a partition of the CPUs: every CPU has a
/// domain, no two domains share a CPU, and the domains together hold exactly
/// the CPUs `0 .. nr_cpus`.
pub proof fn lemma_cpumasks_partition(texts: Seq<Seq<u8>>, nr_cpus: int, top: Topology)
    requires
        from_cpumasks_spec(texts, nr_cpus, Ok(top)),
    ensures
        top@.fully_assigned(),
        forall|i: int, j: int|
            0 <= i < top@.nr_doms && 0 <= j < top@.nr_doms && i != j ==> (
            #[trigger] top@.dom_cpus[i]).disjoint(#[trigger] top@.dom_cpus[j]),
        all_dom_cpus(top@) == Set::new(|c: int| 0 <= c < nr_cpus),
{
    top.lemma_wf_view();
    lemma_partition(top@);
}

} // verus!
