//! The figures of the periodic report.
use vstd::prelude::*;

verus! {

/// The upper-case hexadecimal digit of a value below 16.
pub open spec fn hex_upper(nibble: u64) -> u8 {
    if nibble < 10 {
        (0x30 + nibble) as u8
    } else {
        (0x41 + nibble - 10) as u8
    }
}

/// Digit `i` of the 16 hexadecimal digits of a word, the most significant
/// digit being digit 0.
pub open spec fn word_digit(word: u64, i: int) -> u8 {
    hex_upper((word >> ((60 - 4 * i) as u64)) & 0xf)
}

/// A word as 16 upper-case hexadecimal digits.
pub open spec fn word_hex(word: u64) -> Seq<u8> {
    Seq::new(16, |i: int| word_digit(word, i))
}

/// The first `n` words of a mask as text: the highest word first, each as a
/// blank and 16 hexadecimal digits.
pub open spec fn mask_text(words: Seq<u64>, n: int) -> Seq<u8>
    decreases n,
{
    if n <= 0 {
        Seq::empty()
    } else {
        seq![0x20u8] + word_hex(words[n - 1]) + mask_text(words, n - 1)
    }
}

/// The number of words of a mask that the report shows for `nr_cpus` CPUs.
pub open spec fn shown_words(len: int, nr_cpus: int) -> int {
    if nr_cpus / 64 + 1 <= len {
        nr_cpus / 64 + 1
    } else {
        len
    }
}

proof fn lemma_nibble(word: u64, shift: u64)
    by (bit_vector)
    ensures
        (word >> shift) & 0xf < 16,
{
}

/// Writes a CPU mask out for the report, as ASCII text.
pub fn format_cpumask(cpumask: &[u64], nr_cpus: usize) -> (text: Vec<u8>)
    ensures
        text@ == mask_text(cpumask@, shown_words(cpumask@.len() as int, nr_cpus as int)),
{
    let shown: usize = if nr_cpus / 64 < cpumask.len() {
        nr_cpus / 64 + 1
    } else {
        cpumask.len()
    };
    let mut text: Vec<u8> = Vec::new();
    let mut n: usize = shown;
    while n > 0
        invariant
            0 <= n <= shown <= cpumask@.len(),
            text@ + mask_text(cpumask@, n as int) == mask_text(cpumask@, shown as int),
        decreases n,
    {
        let word: u64 = cpumask[n - 1];
        let ghost before = text@;
        text.push(0x20);
        let mut i: usize = 0;
        while i < 16
            invariant
                0 <= i <= 16,
                text@ == before + seq![0x20u8] + word_hex(word).take(i as int),
            decreases 16 - i,
        {
            let shift: u64 = (60 - 4 * i) as u64;
            let nibble: u64 = (word >> shift) & 0xf;
            proof {
                lemma_nibble(word, shift);
            }
            let digit: u8 = if nibble < 10 {
                (0x30 + nibble) as u8
            } else {
                (0x41 + nibble - 10) as u8
            };
            text.push(digit);
            proof {
                assert(digit == word_digit(word, i as int));
                assert(word_hex(word).take(i + 1) == word_hex(word).take(i as int).push(digit));
            }
            i += 1;
        }
        proof {
            assert(word_hex(word).take(16) == word_hex(word));
            let rest = mask_text(cpumask@, n - 1);
            assert(before + (seq![0x20u8] + word_hex(word) + rest) == before + seq![0x20u8]
                + word_hex(word) + rest);
        }
        n -= 1;
    }
    proof {
        assert(text@ + Seq::<u8>::empty() == text@);
    }
    text
}

/// The sum of the first `n` values.
pub open spec fn sum_upto(values: Seq<u64>, n: int) -> int
    decreases n,
{
    if n <= 0 {
        0
    } else {
        sum_upto(values, n - 1) + values[n - 1]
    }
}

/// Adds up a counter over the CPUs; a sum beyond 64 bits is held there.
pub fn sum_per_cpu(values: &[u64]) -> (total: u64)
    ensures
        total == if sum_upto(values@, values@.len() as int) <= u64::MAX {
            sum_upto(values@, values@.len() as int)
        } else {
            u64::MAX as int
        },
{
    let mut total: u64 = 0;
    let mut i: usize = 0;
    while i < values.len()
        invariant
            0 <= i <= values@.len(),
            total == if sum_upto(values@, i as int) <= u64::MAX {
                sum_upto(values@, i as int)
            } else {
                u64::MAX as int
            },
            sum_upto(values@, i as int) >= 0,
        decreases values@.len() - i,
    {
        let v: u64 = values[i];
        total = if v <= u64::MAX - total {
            total + v
        } else {
            u64::MAX
        };
        i += 1;
    }
    total
}

/// The counters that the kernel side keeps, summed over the CPUs.
#[derive(Clone, Copy, Debug, PartialEq, Eq, Structural)]
pub struct DispatchStats {
    pub wake_sync: u64,
    pub prev_idle: u64,
    pub greedy_idle: u64,
    pub pinned: u64,
    pub direct_dispatch: u64,
    pub direct_greedy: u64,
    pub direct_greedy_far: u64,
    pub dsq_dispatch: u64,
    pub greedy: u64,
    pub kick_greedy: u64,
    pub repatriate: u64,
    pub load_balance: u64,
    pub task_get_err: u64,
}

impl DispatchStats {
    /// The number of dispatches: the sum of the counters that count one kind
    /// of dispatch each.
    pub open spec fn total(self) -> int {
        self.wake_sync + self.prev_idle + self.greedy_idle + self.pinned + self.direct_dispatch
            + self.direct_greedy + self.direct_greedy_far + self.dsq_dispatch + self.greedy
    }

    /// Computes the number of dispatches.
    pub fn dispatch_total(&self) -> (t: u128)
        ensures
            t == self.total(),
    {
        self.wake_sync as u128 + self.prev_idle as u128 + self.greedy_idle as u128
            + self.pinned as u128 + self.direct_dispatch as u128 + self.direct_greedy as u128
            + self.direct_greedy_far as u128 + self.dsq_dispatch as u128 + self.greedy as u128
    }
}

/// The share of `count` in `total`, in hundredths of a percent and rounded
/// down; none where the total is 0.
pub fn share_of(count: u64, total: u128) -> (r: Option<u128>)
    ensures
        r == if total == 0 {
            None
        } else {
            Some((count * 10_000 / (total as int)) as u128)
        },
{
    if total == 0 {
        None
    } else {
        Some(count as u128 * 10_000 / total)
    }
}

} // verus!
