//! The CPU set of a scheduling domain.
//!
//! The set is a `bitvec::vec::BitVec<u64, Lsb0>`. What this library knows about
//! it is stated in the contracts of the few functions below that call into
//! `bitvec`; nothing here is proved.
use bitvec::order::Lsb0;
use bitvec::vec::BitVec;
use vstd::prelude::*;

verus! {

/// A set of CPUs, one bit per CPU, kept in a `BitVec<u64, Lsb0>`. The
/// type of `bitvec` cannot itself be made known to Verus, which does not
/// know the traits that bound its parameters, so Verus sees this struct and
/// not what is in it. A value is only ever made by [`cpumask_zeros`], so its
/// first bit is bit 0 of its first storage word.
#[verifier::external_body]
pub struct CpuMask {
    bits: BitVec<u64, Lsb0>,
}

/// The bits of a mask: bit `i` says whether CPU `i` is in the set.
pub uninterp spec fn cpumask_bits(mask: CpuMask) -> Seq<bool>;

/// Whether bit `bit` of a storage word is set, counting from the least
/// significant bit.
pub open spec fn word_has_bit(word: u64, bit: int) -> bool {
    0 <= bit < 64 && (word >> (bit as u64)) & 1 == 1
}

/// The number of bits that are set.
pub open spec fn count_set(bits: Seq<bool>) -> nat
    decreases bits.len(),
{
    if bits.len() == 0 {
        0
    } else {
        count_set(bits.drop_last()) + if bits.last() {
            1nat
        } else {
            0nat
        }
    }
}

/// Calls `BitVec::repeat(false, len)`: a mask of `len` bits, all clear.
/// `repeat` panics above `BitSlice::MAX_BITS`, far beyond the lengths taken here.
#[verifier::external_body]
pub(crate) fn cpumask_zeros(len: usize) -> (mask: CpuMask)
    requires
        len <= 0x1000_0000,
    ensures
        cpumask_bits(mask) == Seq::new(len as nat, |i: int| false),
{
    CpuMask { bits: BitVec::repeat(false, len) }
}

/// Calls `BitSlice::set(cpu, true)`: sets one bit and leaves the others.
/// `set` panics on an index that is not below the length.
#[verifier::external_body]
pub(crate) fn cpumask_set(mask: &mut CpuMask, cpu: usize)
    requires
        cpu < cpumask_bits(*old(mask)).len(),
    ensures
        cpumask_bits(*final(mask)) == cpumask_bits(*old(mask)).update(cpu as int, true),
{
    mask.bits.set(cpu, true);
}

/// Calls `BitVec::set_uninitialized(false)`: clears what the storage words hold
/// beyond the mask's own bits, which stay as they are.
#[verifier::external_body]
pub(crate) fn cpumask_clear_unused(mask: &mut CpuMask)
    ensures
        cpumask_bits(*final(mask)) == cpumask_bits(*old(mask)),
{
    mask.bits.set_uninitialized(false);
}

/// Calls `BitVec::as_raw_slice` and copies the words out. With `Lsb0` order
/// bit `i` of the mask is bit `i % 64` of word `i / 64`. Only whole words are
/// taken, so every bit of every word belongs to the mask.
#[verifier::external_body]
pub(crate) fn cpumask_raw_words(mask: &CpuMask) -> (words: Vec<u64>)
    requires
        cpumask_bits(*mask).len() % 64 == 0,
    ensures
        words@.len() * 64 == cpumask_bits(*mask).len(),
        forall|i: int|
            0 <= i < cpumask_bits(*mask).len() ==> word_has_bit(#[trigger] words@[i / 64], i % 64)
                == cpumask_bits(*mask)[i],
{
    mask.bits.as_raw_slice().to_vec()
}

/// Calls `BitSlice::count_ones`: the number of bits that are set.
#[verifier::external_body]
pub(crate) fn cpumask_count_ones(mask: &CpuMask) -> (n: usize)
    ensures
        n == count_set(cpumask_bits(*mask)),
{
    mask.bits.count_ones()
}

} // verus!
