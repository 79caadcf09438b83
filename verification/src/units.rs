//! Fixed-point units and the limits shared with the kernel side.
use vstd::prelude::*;

verus! {

/// Largest number of CPUs a topology can hold; also the width of every CPU mask.
pub const MAX_CPUS: usize = 512;

/// Largest number of scheduling domains.
pub const MAX_DOMS: usize = 64;

/// Number of 64-bit words in a CPU mask shared with the kernel side.
pub const MASK_WORDS: usize = 8;

/// One whole, in the fixed-point scale used for utilization, thresholds,
/// the decay factor and load: a value `v` stands for `v / UNIT`.
pub const UNIT: u64 = 1_000_000;

/// A threshold above this value switches a greedy mask on for every CPU.
pub const ALWAYS_ON_ABOVE: u64 = 999_990;

/// Largest decay factor the load balancer works with.
pub const MAX_DECAY: u64 = 990_000;

/// Largest load a single task can have: the largest weight, fully runnable.
pub const MAX_TASK_LOAD: u64 = 4_294_967_295_000_000;

} // verus!
