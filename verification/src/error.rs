//! What can go wrong while the controller is set up or runs.
use vstd::prelude::*;

verus! {

/// A CPU partition that cannot be built.
#[derive(Clone, Copy, Debug, PartialEq, Eq, Structural)]
pub enum TopologyError {
    /// More domains were asked for than `MAX_DOMS`.
    TooManyDoms { nr_doms: usize },
    /// A mask names a CPU that the machine does not have. `cpu` is the lowest
    /// such CPU of the mask, or `usize::MAX` where its number does not fit.
    CpuOutOfRange { cpu: usize, dom: usize },
    /// A mask names a CPU that an earlier mask has already taken.
    CpuDoubleAssigned { cpu: usize, dom: usize, other_dom: usize },
    /// No mask names this CPU.
    CpuUnassigned { cpu: usize },
    /// A CPU is offline and there is no domain to park it in.
    NoDomains,
}

/// Options that cannot be used.
#[derive(Clone, Copy, Debug, PartialEq, Eq, Structural)]
pub enum ConfigError {
    /// The mask of this domain is not a hexadecimal number.
    BadCpumask { dom: usize },
    /// The machine has more CPUs than `MAX_CPUS`.
    TooManyCpus { nr_cpus: usize },
    /// The slice length in nanoseconds does not fit in 64 bits.
    SliceTooLong { slice_us: u64 },
}

/// Text that cannot be read.
#[derive(Clone, Copy, Debug, PartialEq, Eq, Structural)]
pub enum ParseError {
    /// A line has no field at all.
    NoKey,
    /// A line ends before its last counter.
    MissingField,
    /// A field is not a number, or one too large.
    BadNumber,
}

/// Failure to set the controller up.
#[derive(Clone, Copy, Debug, PartialEq, Eq, Structural)]
pub enum SetupError {
    Config(ConfigError),
    Topology(TopologyError),
}

} // verus!
