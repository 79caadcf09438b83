//! Userspace half of a multi-domain scheduler.
//!
//! The kernel side dispatches tasks round-robin inside each scheduling domain.
//! This library decides everything around it: how the CPUs are partitioned into
//! domains, which CPUs may take part in greedy dispatch, and which tasks should
//! move to another domain to even out the load.
//!
//! All quantities that are fractions in nature (utilization, thresholds, decay
//! factor, load) are fixed-point integers in millionths; see [`units`].
pub mod balance_types;
pub mod cache_ids;
pub mod cpu_stat;
pub mod cpumask;
pub mod driver;
pub mod error;
pub mod hexmask;
pub mod load;
pub mod load_balancer;
pub mod plan;
pub mod proc_stat;
pub mod report;
pub mod sampling;
pub mod scheduler;
pub mod text;
pub mod topology;
pub mod tuner;
pub mod units;
pub mod victim;
