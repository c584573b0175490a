//! Core of a scriptable database workload generator: a partition
//! row-distribution engine that maps stress iteration indices to target
//! partitions, and the decision logic of a resilient paginated request
//! executor with retry, limit and result-cardinality validation.

pub mod alternator_error;
pub mod executor;
pub mod gcd;
pub mod generators;
pub mod preset_build;
pub mod registry;
pub mod row_distribution;
pub mod strutil;
