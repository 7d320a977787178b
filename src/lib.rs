//! A named commit-graph index: a vertex <-> integer id map partitioned into
//! stability groups, plus a segmented encoding of the integer-level DAG, kept
//! consistent by a single orchestrating structure.

pub mod id;
pub mod error;
pub mod bytes;
pub mod resolver;
pub mod idmap;
pub mod segment;
pub mod nameddag;
pub mod fsinfo;
pub mod stats;
