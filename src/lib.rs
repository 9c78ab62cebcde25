//! Node selection for a cluster-aware database client: replica precomputation
//! over the token ring and a datacenter-aware, token-aware load balancing policy.

pub mod ring;
pub mod topology;
pub mod replication;
pub mod precomputed;
mod random;
pub mod cluster;
pub mod policy;
pub mod laws;
