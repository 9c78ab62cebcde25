//! Cluster members, replication strategies and consistency levels.

use vstd::prelude::*;

verus! {

/// A cluster member. Nodes are owned by the cluster snapshot and referred to
/// elsewhere by their position in it.
#[derive(Clone, Debug)]
pub struct Node {
    /// The port of the node's address; it names the node in plans.
    pub port: u16,
    pub datacenter: Option<String>,
    pub rack: Option<String>,
    /// False when the node is administratively excluded.
    pub enabled: bool,
}

impl Node {
    pub fn is_enabled(&self) -> (r: bool)
        ensures
            r == self.enabled,
    {
        self.enabled
    }
}

/// A keyspace's replication strategy.
#[derive(Clone, Debug)]
pub enum Strategy {
    SimpleStrategy { replication_factor: usize },
    /// Replication factor per datacenter name.
    NetworkTopologyStrategy { datacenter_repfactors: Vec<(String, usize)> },
    LocalStrategy,
    Other { name: String },
}

/// The consistency level a query asks for.
#[derive(Clone, Copy, Debug, PartialEq, Eq, Structural)]
pub enum Consistency {
    Any,
    One,
    Two,
    Three,
    Quorum,
    All,
    LocalQuorum,
    EachQuorum,
    LocalOne,
    Serial,
    LocalSerial,
}

/// The serial consistency level of a conditional query.
#[derive(Clone, Copy, Debug, PartialEq, Eq, Structural)]
pub enum SerialConsistency {
    Serial,
    LocalSerial,
}

/// True when the levels confine the query to one datacenter.
pub open spec fn is_local_consistency(c: Consistency, s: Option<SerialConsistency>) -> bool {
    c == Consistency::LocalQuorum || c == Consistency::LocalOne || s == Some(
        SerialConsistency::LocalSerial,
    )
}

/// Whether the query's levels confine it to one datacenter.
pub fn local_consistency(c: Consistency, s: Option<SerialConsistency>) -> (r: bool)
    ensures
        r == is_local_consistency(c, s),
{
    match (c, s) {
        (Consistency::LocalQuorum, _) => true,
        (Consistency::LocalOne, _) => true,
        (_, Some(SerialConsistency::LocalSerial)) => true,
        _ => false,
    }
}

} // verus!
