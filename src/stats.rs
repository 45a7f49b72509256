//! The statistics that the service reports.

use vstd::prelude::*;

use crate::node_types::NodeID;

verus! {

/// The identities of the nodes that the statistics cover.
pub struct StatsReply {
    pub ids: Vec<NodeID>,
}

} // verus!
