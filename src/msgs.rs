//! The messages of the network as they travel between machines.

use vstd::prelude::*;

use crate::node_types::NodeID;

verus! {

/// A message from one node to another, addressed by identity.
#[derive(Debug, Clone, Copy)]
pub struct NetworkMsg {
    pub from: NodeID,
    pub to: NodeID,
    pub msg: Msg,
}

/// What a network message says.
#[derive(Debug, Clone, Copy, PartialEq, Eq, Structural)]
pub enum Msg {
    Ping,
    Pong,
}

} // verus!
