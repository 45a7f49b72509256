//! The errors that the simulation's operations report.

use vstd::prelude::*;

verus! {

/// Why an operation of the simulation did not succeed.
#[derive(Clone, Copy, Debug, PartialEq, Eq, Structural)]
pub enum SimError {
    /// The ledger holds no record for the node.
    NotRegistered,
    /// No record of the node is available.
    NotFound,
    /// A tick named a time earlier than the ledger's last tick.
    TimeReversed,
    /// A configured period is zero.
    InvalidPeriod,
    /// The number of node identities differs from the configured number of nodes.
    WrongNodeCount,
}

} // verus!
