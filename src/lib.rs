//! A small peer-to-peer network simulation: a trust ledger that keeps each
//! node's mana, a router that delivers messages between reachable nodes, a
//! connectivity simulator and a dispatcher that ties them together.

pub mod broker;
pub mod error;
pub mod msgs;
pub mod network;
pub mod node;
pub mod node_types;
pub mod simulator;
pub mod stats;
pub mod trusted;
pub mod web;
