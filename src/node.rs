//! The simulated node: its public record and its answers to messages.

use vstd::prelude::*;

use crate::node_types::{Mana, NodeID};
use crate::broker::{BMNode, BrokerMsg};
use crate::trusted::Trusted;

verus! {

/// Relies on `names::Generator::default().next()`, which joins a random
/// adjective and a random noun and always yields a name.
#[verifier::external_body]
fn random_name() -> (r: Option<String>)
    ensures
        r is Some,
{
    names::Generator::default().next()
}

/// What a node's record holds, as mathematical values.
pub struct NodeRecord {
    pub id: NodeID,
    pub name: Seq<char>,
    pub mana: u128,
}

/// The externally visible record of a node.
#[derive(Debug)]
pub struct NodeInfo {
    pub id: NodeID,
    pub name: String,
    pub mana: Mana,
}

impl View for NodeInfo {
    type V = NodeRecord;

    open spec fn view(&self) -> NodeRecord {
        NodeRecord { id: self.id, name: self.name@, mana: self.mana.0 }
    }
}

impl Clone for NodeInfo {
    fn clone(&self) -> (r: NodeInfo)
        ensures
            r@ == self@,
    {
        NodeInfo { id: self.id, name: self.name.clone(), mana: self.mana }
    }
}

impl NodeInfo {
    /// A record with a random identity, a random name and no mana.
    pub fn random() -> (r: NodeInfo)
        ensures
            r@.id@.len() == 32,
            r@.mana == 0,
    {
        NodeInfo::with_id(NodeID::random())
    }

    /// A record for `id` with a random name and no mana.
    pub fn with_id(id: NodeID) -> (r: NodeInfo)
        ensures
            r@.id == id,
            r@.mana == 0,
    {
        NodeInfo { id, name: random_name().unwrap(), mana: Mana::zero() }
    }
}

/// The messages that nodes exchange.
#[derive(Clone, Copy, Debug, PartialEq, Eq, Structural)]
pub enum Msg {
    Ping,
    Pong,
}

/// A message from one node to another.
#[derive(Clone, Copy, Debug)]
pub struct NodeMsg {
    pub from: NodeID,
    pub to: NodeID,
    pub msg: Msg,
}

/// The answer of node `me` to `input`: a ping is answered by one pong sent
/// back to its sender, a pong is not answered.
pub open spec fn answer_to(me: NodeID, input: NodeMsg) -> Seq<NodeMsg> {
    match input.msg {
        Msg::Ping => seq![NodeMsg { from: me, to: input.from, msg: Msg::Pong }],
        Msg::Pong => seq![],
    }
}

/// A node of the network, which answers the messages it receives.
#[derive(Debug)]
pub struct Node {
    info: NodeInfo,
}

impl Node {
    pub closed spec fn spec_info(&self) -> NodeRecord {
        self.info@
    }

    /// A node with a random record, registered with `trusted`.
    pub fn new(trusted: &mut Trusted) -> (r: Node)
        requires
            old(trusted).wf(),
        ensures
            final(trusted).wf(),
            r.spec_info().mana == 0,
            final(trusted)@ == old(trusted)@.register(r.spec_info()),
    {
        Node::from_info(NodeInfo::random(), trusted)
    }

    /// A node with a random record, registered with a ledger of its own.
    pub fn dummy() -> (r: Node)
        ensures
            r.spec_info().mana == 0,
    {
        let mut trusted = Trusted::new_default(0);
        Node::new(&mut trusted)
    }

    pub fn id(&self) -> (r: NodeID)
        ensures
            r == self.spec_info().id,
    {
        self.info.id
    }

    pub fn info(&self) -> (r: NodeInfo)
        ensures
            r@ == self.spec_info(),
    {
        self.info.clone()
    }

    /// Registers this node's record with `trusted`.
    fn update_trusted(&self, trusted: &mut Trusted)
        requires
            old(trusted).wf(),
        ensures
            final(trusted).wf(),
            final(trusted)@ == old(trusted)@.register(self.spec_info()),
    {
        let _ = trusted.register(self.info.clone());
    }

    /// Handles one message addressed to this node and returns the messages it
    /// sends in answer.
    pub fn receive(&mut self, input: NodeMsg) -> (r: Vec<NodeMsg>)
        ensures
            final(self).spec_info() == old(self).spec_info(),
            r@ == answer_to(old(self).spec_info().id, input),
    {
        let mut out: Vec<NodeMsg> = Vec::new();
        match input.msg {
            Msg::Ping => out.push(NodeMsg { from: self.id(), to: input.from, msg: Msg::Pong }),
            Msg::Pong => {},
        }
        proof {
            assert(out@ =~= answer_to(self.spec_info().id, input));
        }
        out
    }

    /// A node for `info`, registered with `trusted`.
    pub fn from_info(info: NodeInfo, trusted: &mut Trusted) -> (r: Node)
        requires
            old(trusted).wf(),
        ensures
            final(trusted).wf(),
            r.spec_info() == info@,
            final(trusted)@ == old(trusted)@.register(info@),
    {
        let node = Node { info };
        node.update_trusted(trusted);
        node
    }

    /// A node takes no action of its own.
    pub fn action(&mut self, task: BMNode) -> (r: Vec<BrokerMsg>)
        ensures
            final(self).spec_info() == old(self).spec_info(),
            r@.len() == 0,
    {
        match task {
            BMNode::Idle => Vec::new(),
        }
    }

    /// Lets time pass for this node; it sends nothing of its own.
    pub fn tick(&mut self, _time: u128) -> (r: Vec<NodeMsg>)
        ensures
            final(self).spec_info() == old(self).spec_info(),
            r@.len() == 0,
    {
        Vec::new()
    }
}

} // verus!
