//! The registration gateway: it turns a presented secret into a registered,
//! reachable node.

use vstd::prelude::*;

use crate::broker::{BMNet, BMWeb, BrokerMsg};
use crate::node::{Node, NodeInfo, NodeRecord};
use crate::node_types::{lemma_id_view_injective, node_id_of, NodeID};
use crate::trusted::{LedgerModel, Trusted};

verus! {

/// The ledger `l` after registering the node `id` on top of `l0`, and the
/// record `rec` that was registered: the record `l0` held for it, or one
/// with no mana where it held none.
pub open spec fn registered(l0: LedgerModel, l: LedgerModel, id: NodeID, rec: NodeRecord) -> bool {
    &&& rec.id == id
    &&& if l0.nodes.contains_key(id) {
        rec == l0.nodes[id].record
    } else {
        rec.mana == 0
    }
    &&& l == l0.register(rec)
}

/// Registering the same secret twice yields the same identity both times,
/// and the ledger gains one entry for it (none where it already held one),
/// not two; the second registration keeps the record of the first.
pub proof fn lemma_register_idempotent(
    l0: LedgerModel,
    l1: LedgerModel,
    l2: LedgerModel,
    secret: Seq<u8>,
    id1: NodeID,
    id2: NodeID,
    rec1: NodeRecord,
    rec2: NodeRecord,
)
    requires
        l0.wf(),
        id1@ == node_id_of(secret),
        id2@ == node_id_of(secret),
        registered(l0, l1, id1, rec1),
        registered(l1, l2, id2, rec2),
    ensures
        id1 == id2,
        l2.nodes.dom() == l0.nodes.dom().insert(id1),
        l2.nodes.len() == l0.nodes.len() + if l0.nodes.contains_key(id1) {
            0int
        } else {
            1int
        },
        l2.nodes[id1].record == l1.nodes[id1].record,
{
    lemma_id_view_injective(id1, id2);
    assert(l2.nodes.dom() =~= l0.nodes.dom().insert(id1));
}

/// Right after a node registers that the ledger did not hold, it has no
/// mana, and a sign of life reports none.
pub proof fn lemma_zero_initial_mana(l0: LedgerModel, l1: LedgerModel, id: NodeID, rec: NodeRecord)
    requires
        registered(l0, l1, id, rec),
        !l0.nodes.contains_key(id),
    ensures
        l1.nodes.contains_key(id),
        l1.nodes[id].record.mana == 0,
        l1.alive(id).nodes[id].record.mana == 0,
{
}

/// The registration gateway.
pub struct Web {}

impl Web {
    pub fn new() -> (r: Web) {
        Web {}
    }

    /// Registers the node that belongs to the presented secret with the
    /// ledger, keeping the record the ledger already holds for it, and
    /// announces it reachable.
    pub fn action(&mut self, action: BMWeb, trusted: &mut Trusted) -> (r: Vec<BrokerMsg>)
        requires
            old(trusted).wf(),
        ensures
            final(trusted).wf(),
            r@.len() == 1,
            action matches BMWeb::WebRegister(secret) ==> r@[0] matches BrokerMsg::Network(
                BMNet::NodeAdd(n),
            ) && n.spec_info().id@ == node_id_of(secret@) && registered(
                old(trusted)@,
                final(trusted)@,
                n.spec_info().id,
                n.spec_info(),
            ),
    {
        match action {
            BMWeb::WebRegister(secret) => {
                let id = NodeID::from_secret(&secret);
                proof {
                    trusted.lemma_view_wf();
                }
                let info = match trusted.info(&id) {
                    Some(ni) => ni,
                    None => NodeInfo::with_id(id),
                };
                let node = Node::from_info(info, trusted);
                let mut out: Vec<BrokerMsg> = Vec::new();
                out.push(BrokerMsg::Network(BMNet::NodeAdd(node)));
                out
            },
        }
    }

    /// The gateway sends nothing of its own on a tick.
    pub fn tick(&mut self, _time: u128) -> (r: Vec<BrokerMsg>)
        ensures
            r@.len() == 0,
    {
        Vec::new()
    }
}

} // verus!
