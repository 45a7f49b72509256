//! The router: the nodes that are reachable now, and the delivery of
//! messages between them. A message to a node that is not reachable is
//! dropped without a trace.

use vstd::prelude::*;

use crate::broker::{BMNet, BrokerMsg};
use crate::node::{answer_to, Msg, Node, NodeMsg, NodeRecord};
use crate::node_types::{lemma_id_view_injective, NodeID};

verus! {

/// The messages that delivering `msg` to the reachable nodes `nodes` yields:
/// the answer of its addressee, or nothing where the addressee is not
/// reachable.
pub open spec fn deliver(nodes: Map<NodeID, NodeRecord>, msg: NodeMsg) -> Seq<NodeMsg> {
    if nodes.contains_key(msg.to) {
        answer_to(msg.to, msg)
    } else {
        Seq::empty()
    }
}

/// How much delivery work a message can still cause: a ping is answered by
/// a pong, which is not answered.
pub open spec fn msg_weight(m: NodeMsg) -> nat {
    match m.msg {
        Msg::Ping => 2,
        Msg::Pong => 1,
    }
}

/// The delivery work that a stack of messages can still cause.
pub open spec fn stack_weight(s: Seq<NodeMsg>) -> nat
    decreases s.len(),
{
    if s.len() == 0 {
        0
    } else {
        stack_weight(s.drop_last()) + msg_weight(s.last())
    }
}

proof fn lemma_stack_weight_append(a: Seq<NodeMsg>, b: Seq<NodeMsg>)
    ensures
        stack_weight(a + b) == stack_weight(a) + stack_weight(b),
    decreases b.len(),
{
    if b.len() > 0 {
        lemma_stack_weight_append(a, b.drop_last());
        assert((a + b).drop_last() =~= a + b.drop_last());
        assert((a + b).last() == b.last());
    } else {
        assert(a + b =~= a);
    }
}

/// No two nodes of `s` have the same identity.
pub open spec fn records_unique(s: Seq<NodeRecord>) -> bool {
    forall|i: int, j: int| 0 <= i < j < s.len() ==> #[trigger] s[i].id != #[trigger] s[j].id
}

/// The records of `s`, filed by identity.
pub open spec fn records_map(s: Seq<NodeRecord>) -> Map<NodeID, NodeRecord> {
    Map::new(
        |id: NodeID| exists|k: int| 0 <= k < s.len() && #[trigger] s[k].id == id,
        |id: NodeID| s[choose|k: int| 0 <= k < s.len() && #[trigger] s[k].id == id],
    )
}

proof fn lemma_records_at(s: Seq<NodeRecord>, k: int)
    requires
        records_unique(s),
        0 <= k < s.len(),
    ensures
        records_map(s).contains_key(s[k].id),
        records_map(s)[s[k].id] == s[k],
{
    let id = s[k].id;
    assert(exists|j: int| 0 <= j < s.len() && #[trigger] s[j].id == id);
    let j = choose|j: int| 0 <= j < s.len() && #[trigger] s[j].id == id;
    if j != k {
        if j < k {
            assert(s[j].id != s[k].id);
        } else {
            assert(s[k].id != s[j].id);
        }
    }
}

proof fn lemma_records_push(s: Seq<NodeRecord>, r: NodeRecord)
    requires
        records_unique(s),
        !records_map(s).contains_key(r.id),
    ensures
        records_unique(s.push(r)),
        records_map(s.push(r)) == records_map(s).insert(r.id, r),
{
    let t = s.push(r);
    assert forall|i: int, j: int| 0 <= i < j < t.len() implies #[trigger] t[i].id != #[trigger] t[j].id by {
        assert(t[i] == s[i]);
        if j < s.len() {
            assert(t[j] == s[j]);
        } else {
            assert(!(exists|k: int| 0 <= k < s.len() && #[trigger] s[k].id == r.id));
        }
    }
    assert forall|id: NodeID| #[trigger] records_map(t).contains_key(id) <==> records_map(s).insert(r.id, r).contains_key(id) by {
        if records_map(s).contains_key(id) {
            let k = choose|k: int| 0 <= k < s.len() && #[trigger] s[k].id == id;
            assert(t[k] == s[k]);
        }
        if records_map(t).contains_key(id) && id != r.id {
            let k = choose|k: int| 0 <= k < t.len() && #[trigger] t[k].id == id;
            assert(t[k] == s[k]);
        }
        if id == r.id {
            assert(t[s.len() as int].id == id);
        }
    }
    assert forall|id: NodeID| #[trigger] records_map(t).contains_key(id) implies records_map(t)[id] == records_map(s).insert(r.id, r)[id] by {
        let k = choose|k: int| 0 <= k < t.len() && #[trigger] t[k].id == id;
        lemma_records_at(t, k);
        if k < s.len() {
            assert(t[k] == s[k]);
            lemma_records_at(s, k);
        }
    }
    assert(records_map(t) =~= records_map(s).insert(r.id, r));
}

proof fn lemma_records_remove(s: Seq<NodeRecord>, k: int)
    requires
        records_unique(s),
        0 <= k < s.len(),
    ensures
        records_unique(s.remove(k)),
        records_map(s.remove(k)) == records_map(s).remove(s[k].id),
{
    let t = s.remove(k);
    let gone = s[k].id;
    assert forall|i: int, j: int| 0 <= i < j < t.len() implies #[trigger] t[i].id != #[trigger] t[j].id by {
        let si = if i < k { i } else { i + 1 };
        let sj = if j < k { j } else { j + 1 };
        assert(t[i] == s[si] && t[j] == s[sj]);
    }
    assert forall|id: NodeID| #[trigger] records_map(t).contains_key(id) <==> records_map(s).remove(gone).contains_key(id) by {
        if records_map(t).contains_key(id) {
            let j = choose|j: int| 0 <= j < t.len() && #[trigger] t[j].id == id;
            let sj = if j < k { j } else { j + 1 };
            assert(t[j] == s[sj]);
            if sj < k {
                assert(s[sj].id != s[k].id);
            } else {
                assert(s[k].id != s[sj].id);
            }
        }
        if records_map(s).remove(gone).contains_key(id) {
            let j = choose|j: int| 0 <= j < s.len() && #[trigger] s[j].id == id;
            let tj = if j < k { j } else { j - 1 };
            assert(t[tj] == s[j]);
        }
    }
    assert forall|id: NodeID| #[trigger] records_map(t).contains_key(id) implies records_map(t)[id] == records_map(s)[id] by {
        let j = choose|j: int| 0 <= j < t.len() && #[trigger] t[j].id == id;
        let sj = if j < k { j } else { j + 1 };
        assert(t[j] == s[sj]);
        lemma_records_at(t, j);
        lemma_records_at(s, sj);
    }
    assert(records_map(t) =~= records_map(s).remove(gone));
}

/// The router: the nodes that are reachable now.
pub struct Network {
    nodes: Vec<Node>,
}

impl View for Network {
    type V = Map<NodeID, NodeRecord>;

    /// The reachable nodes' records, filed by identity.
    closed spec fn view(&self) -> Map<NodeID, NodeRecord> {
        records_map(self.records())
    }
}

impl Network {
    closed spec fn records(&self) -> Seq<NodeRecord> {
        self.nodes@.map_values(|n: Node| n.spec_info())
    }

    /// Each node is reachable once.
    pub closed spec fn wf(&self) -> bool {
        records_unique(self.records())
    }

    /// A router with no reachable node.
    pub fn new() -> (r: Network)
        ensures
            r.wf(),
            r@ == Map::<NodeID, NodeRecord>::empty(),
    {
        let r = Network { nodes: Vec::new() };
        assert(r@ =~= Map::<NodeID, NodeRecord>::empty());
        r
    }

    /// The position of the node `id`, if it is reachable.
    fn find(&self, id: &NodeID) -> (r: Option<usize>)
        requires
            self.wf(),
        ensures
            r matches Some(k) ==> k < self.nodes@.len() && self.records()[k as int].id == *id,
            r is None <==> !self@.contains_key(*id),
    {
        let mut i: usize = 0;
        while i < self.nodes.len()
            invariant
                i <= self.nodes@.len(),
                forall|k: int| 0 <= k < i ==> #[trigger] self.records()[k].id != *id,
            decreases self.nodes@.len() - i,
        {
            if self.nodes[i].id() == *id {
                proof {
                    lemma_id_view_injective(self.nodes@[i as int].spec_info().id, *id);
                    assert(self.records()[i as int].id == *id);
                }
                return Some(i);
            }
            i = i + 1;
        }
        None
    }

    /// Adds a node that became reachable (a node that is reachable already
    /// is kept as it is) or removes one that became unreachable. No action
    /// follows from either.
    pub fn action(&mut self, action: BMNet) -> (r: Vec<BrokerMsg>)
        requires
            old(self).wf(),
        ensures
            final(self).wf(),
            r@.len() == 0,
            action matches BMNet::NodeAdd(n) ==> final(self)@ == if old(self)@.contains_key(
                n.spec_info().id,
            ) {
                old(self)@
            } else {
                old(self)@.insert(n.spec_info().id, n.spec_info())
            },
            action matches BMNet::NodeDel(id) ==> final(self)@ == old(self)@.remove(id),
    {
        match action {
            BMNet::NodeAdd(n) => {
                let id = n.id();
                if self.find(&id).is_none() {
                    proof {
                        lemma_records_push(self.records(), n.spec_info());
                    }
                    self.nodes.push(n);
                    assert(self.records() =~= old(self).records().push(n.spec_info()));
                }
            },
            BMNet::NodeDel(id) => {
                match self.find(&id) {
                    Some(k) => {
                        proof {
                            lemma_records_remove(self.records(), k as int);
                        }
                        self.nodes.remove(k);
                        assert(self.records() =~= old(self).records().remove(k as int));
                    },
                    None => {
                        assert(self@ =~= old(self)@.remove(id));
                    },
                }
            },
        }
        Vec::new()
    }

    /// Lets time pass for every reachable node and delivers what they send.
    pub fn tick(&mut self, now: u128) -> (r: Vec<BrokerMsg>)
        requires
            old(self).wf(),
        ensures
            final(self).wf(),
            final(self)@ == old(self)@,
            r@.len() == 0,
    {
        let mut msgs: Vec<NodeMsg> = Vec::new();
        let mut i: usize = 0;
        while i < self.nodes.len()
            invariant
                i <= self.nodes@.len(),
                self.records() == old(self).records(),
            decreases self.nodes@.len() - i,
        {
            let mut node = self.nodes.remove(i);
            let mut sent = node.tick(now);
            self.nodes.insert(i, node);
            assert(self.records() =~= old(self).records());
            msgs.append(&mut sent);
            i = i + 1;
        }
        self.process_msgs(msgs);
        Vec::new()
    }

    /// Delivers `msgs` and the answers they cause, the latest first, until
    /// none is left.
    pub fn process_msgs(&mut self, msgs: Vec<NodeMsg>)
        requires
            old(self).wf(),
        ensures
            final(self).wf(),
            final(self)@ == old(self)@,
    {
        let mut msgs = msgs;
        while msgs.len() > 0
            invariant
                self.wf(),
                self@ == old(self)@,
            decreases stack_weight(msgs@),
        {
            let ghost before = msgs@;
            let msg = msgs.pop().unwrap();
            assert(before.drop_last() == msgs@);
            let mut answers = self.send_msg(msg);
            proof {
                lemma_stack_weight_append(msgs@, answers@);
                assert(stack_weight(answers@) < msg_weight(msg)) by {
                    reveal_with_fuel(stack_weight, 2);
                }
            }
            msgs.append(&mut answers);
        }
    }

    /// Delivers `msg` to its addressee and returns the addressee's answer; a
    /// message to a node that is not reachable is dropped and yields nothing.
    pub fn send_msg(&mut self, msg: NodeMsg) -> (r: Vec<NodeMsg>)
        requires
            old(self).wf(),
        ensures
            final(self).wf(),
            final(self)@ == old(self)@,
            r@ == deliver(old(self)@, msg),
    {
        match self.find(&msg.to) {
            Some(k) => {
                proof {
                    lemma_records_at(self.records(), k as int);
                }
                let mut node = self.nodes.remove(k);
                let answer = node.receive(msg);
                self.nodes.insert(k, node);
                assert(self.records() =~= old(self).records());
                answer
            },
            None => Vec::new(),
        }
    }
}

/// A ping to a reachable node yields exactly one pong, from that node back to
/// the sender; delivering that pong yields nothing further.
pub proof fn lemma_ping_pong(nodes: Map<NodeID, NodeRecord>, a: NodeID, b: NodeID)
    requires
        nodes.contains_key(b),
    ensures
        deliver(nodes, NodeMsg { from: a, to: b, msg: Msg::Ping }) == seq![
            NodeMsg { from: b, to: a, msg: Msg::Pong },
        ],
        deliver(nodes, NodeMsg { from: b, to: a, msg: Msg::Pong }).len() == 0,
{
}

/// A message to a node that is not reachable yields no message.
pub proof fn lemma_drop_unreachable(nodes: Map<NodeID, NodeRecord>, msg: NodeMsg)
    requires
        !nodes.contains_key(msg.to),
    ensures
        deliver(nodes, msg).len() == 0,
{
}

} // verus!
