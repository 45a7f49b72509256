//! The dispatcher: it owns the ledger and the other parts of the simulation
//! and routes the actions that they hand each other.

use vstd::prelude::*;

use crate::error::SimError;
use crate::network::Network;
use crate::node::{Node, NodeInfo, NodeRecord};
use crate::node_types::{lemma_id_view_injective, node_id_of, Mana, NodeID, NodeSecret};
use crate::simulator::{self, after_draw, announces, changes, ledger_after, NodeFlex, Simulator};
use crate::trusted::{self, saturating_add, LedgerModel, Trusted};
use crate::web::{registered, Web};

verus! {

/// An action for one part of the simulation, tagged by the part that takes it.
#[derive(Debug)]
pub enum BrokerMsg {
    Web(BMWeb),
    Network(BMNet),
    Simulator(BMSimul),
    Node(BMNode),
}

/// An action for the router.
#[derive(Debug)]
pub enum BMNet {
    /// The node became reachable.
    NodeAdd(Node),
    /// The node became unreachable.
    NodeDel(NodeID),
}

/// An action for the registration gateway.
#[derive(Debug)]
pub enum BMWeb {
    /// A caller presented this secret to register.
    WebRegister(NodeSecret),
}

/// An action for the connectivity simulator. The simulator acts on ticks
/// alone, so the one action asks for nothing.
#[derive(Debug)]
pub enum BMSimul {
    Idle,
}

/// An action for a node. Nodes act on messages alone, so the one action asks
/// for nothing.
#[derive(Debug)]
pub enum BMNode {
    Idle,
}

impl From<BMNet> for BrokerMsg {
    fn from(value: BMNet) -> (r: BrokerMsg) {
        BrokerMsg::Network(value)
    }
}

impl vstd::std_specs::convert::FromSpecImpl<BMNet> for BrokerMsg {
    open spec fn obeys_from_spec() -> bool {
        true
    }

    open spec fn from_spec(value: BMNet) -> BrokerMsg {
        BrokerMsg::Network(value)
    }
}

impl From<BMWeb> for BrokerMsg {
    fn from(value: BMWeb) -> (r: BrokerMsg) {
        BrokerMsg::Web(value)
    }
}

impl vstd::std_specs::convert::FromSpecImpl<BMWeb> for BrokerMsg {
    open spec fn obeys_from_spec() -> bool {
        true
    }

    open spec fn from_spec(value: BMWeb) -> BrokerMsg {
        BrokerMsg::Web(value)
    }
}

impl From<BMSimul> for BrokerMsg {
    fn from(value: BMSimul) -> (r: BrokerMsg) {
        BrokerMsg::Simulator(value)
    }
}

impl vstd::std_specs::convert::FromSpecImpl<BMSimul> for BrokerMsg {
    open spec fn obeys_from_spec() -> bool {
        true
    }

    open spec fn from_spec(value: BMSimul) -> BrokerMsg {
        BrokerMsg::Simulator(value)
    }
}

impl From<BMNode> for BrokerMsg {
    fn from(value: BMNode) -> (r: BrokerMsg) {
        BrokerMsg::Node(value)
    }
}

impl vstd::std_specs::convert::FromSpecImpl<BMNode> for BrokerMsg {
    open spec fn obeys_from_spec() -> bool {
        true
    }

    open spec fn from_spec(value: BMNode) -> BrokerMsg {
        BrokerMsg::Node(value)
    }
}

/// A summary of the network's state; it holds nothing yet.
pub struct NetworkStatus {}

/// The reachable set `m` after the node with record `rec` becomes
/// reachable; a node that is reachable already is kept as it is.
pub open spec fn net_add(m: Map<NodeID, NodeRecord>, rec: NodeRecord) -> Map<NodeID, NodeRecord> {
    if m.contains_key(rec.id) {
        m
    } else {
        m.insert(rec.id, rec)
    }
}

/// The reachable set `m` after the router takes action `a`.
pub open spec fn net_after(m: Map<NodeID, NodeRecord>, a: BMNet) -> Map<NodeID, NodeRecord> {
    match a {
        BMNet::NodeAdd(n) => net_add(m, n.spec_info()),
        BMNet::NodeDel(id) => m.remove(id),
    }
}

/// Dispatching the stack `msgs` takes the ledger from `l0` to `l` and the
/// reachable set from `net0` to `net`. The last action is taken first, by
/// the part that its tag names: a registration files the node that belongs
/// to the secret as `registered` says, and the action it causes, which makes
/// that node reachable with the registered record, is taken next; a router
/// action changes the reachable set as `net_after` says; an action for the
/// simulator or for a node changes neither.
pub open spec fn dispatched(
    l0: LedgerModel,
    net0: Map<NodeID, NodeRecord>,
    msgs: Seq<BrokerMsg>,
    l: LedgerModel,
    net: Map<NodeID, NodeRecord>,
) -> bool
    decreases msgs.len(),
{
    if msgs.len() == 0 {
        l == l0 && net == net0
    } else {
        let rest = msgs.drop_last();
        match msgs.last() {
            BrokerMsg::Web(BMWeb::WebRegister(secret)) => exists|l1: LedgerModel, rec: NodeRecord|
                #[trigger] registered(l0, l1, rec.id, rec) && rec.id@ == node_id_of(secret@)
                    && dispatched(l1, net_add(net0, rec), rest, l, net),
            BrokerMsg::Network(a) => dispatched(l0, net_after(net0, a), rest, l, net),
            _ => dispatched(l0, net0, rest, l, net),
        }
    }
}

/// Every action of `msgs` is for the router.
pub open spec fn all_network(msgs: Seq<BrokerMsg>) -> bool {
    forall|k: int| 0 <= k < msgs.len() ==> #[trigger] msgs[k] is Network
}

/// The reachable set `m` after the router takes the actions of `msgs`, the
/// last one first.
pub open spec fn net_after_all(m: Map<NodeID, NodeRecord>, msgs: Seq<BrokerMsg>) -> Map<
    NodeID,
    NodeRecord,
>
    decreases msgs.len(),
{
    if msgs.len() == 0 {
        m
    } else {
        let next = match msgs.last() {
            BrokerMsg::Network(a) => net_after(m, a),
            _ => m,
        };
        net_after_all(next, msgs.drop_last())
    }
}

/// How much dispatching a stack of actions can still cause: a registration
/// causes one router action, which causes nothing further.
pub open spec fn msgs_weight(msgs: Seq<BrokerMsg>) -> nat
    decreases msgs.len(),
{
    if msgs.len() == 0 {
        0
    } else {
        msgs_weight(msgs.drop_last()) + match msgs.last() {
            BrokerMsg::Web(_) => 2nat,
            _ => 1nat,
        }
    }
}

proof fn lemma_msgs_weight_append(a: Seq<BrokerMsg>, b: Seq<BrokerMsg>)
    ensures
        msgs_weight(a + b) == msgs_weight(a) + msgs_weight(b),
    decreases b.len(),
{
    if b.len() > 0 {
        lemma_msgs_weight_append(a, b.drop_last());
        assert((a + b).drop_last() =~= a + b.drop_last());
        assert((a + b).last() == b.last());
    } else {
        assert(a + b =~= a);
    }
}

/// A tick of the dispatcher at `time`, from ledger `l0`, reachable set `net0`
/// and simulated nodes `sim0` to `l`, `net` and `sim`: the simulator draws
/// `draws`, which leaves the ledger at `mid` and yields the actions `msgs`;
/// the router takes them, and the ledger then ticks at `time` (a time
/// before its last tick leaves it at `mid`).
pub open spec fn ticked(
    l0: LedgerModel,
    net0: Map<NodeID, NodeRecord>,
    sim0: Seq<NodeFlex>,
    l: LedgerModel,
    net: Map<NodeID, NodeRecord>,
    sim: Seq<NodeFlex>,
    time: u128,
    draws: Seq<u16>,
    msgs: Seq<BrokerMsg>,
    mid: LedgerModel,
) -> bool {
    &&& draws.len() == sim0.len()
    &&& sim == sim0.zip_with(draws).map_values(|p: (NodeFlex, u16)| after_draw(p.0, p.1))
    &&& ledger_after(l0, mid, sim0, draws, draws.len() as int)
    &&& announces(msgs, changes(sim0, draws), mid)
    &&& net == net_after_all(net0, msgs)
    &&& l == if time >= mid.last_tick_time {
        mid.tick(time)
    } else {
        mid
    }
}

/// The dispatcher: it owns the ledger, the router, the connectivity
/// simulator and the registration gateway.
pub struct Broker {
    simulator: Simulator,
    network: Network,
    web: Web,
    trusted: Trusted,
}

impl Broker {
    /// The ledger's state.
    pub closed spec fn ledger(&self) -> LedgerModel {
        self.trusted@
    }

    /// The reachable nodes.
    pub closed spec fn reachable(&self) -> Map<NodeID, NodeRecord> {
        self.network@
    }

    /// The simulated nodes.
    pub closed spec fn sim_nodes(&self) -> Seq<NodeFlex> {
        self.simulator.spec_nodes()
    }

    pub closed spec fn wf(&self) -> bool {
        self.trusted.wf() && self.network.wf()
    }

    /// The dispatcher as `new` leaves it: its ledger has the periods `trust`
    /// and its clocks stand at `now`; it has `sim.nodes_root + sim.nodes_flex`
    /// simulated nodes, offline, the first `nodes_root` certain to come online
    /// and never going offline, the others with the configured chances; the
    /// ledger holds these nodes and no others, each with no mana and active
    /// until `now + trust.time_node_active`; no node is reachable.
    pub open spec fn started(&self, trust: trusted::Config, sim: simulator::Config, now: u128) -> bool {
        &&& self.wf()
        &&& self.ledger().config == trust
        &&& self.ledger().last_tick_time == now
        &&& self.ledger().last_mana_inc == now
        &&& self.ledger().last_mana_dec == now
        &&& self.reachable() == Map::<NodeID, NodeRecord>::empty()
        &&& self.sim_nodes().len() == sim.nodes_root + sim.nodes_flex
        &&& forall|i: int|
            0 <= i < self.sim_nodes().len() ==> {
                let n = #[trigger] self.sim_nodes()[i];
                &&& !n.online
                &&& self.ledger().nodes.contains_key(n.id)
                &&& self.ledger().nodes[n.id].record.mana == 0
                &&& if i < sim.nodes_root {
                    n.p_sign_in == u16::MAX && n.p_sign_out == 0
                } else {
                    n.p_sign_in == sim.p_sign_in && n.p_sign_out == sim.p_sign_out
                }
            }
        &&& forall|id: NodeID| #[trigger]
            self.ledger().nodes.contains_key(id) ==> {
                &&& exists|i: int| 0 <= i < self.sim_nodes().len() && #[trigger] self.sim_nodes()[i].id == id
                &&& self.ledger().nodes[id].record.mana == 0
                &&& self.ledger().nodes[id].active_until == saturating_add(
                    now,
                    trust.time_node_active as int,
                )
            }
    }

    /// A well-formed dispatcher has a well-formed ledger.
    pub proof fn lemma_ledger_wf(&self)
        requires
            self.wf(),
        ensures
            self.ledger().wf(),
    {
        self.trusted.lemma_view_wf();
    }

    /// A dispatcher whose ledger has the periods `trust` and whose clocks
    /// stand at `now`, with `sim.nodes_root + sim.nodes_flex` simulated nodes
    /// of random identity, each registered with no mana and offline, and no
    /// reachable node. A zero mana period is refused, and so is a number of
    /// nodes that does not fit in `usize`.
    pub fn new(trust: trusted::Config, sim: simulator::Config, now: u128) -> (r: Result<
        Broker,
        SimError,
    >)
        ensures
            !trust.valid() ==> r == Err::<Broker, SimError>(SimError::InvalidPeriod),
            trust.valid() && sim.nodes_root + sim.nodes_flex > usize::MAX ==> r == Err::<
                Broker,
                SimError,
            >(SimError::WrongNodeCount),
            trust.valid() && sim.nodes_root + sim.nodes_flex <= usize::MAX ==> r is Ok,
            r matches Ok(b) ==> b.started(trust, sim, now),
    {
        let mut trusted = match Trusted::new(trust, now) {
            Ok(t) => t,
            Err(e) => return Err(e),
        };
        if sim.nodes_root > usize::MAX - sim.nodes_flex {
            return Err(SimError::WrongNodeCount);
        }
        let count = sim.nodes_root + sim.nodes_flex;
        let mut ids: Vec<NodeID> = Vec::new();
        let mut i: usize = 0;
        while i < count
            invariant
                trusted.wf(),
                trusted@.config == trust,
                trusted@.last_tick_time == now,
                trusted@.last_mana_inc == now,
                trusted@.last_mana_dec == now,
                i <= count,
                ids@.len() == i,
                forall|k: int|
                    0 <= k < i ==> trusted@.nodes.contains_key(#[trigger] ids@[k])
                        && trusted@.nodes[ids@[k]].record.mana == 0,
                forall|id: NodeID| #[trigger]
                    trusted@.nodes.contains_key(id) ==> {
                        &&& exists|k: int| 0 <= k < i && #[trigger] ids@[k] == id
                        &&& trusted@.nodes[id].record.mana == 0
                        &&& trusted@.nodes[id].active_until == saturating_add(
                            now,
                            trust.time_node_active as int,
                        )
                    },
            decreases count - i,
        {
            let ghost before = trusted@;
            let ghost ids_before = ids@;
            let node = Node::new(&mut trusted);
            let id = node.id();
            ids.push(id);
            proof {
                assert forall|nid: NodeID| #[trigger] trusted@.nodes.contains_key(nid) implies {
                    &&& exists|k: int| 0 <= k < i + 1 && #[trigger] ids@[k] == nid
                    &&& trusted@.nodes[nid].record.mana == 0
                    &&& trusted@.nodes[nid].active_until == saturating_add(
                        now,
                        trust.time_node_active as int,
                    )
                } by {
                    if nid == id {
                        assert(ids@[i as int] == nid);
                    } else {
                        assert(before.nodes.contains_key(nid));
                        let k = choose|k: int| 0 <= k < i && #[trigger] ids_before[k] == nid;
                        assert(ids@[k] == nid);
                    }
                }
                assert forall|k: int| 0 <= k < i + 1 implies trusted@.nodes.contains_key(#[trigger] ids@[k])
                    && trusted@.nodes[ids@[k]].record.mana == 0 by {
                    if k < i {
                        assert(ids@[k] == ids_before[k]);
                    }
                }
            }
            i = i + 1;
        }
        let ghost final_ids = ids@;
        let simulator = match Simulator::new(sim, ids) {
            Ok(s) => s,
            Err(e) => return Err(e),
        };
        let b = Broker { simulator, network: Network::new(), web: Web::new(), trusted };
        proof {
            assert forall|nid: NodeID| #[trigger] b.ledger().nodes.contains_key(nid) implies exists|j: int|
                0 <= j < b.sim_nodes().len() && #[trigger] b.sim_nodes()[j].id == nid by {
                let k = choose|k: int| 0 <= k < count && #[trigger] final_ids[k] == nid;
                assert(b.sim_nodes()[k].id == nid);
            }
        }
        Ok(b)
    }

    /// A dispatcher with the default ledger periods and simulated nodes,
    /// whose clocks stand at `now`.
    pub fn default(now: u128) -> (r: Result<Broker, SimError>)
        ensures
            r matches Ok(b) && b.started(
                trusted::Config::default_periods(),
                simulator::Config::default_values(),
                now,
            ),
    {
        Broker::new(trusted::Config::default(), simulator::Config::default(), now)
    }

    /// Dispatches `msgs` and every action that follows from them, the latest
    /// first, until none is left: see `dispatched`. Where all of them are for
    /// the router, the ledger stays as it is.
    fn handle_msgs(&mut self, msgs: Vec<BrokerMsg>)
        requires
            old(self).wf(),
        ensures
            final(self).wf(),
            final(self).sim_nodes() == old(self).sim_nodes(),
            dispatched(
                old(self).ledger(),
                old(self).reachable(),
                msgs@,
                final(self).ledger(),
                final(self).reachable(),
            ),
            all_network(msgs@) ==> final(self).ledger() == old(self).ledger()
                && final(self).reachable() == net_after_all(old(self).reachable(), msgs@),
    {
        let mut msgs = msgs;
        let ghost orig = msgs@;
        while msgs.len() > 0
            invariant
                self.wf(),
                self.sim_nodes() == old(self).sim_nodes(),
                all_network(orig) ==> all_network(msgs@) && self.ledger() == old(self).ledger()
                    && net_after_all(self.reachable(), msgs@) == net_after_all(
                    old(self).reachable(),
                    orig,
                ),
                forall|l: LedgerModel, net: Map<NodeID, NodeRecord>|
                    #[trigger] dispatched(self.ledger(), self.reachable(), msgs@, l, net)
                        ==> dispatched(old(self).ledger(), old(self).reachable(), orig, l, net),
            decreases msgs_weight(msgs@),
        {
            let ghost l_before = self.ledger();
            let ghost before = msgs@;
            let ghost net_before = self.reachable();
            let msg = msgs.pop().unwrap();
            assert(before.drop_last() == msgs@);
            assert(before.last() == msg);
            let mut more = match msg {
                BrokerMsg::Web(m) => self.web.action(m, &mut self.trusted),
                BrokerMsg::Network(m) => self.network.action(m),
                BrokerMsg::Simulator(m) => self.simulator.action(m),
                BrokerMsg::Node(_) => Vec::new(),
            };
            proof {
                lemma_msgs_weight_append(msgs@, more@);
                reveal_with_fuel(msgs_weight, 2);
                if all_network(orig) {
                    assert(before[before.len() - 1] is Network);
                    assert(more@ =~= Seq::<BrokerMsg>::empty());
                    assert(msgs@ + more@ =~= msgs@);
                    assert forall|k: int| 0 <= k < msgs@.len() implies #[trigger] msgs@[k] is Network by {
                        assert(msgs@[k] == before[k]);
                    }
                }
            }
            let ghost more_msgs = more@;
            msgs.append(&mut more);
            proof {
                let rest = before.drop_last();
                assert forall|l: LedgerModel, net: Map<NodeID, NodeRecord>|
                    #[trigger] dispatched(self.ledger(), self.reachable(), msgs@, l, net)
                        implies dispatched(l_before, net_before, before, l, net) by {
                    match msg {
                        BrokerMsg::Web(BMWeb::WebRegister(secret)) => {
                            let n = match more_msgs[0] {
                                BrokerMsg::Network(BMNet::NodeAdd(n)) => n,
                                _ => arbitrary(),
                            };
                            assert(msgs@.drop_last() =~= rest);
                            assert(msgs@.last() == more_msgs[0]);
                            assert(registered(l_before, self.ledger(), n.spec_info().id, n.spec_info()));
                        },
                        _ => {
                            assert(msgs@ =~= rest);
                        },
                    }
                }
            }
        }
        proof {
            assert(dispatched(self.ledger(), self.reachable(), msgs@, self.ledger(), self.reachable()));
        }
    }

    /// One step of simulated time: the simulator's transitions, the actions
    /// they cause, then the ledger's tick. See `ticked`.
    pub fn tick(&mut self, time: u128)
        requires
            old(self).wf(),
        ensures
            final(self).wf(),
            exists|draws: Seq<u16>, msgs: Seq<BrokerMsg>, mid: LedgerModel|
                #[trigger] ticked(
                    old(self).ledger(),
                    old(self).reachable(),
                    old(self).sim_nodes(),
                    final(self).ledger(),
                    final(self).reachable(),
                    final(self).sim_nodes(),
                    time,
                    draws,
                    msgs,
                    mid,
                ),
    {
        let mut actions = self.simulator.tick(time, &mut self.trusted);
        let ghost sim_actions = actions@;
        let ghost mid = self.trusted@;
        let ghost draws = choose|draws: Seq<u16>|
            {
                &&& draws.len() == old(self).sim_nodes().len()
                &&& #[trigger] self.sim_nodes() == old(self).sim_nodes().zip_with(
                    draws,
                ).map_values(|p: (NodeFlex, u16)| after_draw(p.0, p.1))
                &&& ledger_after(
                    old(self).ledger(),
                    mid,
                    old(self).sim_nodes(),
                    draws,
                    draws.len() as int,
                )
                &&& announces(sim_actions, changes(old(self).sim_nodes(), draws), mid)
            };
        let mut from_web = self.web.tick(time);
        actions.append(&mut from_web);
        let mut from_network = self.network.tick(time);
        actions.append(&mut from_network);
        proof {
            assert(actions@ =~= sim_actions);
            let ch = changes(old(self).sim_nodes(), draws);
            assert forall|k: int| 0 <= k < actions@.len() implies #[trigger] actions@[k] is Network by {
                assert(ch[k] == ch[k]);
            }
        }
        let ghost net_mid = self.reachable();
        self.handle_msgs(actions);
        let _ = self.trusted.tick(time);
        proof {
            assert(ticked(
                old(self).ledger(),
                old(self).reachable(),
                old(self).sim_nodes(),
                self.ledger(),
                self.reachable(),
                self.sim_nodes(),
                time,
                draws,
                sim_actions,
                mid,
            ));
        }
    }

    /// Registers the node that belongs to `secret` and returns its identity.
    /// The ledger keeps the record it already holds for the node, or files a
    /// new one with no mana, and the node becomes reachable.
    pub fn register(&mut self, secret: NodeSecret) -> (r: NodeID)
        requires
            old(self).wf(),
        ensures
            final(self).wf(),
            r@ == node_id_of(secret@),
            final(self).sim_nodes() == old(self).sim_nodes(),
            exists|rec: NodeRecord|
                {
                    &&& #[trigger] registered(old(self).ledger(), final(self).ledger(), r, rec)
                    &&& final(self).reachable() == if old(self).reachable().contains_key(r) {
                        old(self).reachable()
                    } else {
                        old(self).reachable().insert(r, rec)
                    }
                },
    {
        let msgs = self.web.action(BMWeb::WebRegister(secret), &mut self.trusted);
        let ghost m = msgs@;
        let ghost rec = match m[0] {
            BrokerMsg::Network(BMNet::NodeAdd(n)) => n.spec_info(),
            _ => arbitrary(),
        };
        proof {
            assert(all_network(m));
            reveal_with_fuel(net_after_all, 2);
            assert(m.drop_last() =~= Seq::<BrokerMsg>::empty());
        }
        self.handle_msgs(msgs);
        let id = NodeID::from_secret(&secret);
        proof {
            lemma_id_view_injective(id, rec.id);
            assert(registered(old(self).ledger(), self.ledger(), id, rec));
        }
        id
    }

    /// Keeps the node `id` active for another while and returns its mana; a
    /// node the ledger does not hold is reported.
    pub fn alive(&mut self, id: NodeID) -> (r: Result<Mana, SimError>)
        requires
            old(self).wf(),
        ensures
            final(self).wf(),
            final(self).ledger() == old(self).ledger().alive(id),
            final(self).reachable() == old(self).reachable(),
            final(self).sim_nodes() == old(self).sim_nodes(),
            r is Ok <==> old(self).ledger().nodes.contains_key(id),
            r matches Ok(m) ==> m.0 == old(self).ledger().nodes[id].record.mana,
            r is Err ==> r == Err::<Mana, SimError>(SimError::NotRegistered),
    {
        self.trusted.alive(&id)
    }

    /// The record of the node `id`; a node the ledger does not hold is
    /// reported.
    pub fn get_node_info(&mut self, id: NodeID) -> (r: Result<NodeInfo, SimError>)
        requires
            old(self).wf(),
        ensures
            final(self).wf(),
            final(self).ledger() == old(self).ledger(),
            final(self).reachable() == old(self).reachable(),
            final(self).sim_nodes() == old(self).sim_nodes(),
            r is Ok <==> old(self).ledger().nodes.contains_key(id),
            r matches Ok(i) ==> i@ == old(self).ledger().nodes[id].record,
            r is Err ==> r == Err::<NodeInfo, SimError>(SimError::NotFound),
    {
        match self.trusted.info(&id) {
            Some(ni) => Ok(ni),
            None => Err(SimError::NotFound),
        }
    }
}

} // verus!
