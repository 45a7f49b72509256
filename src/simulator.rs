//! The connectivity simulator: every simulated node goes online and offline
//! by chance, one draw per tick. Nodes that come online are made reachable
//! with their ledger record; nodes that stay online are kept alive in the
//! ledger.

use vstd::prelude::*;

use crate::broker::{BMNet, BMSimul, BrokerMsg};
use crate::error::SimError;
use crate::node::{Node, NodeInfo, NodeRecord};
use crate::node_types::NodeID;
use crate::trusted::{LedgerModel, Trusted};

verus! {

/// The number and the chances of the simulated nodes.
#[derive(Debug, Clone, Copy)]
pub struct Config {
    /// Number of nodes that are always online.
    pub nodes_root: usize,
    /// Number of nodes that come and go.
    pub nodes_flex: usize,
    /// The chance, out of 65536, that an offline node comes online in a tick.
    pub p_sign_in: u16,
    /// The chance, out of 65536, that an online node goes offline in a tick.
    pub p_sign_out: u16,
}

impl Config {
    /// The default numbers and chances: see `default`.
    pub open spec fn default_values() -> Config {
        Config { nodes_root: 5, nodes_flex: 10, p_sign_in: 0x1000, p_sign_out: 0xa00 }
    }

    /// Five nodes always online and ten that come online with a chance of
    /// 1/16 and go offline with a chance of 5/128 per tick.
    pub fn default() -> (r: Config)
        ensures
            r == Config::default_values(),
    {
        Config { nodes_root: 5, nodes_flex: 10, p_sign_in: 0x1000, p_sign_out: 0xa00 }
    }
}

/// A simulated node: its identity, whether it is online and its chances.
#[derive(Debug, Clone, Copy)]
pub struct NodeFlex {
    pub id: NodeID,
    pub online: bool,
    pub p_sign_in: u16,
    pub p_sign_out: u16,
}

impl NodeFlex {
    pub fn is_online(&self) -> (r: bool)
        ensures
            r == self.online,
    {
        self.online
    }
}

/// A trial with chance `p` out of 65536 succeeds on `draw`; the greatest
/// chance is certainty.
pub open spec fn trial(p: u16, draw: u16) -> bool {
    p == u16::MAX || draw < p
}

/// Whether `n` is online after a tick with `draw`.
pub open spec fn next_online(n: NodeFlex, draw: u16) -> bool {
    if n.online {
        !trial(n.p_sign_out, draw)
    } else {
        trial(n.p_sign_in, draw)
    }
}

/// A root node (certain to come online, never going offline) is online
/// after every tick, whatever it draws.
pub proof fn lemma_root_stays_online(n: NodeFlex, draw: u16)
    requires
        n.p_sign_in == u16::MAX,
        n.p_sign_out == 0,
    ensures
        next_online(n, draw),
{
}

/// `n` after a tick with `draw`.
pub open spec fn after_draw(n: NodeFlex, draw: u16) -> NodeFlex {
    NodeFlex { online: next_online(n, draw), ..n }
}

/// The nodes of `s` that change state in a tick with `draws`, in order, each
/// with whether it came online.
pub open spec fn changes(s: Seq<NodeFlex>, draws: Seq<u16>) -> Seq<(NodeID, bool)>
    decreases s.len(),
{
    if s.len() == 0 || draws.len() == 0 {
        Seq::empty()
    } else {
        let rest = changes(s.drop_last(), draws.drop_last());
        let n = s.last();
        if next_online(n, draws.last()) != n.online {
            rest.push((n.id, !n.online))
        } else {
            rest
        }
    }
}

/// One of the first `i` nodes of `s`, with identity `id`, comes online in a
/// tick with `draws`.
pub open spec fn signs_in_before(s: Seq<NodeFlex>, draws: Seq<u16>, i: int, id: NodeID) -> bool {
    exists|j: int|
        0 <= j < i && #[trigger] s[j].id == id && !s[j].online && next_online(s[j], draws[j])
}

/// One of the first `i` nodes of `s`, with identity `id`, is online after a
/// tick with `draws`.
pub open spec fn online_before(s: Seq<NodeFlex>, draws: Seq<u16>, i: int, id: NodeID) -> bool {
    exists|j: int| 0 <= j < i && #[trigger] s[j].id == id && next_online(s[j], draws[j])
}

/// The ledger `l` after the first `i` nodes of `s` took their tick with
/// `draws`, starting from `l0`: the nodes that came online are known to it
/// (those it did not know, with no mana), records it knew are kept, and the
/// nodes that are online are kept active.
pub open spec fn ledger_after(
    l0: LedgerModel,
    l: LedgerModel,
    s: Seq<NodeFlex>,
    draws: Seq<u16>,
    i: int,
) -> bool {
    &&& l.wf()
    &&& l.config == l0.config
    &&& l.last_mana_inc == l0.last_mana_inc
    &&& l.last_mana_dec == l0.last_mana_dec
    &&& l.last_tick_time == l0.last_tick_time
    &&& forall|id: NodeID| #[trigger]
        l.nodes.contains_key(id) <==> (l0.nodes.contains_key(id) || signs_in_before(s, draws, i, id))
    &&& forall|id: NodeID| #[trigger]
        l.nodes.contains_key(id) ==> if l0.nodes.contains_key(id) {
            l.nodes[id].record == l0.nodes[id].record
        } else {
            l.nodes[id].record.mana == 0
        }
    &&& forall|id: NodeID| #[trigger]
        l.nodes.contains_key(id) ==> if online_before(s, draws, i, id) {
            l.nodes[id].active_until == l0.deadline()
        } else {
            l.nodes[id] == l0.nodes[id]
        }
}

/// The actions `msgs` announce the changes `ch`: an unreachable node for
/// each that went offline, and a reachable node for each that came online,
/// carrying the record that the ledger `l` holds for it.
pub open spec fn announces(msgs: Seq<BrokerMsg>, ch: Seq<(NodeID, bool)>, l: LedgerModel) -> bool {
    &&& msgs.len() == ch.len()
    &&& forall|k: int|
        0 <= k < ch.len() ==> if (#[trigger] ch[k]).1 {
            msgs[k] matches BrokerMsg::Network(BMNet::NodeAdd(n)) && n.spec_info().id == ch[k].0
                && l.nodes.contains_key(ch[k].0) && l.nodes[ch[k].0].record == n.spec_info()
        } else {
            msgs[k] == BrokerMsg::Network(BMNet::NodeDel(ch[k].0))
        }
}

/// The ledger after node `n` took its tick with `draw`: where it comes online
/// it is registered with the record the ledger holds for it, or with `fresh`
/// where there is none; where it is online afterwards it is kept alive.
pub open spec fn ledger_step(l: LedgerModel, n: NodeFlex, draw: u16, fresh: NodeRecord) -> LedgerModel {
    let registered = if !n.online && next_online(n, draw) {
        l.register(
            if l.nodes.contains_key(n.id) {
                l.nodes[n.id].record
            } else {
                fresh
            },
        )
    } else {
        l
    };
    if next_online(n, draw) {
        registered.alive(n.id)
    } else {
        registered
    }
}

proof fn lemma_step(
    l0: LedgerModel,
    lb: LedgerModel,
    s: Seq<NodeFlex>,
    draws: Seq<u16>,
    i: int,
    fresh: NodeRecord,
)
    requires
        0 <= i < s.len(),
        draws.len() == s.len(),
        ledger_after(l0, lb, s, draws, i),
        !lb.nodes.contains_key(s[i].id) ==> fresh.id == s[i].id && fresh.mana == 0,
    ensures
        ledger_after(l0, ledger_step(lb, s[i], draws[i], fresh), s, draws, i + 1),
        forall|id: NodeID| #[trigger]
            lb.nodes.contains_key(id) ==> ledger_step(lb, s[i], draws[i], fresh).nodes.contains_key(id)
                && ledger_step(lb, s[i], draws[i], fresh).nodes[id].record == lb.nodes[id].record,
        !s[i].online && next_online(s[i], draws[i]) ==> {
            let la = ledger_step(lb, s[i], draws[i], fresh);
            &&& la.nodes.contains_key(s[i].id)
            &&& la.nodes[s[i].id].record == if lb.nodes.contains_key(s[i].id) {
                lb.nodes[s[i].id].record
            } else {
                fresh
            }
        },
{
    let n = s[i];
    let draw = draws[i];
    let la = ledger_step(lb, n, draw, fresh);
    assert forall|id: NodeID| #[trigger]
        signs_in_before(s, draws, i + 1, id) <==> (signs_in_before(s, draws, i, id) || (id == n.id
            && !n.online && next_online(n, draw))) by {
        if signs_in_before(s, draws, i + 1, id) {
            let j = choose|j: int|
                0 <= j < i + 1 && #[trigger] s[j].id == id && !s[j].online && next_online(
                    s[j],
                    draws[j],
                );
            if j < i {
                assert(signs_in_before(s, draws, i, id));
            }
        }
        if signs_in_before(s, draws, i, id) {
            let j = choose|j: int|
                0 <= j < i && #[trigger] s[j].id == id && !s[j].online && next_online(s[j], draws[j]);
            assert(0 <= j < i + 1 && s[j].id == id);
        }
        if id == n.id && !n.online && next_online(n, draw) {
            assert(s[i].id == id);
        }
    }
    assert forall|id: NodeID| #[trigger]
        online_before(s, draws, i + 1, id) <==> (online_before(s, draws, i, id) || (id == n.id
            && next_online(n, draw))) by {
        if online_before(s, draws, i + 1, id) {
            let j = choose|j: int| 0 <= j < i + 1 && #[trigger] s[j].id == id && next_online(s[j], draws[j]);
            if j < i {
                assert(online_before(s, draws, i, id));
            }
        }
        if online_before(s, draws, i, id) {
            let j = choose|j: int| 0 <= j < i && #[trigger] s[j].id == id && next_online(s[j], draws[j]);
            assert(0 <= j < i + 1 && s[j].id == id);
        }
        if id == n.id && next_online(n, draw) {
            assert(s[i].id == id);
        }
    }
    assert(la.nodes.dom().finite());
}

/// The connectivity simulator.
pub struct Simulator {
    nodes: Vec<NodeFlex>,
}

impl Simulator {
    /// The simulated nodes.
    pub closed spec fn spec_nodes(&self) -> Seq<NodeFlex> {
        self.nodes@
    }

    /// The simulated nodes for `nodes`: the first `nodes_root` always
    /// online, the others with the configured chances, all offline for now.
    /// Refused where the number of identities is not the configured one.
    pub fn new(config: Config, nodes: Vec<NodeID>) -> (r: Result<Simulator, SimError>)
        ensures
            r is Ok <==> nodes@.len() == config.nodes_root + config.nodes_flex,
            r is Err ==> r == Err::<Simulator, SimError>(SimError::WrongNodeCount),
            r matches Ok(sim) ==> {
                &&& sim.spec_nodes().len() == nodes@.len()
                &&& forall|i: int|
                    0 <= i < nodes@.len() ==> #[trigger] sim.spec_nodes()[i] == if i
                        < config.nodes_root {
                        NodeFlex { id: nodes@[i], online: false, p_sign_in: u16::MAX, p_sign_out: 0 }
                    } else {
                        NodeFlex {
                            id: nodes@[i],
                            online: false,
                            p_sign_in: config.p_sign_in,
                            p_sign_out: config.p_sign_out,
                        }
                    }
            },
    {
        if nodes.len() < config.nodes_root || nodes.len() - config.nodes_root != config.nodes_flex {
            return Err(SimError::WrongNodeCount);
        }
        Ok(Simulator { nodes: Simulator::node_flex(config, nodes) })
    }

    fn node_flex(config: Config, ids: Vec<NodeID>) -> (r: Vec<NodeFlex>)
        requires
            config.nodes_root <= ids@.len(),
        ensures
            r@.len() == ids@.len(),
            forall|i: int|
                0 <= i < ids@.len() ==> #[trigger] r@[i] == if i < config.nodes_root {
                    NodeFlex { id: ids@[i], online: false, p_sign_in: u16::MAX, p_sign_out: 0 }
                } else {
                    NodeFlex {
                        id: ids@[i],
                        online: false,
                        p_sign_in: config.p_sign_in,
                        p_sign_out: config.p_sign_out,
                    }
                },
    {
        let root = Simulator::node_flex_part(&ids, 0, config.nodes_root, u16::MAX, 0);
        let mut nf = root;
        let mut flex = Simulator::node_flex_part(
            &ids,
            config.nodes_root,
            ids.len(),
            config.p_sign_in,
            config.p_sign_out,
        );
        nf.append(&mut flex);
        nf
    }

    /// Offline nodes with the given chances for `ids[start..end]`.
    fn node_flex_part(ids: &Vec<NodeID>, start: usize, end: usize, p_sign_in: u16, p_sign_out: u16) -> (r:
        Vec<NodeFlex>)
        requires
            start <= end <= ids@.len(),
        ensures
            r@.len() == end - start,
            forall|i: int|
                0 <= i < end - start ==> #[trigger] r@[i] == (NodeFlex {
                    id: ids@[start + i],
                    online: false,
                    p_sign_in,
                    p_sign_out,
                }),
    {
        let mut out: Vec<NodeFlex> = Vec::new();
        let mut i: usize = start;
        while i < end
            invariant
                start <= i <= end,
                end <= ids@.len(),
                out@.len() == i - start,
                forall|k: int|
                    0 <= k < i - start ==> #[trigger] out@[k] == (NodeFlex {
                        id: ids@[start + k],
                        online: false,
                        p_sign_in,
                        p_sign_out,
                    }),
            decreases end - i,
        {
            out.push(NodeFlex { id: ids[i], online: false, p_sign_in, p_sign_out });
            i = i + 1;
        }
        out
    }

    /// The simulator takes no action of its own.
    pub fn action(&mut self, action: BMSimul) -> (r: Vec<BrokerMsg>)
        ensures
            final(self).spec_nodes() == old(self).spec_nodes(),
            r@.len() == 0,
    {
        match action {
            BMSimul::Idle => Vec::new(),
        }
    }

    /// The number of nodes that are online.
    pub fn nodes_online(&self) -> (r: usize)
        ensures
            r == self.spec_nodes().filter(|n: NodeFlex| n.online).len(),
    {
        let mut count: usize = 0;
        let mut i: usize = 0;
        while i < self.nodes.len()
            invariant
                i <= self.nodes@.len(),
                count == self.nodes@.take(i as int).filter(|n: NodeFlex| n.online).len(),
                count <= i,
            decreases self.nodes@.len() - i,
        {
            proof {
                assert(self.nodes@.take(i + 1).drop_last() =~= self.nodes@.take(i as int));
                reveal(Seq::filter);
            }
            if self.nodes[i].online {
                count = count + 1;
            }
            i = i + 1;
        }
        assert(self.nodes@.take(i as int) =~= self.nodes@);
        count
    }

    /// One tick with a fresh random draw for each node: see `tick_with`.
    pub fn tick(&mut self, _time: u128, trusted: &mut Trusted) -> (r: Vec<BrokerMsg>)
        requires
            old(trusted).wf(),
        ensures
            final(trusted).wf(),
            exists|draws: Seq<u16>|
                {
                    &&& draws.len() == old(self).spec_nodes().len()
                    &&& #[trigger] final(self).spec_nodes() == old(self).spec_nodes().zip_with(
                        draws,
                    ).map_values(|p: (NodeFlex, u16)| after_draw(p.0, p.1))
                    &&& ledger_after(
                        old(trusted)@,
                        final(trusted)@,
                        old(self).spec_nodes(),
                        draws,
                        draws.len() as int,
                    )
                    &&& announces(r@, changes(old(self).spec_nodes(), draws), final(trusted)@)
                },
    {
        let mut draws: Vec<u16> = Vec::new();
        let mut i: usize = 0;
        while i < self.nodes.len()
            invariant
                i <= self.nodes@.len(),
                draws@.len() == i,
            decreases self.nodes@.len() - i,
        {
            draws.push(rand::random::<u16>());
            i = i + 1;
        }
        self.tick_with(&draws, trusted)
    }

    /// One tick in which node `i` draws `draws[i]`. An online node goes
    /// offline where its sign-out trial succeeds and is announced unreachable;
    /// an offline node comes online where its sign-in trial succeeds, is
    /// fetched from the ledger (or registered with no mana, where the ledger
    /// does not know it) and is announced reachable. Every node that is
    /// online afterwards is kept alive in the ledger.
    pub fn tick_with(&mut self, draws: &Vec<u16>, trusted: &mut Trusted) -> (r: Vec<BrokerMsg>)
        requires
            old(trusted).wf(),
            draws@.len() == old(self).spec_nodes().len(),
        ensures
            final(trusted).wf(),
            final(self).spec_nodes() == old(self).spec_nodes().zip_with(draws@).map_values(
                |p: (NodeFlex, u16)| after_draw(p.0, p.1),
            ),
            ledger_after(
                old(trusted)@,
                final(trusted)@,
                old(self).spec_nodes(),
                draws@,
                draws@.len() as int,
            ),
            announces(r@, changes(old(self).spec_nodes(), draws@), final(trusted)@),
    {
        let ghost s = self.nodes@;
        let ghost l0 = trusted@;
        proof {
            trusted.lemma_view_wf();
        }
        let mut out: Vec<BrokerMsg> = Vec::new();
        let mut i: usize = 0;
        while i < self.nodes.len()
            invariant
                trusted.wf(),
                draws@.len() == s.len(),
                self.nodes@.len() == s.len(),
                i <= s.len(),
                forall|k: int| 0 <= k < i ==> #[trigger] self.nodes@[k] == after_draw(s[k], draws@[k]),
                forall|k: int| i <= k < s.len() ==> #[trigger] self.nodes@[k] == s[k],
                ledger_after(l0, trusted@, s, draws@, i as int),
                announces(
                    out@,
                    changes(s.take(i as int), draws@.take(i as int)),
                    trusted@,
                ),
            decreases s.len() - i,
        {
            let n = self.nodes[i];
            let draw = draws[i];
            let ghost l_before = trusted@;
            let ghost out_before = out@;
            let ghost mut fresh = NodeRecord { id: n.id, name: Seq::empty(), mana: 0 };
            let online = if n.online {
                !(n.p_sign_out == u16::MAX || draw < n.p_sign_out)
            } else {
                n.p_sign_in == u16::MAX || draw < n.p_sign_in
            };
            proof {
                assert(s.take(i + 1).drop_last() =~= s.take(i as int));
                assert(draws@.take(i + 1).drop_last() =~= draws@.take(i as int));
                assert(s.take(i + 1).last() == s[i as int]);
                assert(draws@.take(i + 1).last() == draws@[i as int]);
            }
            if n.online && !online {
                out.push(BrokerMsg::Network(BMNet::NodeDel(n.id)));
            } else if !n.online && online {
                let info = match trusted.info(&n.id) {
                    Some(ni) => ni,
                    None => NodeInfo::with_id(n.id),
                };
                proof {
                    fresh = info@;
                }
                let node = Node::from_info(info, trusted);
                out.push(BrokerMsg::Network(BMNet::NodeAdd(node)));
            }
            let ghost l_mid = trusted@;
            if online {
                let _ = trusted.alive(&n.id);
            }
            self.nodes.set(i, NodeFlex { online, ..n });
            proof {
                lemma_step(l0, l_before, s, draws@, i as int, fresh);
                assert(trusted@ == ledger_step(l_before, s[i as int], draws@[i as int], fresh));
                assert forall|k: int| 0 <= k < out_before.len() implies #[trigger] out@[k]
                    == out_before[k] by {}
                assert(announces(
                    out@,
                    changes(s.take(i + 1), draws@.take(i + 1)),
                    trusted@,
                ));
            }
            i = i + 1;
        }
        proof {
            assert(s.take(s.len() as int) =~= s);
            assert(draws@.take(s.len() as int) =~= draws@);
            assert(self.nodes@ =~= s.zip_with(draws@).map_values(
                |p: (NodeFlex, u16)| after_draw(p.0, p.1),
            ));
        }
        out
    }
}

} // verus!
