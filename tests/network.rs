use mana_net::broker::BMNet;
use mana_net::network::Network;
use mana_net::node::{Msg, Node, NodeMsg};
use mana_net::node_types::NodeID;

#[test]
fn message_to_unreachable_node_is_dropped() {
    let mut net = Network::new();
    let a = Node::dummy();
    let a_id = a.id();
    net.action(BMNet::NodeAdd(a));
    let out = net.send_msg(NodeMsg { from: a_id, to: NodeID([9u8; 32]), msg: Msg::Ping });
    assert!(out.is_empty());
}

#[test]
fn ping_to_reachable_node_yields_one_pong() {
    let mut net = Network::new();
    let a = Node::dummy();
    let b = Node::dummy();
    let (a_id, b_id) = (a.id(), b.id());
    net.action(BMNet::NodeAdd(a));
    net.action(BMNet::NodeAdd(b));
    let out = net.send_msg(NodeMsg { from: a_id, to: b_id, msg: Msg::Ping });
    assert_eq!(out.len(), 1);
    assert_eq!(out[0].from, b_id);
    assert_eq!(out[0].to, a_id);
    assert_eq!(out[0].msg, Msg::Pong);
    let out = net.send_msg(out[0]);
    assert!(out.is_empty());
}

#[test]
fn removed_node_no_longer_receives() {
    let mut net = Network::new();
    let a = Node::dummy();
    let b = Node::dummy();
    let (a_id, b_id) = (a.id(), b.id());
    net.action(BMNet::NodeAdd(a));
    net.action(BMNet::NodeAdd(b));
    net.action(BMNet::NodeDel(b_id));
    let out = net.send_msg(NodeMsg { from: a_id, to: b_id, msg: Msg::Ping });
    assert!(out.is_empty());
    let out = net.send_msg(NodeMsg { from: b_id, to: a_id, msg: Msg::Ping });
    assert_eq!(out.len(), 1);
}

#[test]
fn network_tick_and_drain() {
    let mut net = Network::new();
    let a = Node::dummy();
    let b = Node::dummy();
    let (a_id, b_id) = (a.id(), b.id());
    net.action(BMNet::NodeAdd(a));
    net.action(BMNet::NodeAdd(b));
    assert!(net.tick(5).is_empty());
    net.process_msgs(vec![
        NodeMsg { from: a_id, to: b_id, msg: Msg::Ping },
        NodeMsg { from: b_id, to: a_id, msg: Msg::Ping },
        NodeMsg { from: b_id, to: NodeID::zero(), msg: Msg::Ping },
    ]);
    let out = net.send_msg(NodeMsg { from: a_id, to: b_id, msg: Msg::Ping });
    assert_eq!(out.len(), 1);
}
