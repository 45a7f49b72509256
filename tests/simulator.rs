use mana_net::broker::{BMNet, BrokerMsg};
use mana_net::error::SimError;
use mana_net::node_types::NodeID;
use mana_net::simulator::{Config, NodeFlex, Simulator};
use mana_net::trusted::Trusted;

#[test]
fn test_online() {
    let cfg = Config::default();
    let ids: Vec<NodeID> = (0..cfg.nodes_root + cfg.nodes_flex).map(|_| NodeID::random()).collect();
    let mut trusted = Trusted::new_default(0);
    let mut simul = Simulator::new(cfg, ids).expect("right number of nodes");
    assert_eq!(0, simul.nodes_online());

    // Make sure that the number of nodes fluctuates somehow.
    while simul.nodes_online() < 10 {
        simul.tick(0, &mut trusted);
    }
    let (mut min_nodes, mut max_nodes) = (cfg.nodes_root + cfg.nodes_flex, 0);
    for i in 1..100 {
        simul.tick(i, &mut trusted);
        min_nodes = std::cmp::min(min_nodes, simul.nodes_online());
        max_nodes = std::cmp::max(max_nodes, simul.nodes_online());
    }
    assert!(min_nodes < 10);
    assert!(max_nodes > 10);
}

#[test]
fn wrong_number_of_nodes_is_refused() {
    let cfg = Config::default();
    let ids = vec![NodeID::zero(); 3];
    assert!(matches!(Simulator::new(cfg, ids), Err(SimError::WrongNodeCount)));
}

#[test]
fn draws_decide_transitions() {
    let cfg = Config { nodes_root: 1, nodes_flex: 2, p_sign_in: 0x1000, p_sign_out: 0x0a00 };
    let ids = vec![NodeID([1u8; 32]), NodeID([2u8; 32]), NodeID([3u8; 32])];
    let mut trusted = Trusted::new_default(0);
    let mut sim = Simulator::new(cfg, ids.clone()).unwrap();

    // The root node comes online on any draw; the first flex node's draw is
    // below its chance, the second's is not.
    let out = sim.tick_with(&vec![u16::MAX, 0x0fff, 0x1000], &mut trusted);
    assert_eq!(sim.nodes_online(), 2);
    assert_eq!(out.len(), 2);
    for (msg, id) in out.iter().zip([ids[0], ids[1]]) {
        match msg {
            BrokerMsg::Network(BMNet::NodeAdd(n)) => {
                assert_eq!(n.id(), id);
                assert_eq!(n.info().mana.0, 0);
            }
            other => panic!("unexpected action {other:?}"),
        }
    }
    assert!(trusted.info(&ids[0]).is_some());
    assert!(trusted.info(&ids[1]).is_some());
    assert!(trusted.info(&ids[2]).is_none());

    // The root node never leaves; the first flex node leaves on a draw below
    // its chance of leaving.
    let out = sim.tick_with(&vec![0, 0x09ff, u16::MAX], &mut trusted);
    assert_eq!(sim.nodes_online(), 1);
    assert_eq!(out.len(), 1);
    assert!(matches!(&out[0], BrokerMsg::Network(BMNet::NodeDel(id)) if *id == ids[1]));
}

#[test]
fn flex_node_reports_its_state() {
    let n = NodeFlex { id: NodeID::zero(), online: true, p_sign_in: 1, p_sign_out: 2 };
    assert!(n.is_online());
    let n = NodeFlex { online: false, ..n };
    assert!(!n.is_online());
}
