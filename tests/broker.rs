use mana_net::broker::Broker;
use mana_net::error::SimError;
use mana_net::node_types::{Mana, NodeID, NodeSecret};
use mana_net::simulator;
use mana_net::trusted;

#[test]
fn register_web_test_register() {
    let mut broker = Broker::default(0).expect("Couldn't start broker");
    let secret = NodeSecret::random();
    let id = broker.register(secret);
    println!("Registered and got id: {id:?}");
    let info = broker.get_node_info(id).expect("registered node");
    println!("Node info is: {info:?}");
    let id2 = broker.register(secret);
    assert_eq!(id, id2);
}

#[test]
fn registration_starts_with_no_mana() {
    let mut broker = Broker::default(0).unwrap();
    let id = broker.register(NodeSecret::random());
    assert_eq!(broker.alive(id), Ok(Mana(0)));
    assert_eq!(broker.get_node_info(id).unwrap().mana, Mana(0));
}

#[test]
fn unknown_node_is_reported() {
    let mut broker = Broker::default(0).unwrap();
    assert_eq!(broker.alive(NodeID([5u8; 32])).unwrap_err(), SimError::NotRegistered);
    assert_eq!(broker.get_node_info(NodeID([5u8; 32])).unwrap_err(), SimError::NotFound);
}

#[test]
fn registered_node_gains_mana_over_ticks() {
    let mut broker = Broker::default(0).unwrap();
    let secret = NodeSecret::random();
    let id = broker.register(secret);
    for t in 1..=5u128 {
        broker.tick(t * 1000);
        broker.alive(id).unwrap();
    }
    assert_eq!(broker.get_node_info(id).unwrap().mana, Mana(5));
    // Registering again keeps the record.
    assert_eq!(broker.register(secret), id);
    assert_eq!(broker.get_node_info(id).unwrap().mana, Mana(5));
}

#[test]
fn broker_refuses_zero_period() {
    let trust = trusted::Config { time_mana_increase: 0, time_mana_decrease: 1, time_node_active: 1 };
    assert!(matches!(
        Broker::new(trust, simulator::Config::default(), 0),
        Err(SimError::InvalidPeriod)
    ));
}

#[test]
fn broker_with_no_simulated_nodes() {
    let sim = simulator::Config { nodes_root: 0, nodes_flex: 0, p_sign_in: 0, p_sign_out: 0 };
    let mut broker = Broker::new(trusted::Config::default(), sim, 10).unwrap();
    broker.tick(20);
    let id = broker.register(NodeSecret::zero());
    assert_eq!(id, NodeID::from(NodeSecret::zero()));
    assert_eq!(broker.alive(id), Ok(Mana(0)));
}
