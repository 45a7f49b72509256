use mana_net::error::SimError;
use mana_net::node::NodeInfo;
use mana_net::node_types::{Mana, NodeID};
use mana_net::trusted::{Config, TReqMsg, Trusted, TrustedReply};

fn send(tr: &mut Trusted, req: TReqMsg) -> TrustedReply {
    tr.handle(req).expect("the ledger is open")
}

#[test]
fn trusted_test_register() {
    let mut tr = Trusted::new_default(0);
    let node1 = NodeInfo::random();
    let reply = send(&mut tr, TReqMsg::Register(node1.clone()));
    assert!(matches!(reply, TrustedReply::NodeList(ref l) if l.len() == 1));
    let reply = send(&mut tr, TReqMsg::Register(node1));
    assert!(matches!(reply, TrustedReply::NodeList(ref l) if l.len() == 1));

    let node2 = NodeInfo::random();
    let reply = send(&mut tr, TReqMsg::Register(node2));
    assert!(matches!(reply, TrustedReply::NodeList(ref l) if l.len() == 2));
}

#[test]
fn test_alive() {
    let mut now = 0u128;
    let cfg = Config::default();
    let mut tr = Trusted::new(cfg, now).expect("valid periods");

    // An unknown node is reported on a sign of life
    let node = NodeInfo::random();
    let reply = send(&mut tr, TReqMsg::Alive(node.id));
    assert!(matches!(reply, TrustedReply::ErrorMsg(_)));

    // Registering and asking for the node works
    send(&mut tr, TReqMsg::Register(node.clone()));
    let reply = send(&mut tr, TReqMsg::Alive(node.id));
    assert!(matches!(reply, TrustedReply::Mana(m) if m == 0.into()));

    // Mana grows as time passes
    now += cfg.time_mana_increase;
    send(&mut tr, TReqMsg::Tick(now));
    let reply = send(&mut tr, TReqMsg::Alive(node.id));
    let mut mana: u128 = 1;
    assert!(matches!(reply, TrustedReply::Mana(m) if m == mana.into()));

    // Mana grows as long as the node is active
    now += cfg.time_mana_increase;
    send(&mut tr, TReqMsg::Tick(now));
    let reply = send(&mut tr, TReqMsg::Alive(node.id));
    mana += 1;
    assert!(matches!(reply, TrustedReply::Mana(m) if m == mana.into()));
    now += cfg.time_node_active;
    send(&mut tr, TReqMsg::Tick(now));
    let reply = send(&mut tr, TReqMsg::Info(node.id));
    mana += cfg.time_node_active / cfg.time_mana_increase;
    assert!(matches!(reply, TrustedReply::NodeInfo(Some(ref ni)) if ni.mana == mana.into()));

    // Mana shrinks while the node is inactive
    now += cfg.time_mana_decrease;
    send(&mut tr, TReqMsg::Tick(now));
    let reply = send(&mut tr, TReqMsg::Info(node.id));
    mana -= 1;
    assert!(matches!(reply, TrustedReply::NodeInfo(Some(ref ni)) if ni.mana == mana.into()));

    // The node is removed as its mana runs out
    now += cfg.time_mana_decrease * mana;
    send(&mut tr, TReqMsg::Tick(now));
    let reply = send(&mut tr, TReqMsg::Info(node.id));
    assert!(matches!(reply, TrustedReply::NodeInfo(None)));
    now += cfg.time_mana_decrease;
    send(&mut tr, TReqMsg::Tick(now));
    let reply = send(&mut tr, TReqMsg::Info(node.id));
    assert!(matches!(reply, TrustedReply::NodeInfo(None)));
}

#[test]
fn default_periods() {
    let cfg = Config::default();
    assert_eq!(cfg.time_mana_increase, 1_000);
    assert_eq!(cfg.time_mana_decrease, 168_000);
    assert_eq!(cfg.time_node_active, 60_000);
}

#[test]
fn zero_period_is_refused() {
    let cfg = Config { time_mana_increase: 0, time_mana_decrease: 1, time_node_active: 1 };
    assert!(matches!(Trusted::new(cfg, 0), Err(SimError::InvalidPeriod)));
    let cfg = Config { time_mana_increase: 1, time_mana_decrease: 0, time_node_active: 1 };
    assert!(matches!(Trusted::new(cfg, 0), Err(SimError::InvalidPeriod)));
}

#[test]
fn accrual_is_exact_under_irregular_ticks() {
    let mut tr = Trusted::new_default(0);
    let node = NodeInfo::random();
    tr.register(node.clone());
    for now in [300u128, 999, 1000, 1500, 2600, 3000] {
        tr.tick(now).expect("time moves forward");
        tr.alive(&node.id).expect("registered");
    }
    assert_eq!(tr.alive(&node.id), Ok(Mana(3)));
    tr.tick(3999).expect("time moves forward");
    assert_eq!(tr.alive(&node.id), Ok(Mana(3)));
    tr.tick(4000).expect("time moves forward");
    assert_eq!(tr.alive(&node.id), Ok(Mana(4)));
}

#[test]
fn concrete_scenario() {
    let mut tr = Trusted::new_default(0);
    let node = NodeInfo::random();
    tr.register(node.clone());
    assert_eq!(tr.alive(&node.id), Ok(Mana(0)));
    tr.tick(1000).unwrap();
    assert_eq!(tr.alive(&node.id), Ok(Mana(1)));
    tr.tick(2000).unwrap();
    assert_eq!(tr.alive(&node.id), Ok(Mana(2)));
    tr.tick(62000).unwrap();
    assert_eq!(tr.info(&node.id).unwrap().mana, Mana(62));
    let mut now = 62000 + 168000;
    tr.tick(now).unwrap();
    assert_eq!(tr.info(&node.id).unwrap().mana, Mana(61));
    let mut left: u128 = 61;
    while left > 0 {
        now += 168000;
        tr.tick(now).unwrap();
        left -= 1;
        if left > 0 {
            assert_eq!(tr.info(&node.id).unwrap().mana, Mana(left));
        }
    }
    assert!(tr.info(&node.id).is_none());
}

#[test]
fn decay_clamps_at_zero_and_removes() {
    let mut tr = Trusted::new_default(0);
    let node = NodeInfo { id: NodeID([7u8; 32]), name: "quiet-owl".to_string(), mana: Mana(5) };
    tr.register(node.clone());
    // Far past the deadline: ten decrease periods against five units of mana.
    tr.tick(10 * 168_000).unwrap();
    assert!(tr.info(&node.id).is_none());
    assert_eq!(tr.alive(&node.id), Err(SimError::NotRegistered));
}

#[test]
fn earlier_tick_is_refused() {
    let mut tr = Trusted::new_default(0);
    let node = NodeInfo::random();
    tr.register(node.clone());
    tr.tick(5000).unwrap();
    assert_eq!(tr.tick(4000), Err(SimError::TimeReversed));
    assert_eq!(tr.alive(&node.id), Ok(Mana(5)));
    let reply = send(&mut tr, TReqMsg::Tick(10));
    assert!(matches!(reply, TrustedReply::ErrorMsg(_)));
}

#[test]
fn register_keeps_the_given_record() {
    let mut tr = Trusted::new_default(0);
    let node = NodeInfo { id: NodeID([1u8; 32]), name: "brave-fox".to_string(), mana: Mana(9) };
    let list = tr.register(node.clone());
    assert_eq!(list.len(), 1);
    assert_eq!(list[0].name, "brave-fox");
    let info = tr.info(&node.id).unwrap();
    assert_eq!(info.mana, Mana(9));
    assert_eq!(info.name, "brave-fox");
    assert!(tr.info(&NodeID([2u8; 32])).is_none());
}

#[test]
fn close_is_answered_with_nothing() {
    let mut tr = Trusted::new_default(0);
    assert!(tr.handle(TReqMsg::Close).is_none());
    assert!(matches!(tr.handle(TReqMsg::Tick(1)), Some(TrustedReply::OK)));
}
