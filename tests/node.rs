use mana_net::node::{Msg, Node, NodeInfo, NodeMsg};
use mana_net::node_types::{Mana, NodeID, NodeSecret};

#[test]
fn node_test_receive() {
    let mut node1 = Node::dummy();
    let mut node2 = Node::dummy();
    node1.tick(100);
    let mut msgs = node1.receive(NodeMsg { from: node2.id(), to: node1.id(), msg: Msg::Ping });
    assert_eq!(1, msgs.len());
    msgs = node2.receive(msgs.remove(0));
    assert_eq!(0, msgs.len());
}

#[test]
fn node_basic_test_receive() {
    let mut node1 = Node::dummy();
    let mut node2 = Node::dummy();
    assert!(node1.tick(100).is_empty());
    let mut msgs = node1.receive(NodeMsg { from: node2.id(), to: node1.id(), msg: Msg::Ping });
    assert_eq!(1, msgs.len());
    assert_eq!(msgs[0].from, node1.id());
    assert_eq!(msgs[0].to, node2.id());
    assert_eq!(msgs[0].msg, Msg::Pong);
    msgs = node2.receive(msgs.remove(0));
    assert_eq!(0, msgs.len());
}

#[test]
fn random_records_have_a_name_and_no_mana() {
    let info = NodeInfo::random();
    assert_eq!(info.mana, Mana(0));
    assert!(info.name.contains('-'));
    let id = NodeID([3u8; 32]);
    let info = NodeInfo::with_id(id);
    assert_eq!(info.id, id);
    assert_eq!(info.mana, Mana::zero());
}

#[test]
fn identity_is_the_digest_of_the_secret() {
    // SHA-256 of 32 zero bytes.
    let expected: [u8; 32] = [
        0x66, 0x68, 0x7a, 0xad, 0xf8, 0x62, 0xbd, 0x77, 0x6c, 0x8f, 0xc1, 0x8b, 0x8e, 0x9f, 0x8e,
        0x20, 0x08, 0x97, 0x14, 0x85, 0x6e, 0xe2, 0x33, 0xb3, 0x90, 0x2a, 0x59, 0x1d, 0x0d, 0x5f,
        0x29, 0x25,
    ];
    assert_eq!(NodeID::from(NodeSecret::zero()), NodeID(expected));
    assert_eq!(NodeID::from_secret(&NodeSecret::zero()), NodeID(expected));
}

#[test]
fn identity_hashes_little_endian_bytes() {
    // The secret 1 is hashed as the bytes 01 00 .. 00.
    let mut secret = [0u8; 32];
    secret[31] = 1;
    let mut little_endian = [0u8; 32];
    little_endian[0] = 1;
    let digest = ring::digest::digest(&ring::digest::SHA256, &little_endian);
    let id = NodeID::from(NodeSecret(secret));
    assert_eq!(id, NodeID::from_digest(digest.as_ref()));
    assert_ne!(id, NodeID::from(NodeSecret::zero()));
}

#[test]
fn same_secret_same_identity() {
    let secret = NodeSecret::random();
    assert_eq!(NodeID::from(secret), NodeID::from(secret));
    assert_ne!(NodeID::zero(), NodeID::from(secret));
}

#[test]
fn mana_from_integer() {
    assert_eq!(Mana::from(5u128), Mana(5));
    assert_eq!(Mana::zero(), Mana(0));
}
