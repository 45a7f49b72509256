//! Identities, secrets and the mana counter.

use vstd::prelude::*;

verus! {

/// The SHA-256 digest of a byte string.
pub uninterp spec fn sha256_of(data: Seq<u8>) -> Seq<u8>;

/// Relies on `ring::digest::digest` with `ring::digest::SHA256`: the digest of
/// `data`, which depends on `data` alone and is 32 bytes long.
#[verifier::external_body]
fn sha256(data: &[u8]) -> (r: Vec<u8>)
    ensures
        r@ == sha256_of(data@),
        r@.len() == 32,
{
    ring::digest::digest(&ring::digest::SHA256, data).as_ref().to_vec()
}

/// Relies on `rand::random`: a value drawn from the thread-local generator,
/// of which nothing can be promised.
pub assume_specification<T>[ rand::random::<T> ]() -> (r: T)
    where
        rand::distributions::Standard: rand::distributions::Distribution<T>,
;

/// The identity that belongs to a secret, both given as big-endian bytes of a
/// 256-bit number: the SHA-256 digest of the secret's bytes in little-endian
/// order.
pub open spec fn node_id_of(secret: Seq<u8>) -> Seq<u8> {
    sha256_of(secret.reverse())
}

/// The public identity of a node: a 256-bit number, as 32 big-endian bytes.
#[derive(Clone, Copy, Debug, Eq, Hash)]
pub struct NodeID(pub [u8; 32]);

impl View for NodeID {
    type V = Seq<u8>;

    open spec fn view(&self) -> Seq<u8> {
        self.0@
    }
}

/// The private credential of a node: a 256-bit number, as 32 big-endian bytes.
#[derive(Clone, Copy, Debug)]
pub struct NodeSecret(pub [u8; 32]);

impl View for NodeSecret {
    type V = Seq<u8>;

    open spec fn view(&self) -> Seq<u8> {
        self.0@
    }
}

impl PartialEq for NodeID {
    fn eq(&self, other: &NodeID) -> (r: bool)
        ensures
            r == (self@ == other@),
    {
        let mut i: usize = 0;
        while i < 32
            invariant
                i <= 32,
                forall|j: int| 0 <= j < i ==> self@[j] == other@[j],
            decreases 32 - i,
        {
            if self.0[i] != other.0[i] {
                return false;
            }
            i = i + 1;
        }
        assert(self@ =~= other@);
        true
    }
}

impl vstd::std_specs::cmp::PartialEqSpecImpl for NodeID {
    open spec fn obeys_eq_spec() -> bool {
        true
    }

    open spec fn eq_spec(&self, other: &NodeID) -> bool {
        self@ == other@
    }
}

/// Two identities are the same value exactly when their bytes are.
pub proof fn lemma_id_view_injective(a: NodeID, b: NodeID)
    ensures
        a@ == b@ <==> a == b,
{
    if a@ == b@ {
        assert(a.0 =~= b.0);
    }
}

impl NodeID {
    pub fn random() -> (r: NodeID)
        ensures
            r@.len() == 32,
    {
        NodeID(rand::random::<[u8; 32]>())
    }

    pub fn zero() -> (r: NodeID)
        ensures
            r@ == Seq::new(32, |i: int| 0u8),
    {
        NodeID([0u8; 32])
    }

    /// The identity whose bytes are the 32 bytes of `digest`.
    pub fn from_digest(digest: &[u8]) -> (r: NodeID)
        requires
            digest@.len() == 32,
        ensures
            r@ == digest@,
    {
        let mut bytes = [0u8; 32];
        let mut i: usize = 0;
        while i < 32
            invariant
                i <= 32,
                digest@.len() == 32,
                forall|j: int| 0 <= j < i ==> bytes@[j] == digest@[j],
            decreases 32 - i,
        {
            bytes[i] = digest[i];
            i = i + 1;
        }
        assert(bytes@ =~= digest@);
        NodeID(bytes)
    }

    /// The identity that belongs to `secret`.
    pub fn from_secret(secret: &NodeSecret) -> (r: NodeID)
        ensures
            r@ == node_id_of(secret@),
    {
        let mut little_endian: Vec<u8> = Vec::new();
        let mut i: usize = 32;
        while i > 0
            invariant
                i <= 32,
                little_endian@.len() == 32 - i,
                forall|j: int| 0 <= j < 32 - i ==> little_endian@[j] == secret@[31 - j],
            decreases i,
        {
            i = i - 1;
            little_endian.push(secret.0[i]);
        }
        assert(little_endian@ =~= secret@.reverse());
        let digest = sha256(little_endian.as_slice());
        NodeID::from_digest(digest.as_slice())
    }
}

impl NodeSecret {
    pub fn random() -> (r: NodeSecret)
        ensures
            r@.len() == 32,
    {
        NodeSecret(rand::random::<[u8; 32]>())
    }

    pub fn zero() -> (r: NodeSecret)
        ensures
            r@ == Seq::new(32, |i: int| 0u8),
    {
        NodeSecret([0u8; 32])
    }
}

impl From<NodeSecret> for NodeID {
    fn from(secret: NodeSecret) -> (r: NodeID) {
        let r = NodeID::from_secret(&secret);
        proof {
            let chosen = choose|id: NodeID| id@ == node_id_of(secret@);
            lemma_id_view_injective(chosen, r);
        }
        r
    }
}

impl vstd::std_specs::convert::FromSpecImpl<NodeSecret> for NodeID {
    open spec fn obeys_from_spec() -> bool {
        true
    }

    /// The identity whose bytes are `node_id_of` the secret's bytes.
    open spec fn from_spec(secret: NodeSecret) -> NodeID {
        choose|id: NodeID| id@ == node_id_of(secret@)
    }
}

/// The reputation counter of a node.
#[derive(Clone, Copy, Debug, PartialEq, Eq, Structural, PartialOrd, Ord, Hash)]
pub struct Mana(pub u128);

impl Mana {
    pub fn zero() -> (r: Mana)
        ensures
            r.0 == 0,
    {
        Mana(0)
    }
}

impl From<u128> for Mana {
    fn from(value: u128) -> (r: Mana) {
        Mana(value)
    }
}

impl vstd::std_specs::convert::FromSpecImpl<u128> for Mana {
    open spec fn obeys_from_spec() -> bool {
        true
    }

    open spec fn from_spec(value: u128) -> Mana {
        Mana(value)
    }
}

} // verus!
