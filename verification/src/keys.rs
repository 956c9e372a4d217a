//! Identifier types used throughout the operation log, and the total order
//! that keyed containers require of their keys.

use vstd::prelude::*;

verus! {

/// Result of a three-way comparison.
pub enum Cmp {
    Less,
    Equal,
    Greater,
}

/// A total order over a key type, with an executable comparison that agrees
/// with the specification-level relation.
pub trait TotalOrder: Sized {
    spec fn le(self, other: Self) -> bool;

    proof fn reflexive(x: Self)
        ensures
            Self::le(x, x),
    ;

    proof fn transitive(x: Self, y: Self, z: Self)
        requires
            Self::le(x, y),
            Self::le(y, z),
        ensures
            Self::le(x, z),
    ;

    proof fn antisymmetric(x: Self, y: Self)
        requires
            Self::le(x, y),
            Self::le(y, x),
        ensures
            x == y,
    ;

    proof fn total(x: Self, y: Self)
        ensures
            Self::le(x, y) || Self::le(y, x),
    ;

    fn compare(&self, other: &Self) -> (c: Cmp)
        ensures
            match c {
                Cmp::Less => self.le(*other) && self != other,
                Cmp::Equal => self == other,
                Cmp::Greater => other.le(*self) && self != other,
            },
    ;
}

impl TotalOrder for u64 {
    open spec fn le(self, other: Self) -> bool {
        self <= other
    }

    proof fn reflexive(x: Self) {
    }

    proof fn transitive(x: Self, y: Self, z: Self) {
    }

    proof fn antisymmetric(x: Self, y: Self) {
    }

    proof fn total(x: Self, y: Self) {
    }

    fn compare(&self, other: &Self) -> (c: Cmp) {
        if *self < *other {
            Cmp::Less
        } else if *self == *other {
            Cmp::Equal
        } else {
            Cmp::Greater
        }
    }
}

/// Identifier of a single operation: the author's logical clock value at the
/// time the operation was created, paired with the author. Content-derived,
/// so two replicas always associate the same identifier with the same
/// operation payload.
#[derive(Clone, Copy, Debug, PartialEq, Eq, Hash, Structural)]
pub struct OpId {
    pub clock: u64,
    pub actor: u64,
}

impl OpId {
    pub fn new(clock: u64, actor: u64) -> (r: OpId)
        ensures
            r == (OpId { clock, actor }),
    {
        OpId { clock, actor }
    }
}

impl TotalOrder for OpId {
    open spec fn le(self, other: Self) -> bool {
        self.clock < other.clock || (self.clock == other.clock && self.actor <= other.actor)
    }

    proof fn reflexive(x: Self) {
    }

    proof fn transitive(x: Self, y: Self, z: Self) {
    }

    proof fn antisymmetric(x: Self, y: Self) {
    }

    proof fn total(x: Self, y: Self) {
    }

    fn compare(&self, other: &Self) -> (c: Cmp) {
        if self.clock < other.clock {
            Cmp::Less
        } else if self.clock > other.clock {
            Cmp::Greater
        } else if self.actor < other.actor {
            Cmp::Less
        } else if self.actor == other.actor {
            Cmp::Equal
        } else {
            Cmp::Greater
        }
    }
}

/// Identity of a peer, as handed out by the crypto collaborator. The core
/// never inspects key material; it only compares identities.
#[derive(Clone, Copy, Debug, PartialEq, Eq, Hash, Structural)]
pub struct PublicKey {
    pub key: u64,
}

impl PublicKey {
    pub fn new(key: u64) -> (r: PublicKey)
        ensures
            r == (PublicKey { key }),
    {
        PublicKey { key }
    }
}

impl TotalOrder for PublicKey {
    open spec fn le(self, other: Self) -> bool {
        self.key <= other.key
    }

    proof fn reflexive(x: Self) {
    }

    proof fn transitive(x: Self, y: Self, z: Self) {
    }

    proof fn antisymmetric(x: Self, y: Self) {
    }

    proof fn total(x: Self, y: Self) {
    }

    fn compare(&self, other: &Self) -> (c: Cmp) {
        if self.key < other.key {
            Cmp::Less
        } else if self.key == other.key {
            Cmp::Equal
        } else {
            Cmp::Greater
        }
    }
}

/// A signature produced by the crypto collaborator over a proposed document;
/// opaque to the core, which only stores and compares it.
#[derive(Clone, Copy, Debug, PartialEq, Eq, Hash, Structural)]
pub struct Signature {
    pub sig: u64,
}

impl Signature {
    pub fn new(sig: u64) -> (r: Signature)
        ensures
            r == (Signature { sig }),
    {
        Signature { sig }
    }
}

/// Identifier of a collaborative object (one operation log).
#[derive(Clone, Copy, Debug, PartialEq, Eq, Hash, Structural)]
pub struct ObjectId {
    pub id: u64,
}

impl TotalOrder for ObjectId {
    open spec fn le(self, other: Self) -> bool {
        self.id <= other.id
    }

    proof fn reflexive(x: Self) {
    }

    proof fn transitive(x: Self, y: Self, z: Self) {
    }

    proof fn antisymmetric(x: Self, y: Self) {
    }

    proof fn total(x: Self, y: Self) {
    }

    fn compare(&self, other: &Self) -> (c: Cmp) {
        if self.id < other.id {
            Cmp::Less
        } else if self.id == other.id {
            Cmp::Equal
        } else {
            Cmp::Greater
        }
    }
}

/// A content address in the storage collaborator (e.g. the hash of a written
/// identity document); opaque to the core.
#[derive(Clone, Copy, Debug, PartialEq, Eq, Hash, Structural)]
pub struct Oid {
    pub oid: u64,
}

} // verus!
