//! A single causal unit of change: an operation with its author, logical
//! clock, physical timestamp, and a typed action payload.

use vstd::prelude::*;
use crate::keys::{OpId, PublicKey};

verus! {

/// One operation of a collaborative object's log. Immutable once created;
/// its identifier is derived from its content (the author and the author's
/// clock at creation).
#[derive(Clone, Debug, PartialEq, Eq)]
pub struct Op<A> {
    pub id: OpId,
    pub author: PublicKey,
    pub clock: u64,
    pub timestamp: u64,
    pub action: A,
}

impl<A> Op<A> {
    /// The identifier is consistent with the content it is derived from.
    pub open spec fn wf(self) -> bool {
        self.id == (OpId { clock: self.clock, actor: self.author.key })
    }

    /// Create an operation; the identifier is derived from the author and
    /// clock.
    pub fn new(action: A, author: PublicKey, timestamp: u64, clock: u64) -> (r: Op<A>)
        ensures
            r.wf(),
            r.author == author,
            r.clock == clock,
            r.timestamp == timestamp,
            r.action == action,
            r.id == (OpId { clock, actor: author.key }),
    {
        Op { id: OpId { clock, actor: author.key }, author, clock, timestamp, action }
    }

    /// The operation's content-derived identifier.
    pub fn id(&self) -> (r: OpId)
        ensures
            r == self.id,
    {
        self.id
    }
}

} // verus!
