//! A discussion thread: a grow-only map of redactable comments, itself a
//! replicated object nested inside each proposal revision.

use vstd::prelude::*;
use crate::cob::Op;
use crate::gmap::GMap;
use crate::keys::{OpId, PublicKey};
use crate::lattice::{self, map_join, red_join, RedactV};
use crate::redactable::Redactable;

verus! {

/// A comment is addressed by the identifier of the operation that created
/// it.
pub type CommentId = OpId;

/// A single comment: its author, its text, and the comment it replies to,
/// if any. Immutable once created; its identifier is content-derived, so
/// two replicas never hold different comments under one identifier.
#[derive(Clone, Debug, PartialEq, Eq)]
pub struct Comment {
    pub author: PublicKey,
    pub body: String,
    pub reply_to: Option<CommentId>,
}

/// The mathematical model of a comment.
pub struct CommentV {
    pub author: PublicKey,
    pub body: Seq<char>,
    pub reply_to: Option<CommentId>,
}

impl View for Comment {
    type V = CommentV;

    open spec fn view(&self) -> CommentV {
        CommentV { author: self.author, body: self.body@, reply_to: self.reply_to }
    }
}

/// An action on a thread.
#[derive(Clone, Debug, PartialEq, Eq)]
pub enum Action {
    Comment { body: String, reply_to: Option<CommentId> },
}

/// The mathematical model of a thread action.
pub enum ActionV {
    Comment { body: Seq<char>, reply_to: Option<CommentId> },
}

impl View for Action {
    type V = ActionV;

    open spec fn view(&self) -> ActionV {
        match self {
            Action::Comment { body, reply_to } => ActionV::Comment {
                body: body@,
                reply_to: *reply_to,
            },
        }
    }
}

/// Error applying an operation to a thread.
#[derive(Clone, Copy, Debug, PartialEq, Eq)]
pub enum OpError {
    /// The comment being replied to is absent: the operations were not
    /// applied in causal order.
    Missing(CommentId),
}

/// Join of two comments under one identifier. Identifiers are
/// content-derived, so the two are equal whenever replicas are honest; the
/// earlier-known copy is kept.
pub open spec fn comment_join(a: CommentV, b: CommentV) -> CommentV {
    a
}

/// `comment_join` as a function value.
pub open spec fn comment_join_fn() -> spec_fn(CommentV, CommentV) -> CommentV {
    |a: CommentV, b: CommentV| comment_join(a, b)
}

/// Join of two redactable comments.
pub open spec fn red_comment_join_fn() -> spec_fn(
    RedactV<CommentV>,
    RedactV<CommentV>,
) -> RedactV<CommentV> {
    |a: RedactV<CommentV>, b: RedactV<CommentV>| red_join(comment_join_fn(), a, b)
}

/// Join of two thread models: union of comments, per-comment redaction
/// absorbing.
pub open spec fn thread_join(
    a: Map<CommentId, RedactV<CommentV>>,
    b: Map<CommentId, RedactV<CommentV>>,
) -> Map<CommentId, RedactV<CommentV>> {
    map_join(red_comment_join_fn(), a, b)
}

/// Two thread models are compatible when comments they share under one
/// identifier are equal, which content-derived identifiers guarantee.
pub open spec fn thread_compat(
    a: Map<CommentId, RedactV<CommentV>>,
    b: Map<CommentId, RedactV<CommentV>>,
) -> bool {
    forall|k: CommentId|
        #![trigger a.dom().contains(k), b.dom().contains(k)]
        a.dom().contains(k) && b.dom().contains(k) ==> match (a[k], b[k]) {
            (RedactV::Present(x), RedactV::Present(y)) => x == y,
            _ => true,
        }
}

/// The semilattice laws of `thread_join`: merging threads is associative
/// and idempotent, and commutative on compatible models (those that agree
/// on shared comment identifiers, as content-derived identifiers ensure).
pub proof fn lemma_thread_laws()
    ensures
        forall|a: Map<CommentId, RedactV<CommentV>>, b: Map<CommentId, RedactV<CommentV>>|
            thread_compat(a, b) ==> #[trigger] thread_join(a, b) == thread_join(b, a),
        forall|
            a: Map<CommentId, RedactV<CommentV>>,
            b: Map<CommentId, RedactV<CommentV>>,
            c: Map<CommentId, RedactV<CommentV>>,
        | #[trigger] thread_join(thread_join(a, b), c) == thread_join(a, thread_join(b, c)),
        forall|a: Map<CommentId, RedactV<CommentV>>| #[trigger] thread_join(a, a) == a,
{
    assert(lattice::associative(comment_join_fn()));
    assert(lattice::idempotent(comment_join_fn()));
    lattice::lemma_red_join_assoc(comment_join_fn());
    lattice::lemma_red_join_idem(comment_join_fn());
    assert(lattice::associative(red_comment_join_fn()));
    assert(lattice::idempotent(red_comment_join_fn()));
    lattice::lemma_map_join_assoc::<CommentId, RedactV<CommentV>>(red_comment_join_fn());
    lattice::lemma_map_join_idem::<CommentId, RedactV<CommentV>>(red_comment_join_fn());
    assert forall|a: Map<CommentId, RedactV<CommentV>>, b: Map<CommentId, RedactV<CommentV>>|
        thread_compat(a, b) implies #[trigger] thread_join(a, b) == thread_join(b, a) by {
        assert(thread_join(a, b) =~= thread_join(b, a)) by {
            assert forall|k: CommentId|
                thread_join(a, b).dom().contains(k) implies thread_join(a, b)[k] == thread_join(
                b,
                a,
            )[k] by {
                if a.dom().contains(k) && b.dom().contains(k) {
                    assert(match (a[k], b[k]) {
                        (RedactV::Present(x), RedactV::Present(y)) => x == y,
                        _ => true,
                    });
                }
            }
        }
    }
}

/// The model of a stored redactable comment.
pub open spec fn red_comment_view(r: Redactable<Comment>) -> RedactV<CommentV> {
    match r {
        Redactable::Present(c) => RedactV::Present(c@),
        Redactable::Redacted => RedactV::Redacted,
    }
}

/// A discussion thread.
#[derive(Clone, Debug, PartialEq, Eq)]
pub struct Thread {
    comments: GMap<CommentId, Redactable<Comment>>,
}

impl View for Thread {
    type V = Map<CommentId, RedactV<CommentV>>;

    closed spec fn view(&self) -> Map<CommentId, RedactV<CommentV>> {
        Map::new(
            |k: CommentId| self.comments.as_map().dom().contains(k),
            |k: CommentId| red_comment_view(self.comments.as_map()[k]),
        )
    }
}

/// What applying one thread action at identifier `id` by `author` does to a
/// thread model: a reply to an unknown comment is a missing causal
/// dependency; otherwise the comment is added, a copy already known (or
/// already redacted) being left as it stands.
pub open spec fn thread_apply(
    d: Map<CommentId, RedactV<CommentV>>,
    id: CommentId,
    author: PublicKey,
    action: ActionV,
) -> Result<Map<CommentId, RedactV<CommentV>>, OpError> {
    match action {
        ActionV::Comment { body, reply_to } => {
            if reply_to is Some && !d.dom().contains(reply_to->0) {
                Err(OpError::Missing(reply_to->0))
            } else {
                let cv = CommentV { author, body, reply_to };
                let entry = if d.dom().contains(id) {
                    red_join(comment_join_fn(), d[id], RedactV::Present(cv))
                } else {
                    RedactV::Present(cv)
                };
                Ok(d.insert(id, entry))
            }
        },
    }
}

impl Thread {
    /// The backing map is well-formed.
    pub closed spec fn wf(self) -> bool {
        self.comments.wf()
    }

    /// Create an empty thread.
    pub fn new() -> (r: Self)
        ensures
            r.wf(),
            r@ == Map::<CommentId, RedactV<CommentV>>::empty(),
    {
        let r = Thread { comments: GMap::new() };
        proof {
            assert(r@ =~= Map::<CommentId, RedactV<CommentV>>::empty());
        }
        r
    }

    /// Look up a comment.
    pub fn get(&self, id: &CommentId) -> (r: Option<&Redactable<Comment>>)
        requires
            self.wf(),
        ensures
            match r {
                Some(c) => self@.dom().contains(*id) && red_comment_view(*c) == self@[*id],
                None => !self@.dom().contains(*id),
            },
    {
        self.comments.get(id)
    }

    /// The number of comments, redacted ones included.
    pub fn len(&self) -> (n: usize)
        requires
            self.wf(),
        ensures
            n == self@.dom().len(),
            self@.dom().finite(),
    {
        proof {
            self.comments.lemma_sorted();
            assert(self@.dom() =~= self.comments.as_map().dom());
        }
        self.comments.len()
    }

    /// Merge a replica's thread into this one: the union of the comments,
    /// with shared identifiers resolved per comment (a redaction absorbs).
    pub fn merge(&mut self, other: Thread)
        requires
            old(self).wf(),
            other.wf(),
        ensures
            final(self).wf(),
            final(self)@ == thread_join(old(self)@, other@),
    {
        let ghost self0 = self@;
        let ghost other0 = other@;
        let mut other = other;
        let mut remaining = other.comments.len();
        while remaining > 0
            invariant
                self.wf(),
                other.wf(),
                remaining == other.comments.sseq().len(),
                forall|k: CommentId|
                    #![trigger other@.dom().contains(k)]
                    other@.dom().contains(k) ==> other0.dom().contains(k) && other@[k]
                        == other0[k],
                forall|k: CommentId|
                    #![trigger self0.dom().contains(k)]
                    #![trigger self@.dom().contains(k)]
                    !other0.dom().contains(k) || other@.dom().contains(k) ==> (
                    self@.dom().contains(k) <==> self0.dom().contains(k)) && (self0.dom().contains(
                        k,
                    ) ==> self@[k] == self0[k]),
                forall|k: CommentId|
                    #![trigger thread_join(self0, other0).dom().contains(k)]
                    other0.dom().contains(k) && !other@.dom().contains(k) ==> self@.dom().contains(
                        k,
                    ) && self@[k] == thread_join(self0, other0)[k],
            decreases remaining,
        {
            let ghost selfpre = self@;
            let ghost otherpre = other@;
            proof {
                other.comments.lemma_sorted();
            }
            let k = other.comments.get_index(0).0;
            let theirs = other.comments.take(&k).unwrap();
            let ghost theirs_v = red_comment_view(theirs);
            let ghost merged_v = if selfpre.dom().contains(k) {
                red_join(comment_join_fn(), selfpre[k], theirs_v)
            } else {
                theirs_v
            };
            match self.comments.take(&k) {
                Some(mine) => {
                    let merged = match (mine, theirs) {
                        (Redactable::Present(mc), Redactable::Present(_)) => Redactable::Present(
                            mc,
                        ),
                        _ => Redactable::Redacted,
                    };
                    self.comments.put(k, merged);
                },
                None => {
                    self.comments.put(k, theirs);
                },
            }
            remaining = remaining - 1;
            proof {
                assert(other@ =~= otherpre.remove(k));
                assert(self@ =~= selfpre.insert(k, merged_v));
                assert(otherpre.dom().contains(k) && otherpre[k] == theirs_v);
                assert(other0.dom().contains(k) && other0[k] == theirs_v);
                other.comments.lemma_sorted();
                assert(other.comments.as_map().dom().len() == remaining);
                // the key handled this round now matches the full join
                assert(selfpre.dom().contains(k) <==> self0.dom().contains(k));
                if self0.dom().contains(k) {
                    assert(selfpre[k] == self0[k]);
                }
                assert(self@[k] == thread_join(self0, other0)[k]);
                assert forall|k2: CommentId|
                    #![trigger self0.dom().contains(k2)]
                    #![trigger self@.dom().contains(k2)]
                    !other0.dom().contains(k2) || other@.dom().contains(k2) implies (
                self@.dom().contains(k2) <==> self0.dom().contains(k2)) && (self0.dom().contains(
                    k2,
                ) ==> self@[k2] == self0[k2]) by {
                    assert(k2 != k);
                }
                assert forall|k2: CommentId|
                    other0.dom().contains(k2) && !(#[trigger] other@.dom().contains(k2))
                    implies self@.dom().contains(k2) && self@[k2] == thread_join(
                    self0,
                    other0,
                )[k2] by {
                    assert(thread_join(self0, other0).dom().contains(k2));
                    if k2 != k {
                        assert(!otherpre.dom().contains(k2));
                        assert(selfpre.dom().contains(k2) && selfpre[k2] == thread_join(
                            self0,
                            other0,
                        )[k2]);
                        assert(self@[k2] == selfpre[k2]);
                    }
                }
            }
        }
        proof {
            other.comments.lemma_sorted();
            assert forall|k: CommentId| !(#[trigger] other@.dom().contains(k)) by {
                if other@.dom().contains(k) {
                    assert(other.comments.as_map().dom().len() == 0);
                    other.comments.as_map().dom().lemma_len0_is_empty();
                }
            }
            assert(self@ =~= thread_join(self0, other0));
        }
    }

    /// Apply one operation to the thread. This is the sole mutation path;
    /// the state changes exactly as `thread_apply` describes.
    pub fn apply(&mut self, op: &Op<Action>) -> (r: Result<(), OpError>)
        requires
            old(self).wf(),
        ensures
            final(self).wf(),
            match r {
                Ok(()) => thread_apply(old(self)@, op.id, op.author, op.action@) == Ok::<
                    _,
                    OpError,
                >(final(self)@),
                Err(e) => thread_apply(old(self)@, op.id, op.author, op.action@) == Err::<
                    Map<CommentId, RedactV<CommentV>>,
                    _,
                >(e) && *final(self) == *old(self),
            },
    {
        match &op.action {
            Action::Comment { body, reply_to } => {
                if let Some(rid) = reply_to {
                    if self.comments.get(rid).is_none() {
                        return Err(OpError::Missing(*rid));
                    }
                }
                match self.comments.get(&op.id) {
                    Some(_) => {
                        // The comment (or its tombstone) is already known:
                        // joining with an equal copy leaves it unchanged.
                        proof {
                            assert(self@.insert(op.id, self@[op.id]) =~= self@);
                        }
                    },
                    None => {
                        let comment = Comment {
                            author: op.author,
                            body: body.clone(),
                            reply_to: *reply_to,
                        };
                        self.comments.put(op.id, Redactable::Present(comment));
                        proof {
                            assert(self@ =~= old(self)@.insert(
                                op.id,
                                RedactV::Present(
                                    CommentV {
                                        author: op.author,
                                        body: body@,
                                        reply_to: *reply_to,
                                    },
                                ),
                            ));
                        }
                    },
                }
                Ok(())
            },
        }
    }
}

} // verus!
