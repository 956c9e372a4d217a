//! The identity proposal: a collaborative object that proposes a
//! replacement identity document, collects per-delegate verdicts, and
//! becomes irreversibly published once a quorum of accepting signatures is
//! reached.

use vstd::prelude::*;
use crate::cob::Op;
use crate::gate::Gate;
use crate::gmap::GMap;
use crate::keys::{Oid, OpId, PublicKey, Signature, TotalOrder};
use crate::lattice::{self, gate_join, lww_join, map_join, red_join, RedactV};
use crate::lwwmap::LWWMap;
use crate::lwwreg::{reg_join, LWWReg};
use crate::max::Max;
use crate::redactable::Redactable;
use crate::store::{Store, StoreError, Transaction};
use crate::keys::ObjectId;
use crate::thread::{self, Thread};

verus! {

/// A revision is addressed by the identifier of the operation that
/// proposed it.
pub type RevisionId = OpId;

/// An identity document: the delegates that govern the identity and the
/// signature threshold a change must reach.
#[derive(Clone, Debug, PartialEq, Eq)]
pub struct Doc {
    pub threshold: usize,
    pub delegates: Vec<PublicKey>,
}

/// The mathematical model of a document.
pub struct DocV {
    pub threshold: int,
    pub delegates: Seq<PublicKey>,
}

impl View for Doc {
    type V = DocV;

    open spec fn view(&self) -> DocV {
        DocV { threshold: self.threshold as int, delegates: self.delegates@ }
    }
}

/// An identity snapshot: the content addresses of its root and current
/// revisions, its revision counter, its document, and the signatures that
/// ratified it.
#[derive(Clone, Debug, PartialEq, Eq)]
pub struct Identity {
    pub head: Oid,
    pub root: Oid,
    pub current: Oid,
    pub revision: u64,
    pub doc: Doc,
    pub signatures: Vec<(PublicKey, Signature)>,
}

/// The mathematical model of an identity snapshot.
pub struct IdentityV {
    pub head: Oid,
    pub root: Oid,
    pub current: Oid,
    pub revision: u64,
    pub doc: DocV,
    pub signatures: Seq<(PublicKey, Signature)>,
}

impl View for Identity {
    type V = IdentityV;

    open spec fn view(&self) -> IdentityV {
        IdentityV {
            head: self.head,
            root: self.root,
            current: self.current,
            revision: self.revision,
            doc: self.doc@,
            signatures: self.signatures@,
        }
    }
}

/// A delegate's verdict on a proposed revision: accepting it must supply
/// the signature over the proposed document.
#[derive(Clone, Copy, Debug, PartialEq, Eq)]
pub enum Verdict {
    Accept(Signature),
    Reject,
}

/// A deterministic rank for resolving verdict ties identically on every
/// replica.
pub open spec fn verdict_rank(v: Verdict) -> (int, int) {
    match v {
        Verdict::Accept(s) => (0, s.sig as int),
        Verdict::Reject => (1, 0),
    }
}

/// Join of two verdicts from one delegate at one clock: the greater by
/// rank, so every replica resolves the tie the same way.
pub open spec fn verdict_join(a: Verdict, b: Verdict) -> Verdict {
    let ra = verdict_rank(a);
    let rb = verdict_rank(b);
    if ra.0 > rb.0 || (ra.0 == rb.0 && ra.1 >= rb.1) {
        a
    } else {
        b
    }
}

/// `verdict_join` as a function value.
pub open spec fn verdict_join_fn() -> spec_fn(Verdict, Verdict) -> Verdict {
    |a: Verdict, b: Verdict| verdict_join(a, b)
}

/// Join of two redactable verdicts: redaction absorbs.
pub open spec fn red_verdict_join_fn() -> spec_fn(
    RedactV<Verdict>,
    RedactV<Verdict>,
) -> RedactV<Verdict> {
    |a: RedactV<Verdict>, b: RedactV<Verdict>| red_join(verdict_join_fn(), a, b)
}

/// Join of two clock-tagged verdict cells: last writer wins.
pub open spec fn verdict_cell_join_fn() -> spec_fn(
    (RedactV<Verdict>, u64),
    (RedactV<Verdict>, u64),
) -> (RedactV<Verdict>, u64) {
    |a: (RedactV<Verdict>, u64), b: (RedactV<Verdict>, u64)| lww_join(red_verdict_join_fn(), a, b)
}

/// Join of two verdict maps: one last-writer-wins cell per delegate.
pub open spec fn verdicts_join(
    a: Map<PublicKey, (RedactV<Verdict>, u64)>,
    b: Map<PublicKey, (RedactV<Verdict>, u64)>,
) -> Map<PublicKey, (RedactV<Verdict>, u64)> {
    map_join(verdict_cell_join_fn(), a, b)
}

/// `verdict_join` satisfies the semilattice laws.
pub proof fn lemma_verdict_semilattice()
    ensures
        lattice::semilattice(verdict_join_fn()),
{
    assert(lattice::commutative(verdict_join_fn()));
    assert(lattice::associative(verdict_join_fn()));
    assert(lattice::idempotent(verdict_join_fn()));
}

/// The semilattice laws of `Redactable` merge, at the verdict
/// instantiation: redaction is an absorbing, permanent tombstone.
pub proof fn lemma_redactable_laws()
    ensures
        forall|a: RedactV<Verdict>, b: RedactV<Verdict>| #[trigger] red_join(
            verdict_join_fn(),
            a,
            b,
        ) == red_join(verdict_join_fn(), b, a),
        forall|a: RedactV<Verdict>, b: RedactV<Verdict>, c: RedactV<Verdict>| #[trigger] red_join(
            verdict_join_fn(),
            red_join(verdict_join_fn(), a, b),
            c,
        ) == red_join(verdict_join_fn(), a, red_join(verdict_join_fn(), b, c)),
        forall|a: RedactV<Verdict>| #[trigger] red_join(verdict_join_fn(), a, a) == a,
{
    lemma_verdict_semilattice();
    lattice::lemma_red_join_laws(verdict_join_fn());
}

/// The verdict cell join satisfies the semilattice laws.
pub proof fn lemma_verdict_cell_semilattice()
    ensures
        lattice::semilattice(verdict_cell_join_fn()),
{
    lemma_verdict_semilattice();
    lattice::lemma_red_join_laws(verdict_join_fn());
    assert(lattice::semilattice(red_verdict_join_fn()));
    lattice::lemma_lww_join_laws(red_verdict_join_fn());
    assert(lattice::commutative(verdict_cell_join_fn()));
    assert(lattice::associative(verdict_cell_join_fn()));
    assert(lattice::idempotent(verdict_cell_join_fn()));
}

/// The semilattice laws of `LWWMap` merge, at the verdict-map
/// instantiation: merging per-delegate verdict maps is commutative,
/// associative, and idempotent.
pub proof fn lemma_lwwmap_laws()
    ensures
        forall|a: Map<PublicKey, (RedactV<Verdict>, u64)>, b: Map<PublicKey, (RedactV<Verdict>, u64)>|
            #[trigger] verdicts_join(a, b) == verdicts_join(b, a),
        forall|
            a: Map<PublicKey, (RedactV<Verdict>, u64)>,
            b: Map<PublicKey, (RedactV<Verdict>, u64)>,
            c: Map<PublicKey, (RedactV<Verdict>, u64)>,
        | #[trigger] verdicts_join(verdicts_join(a, b), c) == verdicts_join(a, verdicts_join(b, c)),
        forall|a: Map<PublicKey, (RedactV<Verdict>, u64)>| #[trigger] verdicts_join(a, a) == a,
{
    lemma_verdict_cell_semilattice();
    lattice::lemma_map_join_laws::<PublicKey, (RedactV<Verdict>, u64)>(verdict_cell_join_fn());
}

/// A proposed revision: its author, the identity being replaced, the
/// proposed new document, its discussion thread, and one verdict cell per
/// delegate.
#[derive(Clone, Debug, PartialEq, Eq)]
pub struct Revision {
    /// Author of this proposed revision.
    pub author: PublicKey,
    /// Previous identity that is going to be updated.
    pub previous: Identity,
    /// New document that will replace the previous one.
    pub proposed: Doc,
    /// Discussion thread for this revision.
    pub discussion: Thread,
    /// Verdicts given by the delegates, each an independent
    /// last-writer-wins cell.
    verdicts: LWWMap<PublicKey, Redactable<Verdict>>,
    /// Physical timestamp of this proposal revision.
    pub timestamp: u64,
}

/// The mathematical model of a revision.
pub struct RevisionV {
    pub author: PublicKey,
    pub previous: IdentityV,
    pub proposed: DocV,
    pub discussion: Map<thread::CommentId, RedactV<thread::CommentV>>,
    pub verdicts: Map<PublicKey, (RedactV<Verdict>, u64)>,
    pub timestamp: u64,
}

/// The model of one stored verdict cell.
pub open spec fn verdict_cell_view(c: (Redactable<Verdict>, u64)) -> (RedactV<Verdict>, u64) {
    (
        match c.0 {
            Redactable::Present(v) => RedactV::Present(v),
            Redactable::Redacted => RedactV::Redacted,
        },
        c.1,
    )
}

impl View for Revision {
    type V = RevisionV;

    closed spec fn view(&self) -> RevisionV {
        RevisionV {
            author: self.author,
            previous: self.previous@,
            proposed: self.proposed@,
            discussion: self.discussion@,
            verdicts: Map::new(
                |k: PublicKey| self.verdicts.as_map().dom().contains(k),
                |k: PublicKey| verdict_cell_view(self.verdicts.as_map()[k]),
            ),
            timestamp: self.timestamp,
        }
    }
}

/// Join of two replicas of one revision: the immutable content (author,
/// previous identity, proposed document, timestamp) is identical on honest
/// replicas because the revision identifier derives from it, so the known
/// copy is kept; the discussion and the verdicts merge as replicated state.
pub open spec fn revision_join(a: RevisionV, b: RevisionV) -> RevisionV {
    RevisionV {
        author: a.author,
        previous: a.previous,
        proposed: a.proposed,
        discussion: thread::thread_join(a.discussion, b.discussion),
        verdicts: verdicts_join(a.verdicts, b.verdicts),
        timestamp: a.timestamp,
    }
}

/// Two revision models are compatible when their immutable content agrees
/// and their discussions are compatible.
pub open spec fn revision_compat(a: RevisionV, b: RevisionV) -> bool {
    &&& a.author == b.author
    &&& a.previous == b.previous
    &&& a.proposed == b.proposed
    &&& a.timestamp == b.timestamp
    &&& thread::thread_compat(a.discussion, b.discussion)
}

/// `revision_join` as a function value.
pub open spec fn revision_join_fn() -> spec_fn(RevisionV, RevisionV) -> RevisionV {
    |a: RevisionV, b: RevisionV| revision_join(a, b)
}

/// Join of two redactable revisions: redaction absorbs.
pub open spec fn red_revision_join_fn() -> spec_fn(
    RedactV<RevisionV>,
    RedactV<RevisionV>,
) -> RedactV<RevisionV> {
    |a: RedactV<RevisionV>, b: RedactV<RevisionV>| red_join(revision_join_fn(), a, b)
}

/// Join of two revision maps: the union of the revisions, each merged
/// independently.
pub open spec fn revisions_join(
    a: Map<RevisionId, RedactV<RevisionV>>,
    b: Map<RevisionId, RedactV<RevisionV>>,
) -> Map<RevisionId, RedactV<RevisionV>> {
    map_join(red_revision_join_fn(), a, b)
}

/// Two revision maps are compatible when revisions they share under one
/// identifier are compatible.
pub open spec fn revisions_compat(
    a: Map<RevisionId, RedactV<RevisionV>>,
    b: Map<RevisionId, RedactV<RevisionV>>,
) -> bool {
    forall|k: RevisionId|
        #![trigger a.dom().contains(k), b.dom().contains(k)]
        a.dom().contains(k) && b.dom().contains(k) ==> match (a[k], b[k]) {
            (RedactV::Present(x), RedactV::Present(y)) => revision_compat(x, y),
            _ => true,
        }
}

/// `revision_join` is associative and idempotent, and commutative on
/// compatible revisions.
pub proof fn lemma_revision_join_laws()
    ensures
        forall|a: RevisionV, b: RevisionV|
            revision_compat(a, b) ==> #[trigger] revision_join(a, b) == revision_join(b, a),
        forall|a: RevisionV, b: RevisionV, c: RevisionV| #[trigger] revision_join(
            revision_join(a, b),
            c,
        ) == revision_join(a, revision_join(b, c)),
        forall|a: RevisionV| #[trigger] revision_join(a, a) == a,
{
    thread::lemma_thread_laws();
    lemma_lwwmap_laws();
}

/// The semilattice laws of `GMap` merge, at the revision-map
/// instantiation: merging is associative and idempotent, and commutative
/// on compatible maps (those agreeing on shared revision identifiers, as
/// content-derived identifiers ensure).
pub proof fn lemma_gmap_laws()
    ensures
        forall|a: Map<RevisionId, RedactV<RevisionV>>, b: Map<RevisionId, RedactV<RevisionV>>|
            revisions_compat(a, b) ==> #[trigger] revisions_join(a, b) == revisions_join(b, a),
        forall|
            a: Map<RevisionId, RedactV<RevisionV>>,
            b: Map<RevisionId, RedactV<RevisionV>>,
            c: Map<RevisionId, RedactV<RevisionV>>,
        | #[trigger] revisions_join(revisions_join(a, b), c) == revisions_join(
            a,
            revisions_join(b, c),
        ),
        forall|a: Map<RevisionId, RedactV<RevisionV>>| #[trigger] revisions_join(a, a) == a,
{
    lemma_revision_join_laws();
    assert(lattice::associative(revision_join_fn()));
    assert(lattice::idempotent(revision_join_fn()));
    lattice::lemma_red_join_assoc(revision_join_fn());
    lattice::lemma_red_join_idem(revision_join_fn());
    assert(lattice::associative(red_revision_join_fn()));
    assert(lattice::idempotent(red_revision_join_fn()));
    lattice::lemma_map_join_assoc::<RevisionId, RedactV<RevisionV>>(red_revision_join_fn());
    lattice::lemma_map_join_idem::<RevisionId, RedactV<RevisionV>>(red_revision_join_fn());
    assert forall|a: Map<RevisionId, RedactV<RevisionV>>, b: Map<RevisionId, RedactV<RevisionV>>|
        revisions_compat(a, b) implies #[trigger] revisions_join(a, b) == revisions_join(b, a) by {
        assert(revisions_join(a, b) =~= revisions_join(b, a)) by {
            assert forall|k: RevisionId|
                revisions_join(a, b).dom().contains(k) implies revisions_join(a, b)[k]
                == revisions_join(b, a)[k] by {
                if a.dom().contains(k) && b.dom().contains(k) {
                    match (a[k], b[k]) {
                        (RedactV::Present(x), RedactV::Present(y)) => {
                            assert(revision_compat(x, y));
                            assert(revision_join(x, y) == revision_join(y, x));
                        },
                        _ => {},
                    }
                }
            }
        }
    }
}

/// The mathematical model of a proposal.
pub struct ProposalV {
    pub title: (Seq<char>, u64),
    pub description: (Seq<char>, u64),
    pub revisions: Option<Map<RevisionId, RedactV<RevisionV>>>,
}

/// Join of two proposal states: titles and descriptions resolve by
/// last-writer-wins, the revisions merge behind the publication gate.
pub open spec fn proposal_join(a: ProposalV, b: ProposalV) -> ProposalV {
    ProposalV {
        title: reg_join(a.title, b.title),
        description: reg_join(a.description, b.description),
        revisions: gate_join(revisions_join_fn(), a.revisions, b.revisions),
    }
}

/// `revisions_join` as a function value.
pub open spec fn revisions_join_fn() -> spec_fn(
    Map<RevisionId, RedactV<RevisionV>>,
    Map<RevisionId, RedactV<RevisionV>>,
) -> Map<RevisionId, RedactV<RevisionV>> {
    |a: Map<RevisionId, RedactV<RevisionV>>, b: Map<RevisionId, RedactV<RevisionV>>|
        revisions_join(a, b)
}

/// Two proposal models are compatible when their open revision maps are.
pub open spec fn proposal_compat(a: ProposalV, b: ProposalV) -> bool {
    match (a.revisions, b.revisions) {
        (Some(x), Some(y)) => revisions_compat(x, y),
        _ => true,
    }
}

/// The semilattice laws of the composite proposal state: merging is
/// associative and idempotent, and commutative on compatible states
/// (those agreeing on shared revision identifiers, as content-derived
/// identifiers ensure).
pub proof fn lemma_proposal_laws()
    ensures
        forall|a: ProposalV, b: ProposalV|
            proposal_compat(a, b) ==> #[trigger] proposal_join(a, b) == proposal_join(b, a),
        forall|a: ProposalV, b: ProposalV, c: ProposalV| #[trigger] proposal_join(
            proposal_join(a, b),
            c,
        ) == proposal_join(a, proposal_join(b, c)),
        forall|a: ProposalV| #[trigger] proposal_join(a, a) == a,
{
    crate::lwwreg::lemma_lwwreg_laws();
    lemma_gmap_laws();
    assert(lattice::associative(revisions_join_fn()));
    assert(lattice::idempotent(revisions_join_fn()));
    lattice::lemma_gate_join_assoc(revisions_join_fn());
    lattice::lemma_gate_join_idem(revisions_join_fn());
    assert forall|a: ProposalV, b: ProposalV| proposal_compat(a, b) implies #[trigger] proposal_join(
        a,
        b,
    ) == proposal_join(b, a) by {
        match (a.revisions, b.revisions) {
            (Some(x), Some(y)) => {
                assert(revisions_join(x, y) == revisions_join(y, x));
            },
            _ => {},
        }
    }
}

/// A published (closed) proposal state absorbs any concurrent open state:
/// whatever the merge order, the result stays published.
pub proof fn lemma_published_absorbs(a: ProposalV, b: ProposalV)
    requires
        a.revisions is None,
    ensures
        proposal_join(a, b).revisions is None,
        proposal_join(b, a).revisions is None,
{
}


/// A proposal operation's action payload.
#[derive(Clone, Debug, PartialEq, Eq)]
pub enum Action {
    Accept { revision: RevisionId, signature: Signature },
    Edit { title: String, description: String },
    Publish,
    Redact { revision: RevisionId },
    Reject { revision: RevisionId },
    Revision { proposed: Doc, previous: Identity },
    Thread { revision: RevisionId, action: thread::Action },
}

/// The mathematical model of an action.
pub enum ActionV {
    Accept { revision: RevisionId, signature: Signature },
    Edit { title: Seq<char>, description: Seq<char> },
    Publish,
    Redact { revision: RevisionId },
    Reject { revision: RevisionId },
    Revision { proposed: DocV, previous: IdentityV },
    Thread { revision: RevisionId, action: thread::ActionV },
}

impl View for Action {
    type V = ActionV;

    open spec fn view(&self) -> ActionV {
        match self {
            Action::Accept { revision, signature } => ActionV::Accept {
                revision: *revision,
                signature: *signature,
            },
            Action::Edit { title, description } => ActionV::Edit {
                title: title@,
                description: description@,
            },
            Action::Publish => ActionV::Publish,
            Action::Redact { revision } => ActionV::Redact { revision: *revision },
            Action::Reject { revision } => ActionV::Reject { revision: *revision },
            Action::Revision { proposed, previous } => ActionV::Revision {
                proposed: proposed@,
                previous: previous@,
            },
            Action::Thread { revision, action } => ActionV::Thread {
                revision: *revision,
                action: action@,
            },
        }
    }
}

/// The mathematical model of an operation on a proposal.
pub struct OpV {
    pub id: OpId,
    pub author: PublicKey,
    pub clock: u64,
    pub timestamp: u64,
    pub action: ActionV,
}

impl View for Op<Action> {
    type V = OpV;

    open spec fn view(&self) -> OpV {
        OpV {
            id: self.id,
            author: self.author,
            clock: self.clock,
            timestamp: self.timestamp,
            action: self.action@,
        }
    }
}

/// Error applying an operation onto a proposal state.
#[derive(Clone, Copy, Debug, PartialEq, Eq)]
pub enum ApplyError {
    /// A causal dependency is missing: the operations were not applied in
    /// causal order, for example an operation references one that has not
    /// been seen yet.
    Missing(OpId),
    /// The proposal is published: its gate is closed to mutation.
    Published,
    /// The revision is redacted.
    Redacted(OpId),
    /// Applying to the revision's discussion thread failed.
    Thread(thread::OpError),
}

/// Error publishing a proposal.
#[derive(Clone, Copy, Debug, PartialEq, Eq)]
pub enum PublishError {
    /// The revision is missing.
    Missing(OpId),
    /// The revision is already published.
    Published(OpId),
    /// The revision is redacted.
    Redacted(OpId),
    /// The accepting signatures did not reach the quorum threshold.
    Quorum(usize),
}

/// The set of delegates whose current verdict on a revision is a
/// non-redacted acceptance.
pub open spec fn accept_set(v: Map<PublicKey, (RedactV<Verdict>, u64)>) -> Set<PublicKey> {
    Set::new(
        |k: PublicKey| v.dom().contains(k) && (v[k].0 matches RedactV::Present(Verdict::Accept(_))),
    )
}

/// The model of one stored redactable revision.
pub open spec fn red_revision_view(r: Redactable<Revision>) -> RedactV<RevisionV> {
    match r {
        Redactable::Present(rev) => RedactV::Present(rev@),
        Redactable::Redacted => RedactV::Redacted,
    }
}

/// The model of a stored revision map.
pub open spec fn revisions_view(m: GMap<RevisionId, Redactable<Revision>>) -> Map<
    RevisionId,
    RedactV<RevisionV>,
> {
    Map::new(
        |k: RevisionId| m.as_map().dom().contains(k),
        |k: RevisionId| red_revision_view(m.as_map()[k]),
    )
}

/// Whether a stored redactable revision is well-formed.
pub open spec fn red_revision_wf(r: Redactable<Revision>) -> bool {
    match r {
        Redactable::Present(rev) => rev.wf(),
        Redactable::Redacted => true,
    }
}

impl Revision {
    /// The backing containers are well-formed.
    pub closed spec fn wf(self) -> bool {
        self.verdicts.wf() && self.discussion.wf()
    }

    /// Create a fresh revision with an empty discussion and no verdicts.
    pub fn new(author: PublicKey, previous: Identity, proposed: Doc, timestamp: u64) -> (r:
        Revision)
        ensures
            r.wf(),
            r@ == (RevisionV {
                author,
                previous: previous@,
                proposed: proposed@,
                discussion: Map::<thread::CommentId, RedactV<thread::CommentV>>::empty(),
                verdicts: Map::<PublicKey, (RedactV<Verdict>, u64)>::empty(),
                timestamp,
            }),
    {
        let r = Revision {
            author,
            previous,
            proposed,
            discussion: Thread::new(),
            verdicts: LWWMap::new(),
            timestamp,
        };
        proof {
            assert(r@.verdicts =~= Map::<PublicKey, (RedactV<Verdict>, u64)>::empty());
        }
        r
    }

    /// The current non-redacted verdicts, one per delegate.
    pub fn verdicts(&self) -> (r: Vec<(PublicKey, Verdict)>)
        requires
            self.wf(),
        ensures
            r@.no_duplicates(),
            forall|p: (PublicKey, Verdict)|
                r@.contains(p) <==> (self@.verdicts.dom().contains(p.0)
                    && self@.verdicts[p.0].0 == RedactV::Present(p.1)),
    {
        let n = self.verdicts.len();
        let mut r: Vec<(PublicKey, Verdict)> = Vec::new();
        let mut i: usize = 0;
        proof {
            self.verdicts.lemma_sorted();
        }
        while i < n
            invariant
                self.wf(),
                n == self.verdicts.sseq().len(),
                i <= n,
                forall|i2: int, j2: int|
                    0 <= i2 < j2 < self.verdicts.sseq().len() ==> (
                    #[trigger] self.verdicts.sseq()[i2]).0.le(
                        (#[trigger] self.verdicts.sseq()[j2]).0,
                    ) && self.verdicts.sseq()[i2].0 != self.verdicts.sseq()[j2].0,
                forall|i2: int|
                    0 <= i2 < self.verdicts.sseq().len() ==> self.verdicts.as_map().dom().contains(
                        (#[trigger] self.verdicts.sseq()[i2]).0,
                    ) && self.verdicts.as_map()[self.verdicts.sseq()[i2].0]
                        == self.verdicts.sseq()[i2].1,
                forall|k: PublicKey|
                    self.verdicts.as_map().dom().contains(k) ==> exists|i2: int|
                        0 <= i2 < self.verdicts.sseq().len() && (
                        #[trigger] self.verdicts.sseq()[i2]).0 == k,
                forall|p: (PublicKey, Verdict)|
                    r@.contains(p) <==> exists|i2: int|
                        0 <= i2 < i && (#[trigger] self.verdicts.sseq()[i2]).0 == p.0
                            && self.verdicts.sseq()[i2].1.0 == Redactable::Present(p.1),
                r@.no_duplicates(),
            decreases n - i,
        {
            let entry = self.verdicts.get_index(i);
            let key = entry.0;
            let ghost rpre = r@;
            match entry.1.0 {
                Redactable::Present(v) => {
                    proof {
                        if rpre.contains((key, v)) {
                            let i2 = choose|i2: int|
                                0 <= i2 < i && (#[trigger] self.verdicts.sseq()[i2]).0 == (key,
                                v).0 && self.verdicts.sseq()[i2].1.0 == Redactable::Present(
                                    (key, v).1,
                                );
                            assert(self.verdicts.sseq()[i2].0 != self.verdicts.sseq()[i as int].0);
                        }
                    }
                    r.push((key, v));
                    proof {
                        assert(r@.no_duplicates()) by {
                            assert forall|w1: int, w2: int|
                                0 <= w1 < r@.len() && 0 <= w2 < r@.len() && w1 != w2 implies r@[w1]
                                != r@[w2] by {
                                if w1 < rpre.len() && w2 < rpre.len() {
                                } else {
                                    assert(!rpre.contains((key, v)));
                                }
                            }
                        }
                        assert forall|p: (PublicKey, Verdict)| r@.contains(p) implies exists|
                            i2: int,
                        |
                            0 <= i2 < i + 1 && (#[trigger] self.verdicts.sseq()[i2]).0 == p.0
                                && self.verdicts.sseq()[i2].1.0 == Redactable::Present(p.1) by {
                            let w = choose|w: int| 0 <= w < r@.len() && r@[w] == p;
                            if w < rpre.len() {
                                assert(rpre.contains(p));
                            } else {
                                assert(p == (key, v));
                                assert(self.verdicts.sseq()[i as int].0 == p.0);
                            }
                        }
                        assert forall|p: (PublicKey, Verdict)|
                            (exists|i2: int|
                                0 <= i2 < i + 1 && (#[trigger] self.verdicts.sseq()[i2]).0 == p.0
                                    && self.verdicts.sseq()[i2].1.0 == Redactable::Present(
                                    p.1,
                                )) implies r@.contains(p) by {
                            let i2 = choose|i2: int|
                                0 <= i2 < i + 1 && (#[trigger] self.verdicts.sseq()[i2]).0 == p.0
                                    && self.verdicts.sseq()[i2].1.0 == Redactable::Present(p.1);
                            if i2 < i {
                                assert(rpre.contains(p));
                                let w = choose|w: int| 0 <= w < rpre.len() && rpre[w] == p;
                                assert(r@[w] == p);
                            } else {
                                assert(r@[r@.len() - 1] == p);
                            }
                        }
                    }
                },
                Redactable::Redacted => {
                    proof {
                        assert forall|p: (PublicKey, Verdict)|
                            (exists|i2: int|
                                0 <= i2 < i + 1 && (#[trigger] self.verdicts.sseq()[i2]).0 == p.0
                                    && self.verdicts.sseq()[i2].1.0 == Redactable::Present(
                                    p.1,
                                )) implies r@.contains(p) by {
                            let i2 = choose|i2: int|
                                0 <= i2 < i + 1 && (#[trigger] self.verdicts.sseq()[i2]).0 == p.0
                                    && self.verdicts.sseq()[i2].1.0 == Redactable::Present(p.1);
                            assert(i2 < i);
                        }
                    }
                },
            }
            i += 1;
        }
        proof {
            assert forall|p: (PublicKey, Verdict)| r@.contains(p) implies (
            self@.verdicts.dom().contains(p.0) && self@.verdicts[p.0].0 == RedactV::Present(
                p.1,
            )) by {
                let i2 = choose|i2: int|
                    0 <= i2 < n && (#[trigger] self.verdicts.sseq()[i2]).0 == p.0
                        && self.verdicts.sseq()[i2].1.0 == Redactable::Present(p.1);
                assert(self.verdicts.as_map()[p.0] == self.verdicts.sseq()[i2].1);
            }
            assert forall|p: (PublicKey, Verdict)|
                self@.verdicts.dom().contains(p.0) && self@.verdicts[p.0].0 == RedactV::Present(
                    p.1,
                ) implies r@.contains(p) by {
                let i2 = choose|i2: int|
                    0 <= i2 < self.verdicts.sseq().len() && (
                    #[trigger] self.verdicts.sseq()[i2]).0 == p.0;
                assert(self.verdicts.as_map()[p.0] == self.verdicts.sseq()[i2].1);
                assert(self.verdicts.sseq()[i2].1.0 == Redactable::Present(p.1));
            }
        }
        r
    }

    /// The delegates that currently accept this revision.
    pub fn accepted(&self) -> (r: Vec<PublicKey>)
        requires
            self.wf(),
        ensures
            r@.no_duplicates(),
            forall|k: PublicKey| r@.contains(k) <==> accept_set(self@.verdicts).contains(k),
    {
        let vs = self.verdicts();
        let n = vs.len();
        let mut r: Vec<PublicKey> = Vec::new();
        let mut i: usize = 0;
        while i < n
            invariant
                self.wf(),
                n == vs@.len(),
                i <= n,
                vs@.no_duplicates(),
                forall|p: (PublicKey, Verdict)|
                    vs@.contains(p) <==> (self@.verdicts.dom().contains(p.0)
                        && self@.verdicts[p.0].0 == RedactV::Present(p.1)),
                forall|k: PublicKey|
                    r@.contains(k) <==> exists|i2: int|
                        0 <= i2 < i && (#[trigger] vs@[i2]).0 == k && vs@[i2].1 is Accept,
                r@.no_duplicates(),
            decreases n - i,
        {
            let ghost rpre = r@;
            match vs[i].1 {
                Verdict::Accept(_) => {
                    proof {
                        if rpre.contains(vs@[i as int].0) {
                            let i2 = choose|i2: int|
                                0 <= i2 < i && (#[trigger] vs@[i2]).0 == vs@[i as int].0
                                    && vs@[i2].1 is Accept;
                            assert(vs@.contains(vs@[i2]));
                            assert(vs@.contains(vs@[i as int]));
                            assert(self@.verdicts[vs@[i2].0].0 == RedactV::Present(vs@[i2].1));
                            assert(self@.verdicts[vs@[i as int].0].0 == RedactV::Present(
                                vs@[i as int].1,
                            ));
                            assert(vs@[i2] == vs@[i as int]);
                        }
                    }
                    r.push(vs[i].0);
                    proof {
                        assert(r@.no_duplicates()) by {
                            assert forall|w1: int, w2: int|
                                0 <= w1 < r@.len() && 0 <= w2 < r@.len() && w1 != w2 implies r@[w1]
                                != r@[w2] by {
                                if w1 < rpre.len() && w2 < rpre.len() {
                                } else {
                                    assert(!rpre.contains(vs@[i as int].0));
                                }
                            }
                        }
                        assert forall|k: PublicKey| r@.contains(k) implies exists|i2: int|
                            0 <= i2 < i + 1 && (#[trigger] vs@[i2]).0 == k && vs@[i2].1
                                is Accept by {
                            let w = choose|w: int| 0 <= w < r@.len() && r@[w] == k;
                            if w < rpre.len() {
                                assert(rpre.contains(k));
                            } else {
                                assert(vs@[i as int].0 == k);
                            }
                        }
                        assert forall|k: PublicKey|
                            (exists|i2: int|
                                0 <= i2 < i + 1 && (#[trigger] vs@[i2]).0 == k && vs@[i2].1
                                    is Accept) implies r@.contains(k) by {
                            let i2 = choose|i2: int|
                                0 <= i2 < i + 1 && (#[trigger] vs@[i2]).0 == k && vs@[i2].1
                                    is Accept;
                            if i2 < i {
                                assert(rpre.contains(k));
                                let w = choose|w: int| 0 <= w < rpre.len() && rpre[w] == k;
                                assert(r@[w] == k);
                            } else {
                                assert(r@[r@.len() - 1] == k);
                            }
                        }
                    }
                },
                Verdict::Reject => {
                    proof {
                        assert forall|k: PublicKey|
                            (exists|i2: int|
                                0 <= i2 < i + 1 && (#[trigger] vs@[i2]).0 == k && vs@[i2].1
                                    is Accept) implies r@.contains(k) by {
                            let i2 = choose|i2: int|
                                0 <= i2 < i + 1 && (#[trigger] vs@[i2]).0 == k && vs@[i2].1
                                    is Accept;
                            assert(i2 < i);
                        }
                    }
                },
            }
            i += 1;
        }
        proof {
            assert forall|k: PublicKey| r@.contains(k) implies accept_set(
                self@.verdicts,
            ).contains(k) by {
                let i2 = choose|i2: int|
                    0 <= i2 < n && (#[trigger] vs@[i2]).0 == k && vs@[i2].1 is Accept;
                assert(vs@.contains(vs@[i2]));
            }
            assert forall|k: PublicKey| accept_set(self@.verdicts).contains(k) implies r@.contains(
                k,
            ) by {
                let v = self@.verdicts[k].0;
                match v {
                    RedactV::Present(vd) => {
                        assert(vs@.contains((k, vd)));
                        let i2 = choose|i2: int| 0 <= i2 < vs@.len() && vs@[i2] == (k, vd);
                        assert(vs@[i2].0 == k && vs@[i2].1 is Accept);
                    },
                    RedactV::Redacted => {},
                }
            }
        }
        r
    }
}


/// Join of one stored verdict cell into a verdict map model.
pub open spec fn verdict_put(
    m: Map<PublicKey, (RedactV<Verdict>, u64)>,
    k: PublicKey,
    cell: (RedactV<Verdict>, u64),
) -> Map<PublicKey, (RedactV<Verdict>, u64)> {
    if m.dom().contains(k) {
        m.insert(k, verdict_cell_join_fn()(m[k], cell))
    } else {
        m.insert(k, cell)
    }
}

/// The keys named by the first `i` entries of a verdict entry sequence.
pub open spec fn verdict_prefix_keys(
    s: Seq<(PublicKey, (Redactable<Verdict>, u64))>,
    i: int,
) -> Set<PublicKey> {
    Set::new(|k: PublicKey| exists|i2: int| 0 <= i2 < i && (#[trigger] s[i2]).0 == k)
}

/// The deterministic verdict tie-break, executable.
fn verdict_merge(a: Verdict, b: Verdict) -> (r: Verdict)
    ensures
        r == verdict_join(a, b),
{
    match (a, b) {
        (Verdict::Accept(sa), Verdict::Accept(sb)) => {
            if sa.sig >= sb.sig {
                Verdict::Accept(sa)
            } else {
                Verdict::Accept(sb)
            }
        },
        (Verdict::Reject, _) => Verdict::Reject,
        (_, Verdict::Reject) => Verdict::Reject,
    }
}

/// Merge two redactable verdicts: a redaction absorbs.
fn red_verdict_merge(a: Redactable<Verdict>, b: Redactable<Verdict>) -> (r: Redactable<Verdict>)
    ensures
        verdict_cell_view((r, 0)).0 == red_verdict_join_fn()(
            verdict_cell_view((a, 0)).0,
            verdict_cell_view((b, 0)).0,
        ),
{
    match (a, b) {
        (Redactable::Present(va), Redactable::Present(vb)) => Redactable::Present(
            verdict_merge(va, vb),
        ),
        _ => Redactable::Redacted,
    }
}

/// Merge two clock-tagged verdict cells: the higher clock wins, ties merge
/// the verdicts deterministically.
fn cell_merge(a: (Redactable<Verdict>, u64), b: (Redactable<Verdict>, u64)) -> (r: (
    Redactable<Verdict>,
    u64,
))
    ensures
        verdict_cell_view(r) == verdict_cell_join_fn()(verdict_cell_view(a), verdict_cell_view(b)),
{
    if a.1 > b.1 {
        a
    } else if b.1 > a.1 {
        b
    } else {
        (red_verdict_merge(a.0, b.0), a.1)
    }
}

impl Revision {
    /// The delegates that currently reject this revision.
    pub fn rejected(&self) -> (r: Vec<PublicKey>)
        requires
            self.wf(),
        ensures
            r@.no_duplicates(),
            forall|k: PublicKey|
                r@.contains(k) <==> (self@.verdicts.dom().contains(k) && self@.verdicts[k].0
                    == RedactV::Present(Verdict::Reject)),
    {
        let vs = self.verdicts();
        let n = vs.len();
        let mut r: Vec<PublicKey> = Vec::new();
        let mut i: usize = 0;
        while i < n
            invariant
                self.wf(),
                n == vs@.len(),
                i <= n,
                vs@.no_duplicates(),
                forall|p: (PublicKey, Verdict)|
                    vs@.contains(p) <==> (self@.verdicts.dom().contains(p.0)
                        && self@.verdicts[p.0].0 == RedactV::Present(p.1)),
                forall|k: PublicKey|
                    r@.contains(k) <==> exists|i2: int|
                        0 <= i2 < i && (#[trigger] vs@[i2]).0 == k && vs@[i2].1 is Reject,
                r@.no_duplicates(),
            decreases n - i,
        {
            let ghost rpre = r@;
            match vs[i].1 {
                Verdict::Reject => {
                    proof {
                        if rpre.contains(vs@[i as int].0) {
                            let i2 = choose|i2: int|
                                0 <= i2 < i && (#[trigger] vs@[i2]).0 == vs@[i as int].0
                                    && vs@[i2].1 is Reject;
                            assert(vs@.contains(vs@[i2]));
                            assert(vs@.contains(vs@[i as int]));
                            assert(self@.verdicts[vs@[i2].0].0 == RedactV::Present(vs@[i2].1));
                            assert(self@.verdicts[vs@[i as int].0].0 == RedactV::Present(
                                vs@[i as int].1,
                            ));
                            assert(vs@[i2] == vs@[i as int]);
                        }
                    }
                    r.push(vs[i].0);
                    proof {
                        assert(r@.no_duplicates()) by {
                            assert forall|w1: int, w2: int|
                                0 <= w1 < r@.len() && 0 <= w2 < r@.len() && w1 != w2 implies r@[w1]
                                != r@[w2] by {
                                if w1 < rpre.len() && w2 < rpre.len() {
                                } else {
                                    assert(!rpre.contains(vs@[i as int].0));
                                }
                            }
                        }
                        assert forall|k: PublicKey| r@.contains(k) implies exists|i2: int|
                            0 <= i2 < i + 1 && (#[trigger] vs@[i2]).0 == k && vs@[i2].1
                                is Reject by {
                            let w = choose|w: int| 0 <= w < r@.len() && r@[w] == k;
                            if w < rpre.len() {
                                assert(rpre.contains(k));
                            } else {
                                assert(vs@[i as int].0 == k);
                            }
                        }
                        assert forall|k: PublicKey|
                            (exists|i2: int|
                                0 <= i2 < i + 1 && (#[trigger] vs@[i2]).0 == k && vs@[i2].1
                                    is Reject) implies r@.contains(k) by {
                            let i2 = choose|i2: int|
                                0 <= i2 < i + 1 && (#[trigger] vs@[i2]).0 == k && vs@[i2].1
                                    is Reject;
                            if i2 < i {
                                assert(rpre.contains(k));
                                let w = choose|w: int| 0 <= w < rpre.len() && rpre[w] == k;
                                assert(r@[w] == k);
                            } else {
                                assert(r@[r@.len() - 1] == k);
                            }
                        }
                    }
                },
                Verdict::Accept(_) => {
                    proof {
                        assert forall|k: PublicKey|
                            (exists|i2: int|
                                0 <= i2 < i + 1 && (#[trigger] vs@[i2]).0 == k && vs@[i2].1
                                    is Reject) implies r@.contains(k) by {
                            let i2 = choose|i2: int|
                                0 <= i2 < i + 1 && (#[trigger] vs@[i2]).0 == k && vs@[i2].1
                                    is Reject;
                            assert(i2 < i);
                        }
                    }
                },
            }
            i += 1;
        }
        proof {
            assert forall|k: PublicKey| r@.contains(k) implies (self@.verdicts.dom().contains(k)
                && self@.verdicts[k].0 == RedactV::Present(Verdict::Reject)) by {
                let i2 = choose|i2: int|
                    0 <= i2 < n && (#[trigger] vs@[i2]).0 == k && vs@[i2].1 is Reject;
                assert(vs@.contains(vs@[i2]));
            }
            assert forall|k: PublicKey|
                self@.verdicts.dom().contains(k) && self@.verdicts[k].0 == RedactV::Present(
                    Verdict::Reject,
                ) implies r@.contains(k) by {
                assert(vs@.contains((k, Verdict::Reject)));
                let i2 = choose|i2: int|
                    0 <= i2 < vs@.len() && vs@[i2] == (k, Verdict::Reject);
                assert(vs@[i2].0 == k && vs@[i2].1 is Reject);
            }
        }
        r
    }

    /// The accepting signatures collected so far, one per accepting
    /// delegate.
    pub fn signatures(&self) -> (r: Vec<(PublicKey, Signature)>)
        requires
            self.wf(),
        ensures
            r@.no_duplicates(),
            forall|p: (PublicKey, Signature)|
                r@.contains(p) <==> (self@.verdicts.dom().contains(p.0) && self@.verdicts[p.0].0
                    == RedactV::Present(Verdict::Accept(p.1))),
    {
        let vs = self.verdicts();
        let n = vs.len();
        let mut r: Vec<(PublicKey, Signature)> = Vec::new();
        let mut i: usize = 0;
        while i < n
            invariant
                self.wf(),
                n == vs@.len(),
                i <= n,
                vs@.no_duplicates(),
                forall|p: (PublicKey, Verdict)|
                    vs@.contains(p) <==> (self@.verdicts.dom().contains(p.0)
                        && self@.verdicts[p.0].0 == RedactV::Present(p.1)),
                forall|p: (PublicKey, Signature)|
                    r@.contains(p) <==> exists|i2: int|
                        0 <= i2 < i && (#[trigger] vs@[i2]).0 == p.0 && vs@[i2].1
                            == Verdict::Accept(p.1),
                r@.no_duplicates(),
            decreases n - i,
        {
            let ghost rpre = r@;
            match vs[i].1 {
                Verdict::Accept(sig) => {
                    proof {
                        if rpre.contains((vs@[i as int].0, sig)) {
                            let i2 = choose|i2: int|
                                0 <= i2 < i && (#[trigger] vs@[i2]).0 == vs@[i as int].0
                                    && vs@[i2].1 == Verdict::Accept(sig);
                            assert(vs@.contains(vs@[i2]));
                            assert(vs@.contains(vs@[i as int]));
                            assert(self@.verdicts[vs@[i2].0].0 == RedactV::Present(vs@[i2].1));
                            assert(self@.verdicts[vs@[i as int].0].0 == RedactV::Present(
                                vs@[i as int].1,
                            ));
                            assert(vs@[i2] == vs@[i as int]);
                        }
                    }
                    r.push((vs[i].0, sig));
                    proof {
                        assert(r@.no_duplicates()) by {
                            assert forall|w1: int, w2: int|
                                0 <= w1 < r@.len() && 0 <= w2 < r@.len() && w1 != w2 implies r@[w1]
                                != r@[w2] by {
                                if w1 < rpre.len() && w2 < rpre.len() {
                                } else {
                                    assert(!rpre.contains((vs@[i as int].0, sig)));
                                }
                            }
                        }
                        assert forall|p: (PublicKey, Signature)| r@.contains(p) implies exists|
                            i2: int,
                        |
                            0 <= i2 < i + 1 && (#[trigger] vs@[i2]).0 == p.0 && vs@[i2].1
                                == Verdict::Accept(p.1) by {
                            let w = choose|w: int| 0 <= w < r@.len() && r@[w] == p;
                            if w < rpre.len() {
                                assert(rpre.contains(p));
                            } else {
                                assert(vs@[i as int].0 == p.0);
                            }
                        }
                        assert forall|p: (PublicKey, Signature)|
                            (exists|i2: int|
                                0 <= i2 < i + 1 && (#[trigger] vs@[i2]).0 == p.0 && vs@[i2].1
                                    == Verdict::Accept(p.1)) implies r@.contains(p) by {
                            let i2 = choose|i2: int|
                                0 <= i2 < i + 1 && (#[trigger] vs@[i2]).0 == p.0 && vs@[i2].1
                                    == Verdict::Accept(p.1);
                            if i2 < i {
                                assert(rpre.contains(p));
                                let w = choose|w: int| 0 <= w < rpre.len() && rpre[w] == p;
                                assert(r@[w] == p);
                            } else {
                                assert(r@[r@.len() - 1] == p);
                            }
                        }
                    }
                },
                Verdict::Reject => {
                    proof {
                        assert forall|p: (PublicKey, Signature)|
                            (exists|i2: int|
                                0 <= i2 < i + 1 && (#[trigger] vs@[i2]).0 == p.0 && vs@[i2].1
                                    == Verdict::Accept(p.1)) implies r@.contains(p) by {
                            let i2 = choose|i2: int|
                                0 <= i2 < i + 1 && (#[trigger] vs@[i2]).0 == p.0 && vs@[i2].1
                                    == Verdict::Accept(p.1);
                            assert(i2 < i);
                        }
                    }
                },
            }
            i += 1;
        }
        proof {
            assert forall|p: (PublicKey, Signature)| r@.contains(p) implies (
            self@.verdicts.dom().contains(p.0) && self@.verdicts[p.0].0 == RedactV::Present(
                Verdict::Accept(p.1),
            )) by {
                let i2 = choose|i2: int|
                    0 <= i2 < n && (#[trigger] vs@[i2]).0 == p.0 && vs@[i2].1 == Verdict::Accept(
                        p.1,
                    );
                assert(vs@.contains(vs@[i2]));
            }
            assert forall|p: (PublicKey, Signature)|
                self@.verdicts.dom().contains(p.0) && self@.verdicts[p.0].0 == RedactV::Present(
                    Verdict::Accept(p.1),
                ) implies r@.contains(p) by {
                assert(vs@.contains((p.0, Verdict::Accept(p.1))));
                let i2 = choose|i2: int|
                    0 <= i2 < vs@.len() && vs@[i2] == (p.0, Verdict::Accept(p.1));
                assert(vs@[i2].0 == p.0 && vs@[i2].1 == Verdict::Accept(p.1));
            }
        }
        r
    }

    /// Whether the count of current non-redacted accepting verdicts reaches
    /// the signature threshold carried by the previous identity's document.
    pub fn reaches_quorum(&self) -> (r: bool)
        requires
            self.wf(),
        ensures
            r == (accept_set(self@.verdicts).len() >= self@.previous.doc.threshold),
    {
        let votes = self.accepted();
        proof {
            votes@.unique_seq_to_set();
            assert(votes@.to_set() =~= accept_set(self@.verdicts));
        }
        votes.len() >= self.previous.doc.threshold
    }

    /// Record an accepting verdict with its signature, by last-writer-wins.
    fn accept(&mut self, key: PublicKey, signature: Signature, clock: u64)
        requires
            old(self).wf(),
        ensures
            final(self).wf(),
            final(self)@ == (RevisionV {
                verdicts: verdict_put(
                    old(self)@.verdicts,
                    key,
                    (RedactV::Present(Verdict::Accept(signature)), clock),
                ),
                ..old(self)@
            }),
    {
        self.put_verdict(key, Redactable::Present(Verdict::Accept(signature)), clock);
    }

    /// Record a rejecting verdict, by last-writer-wins.
    fn reject(&mut self, key: PublicKey, clock: u64)
        requires
            old(self).wf(),
        ensures
            final(self).wf(),
            final(self)@ == (RevisionV {
                verdicts: verdict_put(
                    old(self)@.verdicts,
                    key,
                    (RedactV::Present(Verdict::Reject), clock),
                ),
                ..old(self)@
            }),
    {
        self.put_verdict(key, Redactable::Present(Verdict::Reject), clock);
    }

    /// Merge one verdict cell into the map, by last-writer-wins.
    fn put_verdict(&mut self, key: PublicKey, verdict: Redactable<Verdict>, clock: u64)
        requires
            old(self).wf(),
        ensures
            final(self).wf(),
            final(self)@ == (RevisionV {
                verdicts: verdict_put(
                    old(self)@.verdicts,
                    key,
                    verdict_cell_view((verdict, clock)),
                ),
                ..old(self)@
            }),
    {
        match self.verdicts.take(&key) {
            Some(mine) => {
                let merged = cell_merge(mine, (verdict, clock));
                self.verdicts.put(key, merged);
            },
            None => {
                self.verdicts.put(key, (verdict, clock));
            },
        }
        proof {
            assert(self@.verdicts =~= verdict_put(
                old(self)@.verdicts,
                key,
                verdict_cell_view((verdict, clock)),
            ));
        }
    }

    /// Merge a replica's copy of this revision: the discussions and the
    /// verdicts merge as replicated state; the content-derived immutable
    /// fields stay as known.
    pub fn merge(&mut self, other: Revision)
        requires
            old(self).wf(),
            other.wf(),
        ensures
            final(self).wf(),
            final(self)@ == revision_join(old(self)@, other@),
    {
        let ghost self0 = self@;
        let ghost other0 = other@;
        self.discussion.merge(other.discussion);
        let n = other.verdicts.len();
        let mut i: usize = 0;
        proof {
            other.verdicts.lemma_sorted();
        }
        while i < n
            invariant
                self.wf(),
                other.verdicts.wf(),
                n == other.verdicts.sseq().len(),
                i <= n,
                self@.author == self0.author,
                self@.previous == self0.previous,
                self@.proposed == self0.proposed,
                self@.timestamp == self0.timestamp,
                self@.discussion == thread::thread_join(self0.discussion, other0.discussion),
                forall|i2: int, j2: int|
                    0 <= i2 < j2 < other.verdicts.sseq().len() ==> (
                    #[trigger] other.verdicts.sseq()[i2]).0.le(
                        (#[trigger] other.verdicts.sseq()[j2]).0,
                    ) && other.verdicts.sseq()[i2].0 != other.verdicts.sseq()[j2].0,
                forall|i2: int|
                    0 <= i2 < other.verdicts.sseq().len() ==> other0.verdicts.dom().contains(
                        (#[trigger] other.verdicts.sseq()[i2]).0,
                    ) && other0.verdicts[other.verdicts.sseq()[i2].0] == verdict_cell_view(
                        other.verdicts.sseq()[i2].1,
                    ),
                forall|k: PublicKey|
                    other0.verdicts.dom().contains(k) ==> exists|i2: int|
                        0 <= i2 < other.verdicts.sseq().len() && (
                        #[trigger] other.verdicts.sseq()[i2]).0 == k,
                forall|k: PublicKey|
                    !(#[trigger] verdict_prefix_keys(other.verdicts.sseq(), i as int).contains(k))
                        ==> (self@.verdicts.dom().contains(k) <==> self0.verdicts.dom().contains(
                        k,
                    )) && (self0.verdicts.dom().contains(k) ==> self@.verdicts[k]
                        == self0.verdicts[k]),
                forall|k: PublicKey|
                    #[trigger] verdict_prefix_keys(other.verdicts.sseq(), i as int).contains(k)
                        ==> self@.verdicts.dom().contains(k) && self@.verdicts[k] == verdicts_join(
                        self0.verdicts,
                        other0.verdicts,
                    )[k],
            decreases n - i,
        {
            let entry = *other.verdicts.get_index(i);
            let k = entry.0;
            let cell = entry.1;
            let ghost selfpre = self@;
            match self.verdicts.take(&k) {
                Some(mine) => {
                    let merged = cell_merge(mine, cell);
                    self.verdicts.put(k, merged);
                },
                None => {
                    self.verdicts.put(k, cell);
                },
            }
            proof {
                let ghost sq = other.verdicts.sseq();
                assert(verdict_prefix_keys(sq, i + 1) =~= verdict_prefix_keys(
                    sq,
                    i as int,
                ).insert(k)) by {
                    assert forall|k2: PublicKey|
                        verdict_prefix_keys(sq, i + 1).contains(k2) implies verdict_prefix_keys(
                        sq,
                        i as int,
                    ).insert(k).contains(k2) by {
                        let i2 = choose|i2: int| 0 <= i2 < i + 1 && (#[trigger] sq[i2]).0 == k2;
                        if i2 < i {
                            assert(verdict_prefix_keys(sq, i as int).contains(k2));
                        }
                    }
                    assert forall|k2: PublicKey|
                        verdict_prefix_keys(sq, i as int).insert(k).contains(k2)
                        implies verdict_prefix_keys(sq, i + 1).contains(k2) by {
                        if k2 == k {
                            assert(sq[i as int].0 == k2);
                        } else {
                            let i2 = choose|i2: int| 0 <= i2 < i && (#[trigger] sq[i2]).0 == k2;
                            assert(sq[i2].0 == k2);
                        }
                    }
                }
                assert(!verdict_prefix_keys(sq, i as int).contains(k)) by {
                    if verdict_prefix_keys(sq, i as int).contains(k) {
                        let i2 = choose|i2: int| 0 <= i2 < i && (#[trigger] sq[i2]).0 == k;
                        assert(sq[i2].0 != sq[i as int].0);
                    }
                }
                assert(other0.verdicts.dom().contains(k));
                assert(other0.verdicts[k] == verdict_cell_view(cell));
                assert(self@.verdicts =~= selfpre.verdicts.insert(
                    k,
                    verdicts_join(self0.verdicts, other0.verdicts)[k],
                ));
            }
            i += 1;
        }
        proof {
            let ghost sq = other.verdicts.sseq();
            assert forall|k: PublicKey| #[trigger] verdict_prefix_keys(sq, n as int).contains(k)
                <==> other0.verdicts.dom().contains(k) by {
                if verdict_prefix_keys(sq, n as int).contains(k) {
                    let i2 = choose|i2: int| 0 <= i2 < n && (#[trigger] sq[i2]).0 == k;
                    assert(other0.verdicts.dom().contains(sq[i2].0));
                }
                if other0.verdicts.dom().contains(k) {
                    let i2 = choose|i2: int| 0 <= i2 < sq.len() && (#[trigger] sq[i2]).0 == k;
                    assert(verdict_prefix_keys(sq, n as int).contains(k));
                }
            }
            assert(self@.verdicts =~= verdicts_join(self0.verdicts, other0.verdicts)) by {
                assert forall|k: PublicKey|
                    #![trigger self@.verdicts.dom().contains(k)]
                    #![trigger verdicts_join(self0.verdicts, other0.verdicts).dom().contains(k)]
                    true implies (self@.verdicts.dom().contains(k) <==> verdicts_join(
                    self0.verdicts,
                    other0.verdicts,
                ).dom().contains(k)) && (self@.verdicts.dom().contains(k) ==> self@.verdicts[k]
                    == verdicts_join(self0.verdicts, other0.verdicts)[k]) by {
                    if verdict_prefix_keys(sq, n as int).contains(k) {
                    } else {
                        assert(!other0.verdicts.dom().contains(k));
                    }
                }
            }
            assert(self@ == revision_join(self0, other0));
        }
    }
}


/// The summary of a published proposal.
#[derive(Clone, Debug, PartialEq, Eq)]
pub struct Published {
    pub title: String,
    pub description: Option<String>,
}

/// Propose a new document for an identity. The proposal can be reviewed by
/// gathering signatures for accepting the changes, or rejecting them. Once
/// a proposal has reached the quorum threshold of the previous identity it
/// may be published, which closes it permanently.
#[derive(Clone, Debug, PartialEq, Eq)]
pub struct Proposal {
    /// Title of the proposal.
    title: LWWReg<Max<String>>,
    /// Description of the proposal.
    description: LWWReg<Max<String>>,
    /// The revisions of this proposal, behind the publication gate.
    revisions: Gate<GMap<RevisionId, Redactable<Revision>>>,
}

impl View for Proposal {
    type V = ProposalV;

    closed spec fn view(&self) -> ProposalV {
        ProposalV {
            title: self.title@,
            description: self.description@,
            revisions: match self.revisions.0 {
                Some(m) => Some(revisions_view(m)),
                None => None,
            },
        }
    }
}

impl Proposal {
    /// The backing containers are well-formed.
    pub closed spec fn wf(self) -> bool {
        match self.revisions.0 {
            Some(m) => m.wf() && forall|k: RevisionId|
                m.as_map().dom().contains(k) ==> red_revision_wf(#[trigger] m.as_map()[k]),
            None => true,
        }
    }

    /// Whether the proposal has been published (its gate closed).
    pub fn is_published(&self) -> (r: bool)
        ensures
            r == (self@.revisions is None),
    {
        self.revisions.is_closed()
    }

    /// The most recent title for the proposal.
    pub fn title(&self) -> (r: &str)
        ensures
            r@ == self@.title.0,
    {
        self.title.text().as_str()
    }

    /// The most recent description for the proposal, if present.
    pub fn description(&self) -> (r: Option<&str>)
        ensures
            r is Some && r->0@ == self@.description.0,
    {
        Some(self.description.text().as_str())
    }

    /// The published summary, if the proposal has been published.
    pub fn published(&self) -> (r: Option<Published>)
        ensures
            match r {
                Some(p) => self@.revisions is None && p.title@ == self@.title.0 && (p.description
                    matches Some(d) && d@ == self@.description.0),
                None => self@.revisions is Some,
            },
    {
        if self.revisions.is_closed() {
            Some(
                Published {
                    title: self.title.text().clone(),
                    description: Some(self.description.text().clone()),
                },
            )
        } else {
            None
        }
    }

    /// A specific revision, which may be redacted; closed if the proposal
    /// is published.
    pub fn revision(&self, revision: &RevisionId) -> (r: Gate<Option<&Redactable<Revision>>>)
        requires
            self.wf(),
        ensures
            match self@.revisions {
                None => r.0 is None,
                Some(m) => r.0 is Some && (match r.0->0 {
                    Some(rr) => m.dom().contains(*revision) && red_revision_view(*rr)
                        == m[*revision],
                    None => !m.dom().contains(*revision),
                }),
            },
    {
        match self.revisions.get() {
            None => Gate(None),
            Some(m) => Gate(Some(m.get(revision))),
        }
    }

    /// All revisions that have not been redacted, in ascending identifier
    /// order (the order of the causal linearization's identifiers). Empty
    /// once the proposal is published.
    pub fn revisions(&self) -> (r: Vec<(RevisionId, &Revision)>)
        requires
            self.wf(),
        ensures
            forall|w1: int, w2: int|
                0 <= w1 < w2 < r@.len() ==> (#[trigger] r@[w1]).0.le((#[trigger] r@[w2]).0)
                    && r@[w1].0 != r@[w2].0,
            forall|w: int|
                0 <= w < r@.len() ==> (self@.revisions matches Some(m) && m.dom().contains(
                    (#[trigger] r@[w]).0,
                ) && m[r@[w].0] == RedactV::Present(r@[w].1@) && r@[w].1.wf()),
            self@.revisions matches Some(m) ==> forall|k: RevisionId|
                m.dom().contains(k) && (#[trigger] m[k]) is Present ==> exists|w: int|
                    0 <= w < r@.len() && (#[trigger] r@[w]).0 == k,
            self@.revisions is None ==> r@.len() == 0,
    {
        let mut r: Vec<(RevisionId, &Revision)> = Vec::new();
        match self.revisions.get() {
            None => r,
            Some(m) => {
                proof {
                    m.lemma_sorted();
                }
                let n = m.len();
                let mut i: usize = 0;
                while i < n
                    invariant
                        self.wf(),
                        self@.revisions == Some(revisions_view(*m)),
                        m.wf(),
                        forall|k: RevisionId|
                            m.as_map().dom().contains(k) ==> red_revision_wf(
                                #[trigger] m.as_map()[k],
                            ),
                        n == m.sseq().len(),
                        i <= n,
                        forall|i2: int, j2: int|
                            0 <= i2 < j2 < m.sseq().len() ==> (#[trigger] m.sseq()[i2]).0.le(
                                (#[trigger] m.sseq()[j2]).0,
                            ) && m.sseq()[i2].0 != m.sseq()[j2].0,
                        forall|i2: int|
                            0 <= i2 < m.sseq().len() ==> m.as_map().dom().contains(
                                (#[trigger] m.sseq()[i2]).0,
                            ) && m.as_map()[m.sseq()[i2].0] == m.sseq()[i2].1,
                        forall|k: RevisionId|
                            m.as_map().dom().contains(k) ==> exists|i2: int|
                                0 <= i2 < m.sseq().len() && (#[trigger] m.sseq()[i2]).0 == k,
                        forall|w: int|
                            0 <= w < r@.len() ==> exists|i2: int|
                                0 <= i2 < i && (#[trigger] m.sseq()[i2]).0 == (
                                #[trigger] r@[w]).0 && m.sseq()[i2].1 == Redactable::Present(
                                    *r@[w].1,
                                ),
                        forall|i2: int|
                            0 <= i2 < i && (#[trigger] m.sseq()[i2]).1 is Present ==> exists|
                                w: int,
                            |
                                0 <= w < r@.len() && (#[trigger] r@[w]).0 == m.sseq()[i2].0,
                        forall|w1: int, w2: int|
                            0 <= w1 < w2 < r@.len() ==> (#[trigger] r@[w1]).0.le(
                                (#[trigger] r@[w2]).0,
                            ) && r@[w1].0 != r@[w2].0,
                    decreases n - i,
                {
                    let entry = m.get_index(i);
                    let ghost rpre = r@;
                    match &entry.1 {
                        Redactable::Present(rev) => {
                            proof {
                                assert forall|w: int| 0 <= w < rpre.len() implies (
                                #[trigger] rpre[w]).0.le(entry.0) && rpre[w].0 != entry.0 by {
                                    let i2 = choose|i2: int|
                                        0 <= i2 < i && (#[trigger] m.sseq()[i2]).0 == rpre[w].0
                                            && m.sseq()[i2].1 == Redactable::Present(*rpre[w].1);
                                    assert(m.sseq()[i2].0.le(m.sseq()[i as int].0) && m.sseq()[
                                        i2].0 != m.sseq()[i as int].0);
                                }
                            }
                            r.push((entry.0, rev));
                            proof {
                                assert forall|i2: int|
                                    0 <= i2 < i + 1 && (#[trigger] m.sseq()[i2]).1 is Present
                                    implies exists|w: int|
                                    0 <= w < r@.len() && (#[trigger] r@[w]).0 == m.sseq()[i2].0 by {
                                    if i2 < i {
                                        let w = choose|w: int|
                                            0 <= w < rpre.len() && (#[trigger] rpre[w]).0
                                                == m.sseq()[i2].0;
                                        assert(r@[w].0 == m.sseq()[i2].0);
                                    } else {
                                        assert(r@[r@.len() - 1].0 == m.sseq()[i2].0);
                                    }
                                }
                            }
                        },
                        Redactable::Redacted => {
                            proof {
                                assert forall|i2: int|
                                    0 <= i2 < i + 1 && (#[trigger] m.sseq()[i2]).1 is Present
                                    implies exists|w: int|
                                    0 <= w < r@.len() && (#[trigger] r@[w]).0 == m.sseq()[i2].0 by {
                                    assert(i2 < i);
                                }
                            }
                        },
                    }
                    i += 1;
                }
                proof {
                    assert forall|w: int| 0 <= w < r@.len() implies (self@.revisions matches Some(
                        mv,
                    ) && mv.dom().contains((#[trigger] r@[w]).0) && mv[r@[w].0] == RedactV::Present(
                        r@[w].1@,
                    ) && r@[w].1.wf()) by {
                        let i2 = choose|i2: int|
                            0 <= i2 < i && (#[trigger] m.sseq()[i2]).0 == r@[w].0 && m.sseq()[i2].1 == Redactable::Present(*r@[w].1);
                        assert(m.as_map()[r@[w].0] == m.sseq()[i2].1);
                        assert(red_revision_wf(m.as_map()[r@[w].0]));
                    }
                    assert forall|k: RevisionId|
                        revisions_view(*m).dom().contains(k) && (#[trigger] revisions_view(
                            *m,
                        )[k]) is Present implies exists|w: int|
                        0 <= w < r@.len() && (#[trigger] r@[w]).0 == k by {
                        let i2 = choose|i2: int|
                            0 <= i2 < m.sseq().len() && (#[trigger] m.sseq()[i2]).0 == k;
                        assert(m.as_map()[k] == m.sseq()[i2].1);
                        assert(m.sseq()[i2].1 is Present);
                    }
                }
                r
            },
        }
    }

    /// The most recent non-redacted revision: the one with the greatest
    /// identifier.
    pub fn latest(&self) -> (r: Option<(RevisionId, &Revision)>)
        requires
            self.wf(),
        ensures
            match r {
                Some(p) => self@.revisions matches Some(m) && m.dom().contains(p.0) && m[p.0]
                    == RedactV::Present(p.1@) && p.1.wf() && (forall|k: RevisionId|
                    m.dom().contains(k) && (#[trigger] m[k]) is Present ==> k.le(p.0)),
                None => match self@.revisions {
                    Some(m) => forall|k: RevisionId|
                        m.dom().contains(k) ==> !((#[trigger] m[k]) is Present),
                    None => true,
                },
            },
    {
        let rs = self.revisions();
        if rs.len() == 0 {
            proof {
                if self@.revisions is Some {
                    let m = self@.revisions->0;
                    assert forall|k: RevisionId|
                        m.dom().contains(k) implies !((#[trigger] m[k]) is Present) by {
                        if m[k] is Present {
                            let w = choose|w: int| 0 <= w < rs@.len() && (#[trigger] rs@[w]).0 == k;
                        }
                    }
                }
            }
            None
        } else {
            let last = rs.len() - 1;
            let p = rs[last];
            proof {
                let m = self@.revisions->0;
                assert forall|k: RevisionId|
                    m.dom().contains(k) && (#[trigger] m[k]) is Present implies k.le(
                    rs@[last as int].0,
                ) by {
                    let w = choose|w: int| 0 <= w < rs@.len() && (#[trigger] rs@[w]).0 == k;
                    if w < last {
                        assert(rs@[w].0.le(rs@[last as int].0));
                    } else {
                        crate::keys::TotalOrder::reflexive(k);
                    }
                }
            }
            Some(p)
        }
    }

    /// The most recent non-redacted revision authored by `who`.
    pub fn latest_by(&self, who: &PublicKey) -> (r: Option<(RevisionId, &Revision)>)
        requires
            self.wf(),
        ensures
            match r {
                Some(p) => self@.revisions matches Some(m) && m.dom().contains(p.0) && m[p.0]
                    == RedactV::Present(p.1@) && p.1.wf() && p.1@.author == *who && (forall|
                    k: RevisionId,
                |
                    m.dom().contains(k) && ((#[trigger] m[k]) matches RedactV::Present(rv)
                        && rv.author == *who) ==> k.le(p.0)),
                None => match self@.revisions {
                    Some(m) => forall|k: RevisionId|
                        m.dom().contains(k) ==> !((#[trigger] m[k]) matches RedactV::Present(
                            rv,
                        ) && rv.author == *who),
                    None => true,
                },
            },
    {
        let rs = self.revisions();
        let n = rs.len();
        let mut j = n;
        while j > 0
            invariant
                self.wf(),
                n == rs@.len(),
                j <= n,
                forall|w1: int, w2: int|
                    0 <= w1 < w2 < rs@.len() ==> (#[trigger] rs@[w1]).0.le((#[trigger] rs@[w2]).0)
                        && rs@[w1].0 != rs@[w2].0,
                forall|w: int|
                    0 <= w < rs@.len() ==> (self@.revisions matches Some(m) && m.dom().contains(
                        (#[trigger] rs@[w]).0,
                    ) && m[rs@[w].0] == RedactV::Present(rs@[w].1@) && rs@[w].1.wf()),
                self@.revisions matches Some(m) ==> forall|k: RevisionId|
                    m.dom().contains(k) && (#[trigger] m[k]) is Present ==> exists|w: int|
                        0 <= w < rs@.len() && (#[trigger] rs@[w]).0 == k,
                forall|w: int| j <= w < rs@.len() ==> (#[trigger] rs@[w]).1@.author != *who,
            decreases j,
        {
            j = j - 1;
            let p = rs[j];
            if p.1.author_is(who) {
                proof {
                    let m = self@.revisions->0;
                    assert forall|k: RevisionId|
                        m.dom().contains(k) && ((#[trigger] m[k]) matches RedactV::Present(rv)
                            && rv.author == *who) implies k.le(rs@[j as int].0) by {
                        let w = choose|w: int| 0 <= w < rs@.len() && (#[trigger] rs@[w]).0 == k;
                        assert(rs@[w].1@.author == *who);
                        if w < j {
                            assert(rs@[w].0.le(rs@[j as int].0));
                        } else if w == j {
                            crate::keys::TotalOrder::reflexive(k);
                        } else {
                            assert(rs@[w].1@.author != *who);
                        }
                    }
                }
                return Some(p);
            }
        }
        proof {
            if self@.revisions is Some {
                let m = self@.revisions->0;
                assert forall|k: RevisionId|
                    m.dom().contains(k) implies !((#[trigger] m[k]) matches RedactV::Present(rv)
                        && rv.author == *who) by {
                    if m[k] matches RedactV::Present(rv) && rv.author == *who {
                        let w = choose|w: int| 0 <= w < rs@.len() && (#[trigger] rs@[w]).0 == k;
                        assert(rs@[w].1@.author == *who);
                    }
                }
            }
        }
        None
    }
}

impl Revision {
    /// Whether this revision's author is `who`.
    pub fn author_is(&self, who: &PublicKey) -> (r: bool)
        ensures
            r == (self@.author == *who),
    {
        self.author.key == who.key
    }
}

impl Default for Proposal {
    /// The empty proposal: empty title and description written at clock
    /// zero, and an open, empty revision map.
    fn default() -> (r: Self)
        ensures
            r.wf(),
            r@ == (ProposalV {
                title: (Seq::<char>::empty(), 0),
                description: (Seq::<char>::empty(), 0),
                revisions: Some(Map::<RevisionId, RedactV<RevisionV>>::empty()),
            }),
    {
        let r = Proposal {
            title: LWWReg::new(Max::new(String::new()), 0),
            description: LWWReg::new(Max::new(String::new()), 0),
            revisions: Gate::open(GMap::new()),
        };
        proof {
            r.title.lemma_view();
            r.title.spec_value().lemma_view();
            r.description.lemma_view();
            r.description.spec_value().lemma_view();
            assert(r@.revisions->0 =~= Map::<RevisionId, RedactV<RevisionV>>::empty());
        }
        r
    }
}


/// Copy a delegate list.
fn dup_keys(v: &Vec<PublicKey>) -> (r: Vec<PublicKey>)
    ensures
        r@ == v@,
{
    let n = v.len();
    let mut r: Vec<PublicKey> = Vec::new();
    let mut i: usize = 0;
    while i < n
        invariant
            n == v@.len(),
            i <= n,
            r@ == v@.take(i as int),
        decreases n - i,
    {
        r.push(v[i]);
        proof {
            assert(r@ =~= v@.take(i + 1));
        }
        i += 1;
    }
    proof {
        assert(v@.take(n as int) =~= v@);
    }
    r
}

/// Copy a signature list.
fn dup_sigs(v: &Vec<(PublicKey, Signature)>) -> (r: Vec<(PublicKey, Signature)>)
    ensures
        r@ == v@,
{
    let n = v.len();
    let mut r: Vec<(PublicKey, Signature)> = Vec::new();
    let mut i: usize = 0;
    while i < n
        invariant
            n == v@.len(),
            i <= n,
            r@ == v@.take(i as int),
        decreases n - i,
    {
        r.push(v[i]);
        proof {
            assert(r@ =~= v@.take(i + 1));
        }
        i += 1;
    }
    proof {
        assert(v@.take(n as int) =~= v@);
    }
    r
}

impl Doc {
    /// A copy of this document with the same model.
    pub fn duplicate(&self) -> (r: Doc)
        ensures
            r@ == self@,
    {
        Doc { threshold: self.threshold, delegates: dup_keys(&self.delegates) }
    }
}

impl Identity {
    /// A copy of this identity snapshot with the same model.
    pub fn duplicate(&self) -> (r: Identity)
        ensures
            r@ == self@,
    {
        Identity {
            head: self.head,
            root: self.root,
            current: self.current,
            revision: self.revision,
            doc: self.doc.duplicate(),
            signatures: dup_sigs(&self.signatures),
        }
    }
}

/// What applying one operation does to a proposal state. This is the sole
/// mutation path into a materialized proposal; every causal precondition
/// (a referenced revision must exist), every invariant (no mutation behind
/// a closed gate, no vote on a redacted revision), and every merge is
/// decided here.
pub open spec fn apply_op(s: ProposalV, op: OpV) -> Result<ProposalV, ApplyError> {
    match op.action {
        ActionV::Accept { revision, signature } => match s.revisions {
            None => Err(ApplyError::Published),
            Some(m) => {
                if !m.dom().contains(revision) {
                    Err(ApplyError::Missing(revision))
                } else {
                    match m[revision] {
                        RedactV::Redacted => Err(ApplyError::Redacted(revision)),
                        RedactV::Present(rv) => Ok(
                            ProposalV {
                                revisions: Some(
                                    m.insert(
                                        revision,
                                        RedactV::Present(
                                            RevisionV {
                                                verdicts: verdict_put(
                                                    rv.verdicts,
                                                    op.author,
                                                    (
                                                        RedactV::Present(
                                                            Verdict::Accept(signature),
                                                        ),
                                                        op.clock,
                                                    ),
                                                ),
                                                ..rv
                                            },
                                        ),
                                    ),
                                ),
                                ..s
                            },
                        ),
                    }
                }
            },
        },
        ActionV::Edit { title, description } => Ok(
            ProposalV {
                title: reg_join(s.title, (title, op.clock)),
                description: reg_join(s.description, (description, op.clock)),
                revisions: s.revisions,
            },
        ),
        ActionV::Publish => Ok(ProposalV { revisions: None, ..s }),
        ActionV::Redact { revision } => match s.revisions {
            None => Err(ApplyError::Published),
            Some(m) => {
                if !m.dom().contains(revision) {
                    Err(ApplyError::Missing(revision))
                } else {
                    Ok(ProposalV { revisions: Some(m.insert(revision, RedactV::Redacted)), ..s })
                }
            },
        },
        ActionV::Reject { revision } => match s.revisions {
            None => Err(ApplyError::Published),
            Some(m) => {
                if !m.dom().contains(revision) {
                    Err(ApplyError::Missing(revision))
                } else {
                    match m[revision] {
                        RedactV::Redacted => Err(ApplyError::Redacted(revision)),
                        RedactV::Present(rv) => Ok(
                            ProposalV {
                                revisions: Some(
                                    m.insert(
                                        revision,
                                        RedactV::Present(
                                            RevisionV {
                                                verdicts: verdict_put(
                                                    rv.verdicts,
                                                    op.author,
                                                    (RedactV::Present(Verdict::Reject), op.clock),
                                                ),
                                                ..rv
                                            },
                                        ),
                                    ),
                                ),
                                ..s
                            },
                        ),
                    }
                }
            },
        },
        ActionV::Revision { proposed, previous } => match s.revisions {
            None => Err(ApplyError::Published),
            Some(m) => {
                let nv = RevisionV {
                    author: op.author,
                    previous,
                    proposed,
                    discussion: Map::empty(),
                    verdicts: Map::empty(),
                    timestamp: op.timestamp,
                };
                let entry = if m.dom().contains(op.id) {
                    red_join(revision_join_fn(), m[op.id], RedactV::Present(nv))
                } else {
                    RedactV::Present(nv)
                };
                Ok(ProposalV { revisions: Some(m.insert(op.id, entry)), ..s })
            },
        },
        ActionV::Thread { revision, action } => match s.revisions {
            None => Err(ApplyError::Published),
            Some(m) => {
                if !m.dom().contains(revision) {
                    Err(ApplyError::Missing(revision))
                } else {
                    match m[revision] {
                        RedactV::Redacted => Err(ApplyError::Redacted(revision)),
                        RedactV::Present(rv) => match thread::thread_apply(
                            rv.discussion,
                            op.id,
                            op.author,
                            action,
                        ) {
                            Ok(d) => Ok(
                                ProposalV {
                                    revisions: Some(
                                        m.insert(
                                            revision,
                                            RedactV::Present(RevisionV { discussion: d, ..rv }),
                                        ),
                                    ),
                                    ..s
                                },
                            ),
                            Err(e) => Err(ApplyError::Thread(e)),
                        },
                    }
                }
            },
        },
    }
}

/// The models of a sequence of operations.
pub open spec fn ops_view(ops: Seq<Op<Action>>) -> Seq<OpV> {
    ops.map_values(|o: Op<Action>| o@)
}

/// Folding a sequence of operations over a proposal state: the state after
/// the longest successfully applied prefix, and the first error, if any.
/// Application halts at the first failing operation.
pub open spec fn apply_ops(s: ProposalV, ops: Seq<OpV>) -> (ProposalV, Option<ApplyError>)
    decreases ops.len(),
{
    if ops.len() == 0 {
        (s, None)
    } else {
        match apply_op(s, ops[0]) {
            Ok(s2) => apply_ops(s2, ops.skip(1)),
            Err(e) => (s, Some(e)),
        }
    }
}

/// Folding a concatenation folds the parts in order, stopping at the first
/// error.
pub proof fn lemma_apply_ops_concat(s: ProposalV, a: Seq<OpV>, b: Seq<OpV>)
    ensures
        apply_ops(s, a + b) == (if apply_ops(s, a).1 is Some {
            apply_ops(s, a)
        } else {
            apply_ops(apply_ops(s, a).0, b)
        }),
    decreases a.len(),
{
    if a.len() == 0 {
        assert(a + b =~= b);
    } else {
        assert((a + b)[0] == a[0]);
        assert((a + b).skip(1) =~= a.skip(1) + b);
        match apply_op(s, a[0]) {
            Ok(s2) => {
                lemma_apply_ops_concat(s2, a.skip(1), b);
            },
            Err(_) => {
                if b.len() > 0 {
                }
            },
        }
    }
}


impl Proposal {
    /// Apply a single operation. On failure the state is unchanged.
    fn apply_one(&mut self, op: &Op<Action>) -> (r: Result<(), ApplyError>)
        requires
            old(self).wf(),
        ensures
            final(self).wf(),
            match r {
                Ok(()) => apply_op(old(self)@, op@) == Ok::<ProposalV, ApplyError>(final(self)@),
                Err(e) => apply_op(old(self)@, op@) == Err::<ProposalV, ApplyError>(e)
                    && final(self)@ == old(self)@,
            },
    {
        match &op.action {
            Action::Accept { revision, signature } => {
                match self.revisions.0.take() {
                    None => Err(ApplyError::Published),
                    Some(mut m) => {
                        let ghost m0 = m;
                        match m.take(revision) {
                            None => {
                                self.revisions = Gate(Some(m));
                                Err(ApplyError::Missing(*revision))
                            },
                            Some(Redactable::Redacted) => {
                                m.put(*revision, Redactable::Redacted);
                                self.revisions = Gate(Some(m));
                                proof {
                                    assert(m.as_map() =~= m0.as_map());
                                    assert(revisions_view(m) =~= revisions_view(m0));
                                    assert(self@ == old(self)@);
                                }
                                Err(ApplyError::Redacted(*revision))
                            },
                            Some(Redactable::Present(mut rev)) => {
                                proof {
                                    assert(red_revision_wf(m0.as_map()[*revision]));
                                }
                                rev.accept(op.author, *signature, op.clock);
                                m.put(*revision, Redactable::Present(rev));
                                self.revisions = Gate(Some(m));
                                proof {
                                    assert(revisions_view(m) =~= revisions_view(m0).insert(
                                        *revision,
                                        red_revision_view(Redactable::Present(rev)),
                                    ));
                                    assert(self@ == apply_op(old(self)@, op@)->Ok_0);
                                }
                                Ok(())
                            },
                        }
                    },
                }
            },
            Action::Edit { title, description } => {
                let mt = Max::new(title.clone());
                let md = Max::new(description.clone());
                proof {
                    mt.lemma_view();
                    md.lemma_view();
                }
                self.title.set(mt, op.clock);
                self.description.set(md, op.clock);
                proof {
                    assert(self@ == apply_op(old(self)@, op@)->Ok_0);
                }
                Ok(())
            },
            Action::Publish => {
                self.revisions.close();
                Ok(())
            },
            Action::Redact { revision } => {
                match self.revisions.0.take() {
                    None => Err(ApplyError::Published),
                    Some(mut m) => {
                        let ghost m0 = m;
                        match m.take(revision) {
                            None => {
                                self.revisions = Gate(Some(m));
                                Err(ApplyError::Missing(*revision))
                            },
                            Some(_) => {
                                m.put(*revision, Redactable::Redacted);
                                self.revisions = Gate(Some(m));
                                proof {
                                    assert(revisions_view(m) =~= revisions_view(m0).insert(
                                        *revision,
                                        RedactV::Redacted,
                                    ));
                                    assert(self@ == apply_op(old(self)@, op@)->Ok_0);
                                }
                                Ok(())
                            },
                        }
                    },
                }
            },
            Action::Reject { revision } => {
                match self.revisions.0.take() {
                    None => Err(ApplyError::Published),
                    Some(mut m) => {
                        let ghost m0 = m;
                        match m.take(revision) {
                            None => {
                                self.revisions = Gate(Some(m));
                                Err(ApplyError::Missing(*revision))
                            },
                            Some(Redactable::Redacted) => {
                                m.put(*revision, Redactable::Redacted);
                                self.revisions = Gate(Some(m));
                                proof {
                                    assert(m.as_map() =~= m0.as_map());
                                    assert(revisions_view(m) =~= revisions_view(m0));
                                    assert(self@ == old(self)@);
                                }
                                Err(ApplyError::Redacted(*revision))
                            },
                            Some(Redactable::Present(mut rev)) => {
                                proof {
                                    assert(red_revision_wf(m0.as_map()[*revision]));
                                }
                                rev.reject(op.author, op.clock);
                                m.put(*revision, Redactable::Present(rev));
                                self.revisions = Gate(Some(m));
                                proof {
                                    assert(revisions_view(m) =~= revisions_view(m0).insert(
                                        *revision,
                                        red_revision_view(Redactable::Present(rev)),
                                    ));
                                    assert(self@ == apply_op(old(self)@, op@)->Ok_0);
                                }
                                Ok(())
                            },
                        }
                    },
                }
            },
            Action::Revision { proposed, previous } => {
                match self.revisions.0.take() {
                    None => Err(ApplyError::Published),
                    Some(mut m) => {
                        let ghost m0 = m;
                        let fresh = Revision::new(
                            op.author,
                            previous.duplicate(),
                            proposed.duplicate(),
                            op.timestamp,
                        );
                        match m.take(&op.id) {
                            None => {
                                m.put(op.id, Redactable::Present(fresh));
                                self.revisions = Gate(Some(m));
                                proof {
                                    assert(revisions_view(m) =~= revisions_view(m0).insert(
                                        op.id,
                                        red_revision_view(Redactable::Present(fresh)),
                                    ));
                                    assert(self@ == apply_op(old(self)@, op@)->Ok_0);
                                }
                                Ok(())
                            },
                            Some(Redactable::Redacted) => {
                                m.put(op.id, Redactable::Redacted);
                                self.revisions = Gate(Some(m));
                                proof {
                                    assert(revisions_view(m) =~= revisions_view(m0).insert(
                                        op.id,
                                        RedactV::Redacted,
                                    ));
                                    assert(self@ == apply_op(old(self)@, op@)->Ok_0);
                                }
                                Ok(())
                            },
                            Some(Redactable::Present(mut rev)) => {
                                proof {
                                    assert(red_revision_wf(m0.as_map()[op.id]));
                                }
                                rev.merge(fresh);
                                m.put(op.id, Redactable::Present(rev));
                                self.revisions = Gate(Some(m));
                                proof {
                                    assert(revisions_view(m) =~= revisions_view(m0).insert(
                                        op.id,
                                        red_revision_view(Redactable::Present(rev)),
                                    ));
                                    assert(self@ == apply_op(old(self)@, op@)->Ok_0);
                                }
                                Ok(())
                            },
                        }
                    },
                }
            },
            Action::Thread { revision, action } => {
                match self.revisions.0.take() {
                    None => Err(ApplyError::Published),
                    Some(mut m) => {
                        let ghost m0 = m;
                        match m.take(revision) {
                            None => {
                                self.revisions = Gate(Some(m));
                                Err(ApplyError::Missing(*revision))
                            },
                            Some(Redactable::Redacted) => {
                                m.put(*revision, Redactable::Redacted);
                                self.revisions = Gate(Some(m));
                                proof {
                                    assert(m.as_map() =~= m0.as_map());
                                    assert(revisions_view(m) =~= revisions_view(m0));
                                    assert(self@ == old(self)@);
                                }
                                Err(ApplyError::Redacted(*revision))
                            },
                            Some(Redactable::Present(mut rev)) => {
                                proof {
                                    assert(red_revision_wf(m0.as_map()[*revision]));
                                }
                                let taction = match action {
                                    thread::Action::Comment { body, reply_to } => {
                                        thread::Action::Comment {
                                            body: body.clone(),
                                            reply_to: *reply_to,
                                        }
                                    },
                                };
                                let top = Op {
                                    id: op.id,
                                    author: op.author,
                                    clock: op.clock,
                                    timestamp: op.timestamp,
                                    action: taction,
                                };
                                let res = rev.discussion.apply(&top);
                                match res {
                                    Ok(()) => {
                                        m.put(*revision, Redactable::Present(rev));
                                        self.revisions = Gate(Some(m));
                                        proof {
                                            assert(revisions_view(m) =~= revisions_view(
                                                m0,
                                            ).insert(
                                                *revision,
                                                red_revision_view(Redactable::Present(rev)),
                                            ));
                                            assert(self@ == apply_op(old(self)@, op@)->Ok_0);
                                        }
                                        Ok(())
                                    },
                                    Err(e) => {
                                        m.put(*revision, Redactable::Present(rev));
                                        self.revisions = Gate(Some(m));
                                        proof {
                                            assert(m.as_map() =~= m0.as_map());
                                            assert(revisions_view(m) =~= revisions_view(m0));
                                            assert(self@ == old(self)@);
                                        }
                                        Err(ApplyError::Thread(e))
                                    },
                                }
                            },
                        }
                    },
                }
            },
        }
    }

    /// Apply a sequence of operations, in the given linearized order. This
    /// is the sole mutation path into a materialized proposal. Application
    /// halts at the first failing operation, leaving the state as the
    /// successfully applied prefix produced it.
    pub fn apply(&mut self, ops: &Vec<Op<Action>>) -> (r: Result<(), ApplyError>)
        requires
            old(self).wf(),
        ensures
            final(self).wf(),
            final(self)@ == apply_ops(old(self)@, ops_view(ops@)).0,
            r == (match apply_ops(old(self)@, ops_view(ops@)).1 {
                None => Ok::<(), ApplyError>(()),
                Some(e) => Err::<(), ApplyError>(e),
            }),
    {
        let n = ops.len();
        let mut i: usize = 0;
        while i < n
            invariant
                self.wf(),
                n == ops@.len(),
                i <= n,
                apply_ops(old(self)@, ops_view(ops@).take(i as int)) == (self@, None::<
                    ApplyError,
                >),
            decreases n - i,
        {
            let ghost pre = self@;
            let ghost vs = ops_view(ops@);
            let res = self.apply_one(&ops[i]);
            proof {
                assert(vs.take(i as int + 1) =~= vs.take(i as int) + seq![vs[i as int]]);
                lemma_apply_ops_concat(old(self)@, vs.take(i as int), seq![vs[i as int]]);
                assert(vs[i as int] == ops@[i as int]@);
                assert(seq![vs[i as int]].skip(1) =~= Seq::<OpV>::empty());
            }
            match res {
                Ok(()) => {
                    proof {
                        assert(apply_ops(self@, Seq::<OpV>::empty()) == (self@, None::<
                            ApplyError,
                        >));
                        assert(seq![vs[i as int]][0] == vs[i as int]);
                        assert(apply_ops(pre, seq![vs[i as int]]) == (self@, None::<ApplyError>));
                        assert(apply_ops(old(self)@, vs.take(i as int + 1)) == (self@, None::<
                            ApplyError,
                        >));
                    }
                },
                Err(e) => {
                    proof {
                        assert(vs =~= vs.take(i as int) + vs.skip(i as int));
                        lemma_apply_ops_concat(old(self)@, vs.take(i as int), vs.skip(i as int));
                        assert(vs.skip(i as int)[0] == vs[i as int]);
                        assert(apply_ops(old(self)@, vs) == (pre, Some(e)));
                    }
                    return Err(e);
                },
            }
            i += 1;
        }
        proof {
            assert(ops_view(ops@).take(n as int) =~= ops_view(ops@));
        }
        Ok(())
    }
}


impl Proposal {
    /// Publish the document found at the given revision, recording `current`
    /// as the content address the storage collaborator produced for it.
    ///
    /// This is the consensus checkpoint: it fails if the revision is
    /// missing, redacted, already published, or if the accepting signatures
    /// do not reach the quorum threshold. On success the new identity
    /// snapshot advances the previous identity's revision counter and
    /// carries the accepting signatures.
    pub fn publish(&self, revision: &RevisionId, current: Oid) -> (r: Result<
        Identity,
        PublishError,
    >)
        requires
            self.wf(),
            (self@.revisions matches Some(m) && m.dom().contains(*revision) && (m[*revision]
                matches RedactV::Present(rv) ==> rv.previous.revision < u64::MAX)) || !(
            self@.revisions matches Some(m2) && m2.dom().contains(*revision)),
        ensures
            match r {
                Ok(id) => self@.revisions matches Some(m) && m.dom().contains(*revision) && (
                m[*revision] matches RedactV::Present(rv) && accept_set(rv.verdicts).len()
                    >= rv.previous.doc.threshold && id@.head == current && id@.current == current
                    && id@.root == rv.previous.root && id@.revision == rv.previous.revision + 1
                    && id@.doc == rv.proposed && id@.signatures.no_duplicates() && (forall|
                    p: (PublicKey, Signature),
                |
                    id@.signatures.contains(p) <==> (rv.verdicts.dom().contains(p.0)
                        && rv.verdicts[p.0].0 == RedactV::Present(Verdict::Accept(p.1))))),
                Err(e) => match self@.revisions {
                    None => e == PublishError::Published(*revision),
                    Some(m) => {
                        if !m.dom().contains(*revision) {
                            e == PublishError::Missing(*revision)
                        } else {
                            match m[*revision] {
                                RedactV::Redacted => e == PublishError::Redacted(*revision),
                                RedactV::Present(rv) => accept_set(rv.verdicts).len()
                                    < rv.previous.doc.threshold && e == PublishError::Quorum(
                                    rv.proposed.threshold as usize,
                                ),
                            }
                        }
                    },
                },
            },
    {
        match self.revisions.get() {
            None => Err(PublishError::Published(*revision)),
            Some(m) => {
                match m.get(revision) {
                    None => Err(PublishError::Missing(*revision)),
                    Some(Redactable::Redacted) => Err(PublishError::Redacted(*revision)),
                    Some(Redactable::Present(rev)) => {
                        proof {
                            assert(red_revision_wf(m.as_map()[*revision]));
                            assert(revisions_view(*m)[*revision] == RedactV::Present(rev@));
                        }
                        if !rev.reaches_quorum() {
                            return Err(PublishError::Quorum(rev.proposed.threshold));
                        }
                        let sigs = rev.signatures();
                        Ok(
                            Identity {
                                head: current,
                                root: rev.previous.root,
                                current,
                                revision: rev.previous.revision + 1,
                                doc: rev.proposed.duplicate(),
                                signatures: sigs,
                            },
                        )
                    },
                }
            },
        }
    }

    /// Merge a replica's proposal state into this one. Titles and
    /// descriptions resolve by last-writer-wins, the revision maps merge
    /// entry by entry, and a closed publication gate absorbs any
    /// concurrently open state.
    pub fn merge(&mut self, other: Proposal)
        requires
            old(self).wf(),
            other.wf(),
        ensures
            final(self).wf(),
            final(self)@ == proposal_join(old(self)@, other@),
    {
        let Proposal { title: otitle, description: odesc, revisions: orevs } = other;
        self.title.merge(otitle);
        self.description.merge(odesc);
        match self.revisions.0.take() {
            None => {},
            Some(mut mine) => {
                match orevs.0 {
                    None => {},
                    Some(theirs) => {
                        merge_revision_maps(&mut mine, theirs);
                        self.revisions = Gate(Some(mine));
                    },
                }
            },
        }
    }
}

/// Merge the entries of `other` into `mine`: the union of the revisions,
/// shared identifiers merged revision by revision, a redaction absorbing.
fn merge_revision_maps(
    mine: &mut GMap<RevisionId, Redactable<Revision>>,
    other: GMap<RevisionId, Redactable<Revision>>,
)
    requires
        old(mine).wf(),
        forall|k: RevisionId|
            old(mine).as_map().dom().contains(k) ==> red_revision_wf(
                #[trigger] old(mine).as_map()[k],
            ),
        other.wf(),
        forall|k: RevisionId|
            other.as_map().dom().contains(k) ==> red_revision_wf(#[trigger] other.as_map()[k]),
    ensures
        final(mine).wf(),
        forall|k: RevisionId|
            final(mine).as_map().dom().contains(k) ==> red_revision_wf(
                #[trigger] final(mine).as_map()[k],
            ),
        revisions_view(*final(mine)) == revisions_join(
            revisions_view(*old(mine)),
            revisions_view(other),
        ),
{
    let ghost self0 = revisions_view(*mine);
    let ghost other0 = revisions_view(other);
    let mut other = other;
    let mut remaining = other.len();
    while remaining > 0
        invariant
            mine.wf(),
            other.wf(),
            forall|k: RevisionId|
                mine.as_map().dom().contains(k) ==> red_revision_wf(
                    #[trigger] mine.as_map()[k],
                ),
            forall|k: RevisionId|
                other.as_map().dom().contains(k) ==> red_revision_wf(
                    #[trigger] other.as_map()[k],
                ),
            remaining == other.sseq().len(),
            forall|k: RevisionId|
                #![trigger revisions_view(other).dom().contains(k)]
                revisions_view(other).dom().contains(k) ==> other0.dom().contains(k)
                    && revisions_view(other)[k] == other0[k],
            forall|k: RevisionId|
                #![trigger self0.dom().contains(k)]
                #![trigger revisions_view(*mine).dom().contains(k)]
                !other0.dom().contains(k) || revisions_view(other).dom().contains(k) ==> (
                revisions_view(*mine).dom().contains(k) <==> self0.dom().contains(k)) && (
                self0.dom().contains(k) ==> revisions_view(*mine)[k] == self0[k]),
            forall|k: RevisionId|
                #![trigger revisions_join(self0, other0).dom().contains(k)]
                other0.dom().contains(k) && !revisions_view(other).dom().contains(k)
                    ==> revisions_view(*mine).dom().contains(k) && revisions_view(*mine)[k]
                    == revisions_join(self0, other0)[k],
        decreases remaining,
    {
        let ghost minepre = revisions_view(*mine);
        let ghost otherpre = revisions_view(other);
        proof {
            other.lemma_sorted();
        }
        let k = other.get_index(0).0;
        let theirs = other.take(&k).unwrap();
        let ghost theirs_v = red_revision_view(theirs);
        let ghost merged_v = if minepre.dom().contains(k) {
            red_join(revision_join_fn(), minepre[k], theirs_v)
        } else {
            theirs_v
        };
        match mine.take(&k) {
            Some(my) => {
                let merged = match (my, theirs) {
                    (Redactable::Present(mut a), Redactable::Present(b)) => {
                        a.merge(b);
                        Redactable::Present(a)
                    },
                    _ => Redactable::Redacted,
                };
                mine.put(k, merged);
            },
            None => {
                mine.put(k, theirs);
            },
        }
        remaining = remaining - 1;
        proof {
            assert(revisions_view(other) =~= otherpre.remove(k));
            assert(revisions_view(*mine) =~= minepre.insert(k, merged_v));
            assert(otherpre.dom().contains(k) && otherpre[k] == theirs_v);
            assert(other0.dom().contains(k) && other0[k] == theirs_v);
            other.lemma_sorted();
            assert(other.as_map().dom().len() == remaining);
            assert(minepre.dom().contains(k) <==> self0.dom().contains(k));
            if self0.dom().contains(k) {
                assert(minepre[k] == self0[k]);
            }
            assert(revisions_view(*mine)[k] == revisions_join(self0, other0)[k]);
            assert forall|k2: RevisionId|
                #![trigger self0.dom().contains(k2)]
                #![trigger revisions_view(*mine).dom().contains(k2)]
                !other0.dom().contains(k2) || revisions_view(other).dom().contains(k2) implies (
            revisions_view(*mine).dom().contains(k2) <==> self0.dom().contains(k2)) && (
            self0.dom().contains(k2) ==> revisions_view(*mine)[k2] == self0[k2]) by {
                assert(k2 != k);
            }
            assert forall|k2: RevisionId|
                other0.dom().contains(k2) && !(#[trigger] revisions_view(other).dom().contains(
                    k2,
                )) implies revisions_view(*mine).dom().contains(k2) && revisions_view(*mine)[k2]
                == revisions_join(self0, other0)[k2] by {
                assert(revisions_join(self0, other0).dom().contains(k2));
                if k2 != k {
                    assert(!otherpre.dom().contains(k2));
                    assert(minepre.dom().contains(k2) && minepre[k2] == revisions_join(
                        self0,
                        other0,
                    )[k2]);
                    assert(revisions_view(*mine)[k2] == minepre[k2]);
                }
            }
        }
    }
    proof {
        other.lemma_sorted();
        assert forall|k: RevisionId| !(#[trigger] revisions_view(other).dom().contains(k)) by {
            if revisions_view(other).dom().contains(k) {
                assert(other.as_map().dom().len() == 0);
                other.as_map().dom().lemma_len0_is_empty();
            }
        }
        assert(revisions_view(*mine) =~= revisions_join(self0, other0)) by {
            assert forall|k: RevisionId|
                #![trigger revisions_view(*mine).dom().contains(k)]
                #![trigger revisions_join(self0, other0).dom().contains(k)]
                true implies (revisions_view(*mine).dom().contains(k) <==> revisions_join(
                self0,
                other0,
            ).dom().contains(k)) && (revisions_view(*mine).dom().contains(k)
                ==> revisions_view(*mine)[k] == revisions_join(self0, other0)[k]) by {
                assert(!revisions_view(other).dom().contains(k));
                if other0.dom().contains(k) {
                    assert(revisions_join(self0, other0).dom().contains(k));
                    assert(revisions_view(*mine).dom().contains(k) && revisions_view(*mine)[k]
                        == revisions_join(self0, other0)[k]);
                } else {
                    assert((revisions_view(*mine).dom().contains(k) <==> self0.dom().contains(k))
                        && (self0.dom().contains(k) ==> revisions_view(*mine)[k] == self0[k]));
                }
            }
        }
    }
}

/// Convergence of concurrent edits under reordering: two edit operations
/// applied in either order always succeed and produce the same state,
/// because titles and descriptions resolve through the register's
/// commutative, associative join.
pub proof fn lemma_edit_reorder(s: ProposalV, a: OpV, b: OpV)
    requires
        a.action is Edit,
        b.action is Edit,
    ensures
        apply_op(s, a) is Ok,
        apply_op(s, b) is Ok,
        apply_op(apply_op(s, a)->Ok_0, b) is Ok,
        apply_op(apply_op(s, b)->Ok_0, a) is Ok,
        apply_op(apply_op(s, a)->Ok_0, b)->Ok_0 == apply_op(apply_op(s, b)->Ok_0, a)->Ok_0,
{
    crate::lwwreg::lemma_lwwreg_laws();
}

/// Two last-writer-wins verdict updates commute, whichever delegate or
/// clock either carries.
proof fn lemma_verdict_put_commutes(
    v: Map<PublicKey, (RedactV<Verdict>, u64)>,
    k1: PublicKey,
    c1: (RedactV<Verdict>, u64),
    k2: PublicKey,
    c2: (RedactV<Verdict>, u64),
)
    ensures
        verdict_put(verdict_put(v, k1, c1), k2, c2) == verdict_put(verdict_put(v, k2, c2), k1, c1),
{
    lemma_verdict_cell_semilattice();
    if k1 == k2 {
        if v.dom().contains(k1) {
            assert(verdict_cell_join_fn()(verdict_cell_join_fn()(v[k1], c1), c2)
                == verdict_cell_join_fn()(verdict_cell_join_fn()(v[k1], c2), c1));
        } else {
            assert(verdict_cell_join_fn()(c1, c2) == verdict_cell_join_fn()(c2, c1));
        }
        assert(verdict_put(verdict_put(v, k1, c1), k2, c2) =~= verdict_put(
            verdict_put(v, k2, c2),
            k1,
            c1,
        ));
    } else {
        assert(verdict_put(verdict_put(v, k1, c1), k2, c2) =~= verdict_put(
            verdict_put(v, k2, c2),
            k1,
            c1,
        ));
    }
}

/// Whether an action casts a verdict.
pub open spec fn is_vote(a: ActionV) -> bool {
    a is Accept || a is Reject
}

/// The revision a verdict-casting action targets.
pub open spec fn vote_target(a: ActionV) -> RevisionId {
    match a {
        ActionV::Accept { revision, .. } => revision,
        ActionV::Reject { revision } => revision,
        _ => arbitrary(),
    }
}

/// The verdict cell a verdict-casting operation writes.
pub open spec fn vote_cell(op: OpV) -> (RedactV<Verdict>, u64) {
    match op.action {
        ActionV::Accept { signature, .. } => (
            RedactV::Present(Verdict::Accept(signature)),
            op.clock,
        ),
        _ => (RedactV::Present(Verdict::Reject), op.clock),
    }
}

/// Convergence of concurrent votes under reordering: two verdict-casting
/// operations whose target revisions are present apply in either order to
/// the same state, because each delegate's verdict is an independent
/// last-writer-wins cell.
pub proof fn lemma_vote_reorder(s: ProposalV, a: OpV, b: OpV)
    requires
        is_vote(a.action),
        is_vote(b.action),
        s.revisions matches Some(m) && m.dom().contains(vote_target(a.action)) && m[vote_target(
            a.action,
        )] is Present && m.dom().contains(vote_target(b.action)) && m[vote_target(
            b.action,
        )] is Present,
    ensures
        apply_op(s, a) is Ok,
        apply_op(s, b) is Ok,
        apply_op(apply_op(s, a)->Ok_0, b) is Ok,
        apply_op(apply_op(s, b)->Ok_0, a) is Ok,
        apply_op(apply_op(s, a)->Ok_0, b)->Ok_0 == apply_op(apply_op(s, b)->Ok_0, a)->Ok_0,
{
    let m = s.revisions->0;
    let ra = vote_target(a.action);
    let rb = vote_target(b.action);
    let rva = m[ra]->Present_0;
    let rvb = m[rb]->Present_0;
    let va = RevisionV { verdicts: verdict_put(rva.verdicts, a.author, vote_cell(a)), ..rva };
    let vb = RevisionV { verdicts: verdict_put(rvb.verdicts, b.author, vote_cell(b)), ..rvb };
    assert(apply_op(s, a) == Ok::<ProposalV, ApplyError>(
        ProposalV { revisions: Some(m.insert(ra, RedactV::Present(va))), ..s },
    ));
    assert(apply_op(s, b) == Ok::<ProposalV, ApplyError>(
        ProposalV { revisions: Some(m.insert(rb, RedactV::Present(vb))), ..s },
    ));
    let mab = m.insert(ra, RedactV::Present(va));
    let mba = m.insert(rb, RedactV::Present(vb));
    if ra == rb {
        let vab = RevisionV { verdicts: verdict_put(va.verdicts, b.author, vote_cell(b)), ..va };
        let vba = RevisionV { verdicts: verdict_put(vb.verdicts, a.author, vote_cell(a)), ..vb };
        assert(mab[rb] == RedactV::Present(va));
        assert(mba[ra] == RedactV::Present(vb));
        lemma_verdict_put_commutes(
            rva.verdicts,
            a.author,
            vote_cell(a),
            b.author,
            vote_cell(b),
        );
        assert(vab == vba);
        assert(mab.insert(rb, RedactV::Present(vab)) =~= mba.insert(ra, RedactV::Present(vba)));
    } else {
        assert(mab[rb] == RedactV::Present(rvb));
        assert(mba[ra] == RedactV::Present(rva));
        assert(mab.insert(rb, RedactV::Present(vb)) =~= mba.insert(ra, RedactV::Present(va)));
    }
}

/// Whether an action works on the revision map (everything but an edit or
/// a publication).
pub open spec fn is_rev_action(a: ActionV) -> bool {
    !(a is Edit) && !(a is Publish)
}

/// The revision-map key a revision-level action addresses.
pub open spec fn rev_key(op: OpV) -> RevisionId {
    match op.action {
        ActionV::Accept { revision, .. } => revision,
        ActionV::Reject { revision } => revision,
        ActionV::Redact { revision } => revision,
        ActionV::Thread { revision, .. } => revision,
        ActionV::Revision { .. } => op.id,
        _ => arbitrary(),
    }
}

/// Whether a revision-level action applies, given the entry currently at
/// its key.
pub open spec fn rev_ok(op: OpV, cur: Option<RedactV<RevisionV>>) -> bool {
    match op.action {
        ActionV::Accept { .. } => cur matches Some(RedactV::Present(_)),
        ActionV::Reject { .. } => cur matches Some(RedactV::Present(_)),
        ActionV::Redact { .. } => cur is Some,
        ActionV::Revision { .. } => true,
        ActionV::Thread { action, .. } => cur matches Some(RedactV::Present(rv))
            && thread::thread_apply(rv.discussion, op.id, op.author, action) is Ok,
        _ => arbitrary(),
    }
}

/// The entry a successfully applied revision-level action leaves at its
/// key, given the entry found there.
pub open spec fn rev_upd(op: OpV, cur: Option<RedactV<RevisionV>>) -> RedactV<RevisionV> {
    match op.action {
        ActionV::Accept { signature, .. } => match cur {
            Some(RedactV::Present(rv)) => RedactV::Present(
                RevisionV {
                    verdicts: verdict_put(
                        rv.verdicts,
                        op.author,
                        (RedactV::Present(Verdict::Accept(signature)), op.clock),
                    ),
                    ..rv
                },
            ),
            _ => arbitrary(),
        },
        ActionV::Reject { .. } => match cur {
            Some(RedactV::Present(rv)) => RedactV::Present(
                RevisionV {
                    verdicts: verdict_put(
                        rv.verdicts,
                        op.author,
                        (RedactV::Present(Verdict::Reject), op.clock),
                    ),
                    ..rv
                },
            ),
            _ => arbitrary(),
        },
        ActionV::Redact { .. } => RedactV::Redacted,
        ActionV::Revision { proposed, previous } => {
            let nv = RevisionV {
                author: op.author,
                previous,
                proposed,
                discussion: Map::empty(),
                verdicts: Map::empty(),
                timestamp: op.timestamp,
            };
            match cur {
                Some(e) => red_join(revision_join_fn(), e, RedactV::Present(nv)),
                None => RedactV::Present(nv),
            }
        },
        ActionV::Thread { action, .. } => match cur {
            Some(RedactV::Present(rv)) => RedactV::Present(
                RevisionV {
                    discussion: thread::thread_apply(
                        rv.discussion,
                        op.id,
                        op.author,
                        action,
                    )->Ok_0,
                    ..rv
                },
            ),
            _ => arbitrary(),
        },
        _ => arbitrary(),
    }
}

/// The entry at `k`, if any.
pub open spec fn entry_at(
    m: Map<RevisionId, RedactV<RevisionV>>,
    k: RevisionId,
) -> Option<RedactV<RevisionV>> {
    if m.dom().contains(k) {
        Some(m[k])
    } else {
        None
    }
}

/// On an open state, a revision-level action reads and writes only the
/// entry at its own key: it applies exactly when `rev_ok` holds of that
/// entry, and then replaces it with `rev_upd`, touching nothing else.
proof fn lemma_apply_rev_action(s: ProposalV, op: OpV)
    requires
        is_rev_action(op.action),
        s.revisions is Some,
    ensures
        ({
            let m = s.revisions->0;
            let cur = entry_at(m, rev_key(op));
            &&& (apply_op(s, op) is Ok <==> rev_ok(op, cur))
            &&& (apply_op(s, op) is Ok ==> apply_op(s, op)->Ok_0 == (ProposalV {
                revisions: Some(m.insert(rev_key(op), rev_upd(op, cur))),
                ..s
            }))
        }),
{
}

/// Joining a thread with the empty thread changes nothing.
proof fn lemma_thread_join_empty(d: Map<thread::CommentId, RedactV<thread::CommentV>>)
    ensures
        thread::thread_join(d, Map::empty()) == d,
{
    assert(thread::thread_join(d, Map::<thread::CommentId, RedactV<thread::CommentV>>::empty())
        =~= d);
}

/// Joining a verdict map with the empty map changes nothing.
proof fn lemma_verdicts_join_empty(v: Map<PublicKey, (RedactV<Verdict>, u64)>)
    ensures
        verdicts_join(v, Map::empty()) == v,
{
    assert(verdicts_join(v, Map::<PublicKey, (RedactV<Verdict>, u64)>::empty()) =~= v);
}

/// Two revision-level actions addressing the same key commute: given that
/// both orders apply, the second-applied update reaches the same entry.
proof fn lemma_rev_upd_commutes(a: OpV, b: OpV, cur: Option<RedactV<RevisionV>>)
    requires
        is_rev_action(a.action),
        is_rev_action(b.action),
        rev_key(a) == rev_key(b),
        a.id == b.id ==> a == b,
        rev_ok(a, cur),
        rev_ok(b, cur),
        rev_ok(b, Some(rev_upd(a, cur))),
        rev_ok(a, Some(rev_upd(b, cur))),
    ensures
        rev_upd(b, Some(rev_upd(a, cur))) == rev_upd(a, Some(rev_upd(b, cur))),
{
    if a == b {
    } else {
        match (a.action, b.action) {
            (ActionV::Revision { .. }, ActionV::Revision { .. }) => {
                // Content-derived identifiers: one key, one revision op.
                assert(a.id == b.id);
            },
            _ => {
                let rv = cur->0->Present_0;
                match cur {
                    Some(RedactV::Present(_)) => {
                        lemma_thread_join_empty(rv.discussion);
                        lemma_verdicts_join_empty(rv.verdicts);
                        match (a.action, b.action) {
                            (ActionV::Accept { .. }, _) | (ActionV::Reject { .. }, _) | (
                                _,
                                ActionV::Accept { .. },
                            ) | (_, ActionV::Reject { .. }) => {
                                // Verdict updates against revisions, threads,
                                // and each other: the independent fields
                                // commute, verdict cells by their own laws.
                                let upa = rev_upd(a, cur);
                                let upb = rev_upd(b, cur);
                                match upa {
                                    RedactV::Present(rva) => {
                                        lemma_thread_join_empty(rva.discussion);
                                        lemma_verdicts_join_empty(rva.verdicts);
                                    },
                                    RedactV::Redacted => {},
                                }
                                match upb {
                                    RedactV::Present(rvb) => {
                                        lemma_thread_join_empty(rvb.discussion);
                                        lemma_verdicts_join_empty(rvb.verdicts);
                                    },
                                    RedactV::Redacted => {},
                                }
                                lemma_verdict_put_commutes(
                                    rv.verdicts,
                                    a.author,
                                    vote_cell(a),
                                    b.author,
                                    vote_cell(b),
                                );
                            },
                            (ActionV::Thread { .. }, ActionV::Thread { .. }) => {
                                lemma_thread_apply_commutes(rv.discussion, a, b);
                            },
                            _ => {
                                // Every remaining pair involves a redaction
                                // or a revision join, which the empty-join
                                // identities settle (a redaction in first
                                // position leaves nothing the other action
                                // could still apply to).
                                let upa = rev_upd(a, cur);
                                let upb = rev_upd(b, cur);
                                match upa {
                                    RedactV::Present(rva) => {
                                        lemma_thread_join_empty(rva.discussion);
                                        lemma_verdicts_join_empty(rva.verdicts);
                                    },
                                    RedactV::Redacted => {},
                                }
                                match upb {
                                    RedactV::Present(rvb) => {
                                        lemma_thread_join_empty(rvb.discussion);
                                        lemma_verdicts_join_empty(rvb.verdicts);
                                    },
                                    RedactV::Redacted => {},
                                }
                            },
                        }
                    },
                    Some(RedactV::Redacted) => {
                        // Only redactions and revision joins still apply;
                        // both leave the tombstone.
                    },
                    None => {
                        // Only revision inserts apply to a missing entry,
                        // and two on one key are one op.
                    },
                }
            },
        }
    }
}

/// Two comment insertions into one discussion commute when both orders
/// apply.
proof fn lemma_thread_apply_commutes(
    d: Map<thread::CommentId, RedactV<thread::CommentV>>,
    a: OpV,
    b: OpV,
)
    requires
        a.action is Thread,
        b.action is Thread,
        a.id != b.id,
        thread::thread_apply(d, a.id, a.author, a.action->Thread_action) is Ok,
        thread::thread_apply(d, b.id, b.author, b.action->Thread_action) is Ok,
        thread::thread_apply(
            thread::thread_apply(d, a.id, a.author, a.action->Thread_action)->Ok_0,
            b.id,
            b.author,
            b.action->Thread_action,
        ) is Ok,
        thread::thread_apply(
            thread::thread_apply(d, b.id, b.author, b.action->Thread_action)->Ok_0,
            a.id,
            a.author,
            a.action->Thread_action,
        ) is Ok,
    ensures
        thread::thread_apply(
            thread::thread_apply(d, a.id, a.author, a.action->Thread_action)->Ok_0,
            b.id,
            b.author,
            b.action->Thread_action,
        )->Ok_0 == thread::thread_apply(
            thread::thread_apply(d, b.id, b.author, b.action->Thread_action)->Ok_0,
            a.id,
            a.author,
            a.action->Thread_action,
        )->Ok_0,
{
    let da = thread::thread_apply(d, a.id, a.author, a.action->Thread_action)->Ok_0;
    let db = thread::thread_apply(d, b.id, b.author, b.action->Thread_action)->Ok_0;
    let dab = thread::thread_apply(da, b.id, b.author, b.action->Thread_action)->Ok_0;
    let dba = thread::thread_apply(db, a.id, a.author, a.action->Thread_action)->Ok_0;
    assert(dab =~= dba);
}

/// Convergence under reordering, in general: whenever two operations
/// apply without error in both orders, both orders produce the same
/// state. The one hypothesis beyond success is that operations sharing an
/// identifier are equal, which content-derived identifiers guarantee; a
/// pair violating it (two revision proposals under one identifier with
/// different documents) orders its payloads by arrival and is excluded.
#[verifier::rlimit(100)]
#[verifier::spinoff_prover]
pub proof fn lemma_apply_reorder(s: ProposalV, a: OpV, b: OpV)
    requires
        a.id == b.id ==> a == b,
        apply_op(s, a) is Ok,
        apply_op(s, b) is Ok,
        apply_op(apply_op(s, a)->Ok_0, b) is Ok,
        apply_op(apply_op(s, b)->Ok_0, a) is Ok,
    ensures
        apply_op(apply_op(s, a)->Ok_0, b)->Ok_0 == apply_op(apply_op(s, b)->Ok_0, a)->Ok_0,
{
    crate::lwwreg::lemma_lwwreg_laws();
    let sa = apply_op(s, a)->Ok_0;
    let sb = apply_op(s, b)->Ok_0;
    let sab = apply_op(sa, b)->Ok_0;
    let sba = apply_op(sb, a)->Ok_0;
    if a == b {
    } else if a.action is Publish || b.action is Publish {
        // After a publication the other operation can only be an edit or
        // another publication, and the registers resolve symmetrically.
        assert(sab.revisions is None && sba.revisions is None);
        assert(sab.title == sba.title && sab.description == sba.description);
    } else if a.action is Edit || b.action is Edit {
        // Edits touch only the registers; every other action preserves
        // them, and a revision-level partner reads the same revision map
        // in either order.
        assert(sab.title == sba.title && sab.description == sba.description);
        if a.action is Edit && b.action is Edit {
            assert(sab.revisions == sba.revisions);
        } else if a.action is Edit {
            assert(s.revisions is Some) by {
                if s.revisions is None {
                    assert(apply_op(s, b) is Err);
                }
            }
            lemma_apply_rev_action(s, b);
            lemma_apply_rev_action(sa, b);
            assert(sab.revisions == sba.revisions);
        } else {
            assert(s.revisions is Some) by {
                if s.revisions is None {
                    assert(apply_op(s, a) is Err);
                }
            }
            lemma_apply_rev_action(s, a);
            lemma_apply_rev_action(sb, a);
            assert(sab.revisions == sba.revisions);
        }
    } else {
        // Two revision-level actions: each is a single-key update of the
        // open revision map.
        assert(s.revisions is Some) by {
            if s.revisions is None {
                assert(apply_op(s, a) is Err);
            }
        }
        let m = s.revisions->0;
        let ka = rev_key(a);
        let kb = rev_key(b);
        lemma_apply_rev_action(s, a);
        lemma_apply_rev_action(s, b);
        lemma_apply_rev_action(sa, b);
        lemma_apply_rev_action(sb, a);
        let va = rev_upd(a, entry_at(m, ka));
        let vb = rev_upd(b, entry_at(m, kb));
        if ka != kb {
            // Disjoint keys: each update reads its own untouched entry.
            assert(entry_at(m.insert(ka, va), kb) == entry_at(m, kb));
            assert(entry_at(m.insert(kb, vb), ka) == entry_at(m, ka));
            assert(m.insert(ka, va).insert(kb, vb) =~= m.insert(kb, vb).insert(ka, va));
            assert(sab == sba);
        } else {
            // One key: the two updates compose in either order.
            let cur = entry_at(m, ka);
            assert(entry_at(m.insert(ka, va), kb) == Some(va));
            assert(entry_at(m.insert(kb, vb), ka) == Some(vb));
            lemma_rev_upd_commutes(a, b, cur);
            assert(m.insert(ka, va).insert(kb, rev_upd(b, Some(va))) =~= m.insert(
                kb,
                vb,
            ).insert(ka, rev_upd(a, Some(vb))));
            assert(sab == sba);
        }
    }
}

/// The same, at the level of applied sequences: folding `[a, b]` and
/// `[b, a]` over one state ends in the same state when both orders apply
/// without error.
pub proof fn lemma_apply_ops_reorder(s: ProposalV, a: OpV, b: OpV)
    requires
        a.id == b.id ==> a == b,
        apply_op(s, a) is Ok,
        apply_op(s, b) is Ok,
        apply_op(apply_op(s, a)->Ok_0, b) is Ok,
        apply_op(apply_op(s, b)->Ok_0, a) is Ok,
    ensures
        apply_ops(s, seq![a, b]) == apply_ops(s, seq![b, a]),
        apply_ops(s, seq![a, b]).1 is None,
{
    lemma_apply_reorder(s, a, b);
    let sab = apply_op(apply_op(s, a)->Ok_0, b)->Ok_0;
    let sba = apply_op(apply_op(s, b)->Ok_0, a)->Ok_0;
    assert(seq![a, b][0] == a && seq![a, b].skip(1) =~= seq![b]);
    assert(seq![b, a][0] == b && seq![b, a].skip(1) =~= seq![a]);
    assert(seq![b][0] == b && seq![b].skip(1) =~= Seq::<OpV>::empty());
    assert(seq![a][0] == a && seq![a].skip(1) =~= Seq::<OpV>::empty());
    assert(apply_ops(sab, Seq::<OpV>::empty()) == (sab, None::<ApplyError>));
    assert(apply_ops(sba, Seq::<OpV>::empty()) == (sba, None::<ApplyError>));
    assert(apply_ops(apply_op(s, a)->Ok_0, seq![b]) == (sab, None::<ApplyError>));
    assert(apply_ops(apply_op(s, b)->Ok_0, seq![a]) == (sba, None::<ApplyError>));
}

/// Once a proposal is published, no further revision, acceptance,
/// rejection, redaction, or discussion lands: whatever operation is
/// applied, a mutation of the revisions fails with the published-state
/// error, in any linearization that delivers it after the publication.
pub proof fn lemma_publish_irreversible(s: ProposalV, op: OpV)
    requires
        s.revisions is None,
    ensures
        op.action matches ActionV::Revision { .. } ==> apply_op(s, op) == Err::<
            ProposalV,
            ApplyError,
        >(ApplyError::Published),
        op.action matches ActionV::Accept { .. } ==> apply_op(s, op) == Err::<
            ProposalV,
            ApplyError,
        >(ApplyError::Published),
        op.action matches ActionV::Reject { .. } ==> apply_op(s, op) == Err::<
            ProposalV,
            ApplyError,
        >(ApplyError::Published),
        op.action matches ActionV::Redact { .. } ==> apply_op(s, op) == Err::<
            ProposalV,
            ApplyError,
        >(ApplyError::Published),
        op.action matches ActionV::Thread { .. } ==> apply_op(s, op) == Err::<
            ProposalV,
            ApplyError,
        >(ApplyError::Published),
        apply_op(s, op) matches Ok(s2) ==> s2.revisions is None,
{
}

/// Voting on a redacted revision fails: an acceptance or rejection that
/// targets a tombstoned revision is rejected with the redacted error.
pub proof fn lemma_redaction_blocks_voting(s: ProposalV, op: OpV, revision: RevisionId)
    requires
        s.revisions matches Some(m) && m.dom().contains(revision) && m[revision] is Redacted,
        op.action == (ActionV::Accept {
            revision,
            signature: op.action->Accept_signature,
        }) || op.action == (ActionV::Reject { revision }),
    ensures
        apply_op(s, op) == Err::<ProposalV, ApplyError>(ApplyError::Redacted(revision)),
{
}


/// Error updating or creating proposals: an operation that would not
/// apply, or a store failure.
#[derive(Clone, Copy, Debug, PartialEq, Eq)]
pub enum Error {
    Apply(ApplyError),
    Store(StoreError),
}

impl Transaction {
    /// Accept a revision, supplying the signature over its proposed
    /// document.
    pub fn accept(&mut self, revision: RevisionId, signature: Signature) -> (r: OpId)
        requires
            old(self).spec_clock() + old(self).spec_actions().len() < u64::MAX,
        ensures
            final(self).spec_actor() == old(self).spec_actor(),
            final(self).spec_clock() == old(self).spec_clock(),
            final(self).spec_actions() == old(self).spec_actions().push(
                Action::Accept { revision, signature },
            ),
            r == (OpId {
                clock: (old(self).spec_clock() + old(self).spec_actions().len() + 1) as u64,
                actor: old(self).spec_actor().key,
            }),
    {
        self.push(Action::Accept { revision, signature })
    }

    /// Reject a revision.
    pub fn reject(&mut self, revision: RevisionId) -> (r: OpId)
        requires
            old(self).spec_clock() + old(self).spec_actions().len() < u64::MAX,
        ensures
            final(self).spec_actor() == old(self).spec_actor(),
            final(self).spec_clock() == old(self).spec_clock(),
            final(self).spec_actions() == old(self).spec_actions().push(
                Action::Reject { revision },
            ),
            r == (OpId {
                clock: (old(self).spec_clock() + old(self).spec_actions().len() + 1) as u64,
                actor: old(self).spec_actor().key,
            }),
    {
        self.push(Action::Reject { revision })
    }

    /// Edit the proposal's title and description.
    pub fn edit(&mut self, title: String, description: String) -> (r: OpId)
        requires
            old(self).spec_clock() + old(self).spec_actions().len() < u64::MAX,
        ensures
            final(self).spec_actor() == old(self).spec_actor(),
            final(self).spec_clock() == old(self).spec_clock(),
            final(self).spec_actions() == old(self).spec_actions().push(
                Action::Edit { title, description },
            ),
            r == (OpId {
                clock: (old(self).spec_clock() + old(self).spec_actions().len() + 1) as u64,
                actor: old(self).spec_actor().key,
            }),
    {
        self.push(Action::Edit { title, description })
    }

    /// Publish the proposal, closing it permanently.
    pub fn publish(&mut self) -> (r: OpId)
        requires
            old(self).spec_clock() + old(self).spec_actions().len() < u64::MAX,
        ensures
            final(self).spec_actor() == old(self).spec_actor(),
            final(self).spec_clock() == old(self).spec_clock(),
            final(self).spec_actions() == old(self).spec_actions().push(Action::Publish),
            r == (OpId {
                clock: (old(self).spec_clock() + old(self).spec_actions().len() + 1) as u64,
                actor: old(self).spec_actor().key,
            }),
    {
        self.push(Action::Publish)
    }

    /// Redact (permanently tombstone) a revision.
    pub fn redact(&mut self, revision: RevisionId) -> (r: OpId)
        requires
            old(self).spec_clock() + old(self).spec_actions().len() < u64::MAX,
        ensures
            final(self).spec_actor() == old(self).spec_actor(),
            final(self).spec_clock() == old(self).spec_clock(),
            final(self).spec_actions() == old(self).spec_actions().push(
                Action::Redact { revision },
            ),
            r == (OpId {
                clock: (old(self).spec_clock() + old(self).spec_actions().len() + 1) as u64,
                actor: old(self).spec_actor().key,
            }),
    {
        self.push(Action::Redact { revision })
    }

    /// Propose a new document revision replacing the previous identity.
    pub fn revision(&mut self, proposed: Doc, previous: Identity) -> (r: OpId)
        requires
            old(self).spec_clock() + old(self).spec_actions().len() < u64::MAX,
        ensures
            final(self).spec_actor() == old(self).spec_actor(),
            final(self).spec_clock() == old(self).spec_clock(),
            final(self).spec_actions() == old(self).spec_actions().push(
                Action::Revision { proposed, previous },
            ),
            r == (OpId {
                clock: (old(self).spec_clock() + old(self).spec_actions().len() + 1) as u64,
                actor: old(self).spec_actor().key,
            }),
    {
        self.push(Action::Revision { proposed, previous })
    }

    /// Start a revision discussion with an opening comment.
    pub fn thread(&mut self, revision: RevisionId, body: String) -> (r: OpId)
        requires
            old(self).spec_clock() + old(self).spec_actions().len() < u64::MAX,
        ensures
            final(self).spec_actor() == old(self).spec_actor(),
            final(self).spec_clock() == old(self).spec_clock(),
            final(self).spec_actions() == old(self).spec_actions().push(
                Action::Thread {
                    revision,
                    action: thread::Action::Comment { body, reply_to: None },
                },
            ),
            r == (OpId {
                clock: (old(self).spec_clock() + old(self).spec_actions().len() + 1) as u64,
                actor: old(self).spec_actor().key,
            }),
    {
        self.push(
            Action::Thread { revision, action: thread::Action::Comment { body, reply_to: None } },
        )
    }

    /// Comment on a revision's discussion, in reply to an earlier comment.
    pub fn comment(&mut self, revision: RevisionId, body: String, reply_to: thread::CommentId)
        -> (r: OpId)
        requires
            old(self).spec_clock() + old(self).spec_actions().len() < u64::MAX,
        ensures
            final(self).spec_actor() == old(self).spec_actor(),
            final(self).spec_clock() == old(self).spec_clock(),
            final(self).spec_actions() == old(self).spec_actions().push(
                Action::Thread {
                    revision,
                    action: thread::Action::Comment { body, reply_to: Some(reply_to) },
                },
            ),
            r == (OpId {
                clock: (old(self).spec_clock() + old(self).spec_actions().len() + 1) as u64,
                actor: old(self).spec_actor().key,
            }),
    {
        self.push(
            Action::Thread {
                revision,
                action: thread::Action::Comment { body, reply_to: Some(reply_to) },
            },
        )
    }

    /// Update the proposal with a new revision and its opening description
    /// comment, as one causal unit.
    pub fn update(&mut self, description: String, proposed: Doc, previous: Identity) -> (r: (
        OpId,
        OpId,
    ))
        requires
            old(self).spec_clock() + old(self).spec_actions().len() + 1 < u64::MAX,
        ensures
            final(self).spec_actor() == old(self).spec_actor(),
            final(self).spec_clock() == old(self).spec_clock(),
            final(self).spec_actions() == old(self).spec_actions().push(
                Action::Revision { proposed, previous },
            ).push(
                Action::Thread {
                    revision: r.0,
                    action: thread::Action::Comment { body: description, reply_to: None },
                },
            ),
            r.0 == (OpId {
                clock: (old(self).spec_clock() + old(self).spec_actions().len() + 1) as u64,
                actor: old(self).spec_actor().key,
            }),
            r.1 == (OpId {
                clock: (old(self).spec_clock() + old(self).spec_actions().len() + 2) as u64,
                actor: old(self).spec_actor().key,
            }),
    {
        let revision = self.revision(proposed, previous);
        let comment = self.thread(revision, description);
        (revision, comment)
    }
}

/// The operation models a commit of `actions` produces: consecutive clocks
/// above `clock`, authored by `actor`, timestamped `now`.
pub open spec fn tx_ops(actor: PublicKey, clock: u64, now: u64, actions: Seq<Action>) -> Seq<
    OpV,
> {
    Seq::new(
        actions.len(),
        |i: int|
            OpV {
                id: OpId { clock: (clock + 1 + i) as u64, actor: actor.key },
                author: actor,
                clock: (clock + 1 + i) as u64,
                timestamp: now,
                action: actions[i]@,
            },
    )
}


/// A proposal checked out for mutation: the materialized state, the
/// author's logical clock, and the author acting on it.
#[derive(Clone, Debug, PartialEq, Eq)]
pub struct ProposalMut {
    id: ObjectId,
    proposal: Proposal,
    clock: u64,
    actor: PublicKey,
}

impl ProposalMut {
    /// The materialized state is well-formed.
    pub closed spec fn wf(self) -> bool {
        self.proposal.wf()
    }

    /// The object identifier of the proposal in the store.
    pub closed spec fn spec_id(self) -> ObjectId {
        self.id
    }

    /// The object identifier of the proposal in the store.
    pub fn id(&self) -> (r: ObjectId)
        ensures
            r == self.spec_id(),
    {
        self.id
    }

    /// The materialized proposal state.
    pub closed spec fn spec_proposal(self) -> Proposal {
        self.proposal
    }

    /// The author's logical clock.
    pub closed spec fn spec_clock(self) -> u64 {
        self.clock
    }

    /// The author.
    pub closed spec fn spec_actor(self) -> PublicKey {
        self.actor
    }

    /// Check out a proposal for mutation.
    pub fn new(id: ObjectId, proposal: Proposal, clock: u64, actor: PublicKey) -> (r: ProposalMut)
        requires
            proposal.wf(),
        ensures
            r.wf(),
            r.spec_id() == id,
            r.spec_proposal() == proposal,
            r.spec_clock() == clock,
            r.spec_actor() == actor,
    {
        ProposalMut { id, proposal, clock, actor }
    }

    /// Read the materialized state.
    pub fn proposal(&self) -> (r: &Proposal)
        ensures
            *r == self.spec_proposal(),
    {
        &self.proposal
    }

    /// Get the internal logical clock.
    pub fn clock(&self) -> (r: u64)
        ensures
            r == self.spec_clock(),
    {
        self.clock
    }

    /// Commit a transaction's actions to the store as one causal unit and
    /// fold the resulting operations into the materialized state. The
    /// operations land in the store even if folding them fails; the clock
    /// advances only on success, as the store keeps the authoritative
    /// history either way.
    fn transact(&mut self, tx: Transaction, store: &mut Store) -> (r: Result<(), Error>)
        requires
            old(self).wf(),
            old(store).wf(),
            tx.spec_clock() == old(self).spec_clock(),
            tx.spec_actor() == old(self).spec_actor(),
            tx.spec_clock() + tx.spec_actions().len() <= u64::MAX,
        ensures
            final(self).wf(),
            final(store).wf(),
            final(self).spec_id() == old(self).spec_id(),
            final(self).spec_actor() == old(self).spec_actor(),
            final(store).spec_now() == old(store).spec_now(),
            !(r matches Err(Error::Store(_))) ==> final(store).objects_map().dom() == old(
                store,
            ).objects_map().dom(),
            r matches Err(Error::Store(_)) ==> *final(store) == *old(store),
            match r {
                Ok(()) => ({
                    let folded = apply_ops(
                        old(self).spec_proposal()@,
                        tx_ops(
                            old(self).spec_actor(),
                            old(self).spec_clock(),
                            old(store).spec_now(),
                            tx.spec_actions(),
                        ),
                    );
                    &&& folded.1 is None
                    &&& final(self).spec_proposal()@ == folded.0
                    &&& final(self).spec_clock() == old(self).spec_clock()
                        + tx.spec_actions().len()
                }),
                Err(Error::Apply(e)) => ({
                    let folded = apply_ops(
                        old(self).spec_proposal()@,
                        tx_ops(
                            old(self).spec_actor(),
                            old(self).spec_clock(),
                            old(store).spec_now(),
                            tx.spec_actions(),
                        ),
                    );
                    &&& folded.1 == Some(e)
                    &&& final(self).spec_proposal()@ == folded.0
                    &&& final(self).spec_clock() == old(self).spec_clock()
                }),
                Err(Error::Store(e)) => e == StoreError::NotFound(old(self).spec_id()) && *final(self)
                    == *old(self) && *final(store) == *old(store) && !old(
                    store,
                ).objects_map().dom().contains(old(self).spec_id()),
            },
    {
        let ghost actions0 = tx.spec_actions();
        let ghost opvs = tx_ops(self.actor, self.clock, store.spec_now(), actions0);
        match tx.commit(self.id, store) {
            Err(e) => Err(Error::Store(e)),
            Ok((ops, clock)) => {
                proof {
                    assert(ops_view(ops@) =~= opvs);
                }
                match self.proposal.apply(&ops) {
                    Ok(()) => {
                        self.clock = clock;
                        Ok(())
                    },
                    Err(e) => Err(Error::Apply(e)),
                }
            },
        }
    }

    /// Accept a revision, recording the supplied signature.
    pub fn accept(&mut self, revision: RevisionId, signature: Signature, store: &mut Store) -> (r:
        Result<OpId, Error>)
        requires
            old(self).wf(),
            old(store).wf(),
            old(self).spec_clock() < u64::MAX,
        ensures
            final(self).wf(),
            final(store).wf(),
            final(self).spec_id() == old(self).spec_id(),
            final(self).spec_actor() == old(self).spec_actor(),
            final(store).spec_now() == old(store).spec_now(),
            !(r matches Err(Error::Store(_))) ==> final(store).objects_map().dom() == old(
                store,
            ).objects_map().dom(),
            r matches Err(Error::Store(_)) ==> *final(store) == *old(store),
            ({
                let opv = OpV {
                    id: OpId {
                        clock: (old(self).spec_clock() + 1) as u64,
                        actor: old(self).spec_actor().key,
                    },
                    author: old(self).spec_actor(),
                    clock: (old(self).spec_clock() + 1) as u64,
                    timestamp: old(store).spec_now(),
                    action: ActionV::Accept { revision, signature },
                };
                match r {
                    Ok(id) => id == opv.id && apply_op(old(self).spec_proposal()@, opv) == Ok::<
                        ProposalV,
                        ApplyError,
                    >(final(self).spec_proposal()@) && final(self).spec_clock() == old(self).spec_clock() + 1,
                    Err(Error::Apply(e)) => apply_op(old(self).spec_proposal()@, opv) == Err::<
                        ProposalV,
                        ApplyError,
                    >(e) && final(self).spec_proposal()@ == old(self).spec_proposal()@ && final(self).spec_clock() == old(self).spec_clock(),
                    Err(Error::Store(e)) => e == StoreError::NotFound(old(self).spec_id()) && *final(self)
                        == *old(self) && !old(store).objects_map().dom().contains(old(self).spec_id()),
                }
            }),
    {
        let mut tx = Transaction::new(self.actor, self.clock);
        let id = tx.accept(revision, signature);
        proof {
            lemma_tx_single(
                self.spec_proposal()@,
                self.spec_actor(),
                self.spec_clock(),
                store.spec_now(),
                Action::Accept { revision, signature },
            );
        }
        match self.transact(tx, store) {
            Ok(()) => Ok(id),
            Err(e) => Err(e),
        }
    }

    /// Reject a revision.
    pub fn reject(&mut self, revision: RevisionId, store: &mut Store) -> (r: Result<OpId, Error>)
        requires
            old(self).wf(),
            old(store).wf(),
            old(self).spec_clock() < u64::MAX,
        ensures
            final(self).wf(),
            final(store).wf(),
            final(self).spec_id() == old(self).spec_id(),
            final(self).spec_actor() == old(self).spec_actor(),
            final(store).spec_now() == old(store).spec_now(),
            !(r matches Err(Error::Store(_))) ==> final(store).objects_map().dom() == old(
                store,
            ).objects_map().dom(),
            r matches Err(Error::Store(_)) ==> *final(store) == *old(store),
            ({
                let opv = OpV {
                    id: OpId {
                        clock: (old(self).spec_clock() + 1) as u64,
                        actor: old(self).spec_actor().key,
                    },
                    author: old(self).spec_actor(),
                    clock: (old(self).spec_clock() + 1) as u64,
                    timestamp: old(store).spec_now(),
                    action: ActionV::Reject { revision },
                };
                match r {
                    Ok(id) => id == opv.id && apply_op(old(self).spec_proposal()@, opv) == Ok::<
                        ProposalV,
                        ApplyError,
                    >(final(self).spec_proposal()@) && final(self).spec_clock() == old(self).spec_clock() + 1,
                    Err(Error::Apply(e)) => apply_op(old(self).spec_proposal()@, opv) == Err::<
                        ProposalV,
                        ApplyError,
                    >(e) && final(self).spec_proposal()@ == old(self).spec_proposal()@ && final(self).spec_clock() == old(self).spec_clock(),
                    Err(Error::Store(e)) => e == StoreError::NotFound(old(self).spec_id()) && *final(self)
                        == *old(self) && !old(store).objects_map().dom().contains(old(self).spec_id()),
                }
            }),
    {
        let mut tx = Transaction::new(self.actor, self.clock);
        let id = tx.reject(revision);
        proof {
            lemma_tx_single(
                self.spec_proposal()@,
                self.spec_actor(),
                self.spec_clock(),
                store.spec_now(),
                Action::Reject { revision },
            );
        }
        match self.transact(tx, store) {
            Ok(()) => Ok(id),
            Err(e) => Err(e),
        }
    }

    /// Edit the proposal's title and description.
    pub fn edit(&mut self, title: String, description: String, store: &mut Store) -> (r: Result<
        OpId,
        Error,
    >)
        requires
            old(self).wf(),
            old(store).wf(),
            old(self).spec_clock() < u64::MAX,
        ensures
            final(self).wf(),
            final(store).wf(),
            final(self).spec_id() == old(self).spec_id(),
            final(self).spec_actor() == old(self).spec_actor(),
            final(store).spec_now() == old(store).spec_now(),
            !(r matches Err(Error::Store(_))) ==> final(store).objects_map().dom() == old(
                store,
            ).objects_map().dom(),
            r matches Err(Error::Store(_)) ==> *final(store) == *old(store),
            ({
                let opv = OpV {
                    id: OpId {
                        clock: (old(self).spec_clock() + 1) as u64,
                        actor: old(self).spec_actor().key,
                    },
                    author: old(self).spec_actor(),
                    clock: (old(self).spec_clock() + 1) as u64,
                    timestamp: old(store).spec_now(),
                    action: ActionV::Edit { title: title@, description: description@ },
                };
                match r {
                    Ok(id) => id == opv.id && apply_op(old(self).spec_proposal()@, opv) == Ok::<
                        ProposalV,
                        ApplyError,
                    >(final(self).spec_proposal()@) && final(self).spec_clock() == old(self).spec_clock() + 1,
                    Err(Error::Apply(e)) => apply_op(old(self).spec_proposal()@, opv) == Err::<
                        ProposalV,
                        ApplyError,
                    >(e) && final(self).spec_proposal()@ == old(self).spec_proposal()@ && final(self).spec_clock() == old(self).spec_clock(),
                    Err(Error::Store(e)) => e == StoreError::NotFound(old(self).spec_id()) && *final(self)
                        == *old(self) && !old(store).objects_map().dom().contains(old(self).spec_id()),
                }
            }),
    {
        let mut tx = Transaction::new(self.actor, self.clock);
        let ghost act = Action::Edit { title, description };
        let id = tx.edit(title, description);
        proof {
            lemma_tx_single(
                self.spec_proposal()@,
                self.spec_actor(),
                self.spec_clock(),
                store.spec_now(),
                act,
            );
        }
        match self.transact(tx, store) {
            Ok(()) => Ok(id),
            Err(e) => Err(e),
        }
    }

    /// Publish the proposal, closing it permanently.
    pub fn publish(&mut self, store: &mut Store) -> (r: Result<OpId, Error>)
        requires
            old(self).wf(),
            old(store).wf(),
            old(self).spec_clock() < u64::MAX,
        ensures
            final(self).wf(),
            final(store).wf(),
            final(self).spec_id() == old(self).spec_id(),
            final(self).spec_actor() == old(self).spec_actor(),
            final(store).spec_now() == old(store).spec_now(),
            !(r matches Err(Error::Store(_))) ==> final(store).objects_map().dom() == old(
                store,
            ).objects_map().dom(),
            r matches Err(Error::Store(_)) ==> *final(store) == *old(store),
            match r {
                Ok(id) => id == (OpId {
                    clock: (old(self).spec_clock() + 1) as u64,
                    actor: old(self).spec_actor().key,
                }) && final(self).spec_proposal()@ == (ProposalV {
                    revisions: None,
                    ..old(self).spec_proposal()@
                }) && final(self).spec_clock() == old(self).spec_clock() + 1,
                Err(Error::Apply(_)) => false,
                Err(Error::Store(e)) => e == StoreError::NotFound(old(self).spec_id()) && *final(self)
                    == *old(self) && !old(store).objects_map().dom().contains(old(self).spec_id()),
            },
    {
        let mut tx = Transaction::new(self.actor, self.clock);
        let id = tx.publish();
        proof {
            lemma_tx_single(
                self.spec_proposal()@,
                self.spec_actor(),
                self.spec_clock(),
                store.spec_now(),
                Action::Publish,
            );
        }
        match self.transact(tx, store) {
            Ok(()) => Ok(id),
            Err(e) => Err(e),
        }
    }

    /// Comment on a revision's discussion.
    pub fn comment(&mut self, revision: RevisionId, body: String, reply_to: thread::CommentId, store: &mut Store)
        -> (r: Result<OpId, Error>)
        requires
            old(self).wf(),
            old(store).wf(),
            old(self).spec_clock() < u64::MAX,
        ensures
            final(self).wf(),
            final(store).wf(),
            final(self).spec_id() == old(self).spec_id(),
            final(self).spec_actor() == old(self).spec_actor(),
            final(store).spec_now() == old(store).spec_now(),
            !(r matches Err(Error::Store(_))) ==> final(store).objects_map().dom() == old(
                store,
            ).objects_map().dom(),
            r matches Err(Error::Store(_)) ==> *final(store) == *old(store),
            ({
                let opv = OpV {
                    id: OpId {
                        clock: (old(self).spec_clock() + 1) as u64,
                        actor: old(self).spec_actor().key,
                    },
                    author: old(self).spec_actor(),
                    clock: (old(self).spec_clock() + 1) as u64,
                    timestamp: old(store).spec_now(),
                    action: ActionV::Thread {
                        revision,
                        action: thread::ActionV::Comment { body: body@, reply_to: Some(reply_to) },
                    },
                };
                match r {
                    Ok(id) => id == opv.id && apply_op(old(self).spec_proposal()@, opv) == Ok::<
                        ProposalV,
                        ApplyError,
                    >(final(self).spec_proposal()@) && final(self).spec_clock() == old(self).spec_clock() + 1,
                    Err(Error::Apply(e)) => apply_op(old(self).spec_proposal()@, opv) == Err::<
                        ProposalV,
                        ApplyError,
                    >(e) && final(self).spec_proposal()@ == old(self).spec_proposal()@ && final(self).spec_clock() == old(self).spec_clock(),
                    Err(Error::Store(e)) => e == StoreError::NotFound(old(self).spec_id()) && *final(self)
                        == *old(self) && !old(store).objects_map().dom().contains(old(self).spec_id()),
                }
            }),
    {
        let mut tx = Transaction::new(self.actor, self.clock);
        let ghost act = Action::Thread {
            revision,
            action: thread::Action::Comment { body, reply_to: Some(reply_to) },
        };
        let id = tx.comment(revision, body, reply_to);
        proof {
            lemma_tx_single(
                self.spec_proposal()@,
                self.spec_actor(),
                self.spec_clock(),
                store.spec_now(),
                act,
            );
        }
        match self.transact(tx, store) {
            Ok(()) => Ok(id),
            Err(e) => Err(e),
        }
    }

    /// Update the proposal with a new revision and its opening description
    /// comment, as one causal unit.
    pub fn update(&mut self, description: String, proposed: Doc, previous: Identity, store: &mut Store)
        -> (r: Result<(OpId, OpId), Error>)
        requires
            old(self).wf(),
            old(store).wf(),
            old(self).spec_clock() + 2 <= u64::MAX,
        ensures
            final(self).wf(),
            final(store).wf(),
            final(self).spec_id() == old(self).spec_id(),
            final(self).spec_actor() == old(self).spec_actor(),
            final(store).spec_now() == old(store).spec_now(),
            !(r matches Err(Error::Store(_))) ==> final(store).objects_map().dom() == old(
                store,
            ).objects_map().dom(),
            r matches Err(Error::Store(_)) ==> *final(store) == *old(store),
            ({
                let folded = apply_ops(
                    old(self).spec_proposal()@,
                    tx_ops(
                        old(self).spec_actor(),
                        old(self).spec_clock(),
                        old(store).spec_now(),
                        seq![
                            Action::Revision { proposed, previous },
                            Action::Thread {
                                revision: OpId {
                                    clock: (old(self).spec_clock() + 1) as u64,
                                    actor: old(self).spec_actor().key,
                                },
                                action: thread::Action::Comment {
                                    body: description,
                                    reply_to: None,
                                },
                            },
                        ],
                    ),
                );
                match r {
                    Ok(ids) => folded.1 is None && final(self).spec_proposal()@ == folded.0
                        && final(self).spec_clock() == old(self).spec_clock() + 2 && ids.0 == (
                    OpId {
                        clock: (old(self).spec_clock() + 1) as u64,
                        actor: old(self).spec_actor().key,
                    }) && ids.1 == (OpId {
                        clock: (old(self).spec_clock() + 2) as u64,
                        actor: old(self).spec_actor().key,
                    }),
                    Err(Error::Apply(e)) => folded.1 == Some(e) && final(self).spec_proposal()@
                        == folded.0 && final(self).spec_clock() == old(self).spec_clock(),
                    Err(Error::Store(e)) => e == StoreError::NotFound(old(self).spec_id()) && *final(self)
                        == *old(self) && !old(store).objects_map().dom().contains(old(self).spec_id()),
                }
            }),
    {
        let mut tx = Transaction::new(self.actor, self.clock);
        let ghost racts = seq![
            Action::Revision { proposed, previous },
            Action::Thread {
                revision: OpId {
                    clock: (self.spec_clock() + 1) as u64,
                    actor: self.spec_actor().key,
                },
                action: thread::Action::Comment { body: description, reply_to: None },
            },
        ];
        let ids = tx.update(description, proposed, previous);
        proof {
            assert(tx.spec_actions() =~= racts);
        }
        match self.transact(tx, store) {
            Ok(()) => Ok(ids),
            Err(e) => Err(e),
        }
    }
}

/// Folding the single operation a one-action transaction commits is one
/// step of the operation interpreter.
proof fn lemma_tx_single(s: ProposalV, actor: PublicKey, clock: u64, now: u64, action: Action)
    requires
        clock < u64::MAX,
    ensures
        ({
            let opv = OpV {
                id: OpId { clock: (clock + 1) as u64, actor: actor.key },
                author: actor,
                clock: (clock + 1) as u64,
                timestamp: now,
                action: action@,
            };
            apply_ops(s, tx_ops(actor, clock, now, seq![action])) == (match apply_op(s, opv) {
                Ok(s2) => (s2, None::<ApplyError>),
                Err(e) => (s, Some(e)),
            })
        }),
{
    let opvs = tx_ops(actor, clock, now, seq![action]);
    let opv = OpV {
        id: OpId { clock: (clock + 1) as u64, actor: actor.key },
        author: actor,
        clock: (clock + 1) as u64,
        timestamp: now,
        action: action@,
    };
    assert(opvs.len() == 1);
    assert(opvs[0] == opv);
    assert(opvs.skip(1) =~= Seq::<OpV>::empty());
    match apply_op(s, opv) {
        Ok(s2) => {
            assert(apply_ops(s2, Seq::<OpV>::empty()) == (s2, None::<ApplyError>));
        },
        Err(_) => {},
    }
}


/// The initial causal unit of a fresh proposal always applies: a revision
/// lands in the open, empty revision map, and an edit always lands.
proof fn lemma_create_applies(whoami: PublicKey, now: u64, a0: Action, a1: Action)
    requires
        a0 is Revision,
        a1 is Edit,
    ensures
        apply_ops(
            (ProposalV {
                title: (Seq::<char>::empty(), 0),
                description: (Seq::<char>::empty(), 0),
                revisions: Some(Map::<RevisionId, RedactV<RevisionV>>::empty()),
            }),
            tx_ops(whoami, 0, now, seq![a0, a1]),
        ).1 is None,
{
    let s0 = ProposalV {
        title: (Seq::<char>::empty(), 0),
        description: (Seq::<char>::empty(), 0),
        revisions: Some(Map::<RevisionId, RedactV<RevisionV>>::empty()),
    };
    let opvs = tx_ops(whoami, 0, now, seq![a0, a1]);
    assert(opvs.len() == 2);
    assert(opvs[0].action == a0@ && opvs[1].action == a1@);
    assert(apply_op(s0, opvs[0]) is Ok);
    let s1 = apply_op(s0, opvs[0])->Ok_0;
    assert(apply_op(s1, opvs[1]) is Ok);
    let s2 = apply_op(s1, opvs[1])->Ok_0;
    assert(opvs.skip(1).skip(1) =~= Seq::<OpV>::empty());
    assert(apply_ops(s2, opvs.skip(1).skip(1)) == (s2, None::<ApplyError>));
    assert(opvs.skip(1)[0] == opvs[1]);
    assert(apply_ops(s1, opvs.skip(1)) == (s2, None::<ApplyError>));
    assert(apply_ops(s0, opvs) == (s2, None::<ApplyError>));
}

/// A linearization of an object's history, as operation models: some valid
/// causal order of exactly the recorded operations.
pub open spec fn history_linearization(
    d: crate::dag::DagV<OpId, Op<Action>>,
    opvs: Seq<OpV>,
) -> bool {
    exists|order: Seq<OpId>|
        {
            &&& #[trigger] order.no_duplicates()
            &&& order.len() == opvs.len()
            &&& (forall|k: OpId| order.contains(k) <==> d.nodes.dom().contains(k))
            &&& (forall|i: int, dep: OpId|
                0 <= i < order.len() && #[trigger] d.nodes[order[i]].deps.contains(dep)
                    && d.nodes.dom().contains(dep) ==> exists|j: int| 0 <= j < i && order[j] == dep)
                || !crate::store::dag_acyclic(d)
            &&& (forall|i: int|
                0 <= i < order.len() ==> #[trigger] opvs[i] == d.nodes[order[i]].value@)
        }
}

/// The store of identity proposals for one author.
pub struct Proposals {
    whoami: PublicKey,
    /// The underlying operation store.
    pub store: Store,
}

impl Proposals {
    /// The store is well-formed.
    pub closed spec fn wf(self) -> bool {
        self.store.wf()
    }

    /// The acting author.
    pub closed spec fn spec_whoami(self) -> PublicKey {
        self.whoami
    }

    /// The store's next object identifier; `u64::MAX` means the identifier
    /// space is exhausted.
    pub closed spec fn spec_next_id(self) -> u64 {
        self.store.spec_next()
    }

    /// The underlying operation store's histories.
    pub closed spec fn histories(self) -> Map<ObjectId, crate::dag::DagV<OpId, Op<Action>>> {
        self.store.objects_map()
    }

    /// Open a proposal store acting as `whoami`.
    pub fn open(whoami: PublicKey) -> (r: Proposals)
        ensures
            r.wf(),
            r.spec_whoami() == whoami,
            r.histories() == Map::<ObjectId, crate::dag::DagV<OpId, Op<Action>>>::empty(),
    {
        Proposals { whoami, store: Store::new() }
    }

    /// Set the physical timestamp for subsequently committed operations.
    pub fn set_now(&mut self, now: u64)
        requires
            old(self).wf(),
        ensures
            final(self).wf(),
            final(self).spec_whoami() == old(self).spec_whoami(),
            final(self).histories() == old(self).histories(),
    {
        self.store.set_now(now);
    }

    /// Create a proposal: a fresh object whose first causal unit proposes
    /// the document and sets the title and description. The initial
    /// operations always apply: only the store itself can fail.
    pub fn create(&mut self, title: String, description: String, proposed: Doc, previous: Identity)
        -> (r: Result<ProposalMut, Error>)
        requires
            old(self).wf(),
        ensures
            final(self).wf(),
            final(self).spec_whoami() == old(self).spec_whoami(),
            r is Err <==> old(self).spec_next_id() == u64::MAX,
            match r {
                Ok(pm) => ({
                    let folded = apply_ops(
                        (ProposalV {
                            title: (Seq::<char>::empty(), 0),
                            description: (Seq::<char>::empty(), 0),
                            revisions: Some(Map::<RevisionId, RedactV<RevisionV>>::empty()),
                        }),
                        tx_ops(
                            old(self).spec_whoami(),
                            0,
                            final(self).spec_now_v(),
                            seq![
                                Action::Revision { proposed, previous },
                                Action::Edit { title, description },
                            ],
                        ),
                    );
                    &&& pm.wf()
                    &&& folded.1 is None
                    &&& pm.spec_proposal()@ == folded.0
                    &&& pm.spec_clock() == 2
                    &&& pm.spec_actor() == old(self).spec_whoami()
                    &&& final(self).histories().dom().contains(pm.spec_id())
                    &&& !old(self).histories().dom().contains(pm.spec_id())
                }),
                Err(Error::Apply(_)) => false,
                Err(Error::Store(_)) => *final(self) == *old(self),
            },
    {
        let proposal = Proposal::default();
        let id = match self.store.create_object() {
            Ok(id) => id,
            Err(e) => {
                return Err(Error::Store(e));
            },
        };
        let mut pm = ProposalMut::new(id, proposal, 0, self.whoami);
        let mut tx = Transaction::new(self.whoami, 0);
        let ghost racts = seq![
            Action::Revision { proposed, previous },
            Action::Edit { title, description },
        ];
        tx.revision(proposed, previous);
        tx.edit(title, description);
        proof {
            assert(tx.spec_actions() =~= racts);
            lemma_create_applies(
                self.spec_whoami(),
                self.store.spec_now(),
                racts[0],
                racts[1],
            );
        }
        match pm.transact(tx, &mut self.store) {
            Ok(()) => Ok(pm),
            Err(e) => {
                // The object was just registered, so the store cannot miss
                // it, and the initial operations always apply.
                proof {
                    assert(false);
                }
                Err(e)
            },
        }
    }

    /// The physical timestamp currently stamped onto new operations.
    pub closed spec fn spec_now_v(self) -> u64 {
        self.store.spec_now()
    }

    /// Materialize a proposal by replaying its operations in a causal
    /// linearization chosen by the given RNG. Returns `None` for an
    /// unknown object.
    pub fn get(&self, id: &ObjectId, rng: fastrand::Rng) -> (r: Result<Option<Proposal>, Error>)
        requires
            self.wf(),
        ensures
            match r {
                Ok(None) => !self.histories().dom().contains(*id),
                Ok(Some(p)) => self.histories().dom().contains(*id) && p.wf() && (exists|
                    opvs: Seq<OpV>,
                |
                    #[trigger] history_linearization(self.histories()[*id], opvs) && apply_ops(
                        (ProposalV {
                            title: (Seq::<char>::empty(), 0),
                            description: (Seq::<char>::empty(), 0),
                            revisions: Some(Map::<RevisionId, RedactV<RevisionV>>::empty()),
                        }),
                        opvs,
                    ) == (p@, None::<ApplyError>)),
                Err(Error::Apply(e)) => self.histories().dom().contains(*id) && (exists|
                    opvs: Seq<OpV>,
                |
                    #[trigger] history_linearization(self.histories()[*id], opvs) && apply_ops(
                        (ProposalV {
                            title: (Seq::<char>::empty(), 0),
                            description: (Seq::<char>::empty(), 0),
                            revisions: Some(Map::<RevisionId, RedactV<RevisionV>>::empty()),
                        }),
                        opvs,
                    ).1 == Some(e)),
                Err(Error::Store(_)) => false,
            },
    {
        let ops = match self.store.operations(id, rng) {
            Ok(ops) => ops,
            Err(_) => {
                return Ok(None);
            },
        };
        let mut proposal = Proposal::default();
        match proposal.apply(&ops) {
            Ok(()) => {
                proof {
                    let d = self.histories()[*id];
                    let order = choose|order: Seq<OpId>|
                        {
                            &&& #[trigger] order.no_duplicates()
                            &&& order.len() == ops@.len()
                            &&& (forall|k: OpId|
                                order.contains(k) <==> d.nodes.dom().contains(k))
                            &&& (forall|i: int, dep: OpId|
                                0 <= i < order.len() && #[trigger] d.nodes[order[i]].deps.contains(
                                    dep,
                                ) && d.nodes.dom().contains(dep) ==> exists|j: int|
                                    0 <= j < i && order[j] == dep) || !crate::store::dag_acyclic(d)
                            &&& (forall|i: int|
                                0 <= i < order.len() ==> (#[trigger] ops@[i])@ == d.nodes[order[i]].value@)
                        };
                    assert forall|i: int|
                        0 <= i < order.len() implies #[trigger] ops_view(ops@)[i] == d.nodes[order[i]].value@ by {
                        assert(ops@[i]@ == d.nodes[order[i]].value@);
                    }
                    assert(history_linearization(d, ops_view(ops@)));
                }
                Ok(Some(proposal))
            },
            Err(e) => {
                proof {
                    let d = self.histories()[*id];
                    let order = choose|order: Seq<OpId>|
                        {
                            &&& #[trigger] order.no_duplicates()
                            &&& order.len() == ops@.len()
                            &&& (forall|k: OpId|
                                order.contains(k) <==> d.nodes.dom().contains(k))
                            &&& (forall|i: int, dep: OpId|
                                0 <= i < order.len() && #[trigger] d.nodes[order[i]].deps.contains(
                                    dep,
                                ) && d.nodes.dom().contains(dep) ==> exists|j: int|
                                    0 <= j < i && order[j] == dep) || !crate::store::dag_acyclic(d)
                            &&& (forall|i: int|
                                0 <= i < order.len() ==> (#[trigger] ops@[i])@ == d.nodes[order[i]].value@)
                        };
                    assert forall|i: int|
                        0 <= i < order.len() implies #[trigger] ops_view(ops@)[i] == d.nodes[order[i]].value@ by {
                        assert(ops@[i]@ == d.nodes[order[i]].value@);
                    }
                    assert(history_linearization(d, ops_view(ops@)));
                }
                Err(Error::Apply(e))
            },
        }
    }

    /// Check out a proposal for mutation, with the author's clock advanced
    /// past every operation already recorded for it.
    pub fn get_mut(&self, id: &ObjectId, rng: fastrand::Rng) -> (r: Result<ProposalMut, Error>)
        requires
            self.wf(),
        ensures
            match r {
                Ok(pm) => self.histories().dom().contains(*id) && pm.wf() && pm.spec_id() == *id
                    && pm.spec_actor() == self.spec_whoami() && (forall|k: OpId|
                    self.histories()[*id].nodes.dom().contains(k) ==> (
                    #[trigger] self.histories()[*id].nodes[k]).value@.clock <= pm.spec_clock()) && (
                exists|opvs: Seq<OpV>|
                    #[trigger] history_linearization(self.histories()[*id], opvs) && apply_ops(
                        (ProposalV {
                            title: (Seq::<char>::empty(), 0),
                            description: (Seq::<char>::empty(), 0),
                            revisions: Some(Map::<RevisionId, RedactV<RevisionV>>::empty()),
                        }),
                        opvs,
                    ) == (pm.spec_proposal()@, None::<ApplyError>)),
                Err(Error::Apply(e)) => self.histories().dom().contains(*id) && (exists|
                    opvs: Seq<OpV>,
                |
                    #[trigger] history_linearization(self.histories()[*id], opvs) && apply_ops(
                        (ProposalV {
                            title: (Seq::<char>::empty(), 0),
                            description: (Seq::<char>::empty(), 0),
                            revisions: Some(Map::<RevisionId, RedactV<RevisionV>>::empty()),
                        }),
                        opvs,
                    ).1 == Some(e)),
                Err(Error::Store(e)) => e == StoreError::NotFound(*id)
                    && !self.histories().dom().contains(*id),
            },
    {
        let ops = match self.store.operations(id, rng) {
            Ok(ops) => ops,
            Err(e) => {
                return Err(Error::Store(e));
            },
        };
        let mut proposal = Proposal::default();
        let applied = proposal.apply(&ops);
        let ghost d = self.histories()[*id];
        let ghost order = choose|order: Seq<OpId>|
            {
                &&& #[trigger] order.no_duplicates()
                &&& order.len() == ops@.len()
                &&& (forall|k: OpId| order.contains(k) <==> d.nodes.dom().contains(k))
                &&& (forall|i: int, dep: OpId|
                    0 <= i < order.len() && #[trigger] d.nodes[order[i]].deps.contains(dep)
                        && d.nodes.dom().contains(dep) ==> exists|j: int|
                        0 <= j < i && order[j] == dep) || !crate::store::dag_acyclic(d)
                &&& (forall|i: int|
                    0 <= i < order.len() ==> (#[trigger] ops@[i])@ == d.nodes[order[i]].value@)
            };
        match applied {
            Ok(()) => {},
            Err(e) => {
                proof {
                    assert forall|i2: int|
                        0 <= i2 < order.len() implies #[trigger] ops_view(ops@)[i2] == d.nodes[order[i2]].value@ by {
                        assert(ops@[i2]@ == d.nodes[order[i2]].value@);
                    }
                    assert(history_linearization(d, ops_view(ops@)));
                }
                return Err(Error::Apply(e));
            },
        }
        let n = ops.len();
        let mut clock: u64 = 0;
        let mut i: usize = 0;
        while i < n
            invariant
                n == ops@.len(),
                i <= n,
                forall|j: int| 0 <= j < i ==> (#[trigger] ops@[j]).clock <= clock,
            decreases n - i,
        {
            if ops[i].clock > clock {
                clock = ops[i].clock;
            }
            i += 1;
        }
        proof {
            assert forall|k: OpId| d.nodes.dom().contains(k) implies (
            #[trigger] d.nodes[k]).value@.clock <= clock by {
                assert(order.contains(k));
                let w = choose|w: int| 0 <= w < order.len() && order[w] == k;
                assert(ops@[w]@ == d.nodes[k].value@);
                assert(ops@[w].clock <= clock);
            }
            assert forall|i2: int|
                0 <= i2 < order.len() implies #[trigger] ops_view(ops@)[i2] == d.nodes[order[i2]].value@ by {
                assert(ops@[i2]@ == d.nodes[order[i2]].value@);
            }
            assert(history_linearization(d, ops_view(ops@)));
        }
        Ok(ProposalMut::new(*id, proposal, clock, self.whoami))
    }
}

} // verus!

