use radicle_cobs::cob::Op;
use radicle_cobs::identity::{
    Action, ApplyError, Doc, Identity, Proposal, PublishError, Verdict,
};
use radicle_cobs::keys::{Oid, OpId, PublicKey, Signature};
use radicle_cobs::thread;

fn pk(k: u64) -> PublicKey {
    PublicKey::new(k)
}

fn sig(s: u64) -> Signature {
    Signature::new(s)
}

fn doc(threshold: usize, delegates: &[u64]) -> Doc {
    Doc {
        threshold,
        delegates: delegates.iter().map(|d| pk(*d)).collect(),
    }
}

fn prev_identity(threshold: usize, delegates: &[u64]) -> Identity {
    Identity {
        head: Oid { oid: 10 },
        root: Oid { oid: 1 },
        current: Oid { oid: 10 },
        revision: 4,
        doc: doc(threshold, delegates),
        signatures: Vec::new(),
    }
}

fn op(action: Action, author: u64, clock: u64) -> Op<Action> {
    Op::new(action, pk(author), 100, clock)
}

fn revision_op(author: u64, clock: u64, threshold: usize, delegates: &[u64]) -> Op<Action> {
    op(
        Action::Revision {
            proposed: doc(threshold, delegates),
            previous: prev_identity(threshold, delegates),
        },
        author,
        clock,
    )
}

/// Applies each op in order, panicking on the first error.
fn apply_all(p: &mut Proposal, ops: Vec<Op<Action>>) {
    p.apply(&ops).unwrap();
}

#[test]
fn edit_last_writer_wins() {
    let mut p = Proposal::default();
    apply_all(
        &mut p,
        vec![
            op(
                Action::Edit {
                    title: String::from("Alpha"),
                    description: String::from("first"),
                },
                1,
                5,
            ),
            op(
                Action::Edit {
                    title: String::from("Beta"),
                    description: String::from("second"),
                },
                2,
                3,
            ),
        ],
    );
    // The clock-5 write wins over the clock-3 write, whatever the order.
    assert_eq!(p.title(), "Alpha");
    assert_eq!(p.description(), Some("first"));
}

#[test]
fn edit_tie_breaks_deterministically() {
    let mut a = Proposal::default();
    let mut b = Proposal::default();
    let e1 = op(
        Action::Edit {
            title: String::from("apple"),
            description: String::from("x"),
        },
        1,
        7,
    );
    let e2 = op(
        Action::Edit {
            title: String::from("banana"),
            description: String::from("y"),
        },
        2,
        7,
    );
    apply_all(&mut a, vec![e1.clone(), e2.clone()]);
    apply_all(&mut b, vec![e2, e1]);
    assert_eq!(a.title(), "banana");
    assert_eq!(a, b);
}

#[test]
fn convergence_under_reordering() {
    // Applying {op_a, op_b} as (a, b) and as (b, a) on two replicas
    // yields identical materialized state.
    let op_a = revision_op(1, 1, 2, &[1, 2, 3]);
    let op_b = op(
        Action::Edit {
            title: String::from("T"),
            description: String::from("D"),
        },
        2,
        1,
    );
    let mut r1 = Proposal::default();
    let mut r2 = Proposal::default();
    apply_all(&mut r1, vec![op_a.clone(), op_b.clone()]);
    apply_all(&mut r2, vec![op_b, op_a]);
    assert_eq!(r1, r2);
}

#[test]
fn merge_is_commutative_on_replicas() {
    // Two replicas that saw different operations converge when each
    // merges the other's state, whichever way the merge runs.
    let rev = revision_op(1, 1, 2, &[1, 2, 3]);
    let rid = rev.id();
    let mut a = Proposal::default();
    apply_all(&mut a, vec![rev.clone()]);
    let mut b = a.clone();
    apply_all(
        &mut a,
        vec![op(
            Action::Accept {
                revision: rid,
                signature: sig(41),
            },
            2,
            2,
        )],
    );
    apply_all(&mut b, vec![op(Action::Reject { revision: rid }, 3, 2)]);

    let mut ab = a.clone();
    ab.merge(b.clone());
    let mut ba = b.clone();
    ba.merge(a.clone());
    assert_eq!(ab, ba);

    // Idempotence: merging a state with itself changes nothing.
    let mut aa = a.clone();
    aa.merge(a.clone());
    assert_eq!(aa, a);

    // The merged state holds both verdicts.
    let (_, r) = ab.latest().unwrap();
    assert_eq!(r.accepted(), vec![pk(2)]);
    assert_eq!(r.rejected(), vec![pk(3)]);
}

#[test]
fn quorum_scenario() {
    // Previous identity threshold of 2, with 3 delegates: two accepts
    // reach quorum, one accept and one reject do not.
    let rev = revision_op(1, 1, 2, &[1, 2, 3]);
    let rid = rev.id();
    let mut p = Proposal::default();
    apply_all(
        &mut p,
        vec![
            rev,
            op(
                Action::Accept {
                    revision: rid,
                    signature: sig(21),
                },
                2,
                2,
            ),
            op(
                Action::Accept {
                    revision: rid,
                    signature: sig(31),
                },
                3,
                3,
            ),
        ],
    );
    let (_, r) = p.latest().unwrap();
    assert!(r.reaches_quorum());

    let rev2 = revision_op(1, 1, 2, &[1, 2, 3]);
    let rid2 = rev2.id();
    let mut q = Proposal::default();
    apply_all(
        &mut q,
        vec![
            rev2,
            op(
                Action::Accept {
                    revision: rid2,
                    signature: sig(21),
                },
                2,
                2,
            ),
            op(Action::Reject { revision: rid2 }, 3, 3),
        ],
    );
    let (_, r2) = q.latest().unwrap();
    assert!(!r2.reaches_quorum());
}

#[test]
fn votes_apply_in_any_order() {
    // Verdicts from different delegates land in either order with the
    // same outcome.
    let rev = revision_op(1, 1, 2, &[1, 2, 3]);
    let rid = rev.id();
    let accept = op(
        Action::Accept {
            revision: rid,
            signature: sig(21),
        },
        2,
        2,
    );
    let reject = op(Action::Reject { revision: rid }, 3, 2);
    let mut p1 = Proposal::default();
    apply_all(&mut p1, vec![rev.clone(), accept.clone(), reject.clone()]);
    let mut p2 = Proposal::default();
    apply_all(&mut p2, vec![rev, reject, accept]);
    assert_eq!(p1, p2);
    let (_, r) = p1.latest().unwrap();
    assert_eq!(r.accepted(), vec![pk(2)]);
    assert_eq!(r.rejected(), vec![pk(3)]);
}

#[test]
fn later_vote_supersedes_earlier() {
    // A delegate's later verdict replaces the earlier one.
    let rev = revision_op(1, 1, 2, &[1, 2, 3]);
    let rid = rev.id();
    let mut p = Proposal::default();
    apply_all(
        &mut p,
        vec![
            rev,
            op(
                Action::Accept {
                    revision: rid,
                    signature: sig(21),
                },
                2,
                2,
            ),
            op(Action::Reject { revision: rid }, 2, 3),
        ],
    );
    let (_, r) = p.latest().unwrap();
    assert_eq!(r.accepted(), Vec::<PublicKey>::new());
    assert_eq!(r.rejected(), vec![pk(2)]);
    assert_eq!(r.verdicts(), vec![(pk(2), Verdict::Reject)]);
}

#[test]
fn publish_irreversible() {
    // Once Publish is applied, any subsequent mutation of the revisions
    // fails with the published-state error.
    let rev = revision_op(1, 1, 2, &[1, 2]);
    let rid = rev.id();
    let mut p = Proposal::default();
    apply_all(&mut p, vec![rev, op(Action::Publish, 1, 2)]);
    assert!(p.is_published());

    let again = revision_op(2, 9, 2, &[1, 2]);
    assert_eq!(
        p.clone().apply(&vec![again]),
        Err(ApplyError::Published)
    );
    assert_eq!(
        p.clone().apply(&vec![op(
            Action::Accept {
                revision: rid,
                signature: sig(1)
            },
            2,
            9
        )]),
        Err(ApplyError::Published)
    );
    assert_eq!(
        p.clone()
            .apply(&vec![op(Action::Reject { revision: rid }, 2, 9)]),
        Err(ApplyError::Published)
    );
    assert_eq!(
        p.clone()
            .apply(&vec![op(Action::Redact { revision: rid }, 2, 9)]),
        Err(ApplyError::Published)
    );
    assert_eq!(
        p.clone().apply(&vec![op(
            Action::Thread {
                revision: rid,
                action: thread::Action::Comment {
                    body: String::from("hi"),
                    reply_to: None
                }
            },
            2,
            9
        )]),
        Err(ApplyError::Published)
    );

    // Publishing again is idempotent, and edits still land.
    let mut q = p.clone();
    apply_all(&mut q, vec![op(Action::Publish, 2, 9)]);
    assert!(q.is_published());
    let published = p.published().unwrap();
    assert_eq!(published.title, String::new());
}

#[test]
fn redaction_blocks_voting() {
    let rev = revision_op(1, 1, 2, &[1, 2]);
    let rid = rev.id();
    let mut p = Proposal::default();
    apply_all(&mut p, vec![rev, op(Action::Redact { revision: rid }, 1, 2)]);
    assert_eq!(
        p.clone().apply(&vec![op(
            Action::Accept {
                revision: rid,
                signature: sig(5)
            },
            2,
            3
        )]),
        Err(ApplyError::Redacted(rid))
    );
    assert_eq!(
        p.clone()
            .apply(&vec![op(Action::Reject { revision: rid }, 2, 3)]),
        Err(ApplyError::Redacted(rid))
    );
    // The redacted revision no longer shows.
    assert!(p.latest().is_none());
    assert_eq!(p.revisions().len(), 0);
}

#[test]
fn missing_causal_dependency() {
    let mut p = Proposal::default();
    let ghost_rid = OpId::new(77, 1);
    assert_eq!(
        p.apply(&vec![op(
            Action::Accept {
                revision: ghost_rid,
                signature: sig(5)
            },
            2,
            3
        )]),
        Err(ApplyError::Missing(ghost_rid))
    );
    assert_eq!(
        p.apply(&vec![op(Action::Redact { revision: ghost_rid }, 2, 3)]),
        Err(ApplyError::Missing(ghost_rid))
    );
}

#[test]
fn thread_discussion() {
    let rev = revision_op(1, 1, 2, &[1, 2]);
    let rid = rev.id();
    let root_comment = op(
        Action::Thread {
            revision: rid,
            action: thread::Action::Comment {
                body: String::from("first!"),
                reply_to: None,
            },
        },
        2,
        2,
    );
    let root_id = root_comment.id();
    let reply = op(
        Action::Thread {
            revision: rid,
            action: thread::Action::Comment {
                body: String::from("welcome"),
                reply_to: Some(root_id),
            },
        },
        3,
        3,
    );
    let mut p = Proposal::default();
    apply_all(&mut p, vec![rev, root_comment, reply]);
    let (_, r) = p.latest().unwrap();
    assert_eq!(r.discussion.len(), 2);

    // Replying to an unknown comment is a missing causal dependency.
    let bogus = OpId::new(99, 9);
    let bad = op(
        Action::Thread {
            revision: rid,
            action: thread::Action::Comment {
                body: String::from("?"),
                reply_to: Some(bogus),
            },
        },
        3,
        4,
    );
    assert_eq!(
        p.apply(&vec![bad]),
        Err(ApplyError::Thread(thread::OpError::Missing(bogus)))
    );
}

#[test]
fn publish_checkpoint() {
    let rev = revision_op(1, 1, 2, &[1, 2, 3]);
    let rid = rev.id();
    let mut p = Proposal::default();
    apply_all(&mut p, vec![rev]);

    // Quorum not reached: one accept against a threshold of two.
    apply_all(
        &mut p,
        vec![op(
            Action::Accept {
                revision: rid,
                signature: sig(21),
            },
            2,
            2,
        )],
    );
    assert_eq!(
        p.publish(&rid, Oid { oid: 50 }),
        Err(PublishError::Quorum(2))
    );

    // A second accept reaches quorum and yields the next identity.
    apply_all(
        &mut p,
        vec![op(
            Action::Accept {
                revision: rid,
                signature: sig(31),
            },
            3,
            3,
        )],
    );
    let id = p.publish(&rid, Oid { oid: 50 }).unwrap();
    assert_eq!(id.current, Oid { oid: 50 });
    assert_eq!(id.head, Oid { oid: 50 });
    assert_eq!(id.root, Oid { oid: 1 });
    assert_eq!(id.revision, 5);
    let mut signers: Vec<(PublicKey, Signature)> = id.signatures.clone();
    signers.sort_by_key(|(k, _)| k.key);
    assert_eq!(signers, vec![(pk(2), sig(21)), (pk(3), sig(31))]);

    // Unknown and redacted revisions, and a closed gate, each report
    // their own error.
    let bogus = OpId::new(88, 8);
    assert_eq!(
        p.publish(&bogus, Oid { oid: 50 }),
        Err(PublishError::Missing(bogus))
    );
    let mut redacted = p.clone();
    apply_all(
        &mut redacted,
        vec![op(Action::Redact { revision: rid }, 1, 9)],
    );
    assert_eq!(
        redacted.publish(&rid, Oid { oid: 50 }),
        Err(PublishError::Redacted(rid))
    );
    let mut closed = p.clone();
    apply_all(&mut closed, vec![op(Action::Publish, 1, 9)]);
    assert_eq!(
        closed.publish(&rid, Oid { oid: 50 }),
        Err(PublishError::Published(rid))
    );
}

#[test]
fn gate_absorption_on_states() {
    // Merging a published state with an open one stays published, in
    // either order.
    let rev = revision_op(1, 1, 2, &[1, 2]);
    let mut open = Proposal::default();
    apply_all(&mut open, vec![rev]);
    let mut published = Proposal::default();
    apply_all(&mut published, vec![op(Action::Publish, 1, 1)]);

    let mut a = published.clone();
    a.merge(open.clone());
    assert!(a.is_published());

    let mut b = open;
    b.merge(published);
    assert!(b.is_published());
}

#[test]
fn revisions_and_latest_by() {
    let r1 = revision_op(1, 1, 2, &[1, 2]);
    let r2 = revision_op(2, 2, 2, &[1, 2]);
    let r3 = revision_op(1, 3, 2, &[1, 2]);
    let (i1, i2, i3) = (r1.id(), r2.id(), r3.id());
    let mut p = Proposal::default();
    apply_all(&mut p, vec![r1, r2, r3]);

    let ids: Vec<OpId> = p.revisions().into_iter().map(|(id, _)| id).collect();
    assert_eq!(ids, vec![i1, i2, i3]);

    let (latest, _) = p.latest().unwrap();
    assert_eq!(latest, i3);
    let (by1, _) = p.latest_by(&pk(1)).unwrap();
    assert_eq!(by1, i3);
    let (by2, _) = p.latest_by(&pk(2)).unwrap();
    assert_eq!(by2, i2);
    assert!(p.latest_by(&pk(9)).is_none());

    // Duplicate delivery of the same revision is idempotent.
    let mut q = p.clone();
    apply_all(&mut q, vec![revision_op(1, 3, 2, &[1, 2])]);
    assert_eq!(q, p);
}
