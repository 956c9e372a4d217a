use radicle_cobs::identity::{Doc, Error, Identity, Proposals};
use radicle_cobs::keys::{ObjectId, Oid, OpId, PublicKey, Signature};
use radicle_cobs::store::StoreError;

fn pk(k: u64) -> PublicKey {
    PublicKey::new(k)
}

fn doc(threshold: usize, delegates: &[u64]) -> Doc {
    Doc {
        threshold,
        delegates: delegates.iter().map(|d| pk(*d)).collect(),
    }
}

fn prev_identity(threshold: usize, delegates: &[u64]) -> Identity {
    Identity {
        head: Oid { oid: 10 },
        root: Oid { oid: 1 },
        current: Oid { oid: 10 },
        revision: 4,
        doc: doc(threshold, delegates),
        signatures: Vec::new(),
    }
}

#[test]
fn create_and_read_back() {
    let mut ps = Proposals::open(pk(1));
    ps.set_now(1671125284);
    let pm = ps
        .create(
            String::from("Take over the world"),
            String::from("Step by step"),
            doc(2, &[1, 2, 3]),
            prev_identity(2, &[1, 2, 3]),
        )
        .unwrap();
    assert_eq!(pm.clock(), 2);
    assert_eq!(pm.proposal().title(), "Take over the world");
    assert_eq!(pm.proposal().description(), Some("Step by step"));
    assert_eq!(pm.proposal().revisions().len(), 1);

    // Replaying the stored operations materializes the same state,
    // whatever linearization the seed picks.
    let id = pm.id();
    for seed in 0..8u64 {
        let replayed = ps.get(&id, fastrand::Rng::with_seed(seed)).unwrap().unwrap();
        assert_eq!(&replayed, pm.proposal());
    }
}

#[test]
fn commit_chains_onto_tips() {
    let mut ps = Proposals::open(pk(1));
    let pm = ps
        .create(
            String::from("T"),
            String::from("D"),
            doc(1, &[1]),
            prev_identity(1, &[1]),
        )
        .unwrap();
    let id = pm.id();
    // The create transaction committed two chained operations: the tip is
    // the second.
    let tips = ps.store.tips_of(&id).unwrap();
    assert_eq!(tips, vec![OpId::new(2, 1)]);

    // A further transaction chains onto that tip.
    let mut pm2 = ps.get_mut(&id, fastrand::Rng::with_seed(3)).unwrap();
    let rid = OpId::new(1, 1);
    let op_id = pm2
        .accept(rid, Signature::new(77), &mut ps.store)
        .unwrap();
    assert_eq!(op_id, OpId::new(3, 1));
    let tips = ps.store.tips_of(&id).unwrap();
    assert_eq!(tips, vec![OpId::new(3, 1)]);
}

#[test]
fn mutate_and_replay() {
    let mut ps = Proposals::open(pk(2));
    ps.set_now(7);
    let mut pm = ps
        .create(
            String::from("Title"),
            String::from("Desc"),
            doc(2, &[1, 2, 3]),
            prev_identity(2, &[1, 2, 3]),
        )
        .unwrap();
    let id = pm.id();
    let rid = OpId::new(1, 2);

    pm.accept(rid, Signature::new(21), &mut ps.store).unwrap();
    pm.reject(rid, &mut ps.store).unwrap();
    pm.edit(
        String::from("Renamed"),
        String::from("Longer description"),
        &mut ps.store,
    )
    .unwrap();
    assert_eq!(pm.proposal().title(), "Renamed");

    // The store replays to the same state the writer holds.
    let replayed = ps.get(&id, fastrand::Rng::with_seed(11)).unwrap().unwrap();
    assert_eq!(&replayed, pm.proposal());
    let pm2 = ps.get_mut(&id, fastrand::Rng::with_seed(12)).unwrap();
    assert_eq!(pm2.proposal(), pm.proposal());
    assert!(pm2.clock() >= pm.clock());
}

#[test]
fn publish_through_store() {
    let mut ps = Proposals::open(pk(1));
    let mut pm = ps
        .create(
            String::from("T"),
            String::from("D"),
            doc(1, &[1, 2]),
            prev_identity(1, &[1, 2]),
        )
        .unwrap();
    let rid = OpId::new(1, 1);
    pm.accept(rid, Signature::new(5), &mut ps.store).unwrap();
    assert!(!pm.proposal().is_published());
    let new_identity = pm.proposal().publish(&rid, Oid { oid: 99 }).unwrap();
    assert_eq!(new_identity.revision, 5);
    pm.publish(&mut ps.store).unwrap();
    assert!(pm.proposal().is_published());

    // Further mutation through the store now fails as published.
    let err = pm
        .reject(rid, &mut ps.store)
        .unwrap_err();
    assert_eq!(
        err,
        Error::Apply(radicle_cobs::identity::ApplyError::Published)
    );
}

#[test]
fn failed_operation_stays_in_history() {
    // A committed operation that fails to apply is still part of the
    // stored history: replaying it surfaces the same error.
    let mut ps = Proposals::open(pk(1));
    let mut pm = ps
        .create(
            String::from("T"),
            String::from("D"),
            doc(1, &[1]),
            prev_identity(1, &[1]),
        )
        .unwrap();
    let id = pm.id();
    let rid = OpId::new(1, 1);
    let bogus_reply = OpId::new(50, 5);
    let err = pm
        .comment(rid, String::from("?"), bogus_reply, &mut ps.store)
        .unwrap_err();
    assert!(matches!(err, Error::Apply(_)));
    // The writer's materialized state is untouched...
    assert_eq!(pm.proposal().title(), "T");
    // ...but the replay hits the recorded, unappliable operation.
    let replay = ps.get(&id, fastrand::Rng::with_seed(2)).unwrap_err();
    assert!(matches!(replay, Error::Apply(_)));
}

#[test]
fn unknown_object_errors() {
    let ps = Proposals::open(pk(1));
    let ghost = ObjectId { id: 42 };
    assert_eq!(
        ps.get(&ghost, fastrand::Rng::with_seed(0)).unwrap(),
        None
    );
    let err = ps
        .get_mut(&ghost, fastrand::Rng::with_seed(0))
        .unwrap_err();
    assert_eq!(err, Error::Store(StoreError::NotFound(ghost)));
    assert_eq!(
        ps.store.tips_of(&ghost).unwrap_err(),
        StoreError::NotFound(ghost)
    );
}

#[test]
fn two_replicas_exchange_operations() {
    // Two writers on separate stores exchange their full operation sets
    // and converge.
    let mut ps1 = Proposals::open(pk(1));
    let pm1 = ps1
        .create(
            String::from("T"),
            String::from("D"),
            doc(2, &[1, 2]),
            prev_identity(2, &[1, 2]),
        )
        .unwrap();
    let id = pm1.id();
    let rid = OpId::new(1, 1);

    // Replica 2 receives the operations, replays, and votes.
    let ops = ps1
        .store
        .operations(&id, fastrand::Rng::with_seed(1))
        .unwrap();
    let mut p2 = radicle_cobs::identity::Proposal::default();
    p2.apply(&ops).unwrap();
    let accept = radicle_cobs::cob::Op::new(
        radicle_cobs::identity::Action::Accept {
            revision: rid,
            signature: Signature::new(9),
        },
        pk(2),
        8,
        3,
    );
    p2.apply(&vec![accept.clone()]).unwrap();

    // Replica 1 receives the vote and applies it; both now agree.
    let mut p1 = pm1.proposal().clone();
    p1.apply(&vec![accept]).unwrap();
    assert_eq!(p1, p2);
}
