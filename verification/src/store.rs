//! The in-memory operation store: one causal graph of signed operations
//! per collaborative object, and the transaction that batches actions into
//! operations whose causal parents are the object's current tips.
//!
//! Content-addressed persistence of operations is a collaborator outside
//! this crate; the store keeps the causal structure the core needs to
//! replay objects.

use vstd::prelude::*;
use crate::cob::Op;
use crate::dag::{Dag, DagV, NodeV};
use crate::identity::Action;
use crate::keys::{ObjectId, OpId, PublicKey};
use crate::vecmap::VecMap;

verus! {

/// Error touching the store.
#[derive(Clone, Copy, Debug, PartialEq, Eq)]
pub enum StoreError {
    /// No object with the given identifier exists.
    NotFound(ObjectId),
}

/// The operation history of one object.
struct History {
    dag: Dag<OpId, Op<Action>>,
}

/// An in-memory store of operation histories, one per object.
pub struct Store {
    objects: VecMap<ObjectId, History>,
    next: u64,
    now: u64,
}

impl Store {
    /// The containers are well-formed and object identifiers stay below
    /// the allocation counter.
    pub closed spec fn wf(self) -> bool {
        &&& self.objects.wf()
        &&& forall|id: ObjectId|
            self.objects@.dom().contains(id) ==> (#[trigger] self.objects@[id]).dag.wf()
        &&& forall|id: ObjectId|
            #[trigger] self.objects@.dom().contains(id) ==> id.id < self.next
    }

    /// The histories, as a map from object identifier to causal graph
    /// model.
    pub closed spec fn objects_map(self) -> Map<ObjectId, DagV<OpId, Op<Action>>> {
        Map::new(
            |id: ObjectId| self.objects@.dom().contains(id),
            |id: ObjectId| self.objects@[id].dag@,
        )
    }

    /// The physical timestamp stamped onto newly committed operations.
    pub closed spec fn spec_now(self) -> u64 {
        self.now
    }

    /// The next object identifier to be allocated; `u64::MAX` means the
    /// identifier space is exhausted.
    pub closed spec fn spec_next(self) -> u64 {
        self.next
    }

    /// Create an empty store.
    pub fn new() -> (r: Store)
        ensures
            r.wf(),
            r.objects_map() == Map::<ObjectId, DagV<OpId, Op<Action>>>::empty(),
            r.spec_now() == 0,
    {
        let r = Store { objects: VecMap::new(), next: 0, now: 0 };
        proof {
            assert(r.objects_map() =~= Map::<ObjectId, DagV<OpId, Op<Action>>>::empty());
        }
        r
    }

    /// Set the physical timestamp for subsequently committed operations.
    /// Physical time comes from a collaborator outside the core.
    pub fn set_now(&mut self, now: u64)
        requires
            old(self).wf(),
        ensures
            final(self).wf(),
            final(self).objects_map() == old(self).objects_map(),
            final(self).spec_now() == now,
    {
        self.now = now;
        proof {
            assert(self.objects_map() =~= old(self).objects_map());
        }
    }

    /// Register a new, empty object and return its fresh identifier.
    /// Fails exactly when the identifier space is exhausted.
    pub fn create_object(&mut self) -> (r: Result<ObjectId, StoreError>)
        requires
            old(self).wf(),
        ensures
            final(self).wf(),
            final(self).spec_now() == old(self).spec_now(),
            r is Err <==> old(self).spec_next() == u64::MAX,
            match r {
                Ok(id) => id == (ObjectId { id: old(self).spec_next() }) && !old(
                    self,
                ).objects_map().dom().contains(id) && final(self).spec_next() == old(
                    self,
                ).spec_next() + 1 && final(self).objects_map() == old(self).objects_map().insert(
                    id,
                    DagV {
                        nodes: Map::<OpId, NodeV<OpId, Op<Action>>>::empty(),
                        tips: Set::<OpId>::empty(),
                        roots: Set::<OpId>::empty(),
                    },
                ),
                Err(e) => e == StoreError::NotFound(ObjectId { id: u64::MAX }) && *final(self)
                    == *old(self),
            },
    {
        let id = ObjectId { id: self.next };
        if self.next == u64::MAX {
            // Identifier space exhausted; in practice unreachable.
            return Err(StoreError::NotFound(id));
        }
        self.next = self.next + 1;
        let dag: Dag<OpId, Op<Action>> = Dag::new();
        self.objects.insert(id, History { dag });
        proof {
            assert(self.objects_map() =~= old(self).objects_map().insert(
                id,
                DagV {
                    nodes: Map::<OpId, NodeV<OpId, Op<Action>>>::empty(),
                    tips: Set::<OpId>::empty(),
                    roots: Set::<OpId>::empty(),
                },
            ));
        }
        Ok(id)
    }

    /// The current causal tips (heads) of an object's history.
    pub fn tips_of(&self, object: &ObjectId) -> (r: Result<Vec<OpId>, StoreError>)
        requires
            self.wf(),
        ensures
            match r {
                Ok(tips) => self.objects_map().dom().contains(*object) && tips@.no_duplicates()
                    && (forall|k: OpId|
                    tips@.contains(k) <==> self.objects_map()[*object].tips.contains(k)),
                Err(e) => !self.objects_map().dom().contains(*object) && e == StoreError::NotFound(
                    *object,
                ),
            },
    {
        match self.objects.get(object) {
            None => Err(StoreError::NotFound(*object)),
            Some(hist) => Ok(hist.dag.tips()),
        }
    }

    /// The operations of an object, in one valid causal linearization
    /// chosen by the given RNG: every operation appears exactly once, and,
    /// the graph being acyclic, after all of its causal dependencies.
    pub fn operations(&self, object: &ObjectId, rng: fastrand::Rng) -> (r: Result<
        Vec<Op<Action>>,
        StoreError,
    >)
        requires
            self.wf(),
        ensures
            match r {
                Ok(ops) => self.objects_map().dom().contains(*object) && (exists|order: Seq<OpId>|
                    {
                        let d = self.objects_map()[*object];
                        &&& #[trigger] order.no_duplicates()
                        &&& order.len() == ops@.len()
                        &&& (forall|k: OpId| order.contains(k) <==> d.nodes.dom().contains(k))
                        &&& (forall|i: int, dep: OpId|
                            0 <= i < order.len() && #[trigger] d.nodes[order[i]].deps.contains(dep)
                                && d.nodes.dom().contains(dep) ==> exists|j: int|
                                0 <= j < i && order[j] == dep) || !dag_acyclic(d)
                        &&& (forall|i: int|
                            0 <= i < order.len() ==> (#[trigger] ops@[i])@ == d.nodes[order[i]].value@)
                    }),
                Err(e) => !self.objects_map().dom().contains(*object) && e == StoreError::NotFound(
                    *object,
                ),
            },
    {
        match self.objects.get(object) {
            None => Err(StoreError::NotFound(*object)),
            Some(hist) => {
                let order = hist.dag.topological(rng);
                let n = order.len();
                let mut ops: Vec<Op<Action>> = Vec::new();
                let mut i: usize = 0;
                while i < n
                    invariant
                        hist.dag.wf(),
                        n == order@.len(),
                        i <= n,
                        order@.no_duplicates(),
                        forall|k: OpId| order@.contains(k) <==> hist.dag@.nodes.dom().contains(k),
                        hist.dag.acyclic() ==> hist.dag.respects_deps(order@),
                        ops@.len() == i,
                        forall|j: int|
                            0 <= j < i ==> (#[trigger] ops@[j])@ == hist.dag@.nodes[order@[j]].value@,
                    decreases n - i,
                {
                    proof {
                        assert(order@.contains(order@[i as int]));
                    }
                    let node = hist.dag.get(&order[i]).unwrap();
                    ops.push(dup_op(node.value()));
                    i += 1;
                }
                proof {
                    let d = self.objects_map()[*object];
                    assert(d == hist.dag@);
                    if dag_acyclic(d) {
                        assert(hist.dag.acyclic()) by {
                            assert forall|s: Set<OpId>|
                                s.finite() && #[trigger] s.subset_of(hist.dag.dom()) && s.len()
                                    > 0 implies (exists|k: OpId|
                                s.contains(k) && (forall|dep: OpId|
                                    hist.dag.deps_of(k).contains(dep) && hist.dag.dom().contains(
                                        dep,
                                    ) ==> !(#[trigger] s.contains(dep)))) by {
                                assert(s.subset_of(d.nodes.dom()));
                                let k = choose|k: OpId|
                                    s.contains(k) && (forall|dep: OpId|
                                        d.nodes[k].deps.contains(dep) && d.nodes.dom().contains(
                                            dep,
                                        ) ==> !(#[trigger] s.contains(dep)));
                                assert(s.contains(k));
                                assert forall|dep: OpId|
                                    hist.dag.deps_of(k).contains(dep) && hist.dag.dom().contains(
                                        dep,
                                    ) implies !(#[trigger] s.contains(dep)) by {
                                    assert(d.nodes[k].deps.contains(dep) && d.nodes.dom().contains(
                                        dep,
                                    ));
                                }
                            }
                        }
                        assert forall|i2: int, dep: OpId|
                            0 <= i2 < order@.len() && #[trigger] d.nodes[order@[i2]].deps.contains(
                                dep,
                            ) && d.nodes.dom().contains(dep) implies exists|j: int|
                            0 <= j < i2 && order@[j] == dep by {
                            assert(hist.dag.deps_of(order@[i2]).contains(dep));
                            assert(hist.dag.dom().contains(dep));
                        }
                    }
                    assert(order@.no_duplicates() && order@.len() == ops@.len() && (forall|k: OpId|
                        order@.contains(k) <==> d.nodes.dom().contains(k)) && ((forall|
                        i2: int,
                        dep: OpId,
                    |
                        0 <= i2 < order@.len() && #[trigger] d.nodes[order@[i2]].deps.contains(dep)
                            && d.nodes.dom().contains(dep) ==> exists|j: int|
                            0 <= j < i2 && order@[j] == dep) || !dag_acyclic(d)) && (forall|i2: int|
                        0 <= i2 < order@.len() ==> (#[trigger] ops@[i2])@ == d.nodes[order@[i2]].value@));
                }
                Ok(ops)
            },
        }
    }
}

/// Acyclicity of a causal graph model, in the same well-founded form the
/// graph itself uses.
pub open spec fn dag_acyclic(d: DagV<OpId, Op<Action>>) -> bool {
    forall|s: Set<OpId>|
        #![trigger s.subset_of(d.nodes.dom())]
        s.finite() && s.subset_of(d.nodes.dom()) && s.len() > 0 ==> exists|k: OpId|
            s.contains(k) && (forall|dep: OpId|
                d.nodes[k].deps.contains(dep) && d.nodes.dom().contains(dep) ==> !(
                #[trigger] s.contains(dep)))
}

/// A copy of a thread action with the same model.
fn dup_thread_action(a: &crate::thread::Action) -> (r: crate::thread::Action)
    ensures
        r@ == a@,
{
    match a {
        crate::thread::Action::Comment { body, reply_to } => crate::thread::Action::Comment {
            body: body.clone(),
            reply_to: *reply_to,
        },
    }
}

/// A copy of an action with the same model.
fn dup_action(a: &Action) -> (r: Action)
    ensures
        r@ == a@,
{
    match a {
        Action::Accept { revision, signature } => Action::Accept {
            revision: *revision,
            signature: *signature,
        },
        Action::Edit { title, description } => Action::Edit {
            title: title.clone(),
            description: description.clone(),
        },
        Action::Publish => Action::Publish,
        Action::Redact { revision } => Action::Redact { revision: *revision },
        Action::Reject { revision } => Action::Reject { revision: *revision },
        Action::Revision { proposed, previous } => Action::Revision {
            proposed: proposed.duplicate(),
            previous: previous.duplicate(),
        },
        Action::Thread { revision, action } => Action::Thread {
            revision: *revision,
            action: dup_thread_action(action),
        },
    }
}

/// A copy of an operation with the same model.
fn dup_op(op: &Op<Action>) -> (r: Op<Action>)
    ensures
        r@ == op@,
        r.id == op.id,
{
    Op {
        id: op.id,
        author: op.author,
        clock: op.clock,
        timestamp: op.timestamp,
        action: dup_action(&op.action),
    }
}

/// An in-progress, not-yet-committed ordered sequence of actions authored
/// by one signer at one logical clock value. On commit the batch becomes
/// one operation per action, chained causally onto the object's current
/// tips.
pub struct Transaction {
    actor: PublicKey,
    clock: u64,
    actions: Vec<Action>,
}

impl Transaction {
    /// The author of the transaction.
    pub closed spec fn spec_actor(self) -> PublicKey {
        self.actor
    }

    /// The author's logical clock when the transaction began.
    pub closed spec fn spec_clock(self) -> u64 {
        self.clock
    }

    /// The batched actions, in order.
    pub closed spec fn spec_actions(self) -> Seq<Action> {
        self.actions@
    }

    /// Begin a transaction for `actor` whose clock currently reads
    /// `clock`.
    pub fn new(actor: PublicKey, clock: u64) -> (r: Transaction)
        ensures
            r.spec_actor() == actor,
            r.spec_clock() == clock,
            r.spec_actions() == Seq::<Action>::empty(),
    {
        Transaction { actor, clock, actions: Vec::new() }
    }

    /// Append an action, returning the identifier its operation will carry
    /// once committed; later actions in the same transaction may reference
    /// it.
    pub fn push(&mut self, action: Action) -> (r: OpId)
        requires
            old(self).spec_clock() + old(self).spec_actions().len() < u64::MAX,
        ensures
            final(self).spec_actor() == old(self).spec_actor(),
            final(self).spec_clock() == old(self).spec_clock(),
            final(self).spec_actions() == old(self).spec_actions().push(action),
            r == (OpId {
                clock: (old(self).spec_clock() + old(self).spec_actions().len() + 1) as u64,
                actor: old(self).spec_actor().key,
            }),
    {
        let n = self.actions.len();
        let id = OpId { clock: self.clock + (n as u64) + 1, actor: self.actor.key };
        self.actions.push(action);
        id
    }
}


/// The set of keys among the first `i` elements of a key sequence.
pub open spec fn prefix_set(s: Seq<OpId>, i: int) -> Set<OpId> {
    Set::new(|k: OpId| exists|q: int| 0 <= q < i && (#[trigger] s[q]) == k)
}

/// An operation identifier not minted by this commit: outside the
/// committing author's clock window.
pub open spec fn untouched_id(k: OpId, actor: PublicKey, clock: u64, count: int) -> bool {
    k.actor != actor.key || !(clock < k.clock <= clock + count)
}

impl Transaction {
    /// Commit the batched actions to the object's history: each action
    /// becomes one operation, the first causally depending on the object's
    /// current tips and each subsequent one on its predecessor, so the
    /// batch forms one causal unit. Returns the new operations and the
    /// advanced logical clock. Fails only if the object is unknown; the
    /// caller decides any retry.
    #[verifier::rlimit(100)]
    #[verifier::spinoff_prover]
    pub fn commit(self, object: ObjectId, store: &mut Store) -> (r: Result<
        (Vec<Op<Action>>, u64),
        StoreError,
    >)
        requires
            old(store).wf(),
            self.spec_clock() + self.spec_actions().len() <= u64::MAX,
        ensures
            final(store).wf(),
            final(store).spec_now() == old(store).spec_now(),
            match r {
                Ok(p) => {
                    let d0 = old(store).objects_map()[object];
                    let d1 = final(store).objects_map()[object];
                    &&& old(store).objects_map().dom().contains(object)
                    &&& final(store).objects_map().dom() =~= old(store).objects_map().dom()
                    &&& (forall|o: ObjectId|
                        o != object && old(store).objects_map().dom().contains(o)
                            ==> final(store).objects_map()[o] == #[trigger] old(
                            store,
                        ).objects_map()[o])
                    &&& p.0@.len() == self.spec_actions().len()
                    &&& p.1 == self.spec_clock() + self.spec_actions().len()
                    &&& (forall|i: int|
                        0 <= i < p.0@.len() ==> {
                            let op = #[trigger] p.0@[i];
                            &&& op.id == (OpId {
                                clock: (self.spec_clock() + 1 + i) as u64,
                                actor: self.spec_actor().key,
                            })
                            &&& op.author == self.spec_actor()
                            &&& op.clock == self.spec_clock() + 1 + i
                            &&& op.timestamp == old(store).spec_now()
                            &&& op.action == self.spec_actions()[i]
                        })
                    &&& (forall|k: OpId|
                        #![trigger d1.nodes.dom().contains(k)]
                        #![trigger d0.nodes.dom().contains(k)]
                        untouched_id(k, self.spec_actor(), self.spec_clock(), p.0@.len() as int)
                            ==> (d1.nodes.dom().contains(k) <==> d0.nodes.dom().contains(k)) && (
                        d0.nodes.dom().contains(k) ==> d1.nodes[k] == d0.nodes[k]))
                    &&& (forall|i: int|
                        0 <= i < p.0@.len() ==> {
                            let op = #[trigger] p.0@[i];
                            &&& d1.nodes.dom().contains(op.id)
                            &&& d1.nodes[op.id].value@ == op@
                            &&& d1.nodes[op.id].deps == (if i == 0 {
                                d0.tips
                            } else {
                                Set::<OpId>::empty().insert(p.0@[i - 1].id)
                            })
                        })
                },
                Err(e) => !old(store).objects_map().dom().contains(object) && e
                    == StoreError::NotFound(object) && *final(store) == *old(store),
            },
    {
        let Transaction { actor, clock, mut actions } = self;
        let ghost actions0 = actions@;
        let now = store.now;
        match store.objects.remove(&object) {
            None => Err(StoreError::NotFound(object)),
            Some(hist) => {
                let History { mut dag } = hist;
                let ghost d0 = dag@;
                let parents: Vec<OpId> = dag.tips();
                let n = actions.len();
                let mut ops: Vec<Op<Action>> = Vec::new();
                let mut i: usize = 0;
                while i < n
                    invariant
                        dag.wf(),
                        n == actions0.len(),
                        clock + n <= u64::MAX,
                        i <= n,
                        actions@ == actions0.skip(i as int),
                        ops@.len() == i,
                        parents@.no_duplicates(),
                        forall|k: OpId| parents@.contains(k) <==> d0.tips.contains(k),
                        forall|j: int|
                            0 <= j < i ==> {
                                let op = #[trigger] ops@[j];
                                &&& op.id == (OpId {
                                    clock: (clock + 1 + j) as u64,
                                    actor: actor.key,
                                })
                                &&& op.author == actor
                                &&& op.clock == clock + 1 + j
                                &&& op.timestamp == now
                                &&& op.action == actions0[j]
                            },
                        forall|k: OpId|
                            #![trigger dag@.nodes.dom().contains(k)]
                            #![trigger d0.nodes.dom().contains(k)]
                            untouched_id(k, actor, clock, i as int) ==> (dag@.nodes.dom().contains(
                                k,
                            ) <==> d0.nodes.dom().contains(k)) && (d0.nodes.dom().contains(k)
                                ==> dag@.nodes[k] == d0.nodes[k]),
                        forall|j: int|
                            0 <= j < i ==> {
                                let op = #[trigger] ops@[j];
                                &&& dag@.nodes.dom().contains(op.id)
                                &&& dag@.nodes[op.id].value@ == op@
                                &&& dag@.nodes[op.id].deps == (if j == 0 {
                                    d0.tips
                                } else {
                                    Set::<OpId>::empty().insert(ops@[j - 1].id)
                                })
                            },
                    decreases n - i,
                {
                    let act = actions.remove(0);
                    proof {
                        assert(actions0.skip(i as int)[0] == actions0[i as int]);
                        assert(actions@ =~= actions0.skip(i as int + 1));
                    }
                    let c = clock + 1 + (i as u64);
                    let op = Op::new(act, actor, now, c);
                    let opd = dup_op(&op);
                    let ghost dag_pre = dag@;
                    dag.node(op.id, opd);
                    proof {
                        assert(dag@.nodes == dag_pre.nodes.insert(
                            op.id,
                            NodeV { value: opd, deps: Set::<OpId>::empty() },
                        ));
                    }
                    if i == 0 {
                        let m = parents.len();
                        let mut p: usize = 0;
                        while p < m
                            invariant
                                dag.wf(),
                                m == parents@.len(),
                                p <= m,
                                parents@.no_duplicates(),
                                dag@.nodes.dom().contains(op.id),
                                dag@.nodes[op.id].value == opd,
                                dag@.nodes[op.id].deps == prefix_set(parents@, p as int),
                                forall|k: OpId|
                                    #![trigger dag@.nodes.dom().contains(k)]
                                    k != op.id ==> (dag@.nodes.dom().contains(k)
                                        <==> dag_pre.nodes.insert(
                                        op.id,
                                        NodeV { value: opd, deps: Set::<OpId>::empty() },
                                    ).dom().contains(k)) && (dag@.nodes.dom().contains(k)
                                        ==> dag@.nodes[k] == dag_pre.nodes[k]),
                            decreases m - p,
                        {
                            let ghost deps_pre = dag@.nodes[op.id].deps;
                            match dag.dependency(&op.id, parents[p]) {
                                Ok(()) => {},
                                Err(_) => {
                                    // The dependent node was inserted just
                                    // above, so its edge always records.
                                    proof {
                                        assert(false);
                                    }
                                },
                            }
                            proof {
                                assert(dag@.nodes[op.id].deps == deps_pre.insert(
                                    parents@[p as int],
                                ));
                                assert(prefix_set(parents@, p as int + 1) =~= prefix_set(
                                    parents@,
                                    p as int,
                                ).insert(parents@[p as int])) by {
                                    assert forall|k: OpId|
                                        prefix_set(parents@, p as int + 1).contains(k)
                                        implies prefix_set(parents@, p as int).insert(
                                        parents@[p as int],
                                    ).contains(k) by {
                                        let q = choose|q: int|
                                            0 <= q < p + 1 && (#[trigger] parents@[q]) == k;
                                        if q < p {
                                            assert(prefix_set(parents@, p as int).contains(k));
                                        }
                                    }
                                    assert forall|k: OpId|
                                        prefix_set(parents@, p as int).insert(
                                            parents@[p as int],
                                        ).contains(k) implies prefix_set(
                                        parents@,
                                        p as int + 1,
                                    ).contains(k) by {
                                        if k == parents@[p as int] {
                                            assert((parents@[p as int]) == k);
                                        } else {
                                            let q = choose|q: int|
                                                0 <= q < p && (#[trigger] parents@[q]) == k;
                                        }
                                    }
                                }
                            }
                            p += 1;
                        }
                        proof {
                            assert(dag@.nodes[op.id].deps =~= d0.tips) by {
                                assert forall|k: OpId|
                                    prefix_set(parents@, m as int).contains(k) implies d0
                                    .tips.contains(k) by {
                                    let q = choose|q: int|
                                        0 <= q < m && (#[trigger] parents@[q]) == k;
                                    assert(parents@.contains(k));
                                }
                                assert forall|k: OpId| d0.tips.contains(k) implies prefix_set(
                                    parents@,
                                    m as int,
                                ).contains(k) by {
                                    assert(parents@.contains(k));
                                    let q = choose|q: int|
                                        0 <= q < parents@.len() && parents@[q] == k;
                                    assert((parents@[q]) == k);
                                }
                            }
                        }
                    } else {
                        let prev = ops[i - 1].id;
                        match dag.dependency(&op.id, prev) {
                            Ok(()) => {},
                            Err(_) => {
                                // The dependent node was inserted just
                                // above, so its edge always records.
                                proof {
                                    assert(false);
                                }
                            },
                        }
                        proof {
                            assert(dag@.nodes[op.id].deps =~= Set::<OpId>::empty().insert(prev));
                        }
                    }
                    ops.push(op);
                    i += 1;
                    proof {
                        assert forall|k: OpId|
                            #![trigger dag@.nodes.dom().contains(k)]
                            #![trigger d0.nodes.dom().contains(k)]
                            untouched_id(k, actor, clock, i as int) implies (
                        dag@.nodes.dom().contains(k) <==> d0.nodes.dom().contains(k)) && (
                        d0.nodes.dom().contains(k) ==> dag@.nodes[k] == d0.nodes[k]) by {
                            assert(k != op.id);
                            assert(untouched_id(k, actor, clock, i as int - 1));
                            if dag_pre.nodes.dom().contains(k) {
                                assert(dag_pre.nodes.insert(
                                    op.id,
                                    NodeV { value: opd, deps: Set::<OpId>::empty() },
                                ).dom().contains(k));
                                assert(dag@.nodes.dom().contains(k));
                                assert(dag@.nodes[k] == dag_pre.nodes[k]);
                                assert(dag_pre.nodes[k] == d0.nodes[k]);
                            } else {
                                assert(!dag@.nodes.dom().contains(k));
                                assert(!d0.nodes.dom().contains(k));
                            }
                        }
                        assert forall|j: int| 0 <= j < i implies {
                            let op2 = #[trigger] ops@[j];
                            &&& dag@.nodes.dom().contains(op2.id)
                            &&& dag@.nodes[op2.id].value@ == op2@
                            &&& dag@.nodes[op2.id].deps == (if j == 0 {
                                d0.tips
                            } else {
                                Set::<OpId>::empty().insert(ops@[j - 1].id)
                            })
                        } by {
                            if j < i - 1 {
                                assert(ops@[j].id != op.id);
                            }
                        }
                    }
                }
                store.objects.insert(object, History { dag });
                proof {
                    assert(store.objects_map().dom() =~= old(store).objects_map().dom());
                    assert forall|o: ObjectId|
                        o != object && old(store).objects_map().dom().contains(o) implies
                        store.objects_map()[o] == #[trigger] old(store).objects_map()[o] by {}
                    assert(store.objects_map()[object] == dag@);
                    assert(old(store).objects_map()[object] == d0);
                }
                Ok((ops, clock + (n as u64)))
            },
        }
    }
}

} // verus!
