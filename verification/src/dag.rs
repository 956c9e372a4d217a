//! A directed acyclic graph of keyed nodes, recording the causal dependency
//! edges between operations, with incrementally maintained frontier sets and
//! verified topological linearization.

use vstd::prelude::*;
use vstd::set_lib::lemma_len_subset;
use crate::keys::TotalOrder;
use crate::vecmap::{VecMap, VecSet};

verus! {

/// A node in the graph: a value and the keys it causally depends on.
pub struct Node<K, V> {
    value: V,
    dependencies: VecSet<K>,
}

/// The mathematical model of a node: its value and its dependency set.
#[verifier::reject_recursive_types(K)]
pub struct NodeV<K, V> {
    pub value: V,
    pub deps: Set<K>,
}

impl<K: TotalOrder + Copy, V> Node<K, V> {
    /// Well-formedness of the dependency set.
    pub closed spec fn wf(self) -> bool {
        self.dependencies.wf()
    }

    /// The node's model.
    pub closed spec fn model(self) -> NodeV<K, V> {
        NodeV { value: self.value, deps: self.dependencies@ }
    }

    /// The node's value.
    pub fn value(&self) -> (r: &V)
        ensures
            *r == self.model().value,
    {
        &self.value
    }

    /// The keys this node depends on, in ascending order.
    pub fn dependencies(&self) -> (r: Vec<K>)
        requires
            self.wf(),
        ensures
            r@.no_duplicates(),
            forall|k: K| r@.contains(k) <==> self.model().deps.contains(k),
    {
        self.dependencies.elems()
    }
}

/// The mathematical model of a graph: the node map and the two frontier
/// sets.
#[verifier::reject_recursive_types(K)]
pub struct DagV<K, V> {
    pub nodes: Map<K, NodeV<K, V>>,
    pub tips: Set<K>,
    pub roots: Set<K>,
}

/// Error recording a dependency edge.
#[derive(Clone, Copy, Debug, PartialEq, Eq)]
pub enum EdgeError<K> {
    /// The dependent node is not in the graph, so the edge cannot be
    /// recorded; a dependency declared before its source node exists
    /// usually means operations arrived out of causal order.
    UnknownSource(K),
}

/// A directed acyclic graph.
pub struct Dag<K, V> {
    graph: VecMap<K, Node<K, V>>,
    tips: VecSet<K>,
    roots: VecSet<K>,
}

impl<K: TotalOrder + Copy, V> View for Dag<K, V> {
    type V = DagV<K, V>;

    closed spec fn view(&self) -> DagV<K, V> {
        DagV {
            nodes: Map::new(
                |k: K| self.graph@.dom().contains(k),
                |k: K| self.graph@[k].model(),
            ),
            tips: self.tips@,
            roots: self.roots@,
        }
    }
}

impl<K: TotalOrder + Copy, V> Dag<K, V> {
    /// Well-formedness: the containers are sorted, every node's dependency
    /// set is sorted, and the frontier sets only name known nodes.
    pub closed spec fn wf(self) -> bool {
        &&& self.graph.wf()
        &&& self.tips.wf()
        &&& self.roots.wf()
        &&& forall|k: K|
            self.graph@.dom().contains(k) ==> (#[trigger] self.graph@[k]).wf()
        &&& self.tips@.subset_of(self.graph@.dom())
        &&& self.roots@.subset_of(self.graph@.dom())
    }

    /// The set of keys the graph knows.
    pub open spec fn dom(self) -> Set<K> {
        self@.nodes.dom()
    }

    /// The dependency set recorded for `k`.
    pub open spec fn deps_of(self, k: K) -> Set<K> {
        self@.nodes[k].deps
    }

    /// Acyclicity, in well-founded form: every nonempty set of known keys
    /// has a member none of whose known dependencies lie in the set.
    pub open spec fn acyclic(self) -> bool {
        forall|s: Set<K>|
            #![trigger s.subset_of(self.dom())]
            s.finite() && s.subset_of(self.dom()) && s.len() > 0 ==> exists|k: K|
                s.contains(k) && (forall|d: K|
                    self.deps_of(k).contains(d) && self.dom().contains(d) ==> !(
                    #[trigger] s.contains(d)))
    }

    /// A graph is acyclic whenever some rank strictly decreases along every
    /// recorded dependency edge.
    pub proof fn lemma_acyclic_by_rank(self, rank: spec_fn(K) -> int)
        requires
            forall|k: K, d: K|
                self.dom().contains(k) && #[trigger] self.deps_of(k).contains(d)
                    && self.dom().contains(d) ==> rank(d) < #[trigger] rank(k),
        ensures
            self.acyclic(),
    {
        assert forall|s: Set<K>|
            s.finite() && #[trigger] s.subset_of(self.dom()) && s.len() > 0 implies exists|k: K|
            s.contains(k) && (forall|d: K|
                self.deps_of(k).contains(d) && self.dom().contains(d) ==> !(#[trigger] s.contains(
                    d,
                ))) by {
            let m = lemma_min_rank_elem(s, rank);
            assert forall|d: K|
                self.deps_of(m).contains(d) && self.dom().contains(d) implies !(#[trigger] s
                .contains(d)) by {
                if s.contains(d) {
                    assert(rank(d) < rank(m));
                    assert(rank(m) <= rank(d));
                }
            }
        }
    }

    /// Create a new empty graph.
    pub fn new() -> (r: Self)
        ensures
            r.wf(),
            r@.nodes == Map::<K, NodeV<K, V>>::empty(),
            r@.tips == Set::<K>::empty(),
            r@.roots == Set::<K>::empty(),
    {
        let r = Dag { graph: VecMap::new(), tips: VecSet::new(), roots: VecSet::new() };
        proof {
            assert(r@.nodes =~= Map::<K, NodeV<K, V>>::empty());
        }
        r
    }

    /// Add a node to the graph, with no dependencies yet. The key joins
    /// both frontier sets; an existing node under the same key is replaced
    /// and returned.
    pub fn node(&mut self, key: K, value: V) -> (r: Option<Node<K, V>>)
        requires
            old(self).wf(),
        ensures
            final(self).wf(),
            final(self)@.nodes == old(self)@.nodes.insert(
                key,
                NodeV { value, deps: Set::empty() },
            ),
            final(self)@.tips == old(self)@.tips.insert(key),
            final(self)@.roots == old(self)@.roots.insert(key),
            match r {
                Some(n) => old(self)@.nodes.dom().contains(key) && n.model() == old(
                    self,
                )@.nodes[key],
                None => !old(self)@.nodes.dom().contains(key),
            },
    {
        self.tips.insert(key);
        self.roots.insert(key);
        let node = Node { value, dependencies: VecSet::new() };
        let r = self.graph.insert(key, node);
        proof {
            assert(self@.nodes =~= old(self)@.nodes.insert(key, NodeV { value, deps: Set::empty() }));
        }
        r
    }

    /// Record that `from` causally depends on `to`: `to` leaves the tips,
    /// `from` leaves the roots. If `from` is unknown the edge cannot be
    /// recorded: the graph stands unchanged and the dropped edge is
    /// reported, so callers can observe an out-of-order delivery.
    pub fn dependency(&mut self, from: &K, to: K) -> (r: Result<(), EdgeError<K>>)
        requires
            old(self).wf(),
        ensures
            final(self).wf(),
            r == (if old(self)@.nodes.dom().contains(*from) {
                Ok::<(), EdgeError<K>>(())
            } else {
                Err::<(), EdgeError<K>>(EdgeError::UnknownSource(*from))
            }),
            old(self)@.nodes.dom().contains(*from) ==> {
                &&& final(self)@.nodes == old(self)@.nodes.insert(
                    *from,
                    NodeV {
                        value: old(self)@.nodes[*from].value,
                        deps: old(self)@.nodes[*from].deps.insert(to),
                    },
                )
                &&& final(self)@.tips == old(self)@.tips.remove(to)
                &&& final(self)@.roots == old(self)@.roots.remove(*from)
            },
            !old(self)@.nodes.dom().contains(*from) ==> *final(self) == *old(self),
    {
        match self.graph.remove(from) {
            Some(node) => {
                let Node { value, mut dependencies } = node;
                dependencies.insert(to);
                self.graph.insert(*from, Node { value, dependencies });
                self.tips.remove(&to);
                self.roots.remove(from);
                proof {
                    assert(self@.nodes =~= old(self)@.nodes.insert(
                        *from,
                        NodeV {
                            value: old(self)@.nodes[*from].value,
                            deps: old(self)@.nodes[*from].deps.insert(to),
                        },
                    ));
                }
                Ok(())
            },
            None => {
                proof {
                    assert(self@.nodes =~= old(self)@.nodes);
                }
                Err(EdgeError::UnknownSource(*from))
            },
        }
    }

    /// Get a node.
    pub fn get(&self, key: &K) -> (r: Option<&Node<K, V>>)
        requires
            self.wf(),
        ensures
            match r {
                Some(n) => self@.nodes.dom().contains(*key) && n.model() == self@.nodes[*key]
                    && n.wf(),
                None => !self@.nodes.dom().contains(*key),
            },
    {
        self.graph.get(key)
    }

    /// The graph's root keys: nodes which do not depend on other nodes.
    pub fn roots(&self) -> (r: Vec<K>)
        requires
            self.wf(),
        ensures
            r@.no_duplicates(),
            forall|k: K| r@.contains(k) <==> self@.roots.contains(k),
    {
        self.roots.elems()
    }

    /// The graph's tip keys: nodes which no other node depends on.
    pub fn tips(&self) -> (r: Vec<K>)
        requires
            self.wf(),
        ensures
            r@.no_duplicates(),
            forall|k: K| r@.contains(k) <==> self@.tips.contains(k),
    {
        self.tips.elems()
    }
}

/// The fastrand random number generator, used only to shuffle the seed
/// order of the linearization; it never influences validity of the result.
#[verifier::external_type_specification]
#[verifier::external_body]
pub struct ExRng(fastrand::Rng);

/// Relies on fastrand::Rng::shuffle: it permutes the slice in place by
/// swapping elements, so the result holds exactly the elements given.
#[verifier::external_body]
fn shuffle_keys<T>(rng: &fastrand::Rng, keys: &mut Vec<T>)
    ensures
        final(keys)@.to_multiset() == old(keys)@.to_multiset(),
{
    rng.shuffle(keys.as_mut_slice());
}

impl<K: TotalOrder + Copy, V> Dag<K, V> {
    /// `order` holds every known key exactly once.
    pub open spec fn covers(self, order: Seq<K>) -> bool {
        &&& order.no_duplicates()
        &&& forall|k: K| order.contains(k) <==> self.dom().contains(k)
    }

    /// Every key of `order` appears after each of its known dependencies.
    pub open spec fn respects_deps(self, order: Seq<K>) -> bool {
        forall|i: int, d: K|
            0 <= i < order.len() && #[trigger] self.deps_of(order[i]).contains(d)
                && self.dom().contains(d) ==> exists|j: int| 0 <= j < i && order[j] == d
    }

    /// Whether every known dependency of `key` is in `emitted`.
    fn deps_satisfied(&self, key: &K, emitted: &VecSet<K>) -> (r: bool)
        requires
            self.wf(),
            emitted.wf(),
            self.dom().contains(*key),
        ensures
            r == (forall|d: K|
                #[trigger] self.deps_of(*key).contains(d) && self.dom().contains(d)
                    ==> emitted@.contains(d)),
    {
        let node = self.graph.get(key).unwrap();
        let deps = node.dependencies();
        let m = deps.len();
        let mut i: usize = 0;
        while i < m
            invariant
                self.wf(),
                emitted.wf(),
                self.dom().contains(*key),
                m == deps@.len(),
                i <= m,
                deps@.no_duplicates(),
                forall|d: K| deps@.contains(d) <==> self.deps_of(*key).contains(d),
                forall|j: int|
                    0 <= j < i ==> (self.dom().contains(#[trigger] deps@[j]) ==> emitted@.contains(
                        deps@[j],
                    )),
            decreases m - i,
        {
            let d = deps[i];
            if self.graph.contains_key(&d) && !emitted.contains(&d) {
                proof {
                    assert(deps@.contains(deps@[i as int]));
                }
                return false;
            }
            i += 1;
        }
        proof {
            assert forall|d: K|
                #[trigger] self.deps_of(*key).contains(d) && self.dom().contains(d)
                    implies emitted@.contains(d) by {
                assert(deps@.contains(d));
                let j = choose|j: int| 0 <= j < deps@.len() && deps@[j] == d;
                assert(self.dom().contains(deps@[j]));
            }
        }
        true
    }

    /// The first key in `keys` that is not yet emitted and whose known
    /// dependencies are all emitted.
    fn find_eligible(&self, keys: &Vec<K>, emitted: &VecSet<K>) -> (r: Option<usize>)
        requires
            self.wf(),
            emitted.wf(),
            forall|i: int| 0 <= i < keys@.len() ==> self.dom().contains(#[trigger] keys@[i]),
        ensures
            match r {
                Some(i) => i < keys@.len() && !emitted@.contains(keys@[i as int]) && (forall|d: K|
                    #[trigger] self.deps_of(keys@[i as int]).contains(d) && self.dom().contains(d)
                        ==> emitted@.contains(d)),
                None => forall|i: int|
                    0 <= i < keys@.len() && !emitted@.contains(#[trigger] keys@[i]) ==> exists|
                        d: K,
                    |
                        self.deps_of(keys@[i]).contains(d) && self.dom().contains(d)
                            && !emitted@.contains(d),
            },
    {
        let n = keys.len();
        let mut i: usize = 0;
        while i < n
            invariant
                self.wf(),
                emitted.wf(),
                n == keys@.len(),
                i <= n,
                forall|j: int| 0 <= j < n ==> self.dom().contains(#[trigger] keys@[j]),
                forall|j: int|
                    0 <= j < i && !emitted@.contains(#[trigger] keys@[j]) ==> exists|d: K|
                        self.deps_of(keys@[j]).contains(d) && self.dom().contains(d)
                            && !emitted@.contains(d),
            decreases n - i,
        {
            if !emitted.contains(&keys[i]) {
                if self.deps_satisfied(&keys[i], emitted) {
                    return Some(i);
                }
            }
            i += 1;
        }
        None
    }

    /// Return a topological ordering of the graph's nodes, using the given
    /// RNG as the source of the seed order. The result always holds every
    /// node exactly once; on an acyclic graph every node appears after all
    /// of its recorded dependencies, whatever the seed. Graphs with more
    /// than one partial order return an arbitrary valid ordering, and
    /// calling this function over and over will eventually yield every
    /// valid ordering.
    pub fn topological(&self, rng: fastrand::Rng) -> (order: Vec<K>)
        requires
            self.wf(),
        ensures
            self.covers(order@),
            self.acyclic() ==> self.respects_deps(order@),
    {
        let mut keys = self.graph.keys();
        let ghost keys0 = keys@;
        shuffle_keys(&rng, &mut keys);
        proof {
            keys0.to_multiset_ensures();
            keys@.to_multiset_ensures();
            keys0.lemma_multiset_has_no_duplicates();
            keys@.lemma_multiset_has_no_duplicates_conv();
            self.graph.lemma_dom_len();
            assert(self.dom() =~= self.graph@.dom());
            assert forall|k: K| keys@.contains(k) <==> self.dom().contains(k) by {
                assert(keys@.contains(k) <==> keys@.to_multiset().count(k) > 0);
                assert(keys0.contains(k) <==> keys0.to_multiset().count(k) > 0);
            }
            assert forall|i: int| 0 <= i < keys@.len() implies self.dom().contains(
                #[trigger] keys@[i],
            ) by {
                assert(keys@.contains(keys@[i]));
            }
        }
        let n = keys.len();
        let mut order: Vec<K> = Vec::new();
        let mut emitted: VecSet<K> = VecSet::new();
        let mut done = false;
        while !done
            invariant
                self.wf(),
                emitted.wf(),
                n == keys@.len(),
                n == self.dom().len(),
                self.dom().finite(),
                keys@.no_duplicates(),
                forall|k: K| keys@.contains(k) <==> self.dom().contains(k),
                forall|i: int| 0 <= i < n ==> self.dom().contains(#[trigger] keys@[i]),
                forall|k: K| emitted@.contains(k) <==> order@.contains(k),
                order@.no_duplicates(),
                forall|i: int| 0 <= i < order@.len() ==> self.dom().contains(#[trigger] order@[i]),
                self.respects_deps(order@),
                order@.len() <= n,
                done ==> forall|i: int|
                    0 <= i < n && !emitted@.contains(#[trigger] keys@[i]) ==> exists|d: K|
                        self.deps_of(keys@[i]).contains(d) && self.dom().contains(d)
                            && !emitted@.contains(d),
            decreases n - order@.len() + (if done { 0int } else { 1int }),
        {
            match self.find_eligible(&keys, &emitted) {
                Some(i) => {
                    let k = keys[i];
                    let ghost order0 = order@;
                    let ghost emitted0 = emitted@;
                    proof {
                        assert(keys@.contains(keys@[i as int]));
                        order@.unique_seq_to_set();
                        assert(order@.to_set().subset_of(self.dom().remove(k))) by {
                            assert forall|x: K| order@.to_set().contains(x) implies self.dom()
                                .remove(k).contains(x) by {
                                let j = choose|j: int| 0 <= j < order@.len() && order@[j] == x;
                                assert(self.dom().contains(order@[j]));
                                assert(x != k);
                            }
                        }
                        lemma_len_subset(order@.to_set(), self.dom().remove(k));
                    }
                    order.push(k);
                    emitted.insert(k);
                    proof {
                        assert forall|x: K| emitted@.contains(x) <==> order@.contains(x) by {
                            if emitted@.contains(x) {
                                if x == k {
                                    assert(order@[order@.len() - 1] == x);
                                } else {
                                    assert(order0.contains(x));
                                    let j = choose|j: int| 0 <= j < order0.len() && order0[j] == x;
                                    assert(order@[j] == x);
                                }
                            }
                            if order@.contains(x) {
                                let j = choose|j: int| 0 <= j < order@.len() && order@[j] == x;
                                if j == order@.len() - 1 {
                                    assert(x == k);
                                } else {
                                    assert(order0[j] == x);
                                    assert(order0.contains(x));
                                }
                            }
                        }
                        assert forall|i2: int, d: K|
                            0 <= i2 < order@.len() && #[trigger] self.deps_of(
                                order@[i2],
                            ).contains(d) && self.dom().contains(d) implies exists|j: int|
                            0 <= j < i2 && order@[j] == d by {
                            if i2 < order@.len() - 1 {
                                assert(order@[i2] == order0[i2]);
                                assert(self.deps_of(order0[i2]).contains(d));
                                let j = choose|j: int| 0 <= j < i2 && order0[j] == d;
                                assert(order@[j] == d);
                            } else {
                                assert(order@[i2] == k);
                                assert(emitted0.contains(d));
                                assert(order0.contains(d));
                                let j = choose|j: int| 0 <= j < order0.len() && order0[j] == d;
                                assert(order@[j] == d);
                            }
                        }
                    }
                },
                None => {
                    done = true;
                },
            }
        }
        // On an acyclic graph the eligibility scan only stops once every
        // node is emitted: a nonempty remainder would have to contain one
        // of its own dependencies, closing a cycle.
        proof {
            if self.acyclic() {
                let pending = self.dom().difference(emitted@);
                lemma_len_subset(pending, self.dom());
                if pending.len() > 0 {
                    assert(pending.subset_of(self.dom()));
                    let k = choose|k: K|
                        pending.contains(k) && (forall|d: K|
                            self.deps_of(k).contains(d) && self.dom().contains(d) ==> !(
                            #[trigger] pending.contains(d)));
                    assert(keys@.contains(k));
                    let i = choose|i: int| 0 <= i < keys@.len() && keys@[i] == k;
                    assert(!emitted@.contains(keys@[i]));
                    let d = choose|d: K|
                        self.deps_of(keys@[i]).contains(d) && self.dom().contains(d)
                            && !emitted@.contains(d);
                    assert(pending.contains(d));
                }
                assert forall|k: K| self.dom().contains(k) implies emitted@.contains(k) by {
                    if !emitted@.contains(k) {
                        assert(pending.contains(k));
                        vstd::set_lib::lemma_set_empty_equivalency_len(pending);
                    }
                }
            }
        }
        // Flush whatever remains (only reachable on a cyclic graph), so the
        // result still holds every node exactly once.
        let mut i: usize = 0;
        while i < n
            invariant
                self.wf(),
                emitted.wf(),
                n == keys@.len(),
                i <= n,
                keys@.no_duplicates(),
                forall|k: K| keys@.contains(k) <==> self.dom().contains(k),
                forall|k: K| emitted@.contains(k) <==> order@.contains(k),
                order@.no_duplicates(),
                forall|j: int| 0 <= j < order@.len() ==> self.dom().contains(#[trigger] order@[j]),
                self.acyclic() ==> self.respects_deps(order@),
                self.acyclic() ==> forall|k: K|
                    self.dom().contains(k) ==> emitted@.contains(k),
                forall|j: int| 0 <= j < i ==> emitted@.contains(#[trigger] keys@[j]),
            decreases n - i,
        {
            if !emitted.contains(&keys[i]) {
                proof {
                    assert(keys@.contains(keys@[i as int]));
                    if self.acyclic() {
                        assert(false);
                    }
                }
                let k = keys[i];
                let ghost order0 = order@;
                order.push(k);
                emitted.insert(k);
                proof {
                    assert forall|x: K| emitted@.contains(x) <==> order@.contains(x) by {
                        if emitted@.contains(x) {
                            if x == k {
                                assert(order@[order@.len() - 1] == x);
                            } else {
                                assert(order0.contains(x));
                                let j = choose|j: int| 0 <= j < order0.len() && order0[j] == x;
                                assert(order@[j] == x);
                            }
                        }
                        if order@.contains(x) {
                            let j = choose|j: int| 0 <= j < order@.len() && order@[j] == x;
                            if j == order@.len() - 1 {
                                assert(x == k);
                            } else {
                                assert(order0[j] == x);
                                assert(order0.contains(x));
                            }
                        }
                    }
                }
            }
            i += 1;
        }
        proof {
            assert forall|k: K| order@.contains(k) implies self.dom().contains(k) by {
                let j = choose|j: int| 0 <= j < order@.len() && order@[j] == k;
            }
            assert forall|k: K| self.dom().contains(k) implies order@.contains(k) by {
                assert(keys@.contains(k));
                let j = choose|j: int| 0 <= j < keys@.len() && keys@[j] == k;
                assert(emitted@.contains(keys@[j]));
            }
        }
        order
    }
}

impl<K: TotalOrder + Copy, V> Dag<K, V> {
    /// A causal dependency path: each entry is a known key that records the
    /// next entry among its dependencies.
    pub open spec fn is_dep_path(self, p: Seq<K>) -> bool {
        &&& p.len() >= 1
        &&& forall|i: int| 0 <= i < p.len() ==> self.dom().contains(#[trigger] p[i])
        &&& forall|i: int|
            0 <= i < p.len() - 1 ==> self.deps_of(#[trigger] p[i]).contains(p[i + 1])
    }

    /// Linearization validity, in full transitive strength: in an ordering
    /// that holds every key once and puts each key after its direct
    /// dependencies, every key also appears after every key in its
    /// transitive dependency set (anything reachable along recorded
    /// dependency edges).
    pub proof fn lemma_linearization_transitive(self, order: Seq<K>, p: Seq<K>)
        requires
            self.covers(order),
            self.respects_deps(order),
            self.is_dep_path(p),
            p.len() >= 2,
        ensures
            exists|i: int, j: int|
                0 <= j < i < order.len() && order[i] == p[0] && order[j] == p.last(),
        decreases p.len(),
    {
        assert(order.contains(p[0]));
        let i0 = choose|i: int| 0 <= i < order.len() && order[i] == p[0];
        assert(self.deps_of(order[i0]).contains(p[1]));
        assert(self.dom().contains(p[1]));
        let j1 = choose|j: int| 0 <= j < i0 && order[j] == p[1];
        if p.len() == 2 {
            assert(order[i0] == p[0] && order[j1] == p.last() && 0 <= j1 < i0 < order.len());
        } else {
            let q = p.skip(1);
            assert(self.is_dep_path(q)) by {
                assert forall|i: int| 0 <= i < q.len() implies self.dom().contains(
                    #[trigger] q[i],
                ) by {
                    assert(q[i] == p[i + 1]);
                }
                assert forall|i: int| 0 <= i < q.len() - 1 implies self.deps_of(
                    #[trigger] q[i],
                ).contains(q[i + 1]) by {
                    assert(q[i] == p[i + 1]);
                    assert(q[i + 1] == p[i + 2]);
                }
            }
            self.lemma_linearization_transitive(order, q);
            let (i1, j2): (int, int) = choose|i: int, j: int|
                0 <= j < i < order.len() && order[i] == q[0] && order[j] == q.last();
            // the index of q[0] == p[1] is unique, so the tail's start is j1
            assert(order[i1] == p[1] && order[j1] == p[1]);
            assert(i1 == j1);
            assert(q.last() == p.last());
            assert(0 <= j2 < i0 < order.len() && order[i0] == p[0] && order[j2] == p.last());
        }
    }
}

/// Finds an element of minimal rank in a nonempty finite set.
proof fn lemma_min_rank_elem<K>(s: Set<K>, rank: spec_fn(K) -> int) -> (m: K)
    requires
        s.finite(),
        s.len() > 0,
    ensures
        s.contains(m),
        forall|x: K| s.contains(x) ==> rank(m) <= #[trigger] rank(x),
    decreases s.len(),
{
    let a = s.choose();
    assert(s.contains(a));
    let rest = s.remove(a);
    if rest.len() == 0 {
        assert forall|x: K| s.contains(x) implies rank(a) <= #[trigger] rank(x) by {
            if x != a {
                assert(rest.contains(x));
                assert(rest.len() > 0) by {
                    if rest.len() == 0 {
                        rest.lemma_len0_is_empty();
                    }
                }
            }
        }
        a
    } else {
        let m = lemma_min_rank_elem(rest, rank);
        if rank(a) <= rank(m) {
            assert forall|x: K| s.contains(x) implies rank(a) <= #[trigger] rank(x) by {
                if x != a {
                    assert(rest.contains(x));
                }
            }
            a
        } else {
            m
        }
    }
}

} // verus!
