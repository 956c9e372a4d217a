//! Model-level semilattice joins and their laws.
//!
//! Every replicated value in this crate is specified by a mathematical model
//! and a join function on that model. The join of a composite model is built
//! from the joins of its parts with the combinators below; the lemmas lift
//! the semilattice laws (commutativity, associativity, idempotence) through
//! each combinator.

use vstd::prelude::*;

verus! {

/// `j` is commutative.
pub open spec fn commutative<M>(j: spec_fn(M, M) -> M) -> bool {
    forall|a: M, b: M| #[trigger] j(a, b) == j(b, a)
}

/// `j` is associative.
pub open spec fn associative<M>(j: spec_fn(M, M) -> M) -> bool {
    forall|a: M, b: M, c: M| #[trigger] j(j(a, b), c) == j(a, j(b, c))
}

/// `j` is idempotent.
pub open spec fn idempotent<M>(j: spec_fn(M, M) -> M) -> bool {
    forall|a: M| #[trigger] j(a, a) == a
}

/// `j` satisfies all three semilattice laws.
pub open spec fn semilattice<M>(j: spec_fn(M, M) -> M) -> bool {
    commutative(j) && associative(j) && idempotent(j)
}

/// Model of a value that can be permanently tombstoned.
pub enum RedactV<M> {
    Present(M),
    Redacted,
}

/// Join of two redactable values: a tombstone absorbs anything, two present
/// values merge their inner models.
pub open spec fn red_join<M>(j: spec_fn(M, M) -> M, a: RedactV<M>, b: RedactV<M>) -> RedactV<M> {
    match (a, b) {
        (RedactV::Present(x), RedactV::Present(y)) => RedactV::Present(j(x, y)),
        _ => RedactV::Redacted,
    }
}

/// Join of two gates (`None` is closed): a closed gate annihilates any
/// concurrently open value, two open gates merge their inner models.
pub open spec fn gate_join<M>(j: spec_fn(M, M) -> M, a: Option<M>, b: Option<M>) -> Option<M> {
    match (a, b) {
        (Some(x), Some(y)) => Some(j(x, y)),
        _ => None,
    }
}

/// Join of two clock-tagged values: the higher clock wins, a tie merges the
/// values deterministically through `j`.
pub open spec fn lww_join<M>(j: spec_fn(M, M) -> M, a: (M, u64), b: (M, u64)) -> (M, u64) {
    if a.1 > b.1 {
        a
    } else if b.1 > a.1 {
        b
    } else {
        (j(a.0, b.0), a.1)
    }
}

/// Join of two keyed maps: union of the keys, common entries merged through
/// `j`. Entries are never dropped, so the result only grows.
pub open spec fn map_join<K, M>(j: spec_fn(M, M) -> M, a: Map<K, M>, b: Map<K, M>) -> Map<K, M> {
    Map::new(
        |k: K| a.dom().contains(k) || b.dom().contains(k),
        |k: K|
            if a.dom().contains(k) && b.dom().contains(k) {
                j(a[k], b[k])
            } else if a.dom().contains(k) {
                a[k]
            } else {
                b[k]
            },
    )
}

/// Associativity alone lifts through `red_join`.
pub proof fn lemma_red_join_assoc<M>(j: spec_fn(M, M) -> M)
    requires
        associative(j),
    ensures
        forall|a: RedactV<M>, b: RedactV<M>, c: RedactV<M>| #[trigger] red_join(
            j,
            red_join(j, a, b),
            c,
        ) == red_join(j, a, red_join(j, b, c)),
{
}

/// Idempotence alone lifts through `red_join`.
pub proof fn lemma_red_join_idem<M>(j: spec_fn(M, M) -> M)
    requires
        idempotent(j),
    ensures
        forall|a: RedactV<M>| #[trigger] red_join(j, a, a) == a,
{
}

/// Associativity alone lifts through `gate_join`.
pub proof fn lemma_gate_join_assoc<M>(j: spec_fn(M, M) -> M)
    requires
        associative(j),
    ensures
        forall|a: Option<M>, b: Option<M>, c: Option<M>| #[trigger] gate_join(
            j,
            gate_join(j, a, b),
            c,
        ) == gate_join(j, a, gate_join(j, b, c)),
{
}

/// Idempotence alone lifts through `gate_join`.
pub proof fn lemma_gate_join_idem<M>(j: spec_fn(M, M) -> M)
    requires
        idempotent(j),
    ensures
        forall|a: Option<M>| #[trigger] gate_join(j, a, a) == a,
{
}

/// Associativity alone lifts through `lww_join`.
pub proof fn lemma_lww_join_assoc<M>(j: spec_fn(M, M) -> M)
    requires
        associative(j),
    ensures
        forall|a: (M, u64), b: (M, u64), c: (M, u64)| #[trigger] lww_join(
            j,
            lww_join(j, a, b),
            c,
        ) == lww_join(j, a, lww_join(j, b, c)),
{
    assert forall|a: (M, u64), b: (M, u64), c: (M, u64)| #[trigger] lww_join(
        j,
        lww_join(j, a, b),
        c,
    ) == lww_join(j, a, lww_join(j, b, c)) by {
        if a.1 == b.1 && b.1 == c.1 {
            assert(j(j(a.0, b.0), c.0) == j(a.0, j(b.0, c.0)));
        }
    }
}

/// Idempotence alone lifts through `lww_join`.
pub proof fn lemma_lww_join_idem<M>(j: spec_fn(M, M) -> M)
    requires
        idempotent(j),
    ensures
        forall|a: (M, u64)| #[trigger] lww_join(j, a, a) == a,
{
    assert forall|a: (M, u64)| #[trigger] lww_join(j, a, a) == a by {
        assert(j(a.0, a.0) == a.0);
    }
}

/// Associativity alone lifts through `map_join`.
pub proof fn lemma_map_join_assoc<K, M>(j: spec_fn(M, M) -> M)
    requires
        associative(j),
    ensures
        forall|a: Map<K, M>, b: Map<K, M>, c: Map<K, M>| #[trigger] map_join(
            j,
            map_join(j, a, b),
            c,
        ) == map_join(j, a, map_join(j, b, c)),
{
    assert forall|a: Map<K, M>, b: Map<K, M>, c: Map<K, M>| #[trigger] map_join(
        j,
        map_join(j, a, b),
        c,
    ) == map_join(j, a, map_join(j, b, c)) by {
        assert(map_join(j, map_join(j, a, b), c) =~= map_join(j, a, map_join(j, b, c))) by {
            assert forall|k: K|
                map_join(j, map_join(j, a, b), c).dom().contains(k) implies map_join(
                j,
                map_join(j, a, b),
                c,
            )[k] == map_join(j, a, map_join(j, b, c))[k] by {
                if a.dom().contains(k) && b.dom().contains(k) && c.dom().contains(k) {
                    assert(j(j(a[k], b[k]), c[k]) == j(a[k], j(b[k], c[k])));
                }
            }
        }
    }
}

/// Idempotence alone lifts through `map_join`.
pub proof fn lemma_map_join_idem<K, M>(j: spec_fn(M, M) -> M)
    requires
        idempotent(j),
    ensures
        forall|a: Map<K, M>| #[trigger] map_join(j, a, a) == a,
{
    assert forall|a: Map<K, M>| #[trigger] map_join(j, a, a) == a by {
        assert(map_join(j, a, a) =~= a) by {
            assert forall|k: K| a.dom().contains(k) implies map_join(j, a, a)[k] == a[k] by {
                assert(j(a[k], a[k]) == a[k]);
            }
        }
    }
}

/// The semilattice laws lift through `red_join`.
pub proof fn lemma_red_join_laws<M>(j: spec_fn(M, M) -> M)
    requires
        semilattice(j),
    ensures
        forall|a: RedactV<M>, b: RedactV<M>| #[trigger] red_join(j, a, b) == red_join(j, b, a),
        forall|a: RedactV<M>, b: RedactV<M>, c: RedactV<M>| #[trigger] red_join(
            j,
            red_join(j, a, b),
            c,
        ) == red_join(j, a, red_join(j, b, c)),
        forall|a: RedactV<M>| #[trigger] red_join(j, a, a) == a,
{
}

/// The semilattice laws lift through `gate_join`.
pub proof fn lemma_gate_join_laws<M>(j: spec_fn(M, M) -> M)
    requires
        semilattice(j),
    ensures
        forall|a: Option<M>, b: Option<M>| #[trigger] gate_join(j, a, b) == gate_join(j, b, a),
        forall|a: Option<M>, b: Option<M>, c: Option<M>| #[trigger] gate_join(
            j,
            gate_join(j, a, b),
            c,
        ) == gate_join(j, a, gate_join(j, b, c)),
        forall|a: Option<M>| #[trigger] gate_join(j, a, a) == a,
{
}

/// A closed gate is absorbing: merging it with any open value, in either
/// order, stays closed, so a closed gate can never open again.
pub proof fn lemma_gate_closed_absorbs<M>(j: spec_fn(M, M) -> M, a: M)
    ensures
        gate_join(j, None::<M>, Some(a)) == None::<M>,
        gate_join(j, Some(a), None::<M>) == None::<M>,
        gate_join(j, None::<M>, None::<M>) == None::<M>,
{
}

/// The semilattice laws lift through `lww_join`.
pub proof fn lemma_lww_join_laws<M>(j: spec_fn(M, M) -> M)
    requires
        semilattice(j),
    ensures
        forall|a: (M, u64), b: (M, u64)| #[trigger] lww_join(j, a, b) == lww_join(j, b, a),
        forall|a: (M, u64), b: (M, u64), c: (M, u64)| #[trigger] lww_join(
            j,
            lww_join(j, a, b),
            c,
        ) == lww_join(j, a, lww_join(j, b, c)),
        forall|a: (M, u64)| #[trigger] lww_join(j, a, a) == a,
{
    assert forall|a: (M, u64), b: (M, u64)| #[trigger] lww_join(j, a, b) == lww_join(
        j,
        b,
        a,
    ) by {
        if a.1 == b.1 {
            assert(j(a.0, b.0) == j(b.0, a.0));
        }
    }
    assert forall|a: (M, u64), b: (M, u64), c: (M, u64)| #[trigger] lww_join(
        j,
        lww_join(j, a, b),
        c,
    ) == lww_join(j, a, lww_join(j, b, c)) by {
        if a.1 == b.1 && b.1 == c.1 {
            assert(j(j(a.0, b.0), c.0) == j(a.0, j(b.0, c.0)));
        }
    }
    assert forall|a: (M, u64)| #[trigger] lww_join(j, a, a) == a by {
        assert(j(a.0, a.0) == a.0);
    }
}

/// The semilattice laws lift through `map_join`.
pub proof fn lemma_map_join_laws<K, M>(j: spec_fn(M, M) -> M)
    requires
        semilattice(j),
    ensures
        forall|a: Map<K, M>, b: Map<K, M>| #[trigger] map_join(j, a, b) == map_join(j, b, a),
        forall|a: Map<K, M>, b: Map<K, M>, c: Map<K, M>| #[trigger] map_join(
            j,
            map_join(j, a, b),
            c,
        ) == map_join(j, a, map_join(j, b, c)),
        forall|a: Map<K, M>| #[trigger] map_join(j, a, a) == a,
{
    assert forall|a: Map<K, M>, b: Map<K, M>| #[trigger] map_join(j, a, b) == map_join(
        j,
        b,
        a,
    ) by {
        assert(map_join(j, a, b) =~= map_join(j, b, a)) by {
            assert forall|k: K|
                map_join(j, a, b).dom().contains(k) implies map_join(j, a, b)[k] == map_join(
                j,
                b,
                a,
            )[k] by {
                if a.dom().contains(k) && b.dom().contains(k) {
                    assert(j(a[k], b[k]) == j(b[k], a[k]));
                }
            }
        }
    }
    assert forall|a: Map<K, M>, b: Map<K, M>, c: Map<K, M>| #[trigger] map_join(
        j,
        map_join(j, a, b),
        c,
    ) == map_join(j, a, map_join(j, b, c)) by {
        assert(map_join(j, map_join(j, a, b), c) =~= map_join(j, a, map_join(j, b, c))) by {
            assert forall|k: K|
                map_join(j, map_join(j, a, b), c).dom().contains(k) implies map_join(
                j,
                map_join(j, a, b),
                c,
            )[k] == map_join(j, a, map_join(j, b, c))[k] by {
                if a.dom().contains(k) && b.dom().contains(k) && c.dom().contains(k) {
                    assert(j(j(a[k], b[k]), c[k]) == j(a[k], j(b[k], c[k])));
                }
            }
        }
    }
    assert forall|a: Map<K, M>| #[trigger] map_join(j, a, a) == a by {
        assert(map_join(j, a, a) =~= a) by {
            assert forall|k: K| a.dom().contains(k) implies map_join(j, a, a)[k] == a[k] by {
                assert(j(a[k], a[k]) == a[k]);
            }
        }
    }
}

} // verus!
