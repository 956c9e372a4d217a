//! A register holding a totally ordered scalar whose merge keeps the
//! greater value.

use vstd::prelude::*;
use crate::keys::Cmp;
use crate::lattice;
use crate::text::{
    lemma_text_le_antisym, lemma_text_le_total, lemma_text_le_trans, text_compare, text_le,
};

verus! {

/// A totally ordered scalar merged by keeping the greater value.
#[derive(Clone, Debug, PartialEq, Eq)]
pub struct Max<T> {
    value: T,
}

impl<T> Max<T> {
    /// The held value.
    pub closed spec fn spec_value(self) -> T {
        self.value
    }

    /// Wrap a value.
    pub fn new(value: T) -> (r: Self)
        ensures
            r.spec_value() == value,
    {
        Max { value }
    }

    /// Read the held value.
    pub fn get(&self) -> (r: &T)
        ensures
            *r == self.spec_value(),
    {
        &self.value
    }
}

/// Join of two text registers: the lexicographically greater sequence.
pub open spec fn max_join(a: Seq<char>, b: Seq<char>) -> Seq<char> {
    if text_le(a, b) {
        b
    } else {
        a
    }
}

/// The semilattice laws of `max_join`: merging text registers is
/// commutative, associative, and idempotent.
pub proof fn lemma_max_laws()
    ensures
        forall|a: Seq<char>, b: Seq<char>| #[trigger] max_join(a, b) == max_join(b, a),
        forall|a: Seq<char>, b: Seq<char>, c: Seq<char>| #[trigger] max_join(max_join(a, b), c)
            == max_join(a, max_join(b, c)),
        forall|a: Seq<char>| #[trigger] max_join(a, a) == a,
{
    assert forall|a: Seq<char>, b: Seq<char>| #[trigger] max_join(a, b) == max_join(b, a) by {
        lemma_text_le_total(a, b);
        if text_le(a, b) && text_le(b, a) {
            lemma_text_le_antisym(a, b);
        }
    }
    assert forall|a: Seq<char>, b: Seq<char>, c: Seq<char>| #[trigger] max_join(max_join(a, b), c)
        == max_join(a, max_join(b, c)) by {
        lemma_text_le_total(a, b);
        lemma_text_le_total(b, c);
        lemma_text_le_total(a, c);
        if text_le(a, b) && text_le(b, c) {
            lemma_text_le_trans(a, b, c);
        }
        if text_le(a, b) && text_le(b, a) {
            lemma_text_le_antisym(a, b);
        }
        if text_le(b, c) && text_le(c, b) {
            lemma_text_le_antisym(b, c);
        }
        if text_le(a, c) && text_le(c, a) {
            lemma_text_le_antisym(a, c);
        }
        if !text_le(a, b) && !text_le(b, c) {
            lemma_text_le_trans(c, b, a);
        }
    }
}

/// `max_join` as a join function value, for composing with the lattice
/// combinators.
pub open spec fn max_join_fn() -> spec_fn(Seq<char>, Seq<char>) -> Seq<char> {
    |a: Seq<char>, b: Seq<char>| max_join(a, b)
}

/// `max_join` satisfies the semilattice laws in combinator form.
pub proof fn lemma_max_semilattice()
    ensures
        lattice::semilattice(max_join_fn()),
{
    lemma_max_laws();
    assert(lattice::commutative(max_join_fn())) by {
        assert forall|a: Seq<char>, b: Seq<char>| #[trigger] max_join_fn()(a, b) == max_join_fn()(
            b,
            a,
        ) by {
            lemma_max_laws();
        }
    }
    assert(lattice::associative(max_join_fn())) by {
        assert forall|a: Seq<char>, b: Seq<char>, c: Seq<char>| #[trigger] max_join_fn()(
            max_join_fn()(a, b),
            c,
        ) == max_join_fn()(a, max_join_fn()(b, c)) by {
            lemma_max_laws();
        }
    }
    assert(lattice::idempotent(max_join_fn())) by {
        assert forall|a: Seq<char>| #[trigger] max_join_fn()(a, a) == a by {
            lemma_max_laws();
        }
    }
}

impl Max<String> {
    /// Merge by keeping the lexicographically greater text.
    pub fn merge(&mut self, other: Max<String>)
        ensures
            final(self)@ == max_join(old(self)@, other@),
    {
        match text_compare(self.value.as_str(), other.value.as_str()) {
            Cmp::Less => {
                self.value = other.value;
            },
            Cmp::Equal => {
                proof {
                    assert(max_join(self@, other@) == self@);
                }
            },
            Cmp::Greater => {
                proof {
                    lemma_text_le_total(self@, other@);
                    if text_le(self@, other@) {
                        lemma_text_le_antisym(self@, other@);
                    }
                }
            },
        }
    }
}

impl Max<String> {
    /// The view is the held text's character sequence.
    pub proof fn lemma_view(self)
        ensures
            self@ == self.spec_value()@,
    {
    }

    /// Read the held text.
    pub fn text(&self) -> (r: &String)
        ensures
            r@ == self@,
    {
        &self.value
    }
}

impl View for Max<String> {
    type V = Seq<char>;

    closed spec fn view(&self) -> Seq<char> {
        self.value@
    }
}

} // verus!
