//! A last-writer-wins register: a value tagged with a logical clock. Merge
//! keeps the value with the higher clock; ties are broken deterministically
//! by the value's own order, so every replica resolves them identically.

use vstd::prelude::*;
use crate::lattice::{self, lww_join};
use crate::max::{lemma_max_semilattice, max_join, max_join_fn, Max};

verus! {

/// A register tagged with a logical clock.
#[derive(Clone, Debug, PartialEq, Eq)]
pub struct LWWReg<T> {
    value: T,
    clock: u64,
}

impl<T> LWWReg<T> {
    /// The held value.
    pub closed spec fn spec_value(self) -> T {
        self.value
    }

    /// The clock of the last write.
    pub closed spec fn spec_clock(self) -> u64 {
        self.clock
    }

    /// Create a register holding `value` written at `clock`.
    pub fn new(value: T, clock: u64) -> (r: Self)
        ensures
            r.spec_value() == value,
            r.spec_clock() == clock,
    {
        LWWReg { value, clock }
    }

    /// Read the current value.
    pub fn get(&self) -> (r: &T)
        ensures
            *r == self.spec_value(),
    {
        &self.value
    }

    /// The clock of the last write.
    pub fn clock(&self) -> (r: u64)
        ensures
            r == self.spec_clock(),
    {
        self.clock
    }
}

/// Join of two text registers under last-writer-wins.
pub open spec fn reg_join(a: (Seq<char>, u64), b: (Seq<char>, u64)) -> (Seq<char>, u64) {
    lww_join(max_join_fn(), a, b)
}

/// The semilattice laws of `reg_join`: last-writer-wins merge of registers
/// is commutative, associative, and idempotent.
pub proof fn lemma_lwwreg_laws()
    ensures
        forall|a: (Seq<char>, u64), b: (Seq<char>, u64)| #[trigger] reg_join(a, b) == reg_join(
            b,
            a,
        ),
        forall|a: (Seq<char>, u64), b: (Seq<char>, u64), c: (Seq<char>, u64)| #[trigger] reg_join(
            reg_join(a, b),
            c,
        ) == reg_join(a, reg_join(b, c)),
        forall|a: (Seq<char>, u64)| #[trigger] reg_join(a, a) == a,
{
    lemma_max_semilattice();
    lattice::lemma_lww_join_laws(max_join_fn());
}

impl LWWReg<Max<String>> {
    /// Merge with another register: the higher clock wins, a tie keeps the
    /// lexicographically greater text.
    pub fn merge(&mut self, other: LWWReg<Max<String>>)
        ensures
            final(self)@ == reg_join(old(self)@, other@),
    {
        if self.clock < other.clock {
            self.value = other.value;
            self.clock = other.clock;
        } else if self.clock == other.clock {
            self.value.merge(other.value);
        }
    }

    /// Write `value` at `clock`. The write lands only if it is newer than
    /// the current contents, or ties and orders above them: a set is a merge
    /// with a fresh register, so out-of-order and duplicated deliveries are
    /// safe.
    pub fn set(&mut self, value: Max<String>, clock: u64)
        ensures
            final(self)@ == reg_join(old(self)@, (value@, clock)),
    {
        self.merge(LWWReg { value, clock });
    }
}

impl LWWReg<Max<String>> {
    /// The view pairs the held text with the clock of its last write.
    pub proof fn lemma_view(self)
        ensures
            self@ == (self.spec_value()@, self.spec_clock()),
    {
    }

    /// Read the current text.
    pub fn text(&self) -> (r: &String)
        ensures
            r@ == self@.0,
    {
        self.value.text()
    }
}

impl View for LWWReg<Max<String>> {
    type V = (Seq<char>, u64);

    closed spec fn view(&self) -> (Seq<char>, u64) {
        (self.value@, self.clock)
    }
}

} // verus!
