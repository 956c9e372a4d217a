//! A value that can be permanently tombstoned. A redaction absorbs any
//! concurrently present value under merge and can never be undone.

use vstd::prelude::*;

verus! {

/// Either a present value or a permanent tombstone.
#[derive(Clone, Copy, Debug, PartialEq, Eq, Hash)]
pub enum Redactable<T> {
    Present(T),
    Redacted,
}

impl<T> Redactable<T> {
    /// The present value, if not redacted.
    pub open spec fn spec_get(self) -> Option<T> {
        match self {
            Redactable::Present(t) => Some(t),
            Redactable::Redacted => None,
        }
    }

    /// Whether the value has been tombstoned.
    pub open spec fn spec_is_redacted(self) -> bool {
        self is Redacted
    }

    /// The present value, if not redacted.
    pub fn get(&self) -> (r: Option<&T>)
        ensures
            match r {
                Some(t) => self.spec_get() == Some(*t),
                None => self.spec_get() is None,
            },
    {
        match self {
            Redactable::Present(t) => Some(t),
            Redactable::Redacted => None,
        }
    }

    /// Whether the value has been tombstoned.
    pub fn is_redacted(&self) -> (r: bool)
        ensures
            r == self.spec_is_redacted(),
    {
        match self {
            Redactable::Present(_) => false,
            Redactable::Redacted => true,
        }
    }
}

} // verus!
