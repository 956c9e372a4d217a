//! An optional value that, once closed, cannot be opened again. Open gates
//! merge via the inner value's semilattice; a closed gate annihilates any
//! open gate, which is what makes publication irreversible.

use vstd::prelude::*;

verus! {

/// An optional value with an irreversible "closed" state.
#[derive(Clone, Copy, Debug, PartialEq, Eq, Hash)]
pub struct Gate<T>(pub Option<T>);

impl<T> Gate<T> {
    /// The inner value, when open.
    pub open spec fn spec_get(self) -> Option<T> {
        self.0
    }

    /// Whether it stands open.
    pub open spec fn spec_is_open(self) -> bool {
        self.0 is Some
    }

    /// Create an open gate, similar to `Option::Some`.
    pub fn open(t: T) -> (r: Self)
        ensures
            r.spec_get() == Some(t),
    {
        Gate(Some(t))
    }

    /// Create a closed gate, similar to `Option::None`.
    pub fn closed() -> (r: Self)
        ensures
            r.spec_get() is None,
    {
        Gate(None)
    }

    /// The held value: `Some` when open, `None` when closed.
    pub fn get(&self) -> (r: Option<&T>)
        ensures
            match r {
                Some(t) => self.spec_get() == Some(*t),
                None => self.spec_get() is None,
            },
    {
        self.0.as_ref()
    }

    /// Convert from `&Gate<T>` to `Gate<&T>`.
    pub fn as_ref(&self) -> (r: Gate<&T>)
        ensures
            match r.spec_get() {
                Some(t) => self.spec_get() == Some(*t),
                None => self.spec_get() is None,
            },
    {
        Gate(self.0.as_ref())
    }

    /// Whether it stands open.
    pub fn is_open(&self) -> (r: bool)
        ensures
            r == self.spec_is_open(),
    {
        self.0.is_some()
    }

    /// Whether it has been closed.
    pub fn is_closed(&self) -> (r: bool)
        ensures
            r == !self.spec_is_open(),
    {
        self.0.is_none()
    }

    /// Map an open value through `f`, preserving a closed state.
    pub fn map<U, F: FnOnce(T) -> U>(self, f: F) -> (r: Gate<U>)
        requires
            self.0 matches Some(t) ==> f.requires((t,)),
        ensures
            self.0 is None ==> r.0 is None,
            self.0 matches Some(t) ==> (r.0 matches Some(u) && f.ensures((t,), u)),
    {
        match self.0 {
            Some(t) => Gate(Some(f(t))),
            None => Gate(None),
        }
    }

    /// Close permanently, as merging with a closed one does.
    pub fn close(&mut self)
        ensures
            final(self).spec_get() is None,
    {
        self.0 = None;
    }
}

} // verus!
