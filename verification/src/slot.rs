//! Take-once slots.
//!
//! The one-shot rendezvous objects of a session — the file-list promise, the
//! selection promise, the per-file byte receiver — may be consumed at most
//! once; a second consumption must fail first-class rather than hang. The
//! slot holds the resource behind exactly that discipline.

use vstd::prelude::*;

verus! {

/// A slot that hands its content out at most once.
pub struct OnceSlot<T> {
    inner: Option<T>,
}

impl<T> View for OnceSlot<T> {
    type V = Option<T>;

    closed spec fn view(&self) -> Option<T> {
        self.inner
    }
}

impl<T> OnceSlot<T> {
    /// A slot holding `v`, not yet consumed.
    pub fn full(v: T) -> (s: Self)
        ensures
            s@ == Some(v),
    {
        OnceSlot { inner: Some(v) }
    }

    /// A slot that was never filled (or is already spent).
    pub fn spent() -> (s: Self)
        ensures
            s@ == None::<T>,
    {
        OnceSlot { inner: None }
    }

    /// Whether the content is still there.
    pub fn is_full(&self) -> (r: bool)
        ensures
            r == (self@ is Some),
    {
        self.inner.is_some()
    }

    /// Consume the content. The first call on a full slot hands it out and
    /// empties the slot; every later call fails deterministically and leaves
    /// the slot as it is, so re-consumption is a first-class error and never
    /// perturbs state.
    pub fn take(&mut self) -> (r: Option<T>)
        ensures
            match r {
                Some(v) => old(self)@ == Some(v) && final(self)@ == None::<T>,
                None => old(self)@ == None::<T> && final(self)@ == None::<T>,
            },
    {
        self.inner.take()
    }
}

} // verus!
