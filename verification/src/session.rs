//! The "current handle" slot: a test prepares the handle of a simulated
//! service here so that shared construction code can pick it up, instead of
//! needing a separate test-only constructor. Retrieval consumes the slot.

use vstd::prelude::*;

use crate::Endpoint;

verus! {

/// A single-use slot for the handle of the service prepared for the next
/// construction.
pub struct CurrentSlot {
    pub current: Option<Endpoint>,
}

impl CurrentSlot {
    /// An empty slot: nothing has been made current.
    pub fn new() -> (r: CurrentSlot)
        ensures
            r.current is None,
    {
        CurrentSlot { current: None }
    }

    /// Make the handle current, so the next retrieval picks it up.
    pub fn make_current(&mut self, handle: Endpoint)
        ensures
            final(self).current == Some(handle),
    {
        self.current = Some(handle);
    }

    /// Take the current handle. Retrieval consumes the slot, and demands
    /// that something was made current: an empty slot is a harness error.
    pub fn get_current(&mut self) -> (r: Endpoint)
        requires
            old(self).current is Some,
        ensures
            r == old(self).current->0,
            final(self).current is None,
    {
        let r = self.current.unwrap();
        self.current = None;
        r
    }

    /// Take the current handle if one was made current, consuming the slot
    /// either way.
    pub fn try_get_current(&mut self) -> (r: Option<Endpoint>)
        ensures
            r == old(self).current,
            final(self).current is None,
    {
        let r = self.current;
        self.current = None;
        r
    }
}

} // verus!
