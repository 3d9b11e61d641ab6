//! Cooperative cancellation.
//!
//! A caller-supplied cancellation object is threaded through every loop
//! of the core that is not trivially bounded (digit accumulation,
//! exponent expansion) and polled at fixed points.  When the poll reports
//! a pending request, the current operation unwinds immediately with the
//! distinguished [`crate::IntErr::Interrupted`] outcome, and all
//! partially built values are discarded.

use vstd::prelude::*;

verus! {

/// A cancellation object.  The core polls it and never owns it long-term.
pub trait Interrupt {
    /// Whether a cancellation request is pending.
    spec fn requested(&self) -> bool;

    /// Polls for a cancellation request.
    fn test(&self) -> (r: bool)
        ensures
            r == self.requested(),
    ;
}

/// A cancellation object that never reports a request, for callers that
/// do not need cancellation.
pub struct Never {}

impl Interrupt for Never {
    open spec fn requested(&self) -> bool {
        false
    }

    fn test(&self) -> (r: bool) {
        false
    }
}

/// A cancellation object whose request is already pending, so the first
/// poll observes it.
pub struct Always {}

impl Interrupt for Always {
    open spec fn requested(&self) -> bool {
        true
    }

    fn test(&self) -> (r: bool) {
        true
    }
}

} // verus!
