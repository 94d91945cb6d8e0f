//! The update protocol: objects advance by an externally supplied per-tick
//! delta value (for instance an elapsed time), either on their own or under
//! a per-state update rule held by the state machine.

use vstd::prelude::*;

verus! {

/// Updates on delta information. Implemented by payload types that know how
/// to advance themselves when given the tick's delta value.
pub trait UpdateDelta<D>: Sized {
    /// The object after one update under `delta`.
    spec fn updated(self, delta: D) -> Self;

    /// Updates the object with the delta information.
    fn update(&mut self, delta: &D)
        ensures
            *final(self) == old(self).updated(*delta),
    ;
}

/// A per-state update capability: advances one object in place by the
/// tick's delta value. A rule is an opaque value, so it may carry its own
/// configuration; each state of a machine may hold a different rule.
pub trait UpdateRule<T> {
    /// The per-tick delta value the rule consumes.
    type Delta;

    /// The object that the rule turns `obj` into under `delta`.
    spec fn applied(&self, obj: T, delta: Self::Delta) -> T;

    /// Advances one object in place by `delta`.
    fn apply(&self, obj: &mut T, delta: &Self::Delta)
        ensures
            *final(obj) == self.applied(*old(obj), *delta),
    ;
}

} // verus!
