//! A vocabulary for modelling touch.
//!
//! It is difficult to come up with an accurate description of a sensation
//! like 'soft', yet the concept is shared among many people. One way to
//! handle this is to map each word associated with touch into a semantic
//! space of unknown dimension, and describe a sensation by giving each
//! word a weight. This module holds only the vocabulary: assigning the
//! weights, and transforming them, is left to the user. Some words are
//! opposites, like 'hot' and 'cold'; both ends are kept, so that a point
//! in the middle can be written by weighting each end the same.

use vstd::prelude::*;

verus! {

/// Words associated with distinct touch experiences.
#[derive(Clone, Debug, Hash, PartialEq, Eq, PartialOrd, Ord)]
pub enum Touch {
    /// Cold.
    Cold,
    /// Hard.
    Hard,
    /// Hot.
    Hot,
    /// Rough.
    Rough,
    /// Smooth.
    Smooth,
    /// Soft.
    Soft,
    /// Warm.
    Warm,
}

} // verus!
