//! Handle by which a timer is cancelled without a search.
use vstd::prelude::*;

verus! {

/// Names one timer by the slot that stores it and by the generation of that
/// slot, so that a stale handle cannot cancel a later timer in the same slot.
#[derive(Debug, Clone, Copy, PartialEq, Eq, Hash, Structural)]
pub struct TimerHandle {
    pub index: u32,
    pub generation: u32,
}

impl TimerHandle {
    /// Creates a handle from its two parts.
    pub fn new(index: u32, generation: u32) -> (handle: Self)
        ensures
            handle.index == index,
            handle.generation == generation,
    {
        Self { index, generation }
    }

    /// The slot part.
    pub fn index(&self) -> (index: u32)
        ensures
            index == self.index,
    {
        self.index
    }

    /// The generation part.
    pub fn generation(&self) -> (generation: u32)
        ensures
            generation == self.generation,
    {
        self.generation
    }
}

} // verus!
