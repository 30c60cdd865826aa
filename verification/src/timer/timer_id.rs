//! Identifier of a timer registered with the reactor.
use vstd::prelude::*;

verus! {

/// Names one timer: the slot it was given and the generation of that slot,
/// which tells a timer from an earlier one that used the same slot.
#[derive(Debug, Clone, Copy, PartialEq, Eq, Hash, Structural)]
pub struct TimerId {
    pub index: u32,
    pub generation: u32,
}

impl TimerId {
    /// Creates an id from its two parts.
    pub fn new(index: u32, generation: u32) -> (id: Self)
        ensures
            id.index == index,
            id.generation == generation,
    {
        Self { index, generation }
    }

    /// The slot part.
    pub fn index(&self) -> (index: u32)
        ensures
            index == self.index,
    {
        self.index
    }

    /// The generation part.
    pub fn generation(&self) -> (generation: u32)
        ensures
            generation == self.generation,
    {
        self.generation
    }
}

} // verus!
