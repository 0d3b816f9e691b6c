//! Stable handles into the automaton state arena.

use vstd::prelude::*;

verus! {

/// An opaque, ordered handle into a state arena.  Two `StateID`s are equal
/// exactly when they index the same arena slot; handles are never reused.
#[derive(Clone, Copy, Debug, PartialEq, Eq, PartialOrd, Ord, Hash, Structural)]
pub struct StateID(usize);

impl View for StateID {
    type V = int;

    closed spec fn view(&self) -> int {
        self.0 as int
    }
}

impl StateID {
    /// Wraps an arena index as a handle.
    pub fn new(value: usize) -> (r: Self)
        ensures
            r@ == value,
    {
        StateID(value)
    }

    /// The arena index this handle stands for.
    pub fn as_usize(&self) -> (r: usize)
        ensures
            r == self@,
    {
        self.0
    }
}

/// A handle always stands for a nonnegative arena index.
pub proof fn lemma_state_id_nonneg(s: StateID)
    ensures
        s@ >= 0,
{
}

/// Two handles are equal exactly when they index the same arena slot.
pub proof fn lemma_state_id_eq(a: StateID, b: StateID)
    ensures
        (a == b) <==> (a@ == b@),
{
    if a@ == b@ {
        assert(a.0 == b.0);
        assert(a == StateID(b.0));
    }
}

} // verus!
