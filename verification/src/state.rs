//! Automaton states and pattern tags.

use vstd::prelude::*;

use crate::state_id::StateID;

verus! {

/// Identifies which of several patterns compiled into one automaton an
/// accepting state belongs to.
#[derive(Clone, Copy, Debug, PartialEq, Eq, PartialOrd, Ord, Hash, Structural)]
pub struct PatternID(usize);

impl View for PatternID {
    type V = int;

    closed spec fn view(&self) -> int {
        self.0 as int
    }
}

impl PatternID {
    /// Wraps a pattern number.
    pub fn new(value: usize) -> (r: Self)
        ensures
            r@ == value,
    {
        PatternID(value)
    }

    /// The pattern number.
    pub fn as_usize(&self) -> (r: usize)
        ensures
            r == self@,
    {
        self.0
    }
}

/// One state of an automaton held in a state arena.
#[derive(Debug, PartialEq, Eq)]
pub enum State {
    /// A single epsilon transition to the target.
    Empty(StateID),
    /// An epsilon fan-out to every listed target.
    Alternation(Vec<StateID>),
    /// Consumes exactly the given symbol, then moves to the target.
    Character(StateID, char),
    /// An accepting state, tagged with the pattern that accepted.
    Match(PatternID),
}

/// Every state the given arena slot points at lies inside an arena of `n` slots.
pub open spec fn state_wf(s: State, n: int) -> bool {
    match s {
        State::Empty(t) => 0 <= t@ < n,
        State::Alternation(ts) => forall|k: int| 0 <= k < ts@.len() ==> 0 <= #[trigger] ts@[k]@ < n,
        State::Character(t, _) => 0 <= t@ < n,
        State::Match(_) => true,
    }
}

/// Every slot of the arena points only inside the arena.
pub open spec fn wf_arena(ss: Seq<State>) -> bool {
    forall|i: int| 0 <= i < ss.len() ==> state_wf(#[trigger] ss[i], ss.len() as int)
}

/// Whether the state consumes exactly the symbol `c`.
pub open spec fn state_consumes(s: State, c: char) -> bool {
    s matches State::Character(_, sym) && sym == c
}

/// Every symbol of the alphabet occurs on some consuming transition of the
/// arena: the alphabet is exactly the union of the symbols that appear in
/// `Character` states, never a superset.
pub open spec fn alphabet_covered(ss: Seq<State>, al: Seq<char>) -> bool {
    forall|c: char| #[trigger] al.contains(c)
        ==> exists|i: int| 0 <= i < ss.len() && state_consumes(#[trigger] ss[i], c)
}

/// Growing the arena keeps every symbol covered.
pub proof fn lemma_covered_extend(ss1: Seq<State>, ss2: Seq<State>, al: Seq<char>)
    requires
        alphabet_covered(ss1, al),
        ss1.len() <= ss2.len(),
        forall|i: int| 0 <= i < ss1.len() ==> #[trigger] ss2[i] == ss1[i],
    ensures
        alphabet_covered(ss2, al),
{
    assert forall|c: char| #[trigger] al.contains(c)
        implies exists|i: int| 0 <= i < ss2.len() && state_consumes(#[trigger] ss2[i], c) by {
        let i = choose|i: int| 0 <= i < ss1.len() && state_consumes(#[trigger] ss1[i], c);
        assert(state_consumes(ss2[i], c));
    }
}

/// Overwriting a slot that holds no consuming transition keeps every
/// symbol covered.
pub proof fn lemma_covered_patch(ss1: Seq<State>, ss2: Seq<State>, al: Seq<char>, id: int)
    requires
        alphabet_covered(ss1, al),
        !(ss1[id] is Character),
        ss1.len() <= ss2.len(),
        forall|i: int| 0 <= i < ss1.len() && i != id ==> #[trigger] ss2[i] == ss1[i],
    ensures
        alphabet_covered(ss2, al),
{
    assert forall|c: char| #[trigger] al.contains(c)
        implies exists|i: int| 0 <= i < ss2.len() && state_consumes(#[trigger] ss2[i], c) by {
        let i = choose|i: int| 0 <= i < ss1.len() && state_consumes(#[trigger] ss1[i], c);
        assert(i != id);
        assert(state_consumes(ss2[i], c));
    }
}

} // verus!
