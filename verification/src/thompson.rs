//! Combinator form of Thompson's construction.
//!
//! These constructors build single-pattern automata in "linear" form: the
//! start state is slot 0 and the one `Match` state is the last slot.  Two
//! automata are combined by shifting the second one's handles past the
//! first and patching accepting states, so every result is again linear.

use vstd::prelude::*;

use crate::alphabet::{alphabet_union, char_set_of};
use crate::nfa::NFA;
use crate::state::{state_consumes, state_wf, wf_arena, PatternID, State};
use crate::state_id::StateID;

verus! {

/// `shifted` is `orig` with every target handle moved up by `amount`.
pub open spec fn is_shifted(orig: State, shifted: State, amount: int) -> bool {
    match (orig, shifted) {
        (State::Empty(t), State::Empty(t2)) => t2@ == t@ + amount,
        (State::Alternation(ts), State::Alternation(ts2)) => ts2@.len() == ts@.len()
            && forall|k: int| 0 <= k < ts@.len() ==> (#[trigger] ts2@[k])@ == ts@[k]@ + amount,
        (State::Character(t, c), State::Character(t2, c2)) => t2@ == t@ + amount && c2 == c,
        (State::Match(p), State::Match(p2)) => p2 == p,
        _ => false,
    }
}

/// A shifted state is well formed in an arena enlarged by the same amount.
pub proof fn lemma_shifted_wf(orig: State, shifted: State, amount: int, n: int)
    requires
        is_shifted(orig, shifted, amount),
        state_wf(orig, n),
        amount >= 0,
    ensures
        state_wf(shifted, n + amount),
{
}

/// Rewrites every handle in `transitions` up by `amount`.
#[verifier::loop_isolation(false)]
pub(crate) fn shift_transitions(transitions: Vec<State>, amount: usize) -> (r: Vec<State>)
    requires
        forall|i: int| 0 <= i < transitions@.len()
            ==> state_wf(#[trigger] transitions@[i], transitions@.len() as int),
        transitions@.len() + amount <= usize::MAX,
    ensures
        r@.len() == transitions@.len(),
        forall|i: int| 0 <= i < transitions@.len()
            ==> is_shifted(transitions@[i], #[trigger] r@[i], amount as int),
    decreases transitions@,
{
    let n = transitions.len();
    let mut r: Vec<State> = Vec::new();
    let mut i: usize = 0;
    while i < n
        invariant
            i <= n,
            r@.len() == i,
            forall|k: int| 0 <= k < i
                ==> is_shifted(transitions@[k], #[trigger] r@[k], amount as int),
        decreases n - i,
    {
        let shifted = match &transitions[i] {
            State::Empty(t) => State::Empty(StateID::new(t.as_usize() + amount)),
            State::Alternation(ts) => {
                let tn = ts.len();
                let mut ts2: Vec<StateID> = Vec::new();
                let mut k: usize = 0;
                while k < tn
                    invariant
                        k <= tn,
                        ts2@.len() == k,
                        forall|m: int| 0 <= m < k ==> (#[trigger] ts2@[m])@ == ts@[m]@ + amount,
                    decreases tn - k,
                {
                    proof {
                        assert(state_wf(transitions@[i as int], n as int));
                    }
                    ts2.push(StateID::new(ts[k].as_usize() + amount));
                    k = k + 1;
                }
                State::Alternation(ts2)
            },
            State::Character(t, c) => State::Character(StateID::new(t.as_usize() + amount), *c),
            State::Match(p) => State::Match(*p),
        };
        proof {
            assert(state_wf(transitions@[i as int], n as int));
        }
        r.push(shifted);
        i = i + 1;
    }
    r
}

/// Replaces the last state — the accepting placeholder — with `new_state`.
pub(crate) fn patch_accepting_state(transitions: Vec<State>, new_state: State) -> (r: Vec<State>)
    requires
        transitions@.len() >= 1,
    ensures
        r@ == transitions@.update(transitions@.len() as int - 1, new_state),
{
    let mut patched = transitions;
    let idx = patched.len() - 1;
    patched[idx] = new_state;
    patched
}

impl NFA {
    /// Single-pattern form: slot 0 is the start state, the last slot holds
    /// the only `Match` state.
    pub open spec fn linear(self) -> bool {
        &&& self.wf()
        &&& self.spec_start() == 0
        &&& self.spec_states().len() >= 2
        &&& self.spec_states().last() is Match
        &&& forall|i: int| 0 <= i < self.spec_states().len() - 1
            ==> !((#[trigger] self.spec_states()[i]) is Match)
    }

    /// The accepting state of a linear automaton: the last arena slot.
    pub fn accepting_state(&self) -> (r: StateID)
        requires
            self.wf(),
        ensures
            r@ == self.spec_states().len() - 1,
    {
        StateID::new(self.size() - 1)
    }

    /// Whether `state` is the accepting state of a linear automaton.
    pub fn is_accepting_state(&self, state: StateID) -> (r: bool)
        requires
            self.wf(),
        ensures
            r == (state@ == self.spec_states().len() - 1),
    {
        state.as_usize() == self.size() - 1
    }

    /// The two-state automaton accepting exactly the empty string.
    pub fn empty() -> (r: NFA)
        ensures
            r.linear(),
            r.spec_states().len() == 2,
            r.spec_states()[0] matches State::Empty(t) && t@ == 1,
            r.spec_states()[1] matches State::Match(p) && p@ == 0,
            r.alphabet_set() == Set::<char>::empty(),
    {
        let transitions = vec![
            State::Empty(StateID::new(1)),
            State::Match(PatternID::new(0)),
        ];
        let alphabet: Vec<char> = Vec::new();
        proof {
            assert(char_set_of(alphabet@) =~= Set::<char>::empty());
            assert(transitions@[0] matches State::Empty(t) && t@ == 1);
            assert(state_wf(transitions@[0], 2));
            assert(state_wf(transitions@[1], 2));
            assert forall|i: int| 0 <= i < transitions@.len()
                implies state_wf(#[trigger] transitions@[i], transitions@.len() as int) by {
                if i == 0 {
                } else {
                    assert(i == 1);
                }
            }
        }
        NFA::from_parts(transitions, StateID::new(0), alphabet)
    }

    /// The two-state automaton accepting exactly the one-symbol string `c`.
    pub fn character(c: char) -> (r: NFA)
        ensures
            r.linear(),
            r.spec_states().len() == 2,
            r.spec_states()[0] matches State::Character(t, sym) && t@ == 1 && sym == c,
            r.spec_states()[1] matches State::Match(p) && p@ == 0,
            r.alphabet_set() == Set::<char>::empty().insert(c),
    {
        let transitions = vec![
            State::Character(StateID::new(1), c),
            State::Match(PatternID::new(0)),
        ];
        let alphabet: Vec<char> = vec![c];
        proof {
            assert(char_set_of(alphabet@) =~= Set::<char>::empty().insert(c)) by {
                assert(alphabet@[0] == c);
                assert(alphabet@.contains(c));
                assert forall|b: char| alphabet@.contains(b) implies b == c by {
                    let k = choose|k: int| 0 <= k < alphabet@.len() && alphabet@[k] == b;
                }
            }
            assert forall|i: int| 0 <= i < transitions@.len()
                implies state_wf(#[trigger] transitions@[i], transitions@.len() as int) by {
                if i == 0 {
                    assert(transitions@[0] matches State::Character(t, _) && t@ == 1);
                } else {
                    assert(i == 1);
                }
            }
            assert forall|i: int| 0 <= i < transitions@.len()
                implies (#[trigger] transitions@[i] matches State::Character(_, c2)
                    ==> alphabet@.contains(c2)) by {
                if i == 0 {
                    assert(alphabet@[0] == c);
                }
            }
        }
        NFA::from_parts(transitions, StateID::new(0), alphabet)
    }
}

/// A state keeps its well-formedness when the arena only grows.
pub proof fn lemma_state_wf_mono(s: State, n: int, m: int)
    requires
        state_wf(s, n),
        n <= m,
    ensures
        state_wf(s, m),
{
}

/// The shape of a concatenation arena: the first automaton minus its
/// accepting state, then the second automaton shifted past it.
pub open spec fn concat_shape(f: Seq<State>, s: Seq<State>, t: Seq<State>) -> bool {
    let n1 = f.len() as int;
    let n2 = s.len() as int;
    &&& t.len() == n1 - 1 + n2
    &&& forall|i: int| 0 <= i < n1 - 1 ==> #[trigger] t[i] == f[i]
    &&& forall|i: int| 0 <= i < n2 ==> is_shifted(s[i], #[trigger] t[n1 - 1 + i], n1 - 1)
}

/// The shape of a union arena: a fresh fan-out root, both automata shifted
/// in with their accepting states patched to a shared fresh `Match`.
pub open spec fn union_shape(f: Seq<State>, s: Seq<State>, t: Seq<State>) -> bool {
    let n1 = f.len() as int;
    let n2 = s.len() as int;
    &&& t.len() == n1 + n2 + 2
    &&& t[0] matches State::Alternation(ts) && ts@.len() == 2 && ts@[0]@ == 1 && ts@[1]@ == 1 + n1
    &&& forall|i: int| 0 <= i < n1 - 1 ==> is_shifted(f[i], #[trigger] t[1 + i], 1)
    &&& t[n1] matches State::Empty(e1) && e1@ == n1 + n2 + 1
    &&& forall|i: int| 0 <= i < n2 - 1 ==> is_shifted(s[i], #[trigger] t[1 + n1 + i], 1 + n1)
    &&& t[n1 + n2] matches State::Empty(e2) && e2@ == n1 + n2 + 1
    &&& t[n1 + n2 + 1] is Match
}

/// The shape of a repetition arena: a fresh entry fan-out that can skip the
/// body, the body shifted in, and its exit patched to the same fan-out so
/// the body can loop.
pub open spec fn star_shape(f: Seq<State>, t: Seq<State>) -> bool {
    let n = f.len() as int;
    &&& t.len() == n + 2
    &&& t[0] matches State::Alternation(ts) && ts@.len() == 2 && ts@[0]@ == 1 && ts@[1]@ == n + 1
    &&& forall|i: int| 0 <= i < n - 1 ==> is_shifted(f[i], #[trigger] t[1 + i], 1)
    &&& t[n] matches State::Alternation(ts2) && ts2@.len() == 2 && ts2@[0]@ == 1 && ts2@[1]@ == n + 1
    &&& t[n + 1] is Match
}

impl NFA {
    /// Joins two linear automata end to start: the first one's accepting
    /// state is dropped and the second automaton is shifted into its place.
    pub fn concatenation(first: NFA, second: NFA) -> (r: NFA)
        requires
            first.linear(),
            second.linear(),
            first.spec_states().len() + second.spec_states().len() <= usize::MAX + 1,
        ensures
            r.linear(),
            concat_shape(first.spec_states(), second.spec_states(), r.spec_states()),
            r.alphabet_set() == first.alphabet_set().union(second.alphabet_set()),
    {
        let ghost f = first.spec_states();
        let ghost s = second.spec_states();
        let ghost al1v = first.spec_alphabet();
        let ghost al2v = second.spec_alphabet();
        let (mut transitions, _start1, al1) = first.into_parts();
        let (second_tr, _start2, al2) = second.into_parts();
        let n1 = transitions.len();
        transitions.pop();
        let mut shifted = shift_transitions(second_tr, n1 - 1);
        transitions.append(&mut shifted);
        let alphabet = alphabet_union(&al1, &al2);
        proof {
            let t = transitions@;
            let len = t.len() as int;
            assert forall|i: int| 0 <= i < f.len() - 1 implies #[trigger] t[i] == f[i] by {
                assert(f.subrange(0, f.len() - 1)[i] == f[i]);
            }
            assert forall|i: int| 0 <= i < len implies state_wf(#[trigger] t[i], len) by {
                if i < f.len() - 1 {
                    assert(state_wf(f[i], f.len() as int));
                    lemma_state_wf_mono(f[i], f.len() as int, len);
                } else {
                    let j = i - (f.len() - 1);
                    assert(is_shifted(s[j], t[i], f.len() - 1));
                    assert(state_wf(s[j], s.len() as int));
                    lemma_shifted_wf(s[j], t[i], f.len() - 1, s.len() as int);
                }
            }
            assert forall|ch: char| al1v.contains(ch) || al2v.contains(ch)
                implies alphabet@.contains(ch) by {
                assert(char_set_of(alphabet@) == char_set_of(al1v).union(char_set_of(al2v)));
                if al1v.contains(ch) {
                    assert(char_set_of(al1v).contains(ch));
                } else {
                    assert(char_set_of(al2v).contains(ch));
                }
                assert(char_set_of(alphabet@).contains(ch));
            }
            assert forall|i: int| 0 <= i < len
                implies (#[trigger] t[i] matches State::Character(_, c)
                    ==> alphabet@.contains(c)) by {
                if i < f.len() - 1 {
                    assert(f[i] matches State::Character(_, c2) ==> al1v.contains(c2));
                } else {
                    let j = i - (f.len() - 1);
                    assert(is_shifted(s[j], t[i], f.len() - 1));
                    assert(s[j] matches State::Character(_, c3) ==> al2v.contains(c3));
                }
            }
            assert forall|c2: char| #[trigger] alphabet@.contains(c2)
                implies exists|i: int| 0 <= i < t.len()
                    && state_consumes(#[trigger] t[i], c2) by {
                assert(char_set_of(alphabet@).contains(c2));
                if al1v.contains(c2) {
                    let i = choose|i: int| 0 <= i < f.len() && state_consumes(#[trigger] f[i], c2);
                    assert(i != f.len() - 1);
                    assert(state_consumes(t[i], c2));
                } else {
                    assert(char_set_of(al2v).contains(c2));
                    let j = choose|j: int| 0 <= j < s.len() && state_consumes(#[trigger] s[j], c2);
                    assert(is_shifted(s[j], t[f.len() - 1 + j], f.len() - 1));
                    assert(state_consumes(t[f.len() - 1 + j], c2));
                }
            }
        }
        let r = NFA::from_parts(transitions, StateID::new(0), alphabet);
        proof {
            let t = r.spec_states();
            let len = t.len() as int;
            assert(is_shifted(s[s.len() - 1], t[len - 1], f.len() - 1));
            assert(t.last() is Match);
            assert forall|i: int| 0 <= i < len - 1 implies !((#[trigger] t[i]) is Match) by {
                if i < f.len() - 1 {
                    assert(t[i] == f[i]);
                } else {
                    let j = i - (f.len() - 1);
                    assert(is_shifted(s[j], t[i], f.len() - 1));
                    assert(!(s[j] is Match));
                }
            }
            assert(r.alphabet_set() =~= first.alphabet_set().union(second.alphabet_set()));
        }
        r
    }

    /// Alternation of two linear automata: a fresh fan-out start reaches
    /// both, and both accepting states are patched onto a shared fresh one.
    pub fn union(first: NFA, second: NFA) -> (r: NFA)
        requires
            first.linear(),
            second.linear(),
            first.spec_states().len() + second.spec_states().len() + 2 <= usize::MAX,
        ensures
            r.linear(),
            union_shape(first.spec_states(), second.spec_states(), r.spec_states()),
            r.alphabet_set() == first.alphabet_set().union(second.alphabet_set()),
    {
        let ghost f = first.spec_states();
        let ghost s = second.spec_states();
        let ghost al1v = first.spec_alphabet();
        let ghost al2v = second.spec_alphabet();
        let (first_tr, _start1, al1) = first.into_parts();
        let (second_tr, _start2, al2) = second.into_parts();
        let n1 = first_tr.len();
        let n2 = second_tr.len();
        let accepting = n1 + n2 + 1;

        let roots = vec![StateID::new(1), StateID::new(1 + n1)];
        let mut transitions = vec![State::Alternation(roots)];

        let sh1 = shift_transitions(first_tr, 1);
        let mut p1 = patch_accepting_state(sh1, State::Empty(StateID::new(accepting)));
        transitions.append(&mut p1);

        let sh2 = shift_transitions(second_tr, 1 + n1);
        let mut p2 = patch_accepting_state(sh2, State::Empty(StateID::new(accepting)));
        transitions.append(&mut p2);

        transitions.push(State::Match(PatternID::new(0)));
        let alphabet = alphabet_union(&al1, &al2);
        proof {
            let t = transitions@;
            let len = t.len() as int;
            assert(len == n1 + n2 + 2);
            assert(t[0] matches State::Alternation(ts) && ts@.len() == 2
                && ts@[0]@ == 1 && ts@[1]@ == 1 + n1);
            assert forall|i: int| 0 <= i < n1 - 1 implies is_shifted(f[i], #[trigger] t[1 + i], 1) by {}
            assert(t[n1 as int] matches State::Empty(e1) && e1@ == n1 + n2 + 1);
            assert forall|i: int| 0 <= i < n2 - 1
                implies is_shifted(s[i], #[trigger] t[1 + n1 + i], 1 + n1) by {}
            assert(t[n1 + n2] matches State::Empty(e2) && e2@ == n1 + n2 + 1);
            assert(t[n1 + n2 + 1] is Match);
            assert forall|i: int| 0 <= i < len implies state_wf(#[trigger] t[i], len) by {
                if i == 0 {
                } else if i < n1 {
                    assert(is_shifted(f[i - 1], t[i], 1));
                    assert(state_wf(f[i - 1], f.len() as int));
                    lemma_shifted_wf(f[i - 1], t[i], 1, f.len() as int);
                    lemma_state_wf_mono(t[i], f.len() as int + 1, len);
                } else if i == n1 {
                } else if i < n1 + n2 {
                    let j = i - (1 + n1);
                    assert(is_shifted(s[j], t[i], 1 + n1));
                    assert(state_wf(s[j], s.len() as int));
                    lemma_shifted_wf(s[j], t[i], 1 + n1, s.len() as int);
                    lemma_state_wf_mono(t[i], s.len() as int + 1 + n1, len);
                }
            }
            assert forall|ch: char| al1v.contains(ch) || al2v.contains(ch)
                implies alphabet@.contains(ch) by {
                assert(char_set_of(alphabet@) == char_set_of(al1v).union(char_set_of(al2v)));
                if al1v.contains(ch) {
                    assert(char_set_of(al1v).contains(ch));
                } else {
                    assert(char_set_of(al2v).contains(ch));
                }
                assert(char_set_of(alphabet@).contains(ch));
            }
            assert forall|i: int| 0 <= i < len
                implies (#[trigger] t[i] matches State::Character(_, c)
                    ==> alphabet@.contains(c)) by {
                if 1 <= i < n1 {
                    assert(is_shifted(f[i - 1], t[i], 1));
                    assert(f[i - 1] matches State::Character(_, c2) ==> al1v.contains(c2));
                } else if 1 + n1 <= i < n1 + n2 {
                    let j = i - (1 + n1);
                    assert(is_shifted(s[j], t[i], 1 + n1));
                    assert(s[j] matches State::Character(_, c3) ==> al2v.contains(c3));
                }
            }
            assert forall|c2: char| #[trigger] alphabet@.contains(c2)
                implies exists|i: int| 0 <= i < t.len()
                    && state_consumes(#[trigger] t[i], c2) by {
                assert(char_set_of(alphabet@).contains(c2));
                if al1v.contains(c2) {
                    let i = choose|i: int| 0 <= i < f.len() && state_consumes(#[trigger] f[i], c2);
                    assert(i != f.len() - 1);
                    assert(is_shifted(f[i], t[1 + i], 1));
                    assert(state_consumes(t[1 + i], c2));
                } else {
                    assert(char_set_of(al2v).contains(c2));
                    let j = choose|j: int| 0 <= j < s.len() && state_consumes(#[trigger] s[j], c2);
                    assert(j != s.len() - 1);
                    assert(is_shifted(s[j], t[1 + n1 + j], 1 + n1));
                    assert(state_consumes(t[1 + n1 + j], c2));
                }
            }
        }
        let r = NFA::from_parts(transitions, StateID::new(0), alphabet);
        proof {
            let t = r.spec_states();
            let len = t.len() as int;
            assert forall|i: int| 0 <= i < len - 1 implies !((#[trigger] t[i]) is Match) by {
                if 1 <= i < n1 {
                    assert(is_shifted(f[i - 1], t[i], 1));
                    assert(!(f[i - 1] is Match));
                } else if 1 + n1 <= i < n1 + n2 {
                    let j = i - (1 + n1);
                    assert(is_shifted(s[j], t[i], 1 + n1));
                    assert(!(s[j] is Match));
                }
            }
            assert(r.alphabet_set() =~= first.alphabet_set().union(second.alphabet_set()));
        }
        r
    }

    /// Zero or more repetitions of a linear automaton: a fresh entry
    /// fan-out either skips the body or enters it, and the body's exit is
    /// patched to the same fan-out, closing the loop.
    pub fn kleene_star(nfa: NFA) -> (r: NFA)
        requires
            nfa.linear(),
            nfa.spec_states().len() + 2 <= usize::MAX,
        ensures
            r.linear(),
            star_shape(nfa.spec_states(), r.spec_states()),
            r.alphabet_set() == nfa.alphabet_set(),
    {
        let ghost f = nfa.spec_states();
        let ghost alv = nfa.spec_alphabet();
        let (body_tr, _start, alphabet) = nfa.into_parts();
        let n = body_tr.len();
        let accepting = n + 1;

        let entry = vec![StateID::new(1), StateID::new(accepting)];
        let mut transitions = vec![State::Alternation(entry)];

        let sh = shift_transitions(body_tr, 1);
        let back = vec![StateID::new(1), StateID::new(accepting)];
        let mut patched = patch_accepting_state(sh, State::Alternation(back));
        transitions.append(&mut patched);

        transitions.push(State::Match(PatternID::new(0)));
        proof {
            let t = transitions@;
            let len = t.len() as int;
            assert(len == n + 2);
            assert(t[0] matches State::Alternation(ts) && ts@.len() == 2
                && ts@[0]@ == 1 && ts@[1]@ == n + 1);
            assert forall|i: int| 0 <= i < n - 1 implies is_shifted(f[i], #[trigger] t[1 + i], 1) by {}
            assert(t[n as int] matches State::Alternation(ts2) && ts2@.len() == 2
                && ts2@[0]@ == 1 && ts2@[1]@ == n + 1);
            assert(t[n + 1] is Match);
            assert forall|i: int| 0 <= i < len implies state_wf(#[trigger] t[i], len) by {
                if 1 <= i < n {
                    assert(is_shifted(f[i - 1], t[i], 1));
                    assert(state_wf(f[i - 1], f.len() as int));
                    lemma_shifted_wf(f[i - 1], t[i], 1, f.len() as int);
                    lemma_state_wf_mono(t[i], f.len() as int + 1, len);
                }
            }
            assert forall|i: int| 0 <= i < len
                implies (#[trigger] t[i] matches State::Character(_, c)
                    ==> alphabet@.contains(c)) by {
                if 1 <= i < n {
                    assert(is_shifted(f[i - 1], t[i], 1));
                    assert(f[i - 1] matches State::Character(_, c2) ==> alv.contains(c2));
                }
            }
            assert forall|c2: char| #[trigger] alphabet@.contains(c2)
                implies exists|i: int| 0 <= i < t.len()
                    && state_consumes(#[trigger] t[i], c2) by {
                let i = choose|i: int| 0 <= i < f.len() && state_consumes(#[trigger] f[i], c2);
                assert(i != f.len() - 1);
                assert(is_shifted(f[i], t[1 + i], 1));
                assert(state_consumes(t[1 + i], c2));
            }
        }
        let r = NFA::from_parts(transitions, StateID::new(0), alphabet);
        proof {
            let t = r.spec_states();
            let len = t.len() as int;
            assert forall|i: int| 0 <= i < len - 1 implies !((#[trigger] t[i]) is Match) by {
                if 1 <= i < n {
                    assert(is_shifted(f[i - 1], t[i], 1));
                    assert(!(f[i - 1] is Match));
                }
            }
            assert(r.alphabet_set() =~= nfa.alphabet_set());
        }
        r
    }
}

} // verus!
