//! Nondeterministic finite automata over a state arena.
//!
//! An `NFA` owns an arena of states, a start state, and the alphabet of
//! symbols its consuming transitions use.  Simulation works on
//! `Configuration`s — canonical sets of state handles — through epsilon
//! closure and single-symbol steps, and is specified exactly against the
//! definitions in [`crate::semantics`].

use vstd::prelude::*;

use crate::semantics::{
    accepting, char_step, eps_closure, eps_reach, eps_step, lemma_char_step_bound,
    lemma_closed_contains, lemma_eps_step_bound, lemma_reach_refl, lemma_reach_step,
    set_in_bounds, spec_next, spec_run_from, spec_step,
};
use crate::state::{alphabet_covered, wf_arena, PatternID, State};
use crate::state_id::{lemma_state_id_nonneg, StateID};
use crate::state_set::{lemma_canonical, lemma_sorted_bounded_len, StateSet, StateSetIter};

verus! {

/// A canonical set of state handles: all the places an automaton could
/// currently be.  Two configurations with the same members are equal values,
/// which is what lets subset construction recognise repeated states.
#[derive(Debug, PartialEq, Eq, PartialOrd, Ord, Hash)]
pub struct Configuration {
    /// The member states, in canonical order.
    pub states: StateSet,
}

impl View for Configuration {
    type V = Set<int>;

    open spec fn view(&self) -> Set<int> {
        self.states@
    }
}

impl Configuration {
    /// The members in canonical (strictly increasing) order.
    pub open spec fn seq(self) -> Seq<int> {
        self.states.seq()
    }

    /// The member set is canonical.
    pub open spec fn wf(self) -> bool {
        self.states.wf()
    }

    /// The empty configuration.
    pub fn new() -> (r: Self)
        ensures
            r.wf(),
            r@ == Set::<int>::empty(),
            r.seq() == Seq::<int>::empty(),
    {
        Configuration { states: StateSet::new() }
    }

    /// The configuration holding exactly `state`.
    pub fn with_state(state: StateID) -> (r: Self)
        ensures
            r.wf(),
            r@ == Set::<int>::empty().insert(state@),
            r.seq() == seq![state@],
    {
        Configuration { states: StateSet::with_state(state) }
    }

    /// The configuration holding exactly the members of `states`.
    pub fn with_states(states: &Vec<StateID>) -> (r: Self)
        ensures
            r.wf(),
            forall|b: int| r@.contains(b) <==> exists|k: int| 0 <= k < states@.len() && states@[k]@ == b,
    {
        Configuration { states: StateSet::with_states(states) }
    }

    /// Adds `state`; reports whether it was newly added.
    pub fn insert(&mut self, state: StateID) -> (added: bool)
        requires
            old(self).wf(),
        ensures
            final(self).wf(),
            final(self)@ == old(self)@.insert(state@),
            added == !old(self)@.contains(state@),
    {
        self.states.insert(state)
    }

    /// Whether `state` is a member.
    pub fn contains(&self, state: StateID) -> (r: bool)
        ensures
            r == self@.contains(state@),
    {
        self.states.contains(state)
    }

    /// Whether the configuration has no members.
    pub fn is_empty(&self) -> (r: bool)
        ensures
            r <==> self.seq().len() == 0,
            r <==> self@ == Set::<int>::empty(),
    {
        self.states.is_empty()
    }

    /// The number of members.
    pub fn len(&self) -> (r: usize)
        ensures
            r == self.seq().len(),
    {
        self.states.len()
    }

    /// The member at position `i` in canonical order.
    pub fn index(&self, i: usize) -> (r: StateID)
        requires
            i < self.seq().len(),
        ensures
            r@ == self.seq()[i as int],
            self@.contains(r@),
    {
        self.states.index(i)
    }

    /// An iterator over the members in canonical order.
    pub fn iter<'a>(&'a self) -> (r: StateSetIter<'a>)
        ensures
            r.set == &self.states,
            r.pos == 0,
    {
        self.states.iter()
    }

    /// Whether two configurations have the same members.
    pub fn set_eq(&self, other: &Configuration) -> (r: bool)
        requires
            self.wf(),
            other.wf(),
        ensures
            r == (self@ == other@),
    {
        proof {
            if self@ == other@ {
                lemma_canonical(self.states, other.states);
            }
        }
        let n = self.states.len();
        if n != other.states.len() {
            return false;
        }
        let mut i: usize = 0;
        while i < n
            invariant
                i <= n,
                n == self.seq().len() == other.seq().len(),
                self.wf(),
                other.wf(),
                self@ == other@ ==> self.seq() == other.seq(),
                forall|k: int| 0 <= k < i ==> self.seq()[k] == other.seq()[k],
            decreases n - i,
        {
            let a = self.states.index(i);
            let b = other.states.index(i);
            if a.as_usize() != b.as_usize() {
                return false;
            }
            i = i + 1;
        }
        proof {
            assert(self.seq() =~= other.seq());
            assert forall|b: int| self@.contains(b) <==> other@.contains(b) by {}
            assert(self@ =~= other@);
        }
        true
    }
}

impl Clone for Configuration {
    /// Clones preserve the members exactly.
    fn clone(&self) -> (r: Self)
        ensures
            r@ == self@,
            r.seq() == self.seq(),
            r.wf() == self.wf(),
    {
        Configuration { states: self.states.clone() }
    }
}

/// A nondeterministic finite automaton: a state arena, a start state, and
/// the alphabet of symbols used by its consuming transitions.
#[derive(Debug, PartialEq, Eq)]
pub struct NFA {
    states: Vec<State>,
    start_state: StateID,
    alphabet: Vec<char>,
}

impl NFA {
    /// The state arena.
    pub closed spec fn spec_states(self) -> Seq<State> {
        self.states@
    }

    /// The start state, as an arena index.
    pub closed spec fn spec_start(self) -> int {
        self.start_state@
    }

    /// The alphabet, in first-seen order.
    pub closed spec fn spec_alphabet(self) -> Seq<char> {
        self.alphabet@
    }

    /// The alphabet as a set of symbols.
    pub open spec fn alphabet_set(self) -> Set<char> {
        crate::alphabet::char_set_of(self.spec_alphabet())
    }

    /// Every transition stays inside the arena, the start state exists,
    /// the alphabet is duplicate-free, and the alphabet holds exactly the
    /// union of the symbols on `Character` transitions: each such symbol
    /// is in the alphabet, and each alphabet symbol occurs on one.
    pub open spec fn wf(self) -> bool {
        &&& wf_arena(self.spec_states())
        &&& 0 <= self.spec_start() < self.spec_states().len()
        &&& self.spec_alphabet().no_duplicates()
        &&& forall|i: int| 0 <= i < self.spec_states().len()
            ==> (#[trigger] self.spec_states()[i] matches State::Character(_, c)
                ==> self.spec_alphabet().contains(c))
        &&& alphabet_covered(self.spec_states(), self.spec_alphabet())
    }

    /// `config` is a canonical set of states of this automaton.
    pub open spec fn valid_config(self, config: Configuration) -> bool {
        &&& config.wf()
        &&& set_in_bounds(config@, self.spec_states().len() as int)
    }

    /// The set holding only the start state.
    pub open spec fn start_set(self) -> Set<int> {
        Set::<int>::empty().insert(self.spec_start())
    }

    /// The initial simulation configuration: the epsilon closure of the
    /// start state.
    pub open spec fn start_config(self) -> Set<int> {
        eps_closure(self.spec_states(), self.start_set())
    }

    /// The configuration this automaton is in after reading all of `input`.
    pub open spec fn spec_run(self, input: Seq<char>) -> Set<int> {
        spec_run_from(self.spec_states(), self.start_config(), input)
    }

    /// Whether this automaton accepts `input`: the run ends in a
    /// configuration holding a `Match` state.
    pub open spec fn spec_accepts(self, input: Seq<char>) -> bool {
        accepting(self.spec_states(), self.spec_run(input))
    }

    /// Assembles an automaton from already-checked parts.
    #[verifier::loop_isolation(false)]
    pub(crate) fn from_parts(states: Vec<State>, start_state: StateID, alphabet: Vec<char>) -> (r: NFA)
        requires
            wf_arena(states@),
            start_state@ < states@.len(),
            alphabet@.no_duplicates(),
            forall|i: int| 0 <= i < states@.len()
                ==> (#[trigger] states@[i] matches State::Character(_, c) ==> alphabet@.contains(c)),
            alphabet_covered(states@, alphabet@),
        ensures
            r.wf(),
            r.spec_states() == states@,
            r.spec_start() == start_state@,
            r.spec_alphabet() == alphabet@,
    {
        proof {
            lemma_state_id_nonneg(start_state);
        }
        NFA { states, start_state, alphabet }
    }

    /// Takes the automaton apart into its arena, start state, and alphabet.
    pub(crate) fn into_parts(self) -> (r: (Vec<State>, StateID, Vec<char>))
        ensures
            r.0@ == self.spec_states(),
            r.1@ == self.spec_start(),
            r.2@ == self.spec_alphabet(),
    {
        let NFA { states, start_state, alphabet } = self;
        (states, start_state, alphabet)
    }

    /// The alphabet, in first-seen order.
    pub fn alphabet(&self) -> (r: &Vec<char>)
        ensures
            r@ == self.spec_alphabet(),
    {
        &self.alphabet
    }

    /// The start state.
    pub fn initial_state(&self) -> (r: StateID)
        ensures
            r@ == self.spec_start(),
    {
        self.start_state
    }

    /// The number of states in the arena.
    pub fn size(&self) -> (r: usize)
        ensures
            r == self.spec_states().len(),
    {
        self.states.len()
    }

    /// The targets that `state` reaches along a single epsilon edge:
    /// exactly the one target of an `Empty` state, exactly the stored
    /// targets of an `Alternation` state in stored order, and nothing for
    /// a `Character` or `Match` state.
    pub fn on_epsilon(&self, state: StateID) -> (r: Vec<StateID>)
        requires
            state@ < self.spec_states().len(),
        ensures
            self.spec_states()[state@ as int] matches State::Empty(t) ==> r@ == seq![t],
            self.spec_states()[state@ as int] matches State::Alternation(ts) ==> r@ == ts@,
            self.spec_states()[state@ as int] is Character ==> r@ == Seq::<StateID>::empty(),
            self.spec_states()[state@ as int] is Match ==> r@ == Seq::<StateID>::empty(),
            forall|k: int| 0 <= k < r@.len() ==> eps_step(self.spec_states(), state@, #[trigger] r@[k]@),
            forall|b: int| eps_step(self.spec_states(), state@, b)
                ==> exists|k: int| 0 <= k < r@.len() && #[trigger] r@[k]@ == b,
    {
        let ghost ss = self.spec_states();
        let idx = state.as_usize();
        match &self.states[idx] {
            State::Empty(t) => {
                let r = vec![*t];
                proof {
                    assert(r@[0] == *t);
                    assert(r@ =~= seq![*t]);
                    assert(eps_step(ss, state@, t@));
                    assert forall|b: int| eps_step(ss, state@, b)
                        implies exists|k: int| 0 <= k < r@.len() && #[trigger] r@[k]@ == b by {
                        assert(r@[0]@ == b);
                    }
                }
                r
            },
            State::Alternation(ts) => {
                let n = ts.len();
                let mut r: Vec<StateID> = Vec::new();
                let mut k: usize = 0;
                #[verifier::loop_isolation(false)]
                while k < n
                    invariant
                        k <= n,
                        r@ =~= ts@.subrange(0, k as int),
                    decreases n - k,
                {
                    r.push(ts[k]);
                    k = k + 1;
                }
                proof {
                    assert(r@ =~= ts@);
                    assert forall|k2: int| 0 <= k2 < r@.len()
                        implies eps_step(ss, state@, #[trigger] r@[k2]@) by {
                        assert(ts@[k2]@ == r@[k2]@);
                    }
                    assert forall|b: int| eps_step(ss, state@, b)
                        implies exists|k2: int| 0 <= k2 < r@.len() && #[trigger] r@[k2]@ == b by {
                        let k2 = choose|k2: int| 0 <= k2 < ts@.len() && #[trigger] ts@[k2]@ == b;
                        assert(r@[k2]@ == b);
                    }
                }
                r
            },
            State::Character(_, _) => {
                let r: Vec<StateID> = Vec::new();
                proof {
                    assert(r@ =~= Seq::<StateID>::empty());
                }
                r
            },
            State::Match(_) => {
                let r: Vec<StateID> = Vec::new();
                proof {
                    assert(r@ =~= Seq::<StateID>::empty());
                }
                r
            },
        }
    }

    /// The target `state` reaches by consuming `chr`, if any.
    pub fn on_character(&self, state: StateID, chr: char) -> (r: Option<StateID>)
        requires
            state@ < self.spec_states().len(),
        ensures
            r matches Some(t) ==> char_step(self.spec_states(), state@, chr, t@),
            r is None ==> forall|b: int| !char_step(self.spec_states(), state@, chr, b),
    {
        let idx = state.as_usize();
        match &self.states[idx] {
            State::Character(t, sym) => {
                if *sym == chr {
                    Some(*t)
                } else {
                    None
                }
            },
            _ => None,
        }
    }

    /// The epsilon closure of `config`: a breadth-first walk along epsilon
    /// edges that visits every state at most once, so it terminates even on
    /// the cyclic arenas produced by repetition.
    #[verifier::rlimit(100)]
    #[verifier::spinoff_prover]
    pub fn follow_epsilon(&self, config: &Configuration) -> (r: Configuration)
        requires
            self.wf(),
            self.valid_config(*config),
        ensures
            r.wf(),
            r@ == eps_closure(self.spec_states(), config@),
            self.valid_config(r),
    {
        let ghost ss = self.spec_states();
        let ghost n = ss.len() as int;
        let mut visited = StateSet::new();
        let mut queue: Vec<StateID> = Vec::new();
        let cn = config.len();
        let mut i: usize = 0;
        #[verifier::loop_isolation(false)]
        while i < cn
            invariant
                i <= cn,
                queue@.len() == i,
                forall|k: int| 0 <= k < i ==> #[trigger] queue@[k]@ == config.seq()[k],
            decreases cn - i,
        {
            queue.push(config.index(i));
            i = i + 1;
        }
        proof {
            assert forall|k: int| 0 <= k < queue@.len()
                implies eps_reach(ss, config@, #[trigger] queue@[k]@) && 0 <= queue@[k]@ < n by {
                assert(config.seq().contains(config.seq()[k]));
                assert(config@.contains(queue@[k]@));
                lemma_reach_refl(ss, config@, queue@[k]@);
            }
            assert forall|b: int| config@.contains(b)
                implies visited@.contains(b)
                    || exists|k: int| 0 <= k < queue@.len() && #[trigger] queue@[k]@ == b by {
                let k = choose|k: int| 0 <= k < config.seq().len() && config.seq()[k] == b;
                assert(queue@[k]@ == b);
            }
        }
        #[verifier::loop_isolation(false)]
        while queue.len() > 0
            invariant
                visited.wf(),
                set_in_bounds(visited@, n),
                visited.seq().len() <= n,
                forall|k: int| 0 <= k < queue@.len() ==> 0 <= #[trigger] queue@[k]@ < n,
                forall|b: int| visited@.contains(b) ==> eps_reach(ss, config@, b),
                forall|k: int| 0 <= k < queue@.len() ==> eps_reach(ss, config@, #[trigger] queue@[k]@),
                forall|b: int| config@.contains(b) ==> visited@.contains(b)
                    || exists|k: int| 0 <= k < queue@.len() && #[trigger] queue@[k]@ == b,
                forall|a: int, b: int| #![trigger visited@.contains(a), eps_step(ss, a, b)]
                    visited@.contains(a) && eps_step(ss, a, b) ==> visited@.contains(b)
                        || exists|k: int| 0 <= k < queue@.len() && #[trigger] queue@[k]@ == b,
            decreases n - visited.seq().len(), queue@.len(),
        {
            let ghost q_before = queue@;
            let current = queue.pop().unwrap();
            proof {
                assert(current == q_before[q_before.len() - 1]);
                assert(queue@ =~= q_before.subrange(0, q_before.len() - 1));
            }
            if !visited.contains(current) {
                visited.insert(current);
                proof {
                    assert forall|k: int| 0 <= k < visited.seq().len()
                        implies 0 <= #[trigger] visited.seq()[k] < n by {
                        assert(visited.seq().contains(visited.seq()[k]));
                        assert(visited@.contains(visited.seq()[k]));
                    }
                    lemma_sorted_bounded_len(visited.seq(), n);
                }
                let nexts = self.on_epsilon(current);
                proof {
                    assert forall|k: int| 0 <= k < nexts@.len()
                        implies eps_reach(ss, config@, #[trigger] nexts@[k]@) && 0 <= nexts@[k]@ < n by {
                        assert(eps_step(ss, current@, nexts@[k]@));
                        lemma_reach_step(ss, config@, current@, nexts@[k]@);
                        lemma_eps_step_bound(ss, current@, nexts@[k]@);
                    }
                }
                let ghost q_mid = queue@;
                let nn = nexts.len();
                let mut k: usize = 0;
                #[verifier::loop_isolation(false)]
                while k < nn
                    invariant
                        k <= nn,
                        queue@ =~= q_mid + nexts@.subrange(0, k as int),
                    decreases nn - k,
                {
                    queue.push(nexts[k]);
                    k = k + 1;
                }
                proof {
                    assert(queue@ =~= q_mid + nexts@);
                    // every old queue entry except the popped one is still there,
                    // and every epsilon successor of `current` was appended
                    assert forall|a: int, b: int| #![trigger visited@.contains(a), eps_step(ss, a, b)]
                        visited@.contains(a) && eps_step(ss, a, b)
                            implies visited@.contains(b)
                                || exists|k2: int| 0 <= k2 < queue@.len() && #[trigger] queue@[k2]@ == b by {
                        if a == current@ {
                            let k2 = choose|k2: int| 0 <= k2 < nexts@.len() && #[trigger] nexts@[k2]@ == b;
                            assert(queue@[q_mid.len() + k2]@ == b);
                        } else if !visited@.contains(b) {
                            // the edge comes from an already-visited state
                            let k2 = choose|k2: int| 0 <= k2 < q_before.len() && #[trigger] q_before[k2]@ == b;
                            if k2 < q_before.len() - 1 {
                                assert(queue@[k2]@ == b);
                            } else {
                                assert(b == current@);
                            }
                        }
                    }
                    assert forall|b: int| config@.contains(b)
                        implies visited@.contains(b)
                            || exists|k2: int| 0 <= k2 < queue@.len() && #[trigger] queue@[k2]@ == b by {
                        if !visited@.contains(b) {
                            let k2 = choose|k2: int| 0 <= k2 < q_before.len() && #[trigger] q_before[k2]@ == b;
                            if k2 < q_before.len() - 1 {
                                assert(queue@[k2]@ == b);
                            } else {
                                assert(b == current@);
                            }
                        }
                    }
                }
            } else {
                proof {
                    assert forall|b: int| config@.contains(b)
                        implies visited@.contains(b)
                            || exists|k2: int| 0 <= k2 < queue@.len() && #[trigger] queue@[k2]@ == b by {
                        if !visited@.contains(b) {
                            let k2 = choose|k2: int| 0 <= k2 < q_before.len() && #[trigger] q_before[k2]@ == b;
                            if k2 < q_before.len() - 1 {
                                assert(queue@[k2]@ == b);
                            } else {
                                assert(b == current@);
                            }
                        }
                    }
                    assert forall|a: int, b: int| #![trigger visited@.contains(a), eps_step(ss, a, b)]
                        visited@.contains(a) && eps_step(ss, a, b)
                            implies visited@.contains(b)
                                || exists|k2: int| 0 <= k2 < queue@.len() && #[trigger] queue@[k2]@ == b by {
                        if !visited@.contains(b) {
                            let k2 = choose|k2: int| 0 <= k2 < q_before.len() && #[trigger] q_before[k2]@ == b;
                            if k2 < q_before.len() - 1 {
                                assert(queue@[k2]@ == b);
                            } else {
                                assert(b == current@);
                            }
                        }
                    }
                }
            }
        }
        proof {
            lemma_closed_contains(ss, config@, visited@);
            assert forall|b: int| visited@.contains(b) <==> eps_closure(ss, config@).contains(b) by {}
            assert(visited@ =~= eps_closure(ss, config@));
        }
        Configuration { states: visited }
    }

    /// The unclosed configuration reached from `config` by consuming `chr`.
    pub fn follow_character(&self, config: &Configuration, chr: char) -> (r: Configuration)
        requires
            self.wf(),
            self.valid_config(*config),
        ensures
            r.wf(),
            r@ == spec_step(self.spec_states(), config@, chr),
            self.valid_config(r),
    {
        let ghost ss = self.spec_states();
        let ghost n = ss.len() as int;
        let mut states = StateSet::new();
        let cn = config.len();
        let mut i: usize = 0;
        #[verifier::loop_isolation(false)]
        while i < cn
            invariant
                i <= cn,
                states.wf(),
                set_in_bounds(states@, n),
                forall|b: int| states@.contains(b)
                    <==> exists|k: int| 0 <= k < i && char_step(ss, #[trigger] config.seq()[k], chr, b),
            decreases cn - i,
        {
            let s = config.index(i);
            proof {
                assert(config@.contains(s@));
            }
            match self.on_character(s, chr) {
                Some(t) => {
                    proof {
                        lemma_char_step_bound(ss, s@, chr, t@);
                    }
                    states.insert(t);
                    proof {
                        assert forall|b: int| states@.contains(b)
                            implies exists|k: int| 0 <= k < i + 1
                                && char_step(ss, #[trigger] config.seq()[k], chr, b) by {
                            if b == t@ {
                                assert(char_step(ss, config.seq()[i as int], chr, b));
                            }
                        }
                    }
                },
                None => {},
            }
            i = i + 1;
        }
        proof {
            assert forall|b: int| states@.contains(b)
                <==> spec_step(ss, config@, chr).contains(b) by {
                if states@.contains(b) {
                    let k = choose|k: int| 0 <= k < cn && char_step(ss, #[trigger] config.seq()[k], chr, b);
                    assert(config.seq().contains(config.seq()[k]));
                    assert(config@.contains(config.seq()[k]));
                }
                if spec_step(ss, config@, chr).contains(b) {
                    let a = choose|a: int| #[trigger] config@.contains(a) && char_step(ss, a, chr, b);
                    let k = choose|k: int| 0 <= k < config.seq().len() && config.seq()[k] == a;
                    assert(char_step(ss, config.seq()[k], chr, b));
                }
            }
            assert(states@ =~= spec_step(ss, config@, chr));
        }
        Configuration { states }
    }

    /// Whether `config` holds at least one `Match` state.
    pub fn is_accepting(&self, config: &Configuration) -> (r: bool)
        requires
            self.wf(),
            self.valid_config(*config),
        ensures
            r == accepting(self.spec_states(), config@),
    {
        let ghost ss = self.spec_states();
        let cn = config.len();
        let mut i: usize = 0;
        #[verifier::loop_isolation(false)]
        while i < cn
            invariant
                i <= cn,
                forall|k: int| 0 <= k < i ==> !(ss[#[trigger] config.seq()[k]] is Match),
            decreases cn - i,
        {
            let s = config.index(i);
            proof {
                assert(config@.contains(s@));
            }
            let idx = s.as_usize();
            let hit = match &self.states[idx] {
                State::Match(_) => true,
                _ => false,
            };
            if hit {
                proof {
                    assert(config@.contains(s@) && 0 <= s@ < ss.len() && ss[s@] is Match);
                }
                return true;
            }
            i = i + 1;
        }
        proof {
            if accepting(ss, config@) {
                let a = choose|a: int| #[trigger] config@.contains(a) && 0 <= a < ss.len() && ss[a] is Match;
                let k = choose|k: int| 0 <= k < config.seq().len() && config.seq()[k] == a;
                assert(!(ss[config.seq()[k]] is Match));
            }
        }
        false
    }
}

/// The tags of the `Match` states among `members`, walking the members in
/// order and keeping the tag of each one that is a `Match` state.
pub open spec fn pids_in_order(ss: Seq<State>, members: Seq<int>) -> Seq<PatternID>
    decreases members,
{
    if members.len() == 0 {
        Seq::<PatternID>::empty()
    } else {
        let rest = pids_in_order(ss, members.drop_last());
        match ss[members.last()] {
            State::Match(p) => rest.push(p),
            _ => rest,
        }
    }
}

impl NFA {
    /// The patterns that accept in `config`: the tag of every `Match`
    /// state among its members, in canonical member order.  When several
    /// patterns complete at the same position, all of them are reported;
    /// choosing among them is the consuming layer's policy.
    pub fn matched_patterns(&self, config: &Configuration) -> (r: Vec<PatternID>)
        requires
            self.wf(),
            self.valid_config(*config),
        ensures
            r@ == pids_in_order(self.spec_states(), config.seq()),
            forall|p: PatternID| r@.contains(p) <==> exists|a: int|
                {
                    &&& #[trigger] config@.contains(a)
                    &&& 0 <= a < self.spec_states().len()
                    &&& self.spec_states()[a] == State::Match(p)
                },
    {
        let ghost ss = self.spec_states();
        let mut r: Vec<PatternID> = Vec::new();
        let cn = config.len();
        let mut i: usize = 0;
        proof {
            assert(config.seq().take(0) =~= Seq::<int>::empty());
            assert(r@ =~= Seq::<PatternID>::empty());
        }
        #[verifier::loop_isolation(false)]
        while i < cn
            invariant
                i <= cn,
                r@ == pids_in_order(ss, config.seq().take(i as int)),
                forall|p: PatternID| r@.contains(p) <==> exists|k: int|
                    {
                        &&& 0 <= k < i
                        &&& ss[#[trigger] config.seq()[k]] == State::Match(p)
                    },
            decreases cn - i,
        {
            proof {
                assert(config.seq().take(i as int + 1).drop_last() =~= config.seq().take(i as int));
                assert(config.seq().take(i as int + 1).last() == config.seq()[i as int]);
            }
            let s = config.index(i);
            proof {
                assert(config@.contains(s@));
            }
            let idx = s.as_usize();
            let found = match &self.states[idx] {
                State::Match(pid) => Some(*pid),
                _ => None,
            };
            let ghost r_before = r@;
            match found {
                Some(pid) => {
                    proof {
                        assert(ss[s@] == State::Match(pid));
                    }
                    r.push(pid);
                    proof {
                        assert forall|p: PatternID| r@.contains(p) <==> (r_before.contains(p)
                            || p == pid) by {
                            if r@.contains(p) {
                                let k = choose|k: int| 0 <= k < r@.len() && r@[k] == p;
                                if k < r_before.len() {
                                    assert(r_before[k] == p);
                                }
                            }
                            if r_before.contains(p) {
                                let k = choose|k: int| 0 <= k < r_before.len() && r_before[k] == p;
                                assert(r@[k] == p);
                            }
                            if p == pid {
                                assert(r@[r_before.len() as int] == p);
                            }
                        }
                        assert forall|p: PatternID| r@.contains(p) implies exists|k: int|
                            {
                                &&& 0 <= k < i + 1
                                &&& ss[#[trigger] config.seq()[k]] == State::Match(p)
                            } by {
                            if p == pid {
                                assert(ss[config.seq()[i as int]] == State::Match(p));
                            } else {
                                assert(r_before.contains(p));
                                let k = choose|k: int| 0 <= k < i
                                    && ss[#[trigger] config.seq()[k]] == State::Match(p);
                            }
                        }
                        assert forall|p: PatternID| (exists|k: int|
                            {
                                &&& 0 <= k < i + 1
                                &&& ss[#[trigger] config.seq()[k]] == State::Match(p)
                            }) implies r@.contains(p) by {
                            let k = choose|k: int| 0 <= k < i + 1
                                && ss[#[trigger] config.seq()[k]] == State::Match(p);
                            if k < i {
                                assert(r_before.contains(p));
                            } else {
                                assert(ss[config.seq()[i as int]] == State::Match(p));
                                assert(p == pid);
                            }
                        }
                    }
                },
                None => {
                    proof {
                        assert(!(ss[s@] is Match));
                        assert forall|p: PatternID| r@.contains(p) <==> exists|k: int|
                            {
                                &&& 0 <= k < i + 1
                                &&& ss[#[trigger] config.seq()[k]] == State::Match(p)
                            } by {
                            if r@.contains(p) {
                                let k = choose|k: int| 0 <= k < i
                                    && ss[#[trigger] config.seq()[k]] == State::Match(p);
                            }
                            if exists|k: int|
                                {
                                    &&& 0 <= k < i + 1
                                    &&& ss[#[trigger] config.seq()[k]] == State::Match(p)
                                } {
                                let k = choose|k: int| 0 <= k < i + 1
                                    && ss[#[trigger] config.seq()[k]] == State::Match(p);
                                if k == i {
                                    assert(ss[config.seq()[i as int]] == State::Match(p));
                                    assert(false);
                                }
                            }
                        }
                    }
                },
            }
            i = i + 1;
        }
        proof {
            assert(config.seq().take(cn as int) =~= config.seq());
            assert forall|p: PatternID| r@.contains(p) <==> exists|a: int|
                {
                    &&& #[trigger] config@.contains(a)
                    &&& 0 <= a < ss.len()
                    &&& ss[a] == State::Match(p)
                } by {
                if r@.contains(p) {
                    let k = choose|k: int| 0 <= k < cn && ss[#[trigger] config.seq()[k]]
                        == State::Match(p);
                    assert(config.seq().contains(config.seq()[k]));
                    assert(config@.contains(config.seq()[k]));
                }
                if exists|a: int|
                    {
                        &&& #[trigger] config@.contains(a)
                        &&& 0 <= a < ss.len()
                        &&& ss[a] == State::Match(p)
                    } {
                    let a = choose|a: int|
                        {
                            &&& #[trigger] config@.contains(a)
                            &&& 0 <= a < ss.len()
                            &&& ss[a] == State::Match(p)
                        };
                    let k = choose|k: int| 0 <= k < config.seq().len() && config.seq()[k] == a;
                    assert(ss[config.seq()[k]] == State::Match(p));
                }
            }
        }
        r
    }
}

/// The generic simulation contract shared by the NFA and, after subset
/// construction, the DFA: a start position, a step per input symbol, and a
/// fold of the step over a whole input.
pub trait Automaton<T> {
    /// The automaton is ready to run.
    spec fn wf_automaton(&self) -> bool;

    /// `state` is a simulation position of this automaton.
    spec fn wf_state(&self, state: &T) -> bool;

    /// The simulation position before any input.
    fn start(&self) -> (r: T)
        requires
            self.wf_automaton(),
        ensures
            self.wf_state(&r),
    ;

    /// The position after reading one more symbol.
    fn next(&self, current: T, chr: char) -> (r: T)
        requires
            self.wf_automaton(),
            self.wf_state(&current),
        ensures
            self.wf_state(&r),
    ;

    /// The position after folding `next` over all of `input`, starting from
    /// `start`.  The fold runs to the end of the input even when the
    /// position has gone dead: a dead position has no successors and simply
    /// stays dead.
    fn execute(&self, input: &Vec<char>) -> (r: T)
        requires
            self.wf_automaton(),
        ensures
            self.wf_state(&r),
    ;
}

impl Automaton<Configuration> for NFA {
    open spec fn wf_automaton(&self) -> bool {
        self.wf()
    }

    open spec fn wf_state(&self, state: &Configuration) -> bool {
        self.valid_config(*state)
    }

    /// The epsilon closure of the start state.
    fn start(&self) -> (r: Configuration)
        ensures
            r@ == self.start_config(),
    {
        let init = Configuration::with_state(self.initial_state());
        self.follow_epsilon(&init)
    }

    /// Consume `chr`, then epsilon-close.
    fn next(&self, current: Configuration, chr: char) -> (r: Configuration)
        ensures
            r@ == spec_next(self.spec_states(), current@, chr),
    {
        let stepped = self.follow_character(&current, chr);
        self.follow_epsilon(&stepped)
    }

    /// Fold `next` over the whole input, starting from `start`.
    fn execute(&self, input: &Vec<char>) -> (r: Configuration)
        ensures
            r@ == self.spec_run(input@),
    {
        let ghost ss = self.spec_states();
        let mut current = self.start();
        let n = input.len();
        let mut i: usize = 0;
        #[verifier::loop_isolation(false)]
        while i < n
            invariant
                i <= n,
                self.wf_state(&current),
                current@ == spec_run_from(ss, self.start_config(), input@.take(i as int)),
            decreases n - i,
        {
            let chr = input[i];
            current = self.next(current, chr);
            proof {
                crate::semantics::lemma_run_push(ss, self.start_config(), input@.take(i as int), chr);
                assert(input@.take(i as int + 1) =~= input@.take(i as int).push(chr));
            }
            i = i + 1;
        }
        proof {
            assert(input@.take(n as int) =~= input@);
        }
        current
    }
}

} // verus!
