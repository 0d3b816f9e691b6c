//! Subset (powerset) construction and deterministic simulation.
//!
//! The subset construction explores NFA configurations breadth-first: for
//! every discovered configuration and every alphabet symbol it computes the
//! epsilon-closed successor, records it as a transition, and queues the
//! successor when it has never been seen before.  Configurations are
//! canonical, so two search paths that produce the same set of NFA states
//! are recognised as the same DFA state; the number of distinct
//! configurations over an arena of `n` states is bounded by `pow2(n)`,
//! which is what makes the exploration terminate.

use vstd::arithmetic::power2::{lemma_pow2_pos, lemma_pow2_strictly_increases, lemma_pow2_unfold, pow2};
use vstd::prelude::*;

use crate::nfa::{Automaton, Configuration, NFA};
use crate::semantics::{accepting, lemma_run_push, set_in_bounds, spec_next};
use crate::state_id::StateID;
use crate::state_set::{sorted_strict, StateSet};

verus! {

/// The binary encoding of a canonical configuration: the sum of `pow2(b)`
/// over its members.
pub open spec fn mask(s: Seq<int>) -> nat
    decreases s,
{
    if s.len() == 0 {
        0
    } else {
        mask(s.drop_last()) + pow2(s.last() as nat)
    }
}

/// The mask of a strictly sorted sequence over `[0, n)` fits in `n` bits.
proof fn lemma_mask_bound(s: Seq<int>, n: int)
    requires
        n >= 0,
        sorted_strict(s),
        forall|k: int| 0 <= k < s.len() ==> 0 <= #[trigger] s[k] < n,
    ensures
        mask(s) < pow2(n as nat),
    decreases s.len(),
{
    if s.len() == 0 {
        lemma_pow2_pos(n as nat);
    } else {
        let last = s.last();
        assert forall|k: int| 0 <= k < s.drop_last().len()
            implies 0 <= #[trigger] s.drop_last()[k] < last by {
            assert(s[k] < s[s.len() - 1]);
        }
        lemma_mask_bound(s.drop_last(), last);
        lemma_pow2_unfold((last + 1) as nat);
        if last + 1 < n {
            lemma_pow2_strictly_increases((last + 1) as nat, n as nat);
        }
    }
}

/// Distinct canonical sequences have distinct masks: the mask is a binary
/// representation, and binary representations are unique.
proof fn lemma_mask_injective(a: Seq<int>, b: Seq<int>)
    requires
        sorted_strict(a),
        sorted_strict(b),
        forall|k: int| 0 <= k < a.len() ==> #[trigger] a[k] >= 0,
        forall|k: int| 0 <= k < b.len() ==> #[trigger] b[k] >= 0,
        mask(a) == mask(b),
    ensures
        a == b,
    decreases a.len() + b.len(),
{
    if a.len() == 0 && b.len() == 0 {
        assert(a =~= b);
    } else if a.len() == 0 {
        lemma_pow2_pos(b.last() as nat);
        assert(mask(b) >= pow2(b.last() as nat));
    } else if b.len() == 0 {
        lemma_pow2_pos(a.last() as nat);
        assert(mask(a) >= pow2(a.last() as nat));
    } else {
        let la = a.last();
        let lb = b.last();
        assert forall|k: int| 0 <= k < a.drop_last().len()
            implies 0 <= #[trigger] a.drop_last()[k] < la by {
            assert(a[k] < a[a.len() - 1]);
        }
        assert forall|k: int| 0 <= k < b.drop_last().len()
            implies 0 <= #[trigger] b.drop_last()[k] < lb by {
            assert(b[k] < b[b.len() - 1]);
        }
        if la < lb {
            lemma_mask_bound(a.drop_last(), la);
            lemma_pow2_unfold((la + 1) as nat);
            if la + 1 < lb {
                lemma_pow2_strictly_increases((la + 1) as nat, lb as nat);
            }
            assert(mask(a) < pow2((la + 1) as nat));
            assert(mask(b) >= pow2(lb as nat));
        } else if lb < la {
            lemma_mask_bound(b.drop_last(), lb);
            lemma_pow2_unfold((lb + 1) as nat);
            if lb + 1 < la {
                lemma_pow2_strictly_increases((lb + 1) as nat, la as nat);
            }
            assert(mask(b) < pow2((lb + 1) as nat));
            assert(mask(a) >= pow2(la as nat));
        } else {
            lemma_mask_injective(a.drop_last(), b.drop_last());
            assert(a =~= a.drop_last().push(a.last()));
            assert(b =~= b.drop_last().push(b.last()));
        }
    }
}

/// At most `pow2(n)` pairwise-distinct canonical configurations exist over
/// an arena of `n` states — the bound that makes the powerset exploration
/// terminate.
pub proof fn lemma_distinct_configs_bounded(configs: Seq<Configuration>, n: int)
    requires
        n >= 0,
        forall|k: int| 0 <= k < configs.len() ==> (#[trigger] configs[k]).wf(),
        forall|k: int| 0 <= k < configs.len() ==> set_in_bounds((#[trigger] configs[k])@, n),
        forall|k1: int, k2: int| #![trigger configs[k1], configs[k2]]
            0 <= k1 < k2 < configs.len() ==> configs[k1]@ != configs[k2]@,
    ensures
        configs.len() <= pow2(n as nat),
{
    let masks = configs.map_values(|c: Configuration| mask(c.seq()) as int);
    assert(masks.len() == configs.len());
    assert forall|k: int| 0 <= k < configs.len()
        implies forall|m: int| 0 <= m < (#[trigger] configs[k]).seq().len()
            ==> 0 <= #[trigger] configs[k].seq()[m] < n by {
        assert forall|m: int| 0 <= m < configs[k].seq().len()
            implies 0 <= #[trigger] configs[k].seq()[m] < n by {
            assert(configs[k].seq().contains(configs[k].seq()[m]));
            assert(configs[k]@.contains(configs[k].seq()[m]));
        }
    }
    assert forall|k1: int, k2: int|
        0 <= k1 < masks.len() && 0 <= k2 < masks.len() && k1 != k2
        implies masks[k1] != masks[k2] by {
        assert(masks[k1] == mask(configs[k1].seq()) as int);
        assert(masks[k2] == mask(configs[k2].seq()) as int);
        if mask(configs[k1].seq()) == mask(configs[k2].seq()) {
            lemma_mask_injective(configs[k1].seq(), configs[k2].seq());
            assert forall|x: int| configs[k1]@.contains(x) <==> configs[k2]@.contains(x) by {}
            assert(configs[k1]@ =~= configs[k2]@);
            if k1 < k2 {
                assert(configs[k1]@ != configs[k2]@);
            } else {
                assert(configs[k2]@ != configs[k1]@);
            }
            assert(false);
        }
    }
    assert(masks.no_duplicates());
    masks.unique_seq_to_set();
    let range = vstd::set_lib::set_int_range(0, pow2(n as nat) as int);
    assert forall|x: int| masks.to_set().contains(x) implies range.contains(x) by {
        let k = choose|k: int| 0 <= k < masks.len() && masks[k] == x;
        assert(masks[k] == mask(configs[k].seq()) as int);
        lemma_mask_bound(configs[k].seq(), n);
    }
    assert(masks.to_set().subset_of(range));
    vstd::set_lib::lemma_int_range(0, pow2(n as nat) as int);
    vstd::set_lib::lemma_len_subset(masks.to_set(), range);
}

/// A deterministic finite automaton produced by subset construction: every
/// state stands for one canonical NFA configuration, and each state's
/// outgoing edges are listed per symbol.
#[derive(Debug, PartialEq, Eq)]
pub struct DFA {
    states: Vec<Configuration>,
    initial_state: StateID,
    accepting_states: StateSet,
    transitions: Vec<Vec<(char, StateID)>>,
}

impl DFA {
    /// The configuration each DFA state stands for.
    pub closed spec fn spec_configs(self) -> Seq<Configuration> {
        self.states@
    }

    /// The initial DFA state.
    pub closed spec fn spec_initial(self) -> int {
        self.initial_state@
    }

    /// The set of accepting DFA states.
    pub closed spec fn spec_accepting(self) -> Set<int> {
        self.accepting_states@
    }

    /// The outgoing edges of each DFA state.
    pub closed spec fn spec_rows(self) -> Seq<Seq<(char, StateID)>> {
        self.transitions@.map_values(|row: Vec<(char, StateID)>| row@)
    }

    /// The table is internally consistent: one row per state, edges stay
    /// inside the table, and no row lists one symbol twice.
    pub open spec fn wf(self) -> bool {
        &&& self.spec_configs().len() >= 1
        &&& self.spec_initial() == 0
        &&& self.spec_rows().len() == self.spec_configs().len()
        &&& forall|i: int| 0 <= i < self.spec_configs().len()
            ==> (#[trigger] self.spec_configs()[i]).wf()
        &&& forall|i: int, k: int|
            0 <= i < self.spec_rows().len() && 0 <= k < self.spec_rows()[i].len()
                ==> 0 <= (#[trigger] self.spec_rows()[i][k]).1@ < self.spec_configs().len()
        &&& forall|i: int, k1: int, k2: int|
            #![trigger self.spec_rows()[i][k1], self.spec_rows()[i][k2]]
            0 <= i < self.spec_rows().len() && 0 <= k1 < self.spec_rows()[i].len()
                && 0 <= k2 < self.spec_rows()[i].len()
                && self.spec_rows()[i][k1].0 == self.spec_rows()[i][k2].0 ==> k1 == k2
        &&& forall|b: int| self.spec_accepting().contains(b) ==> 0 <= b < self.spec_configs().len()
    }

    /// Where reading `c` in state `s` leads, if anywhere.
    pub open spec fn spec_next_state(self, s: int, c: char) -> Option<int> {
        if exists|k: int| 0 <= k < self.spec_rows()[s].len()
            && (#[trigger] self.spec_rows()[s][k]).0 == c {
            let k = choose|k: int| 0 <= k < self.spec_rows()[s].len()
                && (#[trigger] self.spec_rows()[s][k]).0 == c;
            Some(self.spec_rows()[s][k].1@)
        } else {
            None
        }
    }

    /// The state after folding the table over `input` from `state`; a dead
    /// position stays dead.
    pub open spec fn spec_run_from_state(self, state: Option<int>, input: Seq<char>) -> Option<int>
        decreases input.len(),
    {
        if input.len() == 0 {
            state
        } else {
            let stepped = match state {
                Some(s) => self.spec_next_state(s, input[0]),
                None => None,
            };
            self.spec_run_from_state(stepped, input.drop_first())
        }
    }

    /// The state after running the whole input from the initial state.
    pub open spec fn spec_run(self, input: Seq<char>) -> Option<int> {
        self.spec_run_from_state(Some(self.spec_initial()), input)
    }

    /// Whether the DFA accepts `input`.
    pub open spec fn spec_accepts(self, input: Seq<char>) -> bool {
        match self.spec_run(input) {
            Some(s) => self.spec_accepting().contains(s),
            None => false,
        }
    }

    /// This table is the subset construction of `nfa`: state 0 is the
    /// epsilon closure of the NFA's start state; edges are exactly the
    /// nonempty epsilon-closed successors; states accept exactly when
    /// their configuration holds a `Match` state; no configuration appears
    /// twice; and every state is reachable from the initial one.
    pub open spec fn represents(self, nfa: NFA) -> bool {
        let ss = nfa.spec_states();
        let n = ss.len() as int;
        &&& self.wf()
        &&& forall|i: int| 0 <= i < self.spec_configs().len()
            ==> set_in_bounds((#[trigger] self.spec_configs()[i])@, n)
        &&& forall|i: int| 0 <= i < self.spec_configs().len()
            ==> (#[trigger] self.spec_configs()[i])@ != Set::<int>::empty()
        &&& self.spec_configs()[0]@ == nfa.start_config()
        &&& forall|i: int, j: int| #![trigger self.spec_configs()[i], self.spec_configs()[j]]
            0 <= i < j < self.spec_configs().len()
                ==> self.spec_configs()[i]@ != self.spec_configs()[j]@
        &&& forall|i: int, k: int|
            0 <= i < self.spec_rows().len() && 0 <= k < self.spec_rows()[i].len() ==> {
                let e = #[trigger] self.spec_rows()[i][k];
                &&& nfa.alphabet_set().contains(e.0)
                &&& self.spec_configs()[e.1@]@ == spec_next(ss, self.spec_configs()[i]@, e.0)
            }
        &&& forall|i: int, c: char|
            0 <= i < self.spec_configs().len() && nfa.alphabet_set().contains(c)
                && #[trigger] spec_next(ss, self.spec_configs()[i]@, c) != Set::<int>::empty()
                ==> exists|k: int| 0 <= k < self.spec_rows()[i].len()
                    && (#[trigger] self.spec_rows()[i][k]).0 == c
        &&& forall|i: int| 0 <= i < self.spec_configs().len()
            ==> (self.spec_accepting().contains(i)
                <==> accepting(ss, (#[trigger] self.spec_configs()[i])@))
        &&& forall|i: int| 0 <= i < self.spec_configs().len()
            ==> exists|inp: Seq<char>| nfa.spec_run(inp) == (#[trigger] self.spec_configs()[i])@
    }

    /// The number of DFA states.
    pub fn size(&self) -> (r: usize)
        ensures
            r == self.spec_configs().len(),
    {
        self.states.len()
    }

    /// The initial DFA state.
    pub fn initial_state(&self) -> (r: StateID)
        ensures
            r@ == self.spec_initial(),
    {
        self.initial_state
    }

    /// The configuration a DFA state stands for.
    pub fn configuration(&self, state: StateID) -> (r: &Configuration)
        requires
            state@ < self.spec_configs().len(),
        ensures
            *r == self.spec_configs()[state@],
    {
        &self.states[state.as_usize()]
    }

    /// Whether a DFA state accepts.
    pub fn is_accepting_state(&self, state: StateID) -> (r: bool)
        ensures
            r == self.spec_accepting().contains(state@),
    {
        self.accepting_states.contains(state)
    }

    /// The state reached from `state` by reading `c`, if the table has an
    /// edge for it; absence means the automaton is dead from here on.
    pub fn next_state(&self, state: StateID, c: char) -> (r: Option<StateID>)
        requires
            self.wf(),
            state@ < self.spec_configs().len(),
        ensures
            r matches Some(t) ==> Some(t@) == self.spec_next_state(state@, c),
            r is None ==> self.spec_next_state(state@, c) is None,
    {
        let row = &self.transitions[state.as_usize()];
        let n = row.len();
        let mut k: usize = 0;
        #[verifier::loop_isolation(false)]
        while k < n
            invariant
                k <= n,
                forall|m: int| 0 <= m < k ==> (#[trigger] row@[m]).0 != c,
            decreases n - k,
        {
            let (ec, et) = row[k];
            if ec == c {
                proof {
                    assert(self.spec_rows()[state@][k as int].0 == c);
                    let k2 = choose|k2: int| 0 <= k2 < self.spec_rows()[state@].len()
                        && (#[trigger] self.spec_rows()[state@][k2]).0 == c;
                    assert(k2 == k as int);
                }
                return Some(et);
            }
            k = k + 1;
        }
        proof {
            if exists|k2: int| 0 <= k2 < self.spec_rows()[state@].len()
                && (#[trigger] self.spec_rows()[state@][k2]).0 == c {
                let k2 = choose|k2: int| 0 <= k2 < self.spec_rows()[state@].len()
                    && (#[trigger] self.spec_rows()[state@][k2]).0 == c;
                assert(row@[k2].0 != c);
            }
        }
        None
    }
}

impl Automaton<Option<StateID>> for DFA {
    open spec fn wf_automaton(&self) -> bool {
        self.wf()
    }

    open spec fn wf_state(&self, state: &Option<StateID>) -> bool {
        state matches Some(s) ==> 0 <= s@ < self.spec_configs().len()
    }

    /// The initial DFA state.
    fn start(&self) -> (r: Option<StateID>)
        ensures
            r matches Some(s) && s@ == self.spec_initial(),
    {
        Some(self.initial_state)
    }

    /// One table lookup; a dead position stays dead.
    fn next(&self, current: Option<StateID>, chr: char) -> (r: Option<StateID>)
        ensures
            current matches Some(s) ==> {
                &&& r matches Some(t) ==> Some(t@) == self.spec_next_state(s@, chr)
                &&& r is None ==> self.spec_next_state(s@, chr) is None
            },
            current is None ==> r is None,
    {
        match current {
            Some(s) => self.next_state(s, chr),
            None => None,
        }
    }

    /// Folds the table over the whole input, one O(1)-per-symbol lookup at
    /// a time.
    fn execute(&self, input: &Vec<char>) -> (r: Option<StateID>)
        ensures
            option_view(r) == self.spec_run(input@),
    {
        let mut current: Option<StateID> = Some(self.initial_state);
        let n = input.len();
        let mut i: usize = 0;
        #[verifier::loop_isolation(false)]
        while i < n
            invariant
                i <= n,
                self.wf_state(&current),
                option_view(current) == self.spec_run_from_state(
                    Some(self.spec_initial()),
                    input@.take(i as int),
                ),
            decreases n - i,
        {
            let chr = input[i];
            let stepped = match current {
                Some(s) => self.next_state(s, chr),
                None => None,
            };
            proof {
                lemma_dfa_run_push(*self, Some(self.spec_initial()), input@.take(i as int), chr);
                assert(input@.take(i as int + 1) =~= input@.take(i as int).push(chr));
            }
            current = stepped;
            i = i + 1;
        }
        proof {
            assert(input@.take(n as int) =~= input@);
        }
        current
    }
}

/// The handle a simulation position stands for, if it is alive.
pub open spec fn option_view(s: Option<StateID>) -> Option<int> {
    match s {
        Some(t) => Some(t@),
        None => None,
    }
}

/// Folding one more symbol onto a DFA run steps the final state once.
proof fn lemma_dfa_run_push(dfa: DFA, s: Option<int>, input: Seq<char>, x: char)
    ensures
        dfa.spec_run_from_state(s, input.push(x)) == match dfa.spec_run_from_state(s, input) {
            Some(t) => dfa.spec_next_state(t, x),
            None => None::<int>,
        },
    decreases input.len(),
{
    let p = input.push(x);
    if input.len() == 0 {
        assert(p[0] == x);
        assert(p.drop_first() =~= Seq::<char>::empty());
        let stepped = match s {
            Some(t) => dfa.spec_next_state(t, x),
            None => None::<int>,
        };
        assert(dfa.spec_run_from_state(s, p) == dfa.spec_run_from_state(stepped, p.drop_first()));
        assert(dfa.spec_run_from_state(stepped, Seq::<char>::empty()) == stepped);
        assert(dfa.spec_run_from_state(s, input) == s);
    } else {
        assert(p[0] == input[0]);
        assert(p.drop_first() =~= input.drop_first().push(x));
        let stepped = match s {
            Some(t) => dfa.spec_next_state(t, p[0]),
            None => None::<int>,
        };
        assert(dfa.spec_run_from_state(s, p)
            == dfa.spec_run_from_state(stepped, input.drop_first().push(x)));
        assert(dfa.spec_run_from_state(s, input)
            == dfa.spec_run_from_state(stepped, input.drop_first()));
        lemma_dfa_run_push(dfa, stepped, input.drop_first(), x);
    }
}

/// The position of `target` among the discovered configurations, if it has
/// been seen before.
fn find_config(discovered: &Vec<Configuration>, target: &Configuration) -> (r: Option<usize>)
    requires
        target.wf(),
        forall|k: int| 0 <= k < discovered@.len() ==> (#[trigger] discovered@[k]).wf(),
    ensures
        r matches Some(j) ==> j < discovered@.len() && discovered@[j as int]@ == target@,
        r is None ==> forall|k: int| 0 <= k < discovered@.len()
            ==> (#[trigger] discovered@[k])@ != target@,
{
    let n = discovered.len();
    let mut k: usize = 0;
    #[verifier::loop_isolation(false)]
    while k < n
        invariant
            k <= n,
            forall|m: int| 0 <= m < k ==> (#[trigger] discovered@[m])@ != target@,
        decreases n - k,
    {
        if discovered[k].set_eq(target) {
            return Some(k);
        }
        k = k + 1;
    }
    None
}

/// Every discovered configuration is canonical, in bounds, nonempty,
/// distinct from the others, and reachable by running some input.
spec fn configs_ok(configs: Seq<Configuration>, nfa: NFA) -> bool {
    &&& forall|k: int| 0 <= k < configs.len() ==> (#[trigger] configs[k]).wf()
    &&& forall|k: int| 0 <= k < configs.len()
        ==> set_in_bounds((#[trigger] configs[k])@, nfa.spec_states().len() as int)
    &&& forall|k: int| 0 <= k < configs.len() ==> (#[trigger] configs[k])@ != Set::<int>::empty()
    &&& forall|k1: int, k2: int| #![trigger configs[k1], configs[k2]]
        0 <= k1 < k2 < configs.len() ==> configs[k1]@ != configs[k2]@
    &&& forall|k: int| 0 <= k < configs.len()
        ==> exists|inp: Seq<char>| nfa.spec_run(inp) == (#[trigger] configs[k])@
}

/// One finished transition row for the configuration `cfg`, covering the
/// symbols in `chars`: every listed edge is a nonempty epsilon-closed
/// successor, no symbol is listed twice, and every covered symbol with a
/// nonempty successor is listed.
spec fn row_ok(
    row: Seq<(char, StateID)>,
    cfg: Set<int>,
    configs: Seq<Configuration>,
    nfa: NFA,
    chars: Seq<char>,
) -> bool {
    &&& forall|k: int| 0 <= k < row.len() ==> {
        let e = #[trigger] row[k];
        &&& nfa.alphabet_set().contains(e.0)
        &&& chars.contains(e.0)
        &&& 0 <= e.1@ < configs.len()
        &&& configs[e.1@]@ == spec_next(nfa.spec_states(), cfg, e.0)
    }
    &&& forall|k1: int, k2: int| #![trigger row[k1], row[k2]]
        0 <= k1 < row.len() && 0 <= k2 < row.len() && row[k1].0 == row[k2].0 ==> k1 == k2
    &&& forall|m: int|
        0 <= m < chars.len()
            && #[trigger] spec_next(nfa.spec_states(), cfg, chars[m]) != Set::<int>::empty()
            ==> exists|k: int| 0 <= k < row.len() && (#[trigger] row[k]).0 == chars[m]
}

/// Builds the DFA equivalent to `nfa` by breadth-first powerset
/// exploration.  Terminates because each newly enqueued configuration is
/// distinct from every earlier one, and an arena of `n` states has at most
/// `pow2(n)` distinct configurations.
#[verifier::rlimit(100)]
pub fn subset_construction(nfa: &NFA) -> (dfa: DFA)
    requires
        nfa.wf(),
    ensures
        dfa.represents(*nfa),
{
    let ghost ss = nfa.spec_states();
    let ghost n = ss.len() as int;
    let initial = nfa.start();
    proof {
        crate::semantics::lemma_reach_refl(ss, nfa.start_set(), nfa.spec_start());
        assert(initial@.contains(nfa.spec_start()));
        assert(initial@ != Set::<int>::empty());
        assert(nfa.spec_run(Seq::<char>::empty()) == nfa.start_config());
    }
    let mut discovered: Vec<Configuration> = Vec::new();
    discovered.push(initial);
    let mut transitions: Vec<Vec<(char, StateID)>> = Vec::new();
    proof {
        assert(configs_ok(discovered@, *nfa)) by {
            assert(discovered@[0]@ == nfa.start_config());
            assert forall|k: int| 0 <= k < discovered@.len()
                implies exists|inp: Seq<char>| nfa.spec_run(inp) == (#[trigger] discovered@[k])@ by {
                assert(nfa.spec_run(Seq::<char>::empty()) == discovered@[0]@);
            }
        }
        lemma_distinct_configs_bounded(discovered@, n);
    }
    let mut i: usize = 0;
    #[verifier::loop_isolation(false)]
    while i < discovered.len()
        invariant
            i <= discovered@.len(),
            1 <= discovered@.len() <= pow2(n as nat),
            transitions@.len() == i,
            configs_ok(discovered@, *nfa),
            discovered@[0]@ == nfa.start_config(),
            forall|q: int| 0 <= q < i ==> row_ok(
                (#[trigger] transitions@[q])@,
                discovered@[q]@,
                discovered@,
                *nfa,
                nfa.spec_alphabet(),
            ),
        decreases pow2(n as nat) - i,
    {
        let config = discovered[i].clone();
        let mut row: Vec<(char, StateID)> = Vec::new();
        let alphabet = nfa.alphabet();
        let an = alphabet.len();
        let mut a: usize = 0;
        proof {
            assert(nfa.spec_alphabet().take(0) =~= Seq::<char>::empty());
        }
        #[verifier::loop_isolation(false)]
        while a < an
            invariant
                a <= an,
                an == nfa.spec_alphabet().len(),
                i < discovered@.len(),
                discovered@.len() <= pow2(n as nat),
                transitions@.len() == i,
                configs_ok(discovered@, *nfa),
                discovered@[0]@ == nfa.start_config(),
                config.wf(),
                config@ == discovered@[i as int]@,
                forall|q: int| 0 <= q < i ==> row_ok(
                    (#[trigger] transitions@[q])@,
                    discovered@[q]@,
                    discovered@,
                    *nfa,
                    nfa.spec_alphabet(),
                ),
                row_ok(row@, config@, discovered@, *nfa, nfa.spec_alphabet().take(a as int)),
            decreases an - a,
        {
            let c = alphabet[a];
            proof {
                assert(nfa.spec_alphabet().contains(c));
                assert(nfa.alphabet_set().contains(c));
                assert(set_in_bounds(config@, n));
            }
            let target = nfa.next(config.clone(), c);
            let ghost chars_ext = nfa.spec_alphabet().take(a as int + 1);
            proof {
                assert(chars_ext.drop_last() =~= nfa.spec_alphabet().take(a as int));
                assert(chars_ext.last() == c);
                assert(chars_ext[a as int] == c);
                assert forall|m: int| 0 <= m < a implies #[trigger] chars_ext[m]
                    == nfa.spec_alphabet().take(a as int)[m] by {}
            }
            if !target.is_empty() {
                let j: usize;
                let ghost before = discovered@;
                match find_config(&discovered, &target) {
                    Some(found) => {
                        j = found;
                    },
                    None => {
                        j = discovered.len();
                        proof {
                            let inp = choose|inp: Seq<char>|
                                nfa.spec_run(inp) == (#[trigger] discovered@[i as int])@;
                            lemma_run_push(ss, nfa.start_config(), inp, c);
                            assert(nfa.spec_run(inp.push(c)) == target@);
                        }
                        discovered.push(target);
                        proof {
                            assert forall|k: int| 0 <= k < before.len()
                                implies #[trigger] discovered@[k] == before[k] by {}
                            assert(configs_ok(discovered@, *nfa)) by {
                                assert forall|k1: int, k2: int|
                                    #![trigger discovered@[k1], discovered@[k2]]
                                    0 <= k1 < k2 < discovered@.len()
                                    implies discovered@[k1]@ != discovered@[k2]@ by {
                                    if k2 == before.len() as int {
                                        assert(before[k1]@ != discovered@[k2]@);
                                    }
                                }
                            }
                            lemma_distinct_configs_bounded(discovered@, n);
                            assert forall|q: int| 0 <= q < i implies row_ok(
                                (#[trigger] transitions@[q])@,
                                discovered@[q]@,
                                discovered@,
                                *nfa,
                                nfa.spec_alphabet(),
                            ) by {
                                assert(row_ok(
                                    transitions@[q]@,
                                    before[q]@,
                                    before,
                                    *nfa,
                                    nfa.spec_alphabet(),
                                ));
                                assert forall|k: int| 0 <= k < transitions@[q]@.len() implies {
                                    let e = #[trigger] transitions@[q]@[k];
                                    &&& nfa.alphabet_set().contains(e.0)
                                    &&& nfa.spec_alphabet().contains(e.0)
                                    &&& 0 <= e.1@ < discovered@.len()
                                    &&& discovered@[e.1@]@ == spec_next(ss, discovered@[q]@, e.0)
                                } by {
                                    let e = transitions@[q]@[k];
                                    assert(0 <= e.1@ < before.len());
                                    assert(before[e.1@]@ == spec_next(ss, before[q]@, e.0));
                                }
                            }
                            assert(row_ok(
                                row@,
                                config@,
                                discovered@,
                                *nfa,
                                nfa.spec_alphabet().take(a as int),
                            )) by {
                                assert forall|k: int| 0 <= k < row@.len() implies {
                                    let e = #[trigger] row@[k];
                                    &&& 0 <= e.1@ < discovered@.len()
                                    &&& discovered@[e.1@]@ == spec_next(ss, config@, e.0)
                                } by {
                                    let e = row@[k];
                                    assert(0 <= e.1@ < before.len());
                                    assert(before[e.1@]@ == spec_next(ss, config@, e.0));
                                }
                            }
                        }
                    },
                }
                let ghost row_before = row@;
                let jid = StateID::new(j);
                row.push((c, jid));
                proof {
                    assert(discovered@[j as int]@ == target@);
                    assert(row_ok(row@, config@, discovered@, *nfa, chars_ext)) by {
                        assert(row@[row_before.len() as int] == (c, jid));
                        assert(jid@ == j as int);
                        assert forall|k: int| 0 <= k < row@.len() implies {
                            let e = #[trigger] row@[k];
                            &&& nfa.alphabet_set().contains(e.0)
                            &&& chars_ext.contains(e.0)
                            &&& 0 <= e.1@ < discovered@.len()
                            &&& discovered@[e.1@]@ == spec_next(ss, config@, e.0)
                        } by {
                            if k < row_before.len() {
                                let e = row_before[k];
                                assert(nfa.spec_alphabet().take(a as int).contains(e.0));
                                let m = choose|m: int| 0 <= m < a
                                    && nfa.spec_alphabet().take(a as int)[m] == e.0;
                                assert(chars_ext[m] == e.0);
                                assert(chars_ext.contains(e.0));
                            } else {
                                assert(chars_ext.contains(c)) by {
                                    assert(chars_ext[a as int] == c);
                                }
                            }
                        }
                        assert forall|k1: int, k2: int| #![trigger row@[k1], row@[k2]]
                            0 <= k1 < row@.len() && 0 <= k2 < row@.len()
                                && row@[k1].0 == row@[k2].0 implies k1 == k2 by {
                            if k1 < row_before.len() && k2 == row_before.len() as int {
                                let e = row_before[k1];
                                let m = choose|m: int| 0 <= m < a
                                    && nfa.spec_alphabet().take(a as int)[m] == e.0;
                                assert(nfa.spec_alphabet()[m] == nfa.spec_alphabet()[a as int]);
                            } else if k2 < row_before.len() && k1 == row_before.len() as int {
                                let e = row_before[k2];
                                let m = choose|m: int| 0 <= m < a
                                    && nfa.spec_alphabet().take(a as int)[m] == e.0;
                                assert(nfa.spec_alphabet()[m] == nfa.spec_alphabet()[a as int]);
                            }
                        }
                        assert forall|m: int|
                            0 <= m < chars_ext.len()
                                && #[trigger] spec_next(ss, config@, chars_ext[m])
                                    != Set::<int>::empty()
                            implies exists|k: int| 0 <= k < row@.len()
                                && (#[trigger] row@[k]).0 == chars_ext[m] by {
                            if m < a {
                                assert(spec_next(ss, config@, nfa.spec_alphabet().take(a as int)[m])
                                    != Set::<int>::empty());
                                let k = choose|k: int| 0 <= k < row_before.len()
                                    && (#[trigger] row_before[k]).0
                                        == nfa.spec_alphabet().take(a as int)[m];
                                assert(row@[k].0 == chars_ext[m]);
                            } else {
                                assert(row@[row_before.len() as int].0 == c);
                            }
                        }
                    }
                }
            } else {
                proof {
                    assert(target@ == Set::<int>::empty());
                    assert(spec_next(ss, config@, c) == Set::<int>::empty());
                    assert(row_ok(row@, config@, discovered@, *nfa, chars_ext)) by {
                        assert forall|k: int| 0 <= k < row@.len()
                            implies chars_ext.contains((#[trigger] row@[k]).0) by {
                            let e = row@[k];
                            assert(nfa.spec_alphabet().take(a as int).contains(e.0));
                            let m = choose|m: int| 0 <= m < a
                                && nfa.spec_alphabet().take(a as int)[m] == e.0;
                            assert(chars_ext[m] == e.0);
                        }
                        assert forall|m: int|
                            0 <= m < chars_ext.len()
                                && #[trigger] spec_next(ss, config@, chars_ext[m])
                                    != Set::<int>::empty()
                            implies exists|k: int| 0 <= k < row@.len()
                                && (#[trigger] row@[k]).0 == chars_ext[m] by {
                            if m < a {
                                assert(spec_next(ss, config@, nfa.spec_alphabet().take(a as int)[m])
                                    != Set::<int>::empty());
                                let k = choose|k: int| 0 <= k < row@.len()
                                    && (#[trigger] row@[k]).0
                                        == nfa.spec_alphabet().take(a as int)[m];
                            } else {
                                assert(chars_ext[m] == c);
                            }
                        }
                    }
                }
            }
            a = a + 1;
        }
        proof {
            assert(nfa.spec_alphabet().take(an as int) =~= nfa.spec_alphabet());
        }
        transitions.push(row);
        i = i + 1;
    }
    let mut accept_states = StateSet::new();
    let mut idx: usize = 0;
    #[verifier::loop_isolation(false)]
    while idx < discovered.len()
        invariant
            idx <= discovered@.len(),
            accept_states.wf(),
            forall|b: int| accept_states@.contains(b)
                <==> 0 <= b < idx && accepting(ss, discovered@[b]@),
        decreases discovered@.len() - idx,
    {
        if nfa.is_accepting(&discovered[idx]) {
            accept_states.insert(StateID::new(idx));
        }
        idx = idx + 1;
    }
    let dfa = DFA {
        states: discovered,
        initial_state: StateID::new(0),
        accepting_states: accept_states,
        transitions,
    };
    proof {
        assert forall|q: int| 0 <= q < dfa.spec_rows().len()
            implies #[trigger] dfa.spec_rows()[q] == dfa.transitions@[q]@ by {}
        assert(dfa.wf()) by {
            assert forall|q: int, k: int|
                0 <= q < dfa.spec_rows().len() && 0 <= k < dfa.spec_rows()[q].len()
                implies 0 <= (#[trigger] dfa.spec_rows()[q][k]).1@ < dfa.spec_configs().len() by {
                assert(row_ok(
                    dfa.transitions@[q]@,
                    dfa.spec_configs()[q]@,
                    dfa.spec_configs(),
                    *nfa,
                    nfa.spec_alphabet(),
                ));
                let e = dfa.transitions@[q]@[k];
            }
            assert forall|q: int, k1: int, k2: int|
                #![trigger dfa.spec_rows()[q][k1], dfa.spec_rows()[q][k2]]
                0 <= q < dfa.spec_rows().len() && 0 <= k1 < dfa.spec_rows()[q].len()
                    && 0 <= k2 < dfa.spec_rows()[q].len()
                    && dfa.spec_rows()[q][k1].0 == dfa.spec_rows()[q][k2].0
                implies k1 == k2 by {
                assert(row_ok(
                    dfa.transitions@[q]@,
                    dfa.spec_configs()[q]@,
                    dfa.spec_configs(),
                    *nfa,
                    nfa.spec_alphabet(),
                ));
            }
        }
        assert forall|q: int, k: int|
            0 <= q < dfa.spec_rows().len() && 0 <= k < dfa.spec_rows()[q].len()
            implies {
                let e = #[trigger] dfa.spec_rows()[q][k];
                &&& nfa.alphabet_set().contains(e.0)
                &&& dfa.spec_configs()[e.1@]@ == spec_next(ss, dfa.spec_configs()[q]@, e.0)
            } by {
            assert(row_ok(
                dfa.transitions@[q]@,
                dfa.spec_configs()[q]@,
                dfa.spec_configs(),
                *nfa,
                nfa.spec_alphabet(),
            ));
            let e = dfa.transitions@[q]@[k];
        }
        assert forall|q: int, c: char|
            0 <= q < dfa.spec_configs().len() && nfa.alphabet_set().contains(c)
                && #[trigger] spec_next(ss, dfa.spec_configs()[q]@, c) != Set::<int>::empty()
            implies exists|k: int| 0 <= k < dfa.spec_rows()[q].len()
                && (#[trigger] dfa.spec_rows()[q][k]).0 == c by {
            assert(row_ok(
                dfa.transitions@[q]@,
                dfa.spec_configs()[q]@,
                dfa.spec_configs(),
                *nfa,
                nfa.spec_alphabet(),
            ));
            assert(nfa.spec_alphabet().contains(c));
            let m = choose|m: int| 0 <= m < nfa.spec_alphabet().len()
                && nfa.spec_alphabet()[m] == c;
            assert(spec_next(ss, dfa.spec_configs()[q]@, nfa.spec_alphabet()[m])
                != Set::<int>::empty());
            let k = choose|k: int| 0 <= k < dfa.transitions@[q]@.len()
                && (#[trigger] dfa.transitions@[q]@[k]).0 == nfa.spec_alphabet()[m];
            assert(dfa.spec_rows()[q][k].0 == c);
        }
    }
    dfa
}

} // verus!
