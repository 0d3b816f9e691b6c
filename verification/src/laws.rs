//! The laws tying the NFA, its epsilon closure, and the DFA together.
//!
//! Each public proof function here states one behavioural guarantee of the
//! library as a whole: closure is idempotent and leaks nothing beyond
//! epsilon edges, the DFA built by subset construction accepts exactly the
//! inputs the NFA accepts, and subset construction is deterministic up to
//! renaming of its states.

use vstd::prelude::*;

use crate::builder::match_pids;
use crate::dfa::DFA;
use crate::nfa::NFA;
use crate::semantics::{
    accepting, eps_closure, eps_reach, lemma_closure_empty, lemma_closure_idempotent,
    lemma_reach_refl, lemma_run_empty, set_in_bounds, spec_next, spec_run_from, spec_step,
};
use crate::state::State;

verus! {

/// Idempotent closure: epsilon-closing a configuration twice gives the
/// same configuration as closing it once.
pub proof fn lemma_epsilon_closure_idempotent(nfa: NFA, config: Set<int>)
    ensures
        eps_closure(nfa.spec_states(), eps_closure(nfa.spec_states(), config))
            == eps_closure(nfa.spec_states(), config),
{
    lemma_closure_idempotent(nfa.spec_states(), config);
}

/// No epsilon leak: every member of an epsilon closure is reachable from
/// some member of the original configuration along epsilon edges alone —
/// consuming transitions contribute nothing — and the original members are
/// all kept.
pub proof fn lemma_no_epsilon_leak(nfa: NFA, config: Set<int>)
    ensures
        forall|b: int| eps_closure(nfa.spec_states(), config).contains(b)
            ==> eps_reach(nfa.spec_states(), config, b),
        forall|b: int| config.contains(b) ==> eps_closure(nfa.spec_states(), config).contains(b),
{
    assert forall|b: int| config.contains(b)
        implies eps_closure(nfa.spec_states(), config).contains(b) by {
        lemma_reach_refl(nfa.spec_states(), config, b);
    }
}

/// Any pattern that accepts in a configuration of an automaton is one of
/// the patterns the automaton carries `Match` states for — together with
/// the compiler's contract, one of the patterns it was compiled from.
pub proof fn lemma_accepting_pattern_is_compiled(nfa: NFA, config: Set<int>, p: int)
    requires
        set_in_bounds(config, nfa.spec_states().len() as int),
        exists|a: int|
            {
                &&& #[trigger] config.contains(a)
                &&& nfa.spec_states()[a] matches State::Match(pid) && pid@ == p
            },
    ensures
        match_pids(nfa.spec_states()).contains(p),
{
    let a = choose|a: int|
        {
            &&& #[trigger] config.contains(a)
            &&& nfa.spec_states()[a] matches State::Match(pid) && pid@ == p
        };
    assert(0 <= a < nfa.spec_states().len());
    assert(nfa.spec_states()[a] matches State::Match(pid) && pid@ == p);
}

/// A symbol outside the alphabet steps every configuration into the empty
/// configuration.
pub proof fn lemma_step_outside_alphabet(nfa: NFA, config: Set<int>, c: char)
    requires
        nfa.wf(),
        !nfa.alphabet_set().contains(c),
    ensures
        spec_next(nfa.spec_states(), config, c) == Set::<int>::empty(),
{
    let ss = nfa.spec_states();
    assert forall|b: int| !spec_step(ss, config, c).contains(b) by {
        if spec_step(ss, config, c).contains(b) {
            let a = choose|a: int| #[trigger] config.contains(a) && crate::semantics::char_step(ss, a, c, b);
            assert(ss[a] matches State::Character(_, sym) ==> nfa.spec_alphabet().contains(sym));
            assert(crate::alphabet::char_set_of(nfa.spec_alphabet()).contains(c));
        }
    }
    assert(spec_step(ss, config, c) =~= Set::<int>::empty());
    lemma_closure_empty(ss);
}

/// A dead DFA position stays dead for the rest of the input.
proof fn lemma_dfa_dead(dfa: DFA, input: Seq<char>)
    ensures
        dfa.spec_run_from_state(None, input) is None,
    decreases input.len(),
{
    if input.len() > 0 {
        lemma_dfa_dead(dfa, input.drop_first());
    }
}

/// From matching positions, the DFA and the NFA stay in step for the whole
/// input: either the DFA is alive in a state standing for exactly the
/// NFA's configuration, or the NFA's configuration is empty and the DFA is
/// dead.
proof fn lemma_runs_agree(nfa: NFA, dfa: DFA, i: int, input: Seq<char>)
    requires
        nfa.wf(),
        dfa.represents(nfa),
        0 <= i < dfa.spec_configs().len(),
    ensures
        ({
            let nrun = spec_run_from(nfa.spec_states(), dfa.spec_configs()[i]@, input);
            match dfa.spec_run_from_state(Some(i), input) {
                Some(j) => 0 <= j < dfa.spec_configs().len() && dfa.spec_configs()[j]@ == nrun,
                None => nrun == Set::<int>::empty(),
            }
        }),
    decreases input.len(),
{
    let ss = nfa.spec_states();
    if input.len() == 0 {
    } else {
        let c = input[0];
        let rest = input.drop_first();
        let next_set = spec_next(ss, dfa.spec_configs()[i]@, c);
        if nfa.alphabet_set().contains(c) && next_set != Set::<int>::empty() {
            let k = choose|k: int| 0 <= k < dfa.spec_rows()[i].len()
                && (#[trigger] dfa.spec_rows()[i][k]).0 == c;
            let e = dfa.spec_rows()[i][k];
            assert(dfa.spec_configs()[e.1@]@ == next_set);
            assert(dfa.spec_next_state(i, c) == Some(e.1@)) by {
                let k2 = choose|k2: int| 0 <= k2 < dfa.spec_rows()[i].len()
                    && (#[trigger] dfa.spec_rows()[i][k2]).0 == c;
                assert(k2 == k);
            }
            lemma_runs_agree(nfa, dfa, e.1@, rest);
        } else {
            assert(next_set == Set::<int>::empty()) by {
                if !nfa.alphabet_set().contains(c) {
                    lemma_step_outside_alphabet(nfa, dfa.spec_configs()[i]@, c);
                }
            }
            assert(dfa.spec_next_state(i, c) is None) by {
                if exists|k: int| 0 <= k < dfa.spec_rows()[i].len()
                    && (#[trigger] dfa.spec_rows()[i][k]).0 == c {
                    let k = choose|k: int| 0 <= k < dfa.spec_rows()[i].len()
                        && (#[trigger] dfa.spec_rows()[i][k]).0 == c;
                    let e = dfa.spec_rows()[i][k];
                    assert(dfa.spec_configs()[e.1@]@ == next_set);
                    assert(dfa.spec_configs()[e.1@]@ != Set::<int>::empty());
                }
            }
            lemma_dfa_dead(dfa, rest);
            lemma_run_empty(ss, rest);
        }
    }
}

/// Equivalence law: for every input, the DFA produced by subset
/// construction accepts exactly when the NFA accepts.
pub proof fn lemma_dfa_nfa_equivalence(nfa: NFA, dfa: DFA, input: Seq<char>)
    requires
        nfa.wf(),
        dfa.represents(nfa),
    ensures
        dfa.spec_accepts(input) == nfa.spec_accepts(input),
{
    let ss = nfa.spec_states();
    assert(dfa.spec_configs()[0]@ == nfa.start_config());
    lemma_runs_agree(nfa, dfa, 0, input);
    match dfa.spec_run_from_state(Some(0), input) {
        Some(j) => {
            assert(dfa.spec_accepting().contains(j) <==> accepting(ss, dfa.spec_configs()[j]@));
        },
        None => {
            crate::semantics::lemma_accepting_empty(ss);
        },
    }
}

/// Every nonempty configuration the NFA can reach appears in the DFA's
/// state table.
pub proof fn lemma_reachable_config_discovered(nfa: NFA, dfa: DFA, input: Seq<char>)
    requires
        nfa.wf(),
        dfa.represents(nfa),
        nfa.spec_run(input) != Set::<int>::empty(),
    ensures
        exists|i: int| 0 <= i < dfa.spec_configs().len()
            && (#[trigger] dfa.spec_configs()[i])@ == nfa.spec_run(input),
{
    lemma_runs_agree(nfa, dfa, 0, input);
    match dfa.spec_run_from_state(Some(0), input) {
        Some(j) => {
            assert(dfa.spec_configs()[j]@ == nfa.spec_run(input));
        },
        None => {},
    }
}

/// Determinism law: any two DFAs built by subset construction from the
/// same NFA are isomorphic — they have the same number of states, the same
/// configurations, and matching acceptance and transitions wherever their
/// configurations match.
pub proof fn lemma_subset_construction_deterministic(nfa: NFA, d1: DFA, d2: DFA)
    requires
        nfa.wf(),
        d1.represents(nfa),
        d2.represents(nfa),
    ensures
        d1.spec_configs().len() == d2.spec_configs().len(),
        forall|i: int| 0 <= i < d1.spec_configs().len()
            ==> exists|j: int| 0 <= j < d2.spec_configs().len()
                && (#[trigger] d1.spec_configs()[i])@ == d2.spec_configs()[j]@,
        forall|i: int, j: int|
            0 <= i < d1.spec_configs().len() && 0 <= j < d2.spec_configs().len()
                && (#[trigger] d1.spec_configs()[i])@ == (#[trigger] d2.spec_configs()[j])@
                ==> (d1.spec_accepting().contains(i) <==> d2.spec_accepting().contains(j)),
        forall|i: int, j: int, c: char|
            #![trigger d1.spec_next_state(i, c), d2.spec_next_state(j, c)]
            0 <= i < d1.spec_configs().len() && 0 <= j < d2.spec_configs().len()
                && d1.spec_configs()[i]@ == d2.spec_configs()[j]@
                ==> match (d1.spec_next_state(i, c), d2.spec_next_state(j, c)) {
                    (Some(i2), Some(j2)) => d1.spec_configs()[i2]@ == d2.spec_configs()[j2]@,
                    (None, None) => true,
                    _ => false,
                },
{
    let ss = nfa.spec_states();
    assert forall|i: int| 0 <= i < d1.spec_configs().len()
        implies exists|j: int| 0 <= j < d2.spec_configs().len()
            && (#[trigger] d1.spec_configs()[i])@ == d2.spec_configs()[j]@ by {
        lemma_other_table_has_config(nfa, d1, d2, i);
    }
    assert forall|i: int| 0 <= i < d2.spec_configs().len()
        implies exists|j: int| 0 <= j < d1.spec_configs().len()
            && (#[trigger] d2.spec_configs()[i])@ == d1.spec_configs()[j]@ by {
        lemma_other_table_has_config(nfa, d2, d1, i);
    }
    lemma_same_config_count(d1, d2);
    assert forall|i: int, j: int|
        0 <= i < d1.spec_configs().len() && 0 <= j < d2.spec_configs().len()
            && (#[trigger] d1.spec_configs()[i])@ == (#[trigger] d2.spec_configs()[j])@
        implies (d1.spec_accepting().contains(i) <==> d2.spec_accepting().contains(j)) by {
        assert(d1.spec_accepting().contains(i) <==> accepting(ss, d1.spec_configs()[i]@));
        assert(d2.spec_accepting().contains(j) <==> accepting(ss, d2.spec_configs()[j]@));
    }
    assert forall|i: int, j: int, c: char|
        #![trigger d1.spec_next_state(i, c), d2.spec_next_state(j, c)]
        0 <= i < d1.spec_configs().len() && 0 <= j < d2.spec_configs().len()
            && d1.spec_configs()[i]@ == d2.spec_configs()[j]@
        implies match (d1.spec_next_state(i, c), d2.spec_next_state(j, c)) {
            (Some(i2), Some(j2)) => d1.spec_configs()[i2]@ == d2.spec_configs()[j2]@,
            (None, None) => true,
            _ => false,
        } by {
        lemma_next_state_matches(nfa, d1, i, c);
        lemma_next_state_matches(nfa, d2, j, c);
        let next_set = spec_next(ss, d1.spec_configs()[i]@, c);
        assert(spec_next(ss, d2.spec_configs()[j]@, c) == next_set);
    }
}

/// In one table, the successor on `c` is alive exactly when the
/// epsilon-closed successor configuration is nonempty and `c` is in the
/// alphabet, and then it stands for exactly that configuration.
proof fn lemma_next_state_matches(nfa: NFA, dfa: DFA, i: int, c: char)
    requires
        nfa.wf(),
        dfa.represents(nfa),
        0 <= i < dfa.spec_configs().len(),
    ensures
        ({
            let next_set = spec_next(nfa.spec_states(), dfa.spec_configs()[i]@, c);
            match dfa.spec_next_state(i, c) {
                Some(j) => 0 <= j < dfa.spec_configs().len()
                    && dfa.spec_configs()[j]@ == next_set
                    && next_set != Set::<int>::empty()
                    && nfa.alphabet_set().contains(c),
                None => next_set == Set::<int>::empty() || !nfa.alphabet_set().contains(c),
            }
        }),
{
    let ss = nfa.spec_states();
    let next_set = spec_next(ss, dfa.spec_configs()[i]@, c);
    if exists|k: int| 0 <= k < dfa.spec_rows()[i].len()
        && (#[trigger] dfa.spec_rows()[i][k]).0 == c {
        let k = choose|k: int| 0 <= k < dfa.spec_rows()[i].len()
            && (#[trigger] dfa.spec_rows()[i][k]).0 == c;
        let e = dfa.spec_rows()[i][k];
        assert(dfa.spec_configs()[e.1@]@ == next_set);
        assert(dfa.spec_configs()[e.1@]@ != Set::<int>::empty());
        assert(nfa.alphabet_set().contains(e.0));
    } else {
        if nfa.alphabet_set().contains(c) && next_set != Set::<int>::empty() {
            let k = choose|k: int| 0 <= k < dfa.spec_rows()[i].len()
                && (#[trigger] dfa.spec_rows()[i][k]).0 == c;
        }
    }
}

/// Every configuration of one subset-construction table occurs in any
/// other table built from the same NFA.
proof fn lemma_other_table_has_config(nfa: NFA, da: DFA, db: DFA, i: int)
    requires
        nfa.wf(),
        da.represents(nfa),
        db.represents(nfa),
        0 <= i < da.spec_configs().len(),
    ensures
        exists|j: int| 0 <= j < db.spec_configs().len()
            && (#[trigger] da.spec_configs()[i])@ == db.spec_configs()[j]@,
{
    let inp = choose|inp: Seq<char>| nfa.spec_run(inp) == (#[trigger] da.spec_configs()[i])@;
    assert(da.spec_configs()[i]@ != Set::<int>::empty());
    lemma_reachable_config_discovered(nfa, db, inp);
    let j = choose|j: int| 0 <= j < db.spec_configs().len()
        && (#[trigger] db.spec_configs()[j])@ == nfa.spec_run(inp);
    assert(da.spec_configs()[i]@ == db.spec_configs()[j]@);
}

/// Two duplicate-free tables with the same configurations have the same
/// number of states.
proof fn lemma_same_config_count(d1: DFA, d2: DFA)
    requires
        forall|i: int, j: int| #![trigger d1.spec_configs()[i], d1.spec_configs()[j]]
            0 <= i < j < d1.spec_configs().len()
                ==> d1.spec_configs()[i]@ != d1.spec_configs()[j]@,
        forall|i: int, j: int| #![trigger d2.spec_configs()[i], d2.spec_configs()[j]]
            0 <= i < j < d2.spec_configs().len()
                ==> d2.spec_configs()[i]@ != d2.spec_configs()[j]@,
        forall|i: int| 0 <= i < d1.spec_configs().len()
            ==> exists|j: int| 0 <= j < d2.spec_configs().len()
                && (#[trigger] d1.spec_configs()[i])@ == d2.spec_configs()[j]@,
        forall|i: int| 0 <= i < d2.spec_configs().len()
            ==> exists|j: int| 0 <= j < d1.spec_configs().len()
                && (#[trigger] d2.spec_configs()[i])@ == d1.spec_configs()[j]@,
    ensures
        d1.spec_configs().len() == d2.spec_configs().len(),
{
    let v1 = d1.spec_configs().map_values(|c: crate::nfa::Configuration| c@);
    let v2 = d2.spec_configs().map_values(|c: crate::nfa::Configuration| c@);
    assert forall|i: int, j: int|
        0 <= i < v1.len() && 0 <= j < v1.len() && i != j implies v1[i] != v1[j] by {
        if i < j {
            assert(d1.spec_configs()[i]@ != d1.spec_configs()[j]@);
        } else {
            assert(d1.spec_configs()[j]@ != d1.spec_configs()[i]@);
        }
    }
    assert forall|i: int, j: int|
        0 <= i < v2.len() && 0 <= j < v2.len() && i != j implies v2[i] != v2[j] by {
        if i < j {
            assert(d2.spec_configs()[i]@ != d2.spec_configs()[j]@);
        } else {
            assert(d2.spec_configs()[j]@ != d2.spec_configs()[i]@);
        }
    }
    assert(v1.no_duplicates());
    assert(v2.no_duplicates());
    v1.unique_seq_to_set();
    v2.unique_seq_to_set();
    assert forall|x: Set<int>| v1.to_set().contains(x) implies v2.to_set().contains(x) by {
        let i = choose|i: int| 0 <= i < v1.len() && v1[i] == x;
        assert(d1.spec_configs()[i]@ == x);
        let j = choose|j: int| 0 <= j < d2.spec_configs().len()
            && (#[trigger] d1.spec_configs()[i])@ == d2.spec_configs()[j]@;
        assert(v2[j] == x);
        assert(v2.contains(x));
    }
    assert forall|x: Set<int>| v2.to_set().contains(x) implies v1.to_set().contains(x) by {
        let i = choose|i: int| 0 <= i < v2.len() && v2[i] == x;
        assert(d2.spec_configs()[i]@ == x);
        let j = choose|j: int| 0 <= j < d1.spec_configs().len()
            && (#[trigger] d2.spec_configs()[i])@ == d1.spec_configs()[j]@;
        assert(v1[j] == x);
        assert(v1.contains(x));
    }
    assert(v1.to_set() =~= v2.to_set());
}

} // verus!
