//! Thompson's construction: compiling syntax trees into an NFA arena.
//!
//! The builder walks each tree bottom-up.  Every sub-expression becomes a
//! small sub-automaton described by a (start, end) pair of arena handles,
//! where the end state is a provisional `Match` placeholder.  An enclosing
//! combinator patches each child's placeholder exactly once to wire the
//! children together; the placeholder of a whole pattern stays a true
//! `Match`.  Repetition patches a back edge into its own entry alternation,
//! which is the one place the arena becomes cyclic — harmless, because
//! states refer to one another by stable index, never by ownership.

use vstd::prelude::*;

use crate::alphabet::{alphabet_insert, char_set_of};
use crate::ast::{
    lemma_arena_size_at_least_two, lemma_seq_arena_sizes_lb, lemma_sizes_take_mono,
    lemma_sizes_take_nonneg, seq_arena_sizes, seq_chars, Ast, BuildError,
};
use crate::nfa::NFA;
use crate::state::{
    alphabet_covered, lemma_covered_extend, lemma_covered_patch, state_consumes, state_wf,
    wf_arena, PatternID, State,
};
use crate::state_id::StateID;

verus! {

/// The set of pattern tags named by a list of (tree, tag) pairs.
pub open spec fn pids_of(s: Seq<(Ast, PatternID)>) -> Set<int> {
    Set::new(|p: int| exists|k: int| 0 <= k < s.len() && (#[trigger] s[k].1)@ == p)
}

/// The symbols occurring in any tree of a list of (tree, tag) pairs.
pub open spec fn pairs_chars(s: Seq<(Ast, PatternID)>) -> Set<char>
    decreases s,
{
    if s.len() == 0 {
        Set::<char>::empty()
    } else {
        pairs_chars(s.drop_last()).union(s.last().0.chars())
    }
}

/// The arena states needed for every tree of a list of (tree, tag) pairs.
pub open spec fn pairs_sizes(s: Seq<(Ast, PatternID)>) -> int
    decreases s,
{
    if s.len() == 0 {
        0
    } else {
        pairs_sizes(s.drop_last()) + s.last().0.arena_size()
    }
}


/// The arena slot where the sub-automaton of a node built at `base` is
/// entered.
pub open spec fn node_start(ast: Ast, base: int) -> int
    decreases ast,
{
    match ast {
        Ast::Empty => base + 1,
        Ast::Character(_) => base + 1,
        Ast::Concatenation(children) => if children@.len() == 0 {
            base
        } else {
            node_start(children@[0], base)
        },
        Ast::Alternation(children) => base + seq_arena_sizes(children@) + 1,
        Ast::Repetition(child) => base + (*child).arena_size() + 1,
    }
}

/// The arena slot of the node's exit placeholder: the state an enclosing
/// node patches, or the pattern's `Match` state at the top.
pub open spec fn node_end(ast: Ast, base: int) -> int
    decreases ast,
{
    match ast {
        Ast::Empty => base,
        Ast::Character(_) => base,
        Ast::Concatenation(children) => chain_end(children@, base),
        Ast::Alternation(_) => base,
        Ast::Repetition(child) => base + (*child).arena_size(),
    }
}

/// The exit placeholder of a chain of sub-automata: the last one's exit.
pub open spec fn chain_end(cs: Seq<Ast>, base: int) -> int
    decreases cs,
{
    if cs.len() == 0 {
        base
    } else {
        node_end(cs.last(), base + seq_arena_sizes(cs.drop_last()))
    }
}

/// The arena slice a node builds at `base` is wired exactly as Thompson's
/// construction dictates.  The state at the node's own exit placeholder is
/// not described: it belongs to the enclosing node, and stays the
/// pattern's `Match` state at the top.
pub open spec fn node_shape(ast: Ast, ss: Seq<State>, base: int) -> bool
    decreases ast,
{
    match ast {
        Ast::Empty => ss[base + 1] matches State::Empty(t) && t@ == base,
        Ast::Character(c) => ss[base + 1] matches State::Character(t, sym) && t@ == base
            && sym == c,
        Ast::Concatenation(children) => children@.len() >= 1 && chain_shape(children@, ss, base),
        Ast::Alternation(children) => {
            &&& children@.len() >= 1
            &&& fan_shape(children@, ss, base)
            &&& ss[base + seq_arena_sizes(children@) + 1] matches State::Alternation(ts)
                && ts@.len() == children@.len()
                && (forall|k: int| 0 <= k < children@.len() ==> (#[trigger] ts@[k])@
                    == node_start(children@[k], base + 1 + seq_arena_sizes(children@.take(k))))
        },
        Ast::Repetition(child) => {
            &&& node_shape(*child, ss, base)
            &&& ss[base + (*child).arena_size() + 1] matches State::Alternation(ts)
                && ts@.len() == 2 && ts@[0]@ == node_start(*child, base)
                && ts@[1]@ == base + (*child).arena_size()
            &&& ss[node_end(*child, base)] matches State::Alternation(ts2)
                && ts2@.len() == 2 && ts2@[0]@ == node_start(*child, base)
                && ts2@[1]@ == base + (*child).arena_size()
        },
    }
}

/// Consecutive sub-automata laid out side by side, each non-last one's
/// exit patched onto the next one's entry.
pub open spec fn chain_shape(cs: Seq<Ast>, ss: Seq<State>, base: int) -> bool
    decreases cs,
{
    if cs.len() <= 1 {
        cs.len() == 1 ==> node_shape(cs[0], ss, base)
    } else {
        let prefix = cs.drop_last();
        let last_base = base + seq_arena_sizes(prefix);
        &&& chain_shape(prefix, ss, base)
        &&& node_shape(cs.last(), ss, last_base)
        &&& ss[chain_end(prefix, base)] matches State::Empty(t)
            && t@ == node_start(cs.last(), last_base)
    }
}

/// Sub-automata laid out side by side after the shared exit at `base`,
/// each one's own exit patched onto that shared exit.
pub open spec fn fan_shape(cs: Seq<Ast>, ss: Seq<State>, base: int) -> bool
    decreases cs,
{
    if cs.len() == 0 {
        true
    } else {
        let prefix = cs.drop_last();
        let last_base = base + 1 + seq_arena_sizes(prefix);
        &&& fan_shape(prefix, ss, base)
        &&& node_shape(cs.last(), ss, last_base)
        &&& ss[node_end(cs.last(), last_base)] matches State::Empty(t) && t@ == base
    }
}

/// A node's entry and exit slots lie inside its own region and differ.
pub proof fn lemma_node_slots(ast: Ast, base: int)
    requires
        ast.wf(),
    ensures
        base <= node_start(ast, base) < base + ast.arena_size(),
        base <= node_end(ast, base) < base + ast.arena_size(),
        node_start(ast, base) != node_end(ast, base),
    decreases ast,
{
    match ast {
        Ast::Empty => {},
        Ast::Character(_) => {},
        Ast::Concatenation(children) => {
            let cs = children@;
            lemma_node_slots(cs[0], base);
            assert(cs.take(1) =~= seq![cs[0]]);
            assert(seq_arena_sizes(cs.take(1)) == cs[0].arena_size()) by {
                assert(cs.take(1).drop_last() =~= Seq::<Ast>::empty());
                assert(seq_arena_sizes(Seq::<Ast>::empty()) == 0);
            }
            lemma_sizes_take_mono(cs, 1);
            lemma_chain_slots(cs, base);
            if cs.len() == 1 {
            } else {
                assert forall|i: int| 0 <= i < cs.drop_last().len()
                    implies (#[trigger] cs.drop_last()[i]).wf() by {
                    assert(cs.drop_last()[i] == cs[i]);
                }
                assert(cs.drop_last().take(1) =~= cs.take(1));
                lemma_sizes_take_mono(cs.drop_last(), 1);
                lemma_node_slots(cs.last(), base + seq_arena_sizes(cs.drop_last()));
            }
        },
        Ast::Alternation(children) => {
            lemma_seq_arena_sizes_lb(children@);
        },
        Ast::Repetition(child) => {
            lemma_arena_size_at_least_two(*child);
        },
    }
}

/// The exit of a nonempty chain lies inside the chain's region.
pub proof fn lemma_chain_slots(cs: Seq<Ast>, base: int)
    requires
        cs.len() >= 1,
        forall|i: int| 0 <= i < cs.len() ==> (#[trigger] cs[i]).wf(),
    ensures
        base <= chain_end(cs, base) < base + seq_arena_sizes(cs),
    decreases cs,
{
    lemma_node_slots(cs.last(), base + seq_arena_sizes(cs.drop_last()));
    if cs.len() == 1 {
        assert(cs.drop_last() =~= Seq::<Ast>::empty());
        assert(seq_arena_sizes(Seq::<Ast>::empty()) == 0);
    } else {
        assert forall|i: int| 0 <= i < cs.drop_last().len()
            implies (#[trigger] cs.drop_last()[i]).wf() by {
            assert(cs.drop_last()[i] == cs[i]);
        }
        lemma_seq_arena_sizes_lb(cs.drop_last());
    }
}

/// A node's shape reads only its own region, minus its exit placeholder:
/// it survives any change outside those slots.
pub proof fn lemma_node_shape_frame(ast: Ast, ss1: Seq<State>, ss2: Seq<State>, base: int)
    requires
        ast.wf(),
        node_shape(ast, ss1, base),
        forall|i: int| base <= i < base + ast.arena_size() && i != node_end(ast, base)
            ==> ss2[i] == #[trigger] ss1[i],
    ensures
        node_shape(ast, ss2, base),
    decreases ast,
{
    match ast {
        Ast::Empty => {
            assert(ss2[base + 1] == ss1[base + 1]);
        },
        Ast::Character(_) => {
            assert(ss2[base + 1] == ss1[base + 1]);
        },
        Ast::Concatenation(children) => {
            lemma_chain_shape_frame(children@, ss1, ss2, base);
        },
        Ast::Alternation(children) => {
            let cs = children@;
            lemma_seq_arena_sizes_lb(cs);
            lemma_fan_shape_frame(cs, ss1, ss2, base);
            assert(ss2[base + seq_arena_sizes(cs) + 1] == ss1[base + seq_arena_sizes(cs) + 1]);
        },
        Ast::Repetition(child) => {
            lemma_node_slots(*child, base);
            assert forall|i: int| base <= i < base + (*child).arena_size()
                && i != node_end(*child, base) implies ss2[i] == #[trigger] ss1[i] by {}
            lemma_node_shape_frame(*child, ss1, ss2, base);
            assert(ss2[base + (*child).arena_size() + 1]
                == ss1[base + (*child).arena_size() + 1]);
            assert(ss2[node_end(*child, base)] == ss1[node_end(*child, base)]);
        },
    }
}

/// A chain's shape reads only its region, minus the last exit placeholder.
pub proof fn lemma_chain_shape_frame(cs: Seq<Ast>, ss1: Seq<State>, ss2: Seq<State>, base: int)
    requires
        cs.len() >= 1,
        forall|i: int| 0 <= i < cs.len() ==> (#[trigger] cs[i]).wf(),
        chain_shape(cs, ss1, base),
        forall|i: int| base <= i < base + seq_arena_sizes(cs) && i != chain_end(cs, base)
            ==> ss2[i] == #[trigger] ss1[i],
    ensures
        chain_shape(cs, ss2, base),
    decreases cs,
{
    if cs.len() == 1 {
        assert(cs.drop_last() =~= Seq::<Ast>::empty());
        assert(seq_arena_sizes(Seq::<Ast>::empty()) == 0);
        lemma_node_shape_frame(cs[0], ss1, ss2, base);
    } else {
        let prefix = cs.drop_last();
        let last_base = base + seq_arena_sizes(prefix);
        assert forall|i: int| 0 <= i < prefix.len() implies (#[trigger] prefix[i]).wf() by {
            assert(prefix[i] == cs[i]);
        }
        lemma_seq_arena_sizes_lb(prefix);
        lemma_arena_size_at_least_two(cs.last());
        lemma_node_slots(cs.last(), last_base);
        lemma_chain_slots(prefix, base);
        // the excluded slot of the whole chain lies in the last child's region
        assert(chain_end(cs, base) == node_end(cs.last(), last_base));
        lemma_chain_shape_frame(prefix, ss1, ss2, base);
        lemma_node_shape_frame(cs.last(), ss1, ss2, last_base);
        assert(ss2[chain_end(prefix, base)] == ss1[chain_end(prefix, base)]);
    }
}

/// A fan's shape reads only the band after the shared exit.
pub proof fn lemma_fan_shape_frame(cs: Seq<Ast>, ss1: Seq<State>, ss2: Seq<State>, base: int)
    requires
        forall|i: int| 0 <= i < cs.len() ==> (#[trigger] cs[i]).wf(),
        fan_shape(cs, ss1, base),
        forall|i: int| base + 1 <= i < base + 1 + seq_arena_sizes(cs)
            ==> ss2[i] == #[trigger] ss1[i],
    ensures
        fan_shape(cs, ss2, base),
    decreases cs,
{
    if cs.len() == 0 {
    } else {
        let prefix = cs.drop_last();
        let last_base = base + 1 + seq_arena_sizes(prefix);
        assert forall|i: int| 0 <= i < prefix.len() implies (#[trigger] prefix[i]).wf() by {
            assert(prefix[i] == cs[i]);
        }
        if prefix.len() >= 1 {
            lemma_seq_arena_sizes_lb(prefix);
        } else {
            assert(prefix =~= Seq::<Ast>::empty());
            assert(seq_arena_sizes(Seq::<Ast>::empty()) == 0);
        }
        lemma_arena_size_at_least_two(cs.last());
        lemma_node_slots(cs.last(), last_base);
        lemma_fan_shape_frame(prefix, ss1, ss2, base);
        lemma_node_shape_frame(cs.last(), ss1, ss2, last_base);
        assert(ss2[node_end(cs.last(), last_base)] == ss1[node_end(cs.last(), last_base)]);
    }
}

/// A prefix of well-formed patterns needs no more states than a longer one.
proof fn lemma_pairs_sizes_take_mono(s: Seq<(Ast, PatternID)>, j: int, i: int)
    requires
        0 <= j <= i <= s.len(),
        forall|k: int| 0 <= k < s.len() ==> (#[trigger] s[k].0).wf(),
    ensures
        pairs_sizes(s.subrange(0, j)) <= pairs_sizes(s.subrange(0, i)),
    decreases i - j,
{
    if j < i {
        lemma_pairs_sizes_take_mono(s, j, i - 1);
        assert(s.subrange(0, i).drop_last() =~= s.subrange(0, i - 1));
        assert(s.subrange(0, i).last() == s[i - 1]);
        lemma_arena_size_at_least_two(s[i - 1].0);
    }
}

/// The set of pattern tags carried by `Match` states of an arena.
pub open spec fn match_pids(ss: Seq<State>) -> Set<int> {
    Set::new(
        |p: int| exists|i: int|
            {
                &&& 0 <= i < ss.len()
                &&& (#[trigger] ss[i]) matches State::Match(pid) && pid@ == p
            },
    )
}

/// The arena has at most one `Match` state per pattern position — here,
/// exactly one `Match` state in total.
pub open spec fn unique_match(ss: Seq<State>) -> bool {
    forall|i: int, j: int| #![trigger ss[i], ss[j]]
        0 <= i < ss.len() && 0 <= j < ss.len() && ss[i] is Match && ss[j] is Match ==> i == j
}

/// The start and end handles of one sub-automaton under construction.
#[derive(Clone, Copy, Debug)]
pub(crate) struct StartEndIDs {
    /// Entry state of the sub-automaton.
    pub start: StateID,
    /// Exit state: a `Match` placeholder until an enclosing node patches it.
    pub end: StateID,
}

/// An NFA under construction: an append-only arena plus the start state of
/// every pattern added so far.
pub struct Builder {
    pattern: PatternID,
    states: Vec<State>,
    start_states: Vec<StateID>,
    alphabet: Vec<char>,
}

impl Builder {
    /// The arena built so far.
    pub closed spec fn spec_states(self) -> Seq<State> {
        self.states@
    }

    /// The pattern tag given to `Match` states being created.
    pub closed spec fn spec_pattern(self) -> PatternID {
        self.pattern
    }

    /// The start states of the patterns added so far.
    pub closed spec fn spec_starts(self) -> Seq<StateID> {
        self.start_states@
    }

    /// The alphabet collected so far.
    pub closed spec fn spec_alphabet(self) -> Seq<char> {
        self.alphabet@
    }

    /// The alphabet as a set of symbols.
    pub open spec fn alphabet_set(self) -> Set<char> {
        char_set_of(self.spec_alphabet())
    }

    /// Arena handles stay inside the arena, pattern start states exist, the
    /// alphabet is duplicate-free and covers every consuming transition.
    pub open spec fn inv(self) -> bool {
        &&& wf_arena(self.spec_states())
        &&& forall|k: int| 0 <= k < self.spec_starts().len()
            ==> 0 <= (#[trigger] self.spec_starts()[k])@ < self.spec_states().len()
        &&& self.spec_alphabet().no_duplicates()
        &&& forall|i: int| 0 <= i < self.spec_states().len()
            ==> (#[trigger] self.spec_states()[i] matches State::Character(_, c)
                ==> self.spec_alphabet().contains(c))
    }

    /// A fresh builder with an empty arena.
    pub fn new() -> (r: Self)
        ensures
            r.inv(),
            r.spec_states() == Seq::<State>::empty(),
            r.spec_starts() == Seq::<StateID>::empty(),
            r.spec_alphabet() == Seq::<char>::empty(),
            alphabet_covered(r.spec_states(), r.spec_alphabet()),
    {
        let r = Builder {
            pattern: PatternID::new(0),
            states: Vec::new(),
            start_states: Vec::new(),
            alphabet: Vec::new(),
        };
        proof {
            assert(r.spec_states() =~= Seq::<State>::empty());
            assert(r.spec_starts() =~= Seq::<StateID>::empty());
            assert(r.spec_alphabet() =~= Seq::<char>::empty());
            assert(alphabet_covered(r.spec_states(), r.spec_alphabet())) by {
                assert(forall|c: char| !r.spec_alphabet().contains(c));
            }
        }
        r
    }

    /// Appends a state and returns its fresh, never-reused handle.
    fn add_state(&mut self, state: State) -> (r: StateID)
        requires
            old(self).inv(),
            state_wf(state, old(self).spec_states().len() as int + 1),
            state matches State::Character(_, c) ==> old(self).spec_alphabet().contains(c),
        ensures
            final(self).inv(),
            r@ == old(self).spec_states().len(),
            final(self).spec_states() == old(self).spec_states().push(state),
            final(self).spec_pattern() == old(self).spec_pattern(),
            final(self).spec_starts() == old(self).spec_starts(),
            final(self).spec_alphabet() == old(self).spec_alphabet(),
            alphabet_covered(old(self).spec_states(), old(self).spec_alphabet())
                ==> alphabet_covered(final(self).spec_states(), final(self).spec_alphabet()),
    {
        let id = StateID::new(self.states.len());
        self.states.push(state);
        proof {
            assert forall|i: int| 0 <= i < self.spec_states().len()
                implies state_wf(#[trigger] self.spec_states()[i], self.spec_states().len() as int) by {
                if i < old(self).spec_states().len() {
                    assert(state_wf(old(self).spec_states()[i], old(self).spec_states().len() as int));
                } else {
                    assert(self.spec_states()[i] == state);
                }
            }
            assert(wf_arena(self.spec_states()));
            assert forall|k: int| 0 <= k < self.spec_starts().len()
                implies 0 <= (#[trigger] self.spec_starts()[k])@ < self.spec_states().len() by {
                assert(0 <= old(self).spec_starts()[k]@ < old(self).spec_states().len());
            }
            assert(self.spec_alphabet().no_duplicates());
            assert forall|i: int| 0 <= i < self.spec_states().len()
                implies (#[trigger] self.spec_states()[i] matches State::Character(_, c)
                    ==> self.spec_alphabet().contains(c)) by {
                if i < old(self).spec_states().len() {
                    assert(self.spec_states()[i] == old(self).spec_states()[i]);
                    assert(old(self).spec_states()[i] matches State::Character(_, c2)
                        ==> old(self).spec_alphabet().contains(c2));
                } else {
                    assert(self.spec_states()[i] == state);
                }
            }
            if alphabet_covered(old(self).spec_states(), old(self).spec_alphabet()) {
                lemma_covered_extend(
                    old(self).spec_states(),
                    self.spec_states(),
                    self.spec_alphabet(),
                );
            }
        }
        id
    }

    /// Overwrites the provisional state at `id`; used exactly once per
    /// placeholder, to resolve a forward or backward reference.
    fn patch(&mut self, id: StateID, state: State)
        requires
            old(self).inv(),
            id@ < old(self).spec_states().len(),
            old(self).spec_states()[id@ as int] is Match,
            state_wf(state, old(self).spec_states().len() as int),
            state matches State::Character(_, c) ==> old(self).spec_alphabet().contains(c),
        ensures
            final(self).inv(),
            final(self).spec_states() == old(self).spec_states().update(id@, state),
            final(self).spec_pattern() == old(self).spec_pattern(),
            final(self).spec_starts() == old(self).spec_starts(),
            final(self).spec_alphabet() == old(self).spec_alphabet(),
            alphabet_covered(old(self).spec_states(), old(self).spec_alphabet())
                ==> alphabet_covered(final(self).spec_states(), final(self).spec_alphabet()),
    {
        let idx = id.as_usize();
        self.states[idx] = state;
        proof {
            assert(self.spec_states() =~= old(self).spec_states().update(id@, state));
            assert forall|i: int| 0 <= i < self.spec_states().len()
                implies state_wf(#[trigger] self.spec_states()[i], self.spec_states().len() as int) by {
                if i != id@ {
                    assert(self.spec_states()[i] == old(self).spec_states()[i]);
                    assert(state_wf(old(self).spec_states()[i], old(self).spec_states().len() as int));
                } else {
                    assert(self.spec_states()[i] == state);
                }
            }
            assert(wf_arena(self.spec_states()));
            assert forall|k: int| 0 <= k < self.spec_starts().len()
                implies 0 <= (#[trigger] self.spec_starts()[k])@ < self.spec_states().len() by {
                assert(0 <= old(self).spec_starts()[k]@ < old(self).spec_states().len());
            }
            assert forall|i: int| 0 <= i < self.spec_states().len()
                implies (#[trigger] self.spec_states()[i] matches State::Character(_, c)
                    ==> self.spec_alphabet().contains(c)) by {
                if i != id@ {
                    assert(self.spec_states()[i] == old(self).spec_states()[i]);
                    assert(old(self).spec_states()[i] matches State::Character(_, c2)
                        ==> old(self).spec_alphabet().contains(c2));
                } else {
                    assert(self.spec_states()[i] == state);
                }
            }
            if alphabet_covered(old(self).spec_states(), old(self).spec_alphabet()) {
                lemma_covered_patch(
                    old(self).spec_states(),
                    self.spec_states(),
                    self.spec_alphabet(),
                    id@,
                );
            }
        }
    }

    /// Builds the sub-automaton for one node.  The new region of the arena
    /// holds exactly one `Match` placeholder, at the returned end handle.
    fn build_node(&mut self, ast: &Ast) -> (pair: StartEndIDs)
        requires
            old(self).inv(),
            ast.wf(),
            alphabet_covered(old(self).spec_states(), old(self).spec_alphabet()),
        ensures
            final(self).inv(),
            alphabet_covered(final(self).spec_states(), final(self).spec_alphabet()),
            final(self).spec_pattern() == old(self).spec_pattern(),
            final(self).spec_starts() == old(self).spec_starts(),
            old(self).spec_states().len() < final(self).spec_states().len(),
            final(self).spec_states().subrange(0, old(self).spec_states().len() as int)
                == old(self).spec_states(),
            old(self).spec_states().len() <= pair.start@ < final(self).spec_states().len(),
            old(self).spec_states().len() <= pair.end@ < final(self).spec_states().len(),
            final(self).spec_states()[pair.end@] == State::Match(old(self).spec_pattern()),
            forall|i: int| old(self).spec_states().len() <= i < final(self).spec_states().len()
                && i != pair.end@ ==> !((#[trigger] final(self).spec_states()[i]) is Match),
            final(self).spec_states().len() == old(self).spec_states().len() + ast.arena_size(),
            pair.start@ == node_start(*ast, old(self).spec_states().len() as int),
            pair.end@ == node_end(*ast, old(self).spec_states().len() as int),
            node_shape(*ast, final(self).spec_states(), old(self).spec_states().len() as int),
            final(self).alphabet_set() == old(self).alphabet_set().union(ast.chars()),
        decreases *ast,
    {
        let ghost base = self.spec_states().len() as int;
        match ast {
            Ast::Empty => {
                let end = self.add_state(State::Match(self.pattern));
                let start = self.add_state(State::Empty(end));
                proof {
                    assert(self.alphabet_set() =~= old(self).alphabet_set().union(ast.chars()));
                    assert(self.spec_states()[base + 1] == State::Empty(end));
                }
                StartEndIDs { start, end }
            },
            Ast::Character(chr) => {
                let c = *chr;
                alphabet_insert(&mut self.alphabet, c);
                proof {
                    assert(self.spec_alphabet().contains(c)) by {
                        assert(char_set_of(self.spec_alphabet()).contains(c));
                    }
                    assert forall|ch: char| old(self).spec_alphabet().contains(ch)
                        implies self.spec_alphabet().contains(ch) by {
                        assert(char_set_of(old(self).spec_alphabet()).contains(ch));
                        assert(char_set_of(self.spec_alphabet()).contains(ch));
                    }
                    assert forall|i: int| 0 <= i < self.spec_states().len()
                        implies (#[trigger] self.spec_states()[i] matches State::Character(_, c2)
                            ==> self.spec_alphabet().contains(c2)) by {
                        assert(old(self).spec_states()[i] == self.spec_states()[i]);
                        assert(old(self).spec_states()[i] matches State::Character(_, c3)
                            ==> old(self).spec_alphabet().contains(c3));
                    }
                    assert(wf_arena(self.spec_states()));
                    assert(self.spec_alphabet().no_duplicates());
                    assert forall|k2: int| 0 <= k2 < self.spec_starts().len()
                        implies 0 <= (#[trigger] self.spec_starts()[k2])@ < self.spec_states().len() by {
                        assert(0 <= old(self).spec_starts()[k2]@ < old(self).spec_states().len());
                    }
                    assert(self.inv());
                }
                let end = self.add_state(State::Match(self.pattern));
                let start = self.add_state(State::Character(end, c));
                proof {
                    assert(self.alphabet_set() =~= old(self).alphabet_set().union(ast.chars()));
                    assert(self.spec_states()[base + 1] == State::Character(end, c));
                    assert forall|c2: char| #[trigger] self.spec_alphabet().contains(c2)
                        implies exists|i: int| 0 <= i < self.spec_states().len()
                            && state_consumes(#[trigger] self.spec_states()[i], c2) by {
                        if c2 == c {
                            assert(state_consumes(self.spec_states()[base + 1], c2));
                        } else {
                            assert(char_set_of(self.spec_alphabet()).contains(c2));
                            assert(char_set_of(old(self).spec_alphabet()).contains(c2));
                            assert(old(self).spec_alphabet().contains(c2));
                            let i = choose|i: int| 0 <= i < old(self).spec_states().len()
                                && state_consumes(#[trigger] old(self).spec_states()[i], c2);
                            assert(self.spec_states()[i] == old(self).spec_states()[i]);
                            assert(state_consumes(self.spec_states()[i], c2));
                        }
                    }
                }
                StartEndIDs { start, end }
            },
            Ast::Concatenation(children) => {
                proof {
                    assert(decreases_to!(*ast => children@[0]));
                }
                let mut cur = self.build_node(&children[0]);
                let ghost ast_seq = children@;
                let n = children.len();
                let mut k: usize = 1;
                proof {
                    assert(ast_seq.subrange(0, 1) =~= seq![ast_seq[0]]);
                    assert(seq_chars(ast_seq.subrange(0, 1)) =~= ast_seq[0].chars()) by {
                        assert(seq_chars(seq![ast_seq[0]].drop_last()) =~= seq_chars(Seq::<Ast>::empty()));
                        assert(seq![ast_seq[0]].drop_last() =~= Seq::<Ast>::empty());
                    }
                    assert(seq_arena_sizes(ast_seq.subrange(0, 1)) == ast_seq[0].arena_size()) by {
                        assert(seq![ast_seq[0]].drop_last() =~= Seq::<Ast>::empty());
                        assert(seq_arena_sizes(Seq::<Ast>::empty()) == 0);
                    }
                    assert(chain_shape(ast_seq.subrange(0, 1), self.spec_states(), base)) by {
                        assert(ast_seq.subrange(0, 1)[0] == ast_seq[0]);
                    }
                    assert(chain_end(ast_seq.subrange(0, 1), base) == node_end(ast_seq[0], base)) by {
                        assert(ast_seq.subrange(0, 1).last() == ast_seq[0]);
                        assert(ast_seq.subrange(0, 1).drop_last() =~= Seq::<Ast>::empty());
                        assert(seq_arena_sizes(Seq::<Ast>::empty()) == 0);
                    }
                }
                #[verifier::loop_isolation(false)]
                while k < n
                    invariant
                        1 <= k <= n,
                        self.inv(),
                        self.spec_pattern() == old(self).spec_pattern(),
                        self.spec_starts() == old(self).spec_starts(),
                        base < self.spec_states().len(),
                        self.spec_states().subrange(0, base) == old(self).spec_states(),
                        base <= cur.start@ < self.spec_states().len(),
                        base <= cur.end@ < self.spec_states().len(),
                        self.spec_states()[cur.end@] == State::Match(old(self).spec_pattern()),
                        forall|i: int| base <= i < self.spec_states().len() && i != cur.end@
                            ==> !((#[trigger] self.spec_states()[i]) is Match),
                        self.spec_states().len() == base + seq_arena_sizes(
                            ast_seq.subrange(0, k as int),
                        ),
                        cur.start@ == node_start(ast_seq[0], base),
                        cur.end@ == chain_end(ast_seq.subrange(0, k as int), base),
                        chain_shape(ast_seq.subrange(0, k as int), self.spec_states(), base),
                        alphabet_covered(self.spec_states(), self.spec_alphabet()),
                        self.alphabet_set() == old(self).alphabet_set().union(
                            seq_chars(ast_seq.subrange(0, k as int)),
                        ),
                    decreases n - k,
                {
                    let ghost before = self.spec_states();
                    let ghost prev = cur;
                    let ghost sub0k = ast_seq.subrange(0, k as int);
                    let ghost csk = ast_seq[k as int];
                    let ghost base_k = base + seq_arena_sizes(sub0k);
                    proof {
                        assert(decreases_to!(*ast => children@[k as int]));
                        assert forall|i: int| 0 <= i < sub0k.len()
                            implies (#[trigger] sub0k[i]).wf() by {
                            assert(sub0k[i] == ast_seq[i]);
                        }
                    }
                    let sub = self.build_node(&children[k]);
                    let ghost mid = self.spec_states();
                    proof {
                        assert(mid.subrange(0, before.len() as int) == before);
                        assert(mid[prev.end@] == before[prev.end@]) by {
                            assert(mid.subrange(0, before.len() as int)[prev.end@]
                                == mid[prev.end@]);
                        }
                    }
                    self.patch(cur.end, State::Empty(sub.start));
                    cur = StartEndIDs { start: cur.start, end: sub.end };
                    proof {
                        let after = self.spec_states();
                        assert(after.subrange(0, base) =~= old(self).spec_states());
                        assert forall|i: int| base <= i < after.len() && i != cur.end@
                            implies !((#[trigger] after[i]) is Match) by {
                            if i == prev.end@ {
                                assert(after[i] == State::Empty(sub.start));
                            } else if i < before.len() {
                                assert(after[i] == before[i]);
                            }
                        }
                        assert(ast_seq.subrange(0, k as int + 1).drop_last()
                            =~= ast_seq.subrange(0, k as int));
                        assert(ast_seq.subrange(0, k as int + 1).last() == ast_seq[k as int]);
                        assert(self.alphabet_set() =~= old(self).alphabet_set().union(
                            seq_chars(ast_seq.subrange(0, k as int + 1)),
                        ));
                        // the new child's shape, and the chain's, survive the append and the patch
                        assert(before.len() == base_k);
                        assert(node_shape(csk, mid, base_k));
                        lemma_chain_slots(sub0k, base);
                        lemma_node_slots(csk, base_k);
                        assert forall|i: int| base <= i < base_k && i != chain_end(sub0k, base)
                            implies mid[i] == #[trigger] before[i] by {
                            assert(mid.subrange(0, base_k) =~= before);
                            assert(mid.subrange(0, base_k)[i] == mid[i]);
                        }
                        lemma_chain_shape_frame(sub0k, before, mid, base);
                        assert(prev.end@ == chain_end(sub0k, base));
                        assert forall|i: int| base <= i < base_k && i != chain_end(sub0k, base)
                            implies after[i] == #[trigger] mid[i] by {
                            assert(i != prev.end@);
                        }
                        lemma_chain_shape_frame(sub0k, mid, after, base);
                        assert forall|i: int| base_k <= i < base_k + csk.arena_size()
                            && i != node_end(csk, base_k) implies after[i] == #[trigger] mid[i] by {
                            assert(i != prev.end@);
                        }
                        lemma_node_shape_frame(csk, mid, after, base_k);
                        let ext = ast_seq.subrange(0, k as int + 1);
                        assert(ext.drop_last() == sub0k);
                        assert(ext.last() == csk);
                        assert(chain_shape(ext, after, base)) by {
                            assert(chain_shape(sub0k, after, base));
                            assert(node_shape(csk, after, base + seq_arena_sizes(sub0k)));
                            assert(after[chain_end(sub0k, base)] == State::Empty(sub.start));
                            assert(sub.start@ == node_start(csk, base_k));
                        }
                        assert(chain_end(ext, base) == node_end(csk, base_k));
                        assert(cur.end@ == node_end(csk, base_k));
                    }
                    k = k + 1;
                }
                proof {
                    assert(ast_seq.subrange(0, n as int) =~= ast_seq);
                    assert(ast.chars() == seq_chars(ast_seq));
                    assert(ast.arena_size() == seq_arena_sizes(ast_seq));
                    assert(node_shape(*ast, self.spec_states(), base)) by {
                        assert(ast_seq.subrange(0, n as int) == ast_seq);
                    }
                    assert(node_start(*ast, base) == node_start(ast_seq[0], base));
                    assert(node_end(*ast, base) == chain_end(ast_seq, base));
                }
                cur
            },
            Ast::Alternation(children) => {
                let end = self.add_state(State::Match(self.pattern));
                let ghost ast_seq = children@;
                let mut starts: Vec<StateID> = Vec::new();
                let n = children.len();
                let mut k: usize = 0;
                proof {
                    assert(ast_seq.subrange(0, 0) =~= Seq::<Ast>::empty());
                    assert(self.alphabet_set() =~= old(self).alphabet_set().union(
                        seq_chars(ast_seq.subrange(0, 0)),
                    ));
                    assert(seq_arena_sizes(ast_seq.subrange(0, 0)) == 0);
                    assert(fan_shape(ast_seq.subrange(0, 0), self.spec_states(), base)) by {
                        assert(ast_seq.subrange(0, 0).len() == 0);
                    }
                }
                #[verifier::loop_isolation(false)]
                while k < n
                    invariant
                        k <= n,
                        self.inv(),
                        self.spec_pattern() == old(self).spec_pattern(),
                        self.spec_starts() == old(self).spec_starts(),
                        base < self.spec_states().len(),
                        end@ == base,
                        self.spec_states().subrange(0, base) == old(self).spec_states(),
                        self.spec_states()[end@] == State::Match(old(self).spec_pattern()),
                        forall|i: int| base <= i < self.spec_states().len() && i != end@
                            ==> !((#[trigger] self.spec_states()[i]) is Match),
                        starts@.len() == k,
                        forall|m: int| 0 <= m < k
                            ==> base <= (#[trigger] starts@[m])@ < self.spec_states().len(),
                        self.spec_states().len() == base + 1 + seq_arena_sizes(
                            ast_seq.subrange(0, k as int),
                        ),
                        fan_shape(ast_seq.subrange(0, k as int), self.spec_states(), base),
                        alphabet_covered(self.spec_states(), self.spec_alphabet()),
                        forall|m: int| 0 <= m < k ==> (#[trigger] starts@[m])@
                            == node_start(ast_seq[m], base + 1 + seq_arena_sizes(
                                ast_seq.subrange(0, m),
                            )),
                        self.alphabet_set() == old(self).alphabet_set().union(
                            seq_chars(ast_seq.subrange(0, k as int)),
                        ),
                    decreases n - k,
                {
                    let ghost before = self.spec_states();
                    let ghost sub0k = ast_seq.subrange(0, k as int);
                    let ghost csk = ast_seq[k as int];
                    let ghost fan_base = base + 1 + seq_arena_sizes(sub0k);
                    proof {
                        assert(decreases_to!(*ast => children@[k as int]));
                        assert forall|i: int| 0 <= i < sub0k.len()
                            implies (#[trigger] sub0k[i]).wf() by {
                            assert(sub0k[i] == ast_seq[i]);
                        }
                    }
                    let sub = self.build_node(&children[k]);
                    let ghost mid = self.spec_states();
                    self.patch(sub.end, State::Empty(end));
                    starts.push(sub.start);
                    proof {
                        let after = self.spec_states();
                        assert(after.subrange(0, base) =~= old(self).spec_states());
                        assert(after[end@] == before[end@]);
                        assert forall|i: int| base <= i < after.len() && i != end@
                            implies !((#[trigger] after[i]) is Match) by {
                            if i == sub.end@ {
                                assert(after[i] == State::Empty(end));
                            } else if i < before.len() {
                                assert(after[i] == before[i]);
                            }
                        }
                        assert(ast_seq.subrange(0, k as int + 1).drop_last()
                            =~= ast_seq.subrange(0, k as int));
                        assert(ast_seq.subrange(0, k as int + 1).last() == ast_seq[k as int]);
                        assert(self.alphabet_set() =~= old(self).alphabet_set().union(
                            seq_chars(ast_seq.subrange(0, k as int + 1)),
                        ));
                        // the new branch's shape, and the fan's, survive the append and the patch
                        assert(before.len() == fan_base);
                        assert(node_shape(csk, mid, fan_base));
                        lemma_node_slots(csk, fan_base);
                        assert forall|i: int| base + 1 <= i < base + 1 + seq_arena_sizes(sub0k)
                            implies mid[i] == #[trigger] before[i] by {
                            assert(mid.subrange(0, fan_base) =~= before);
                            assert(mid.subrange(0, fan_base)[i] == mid[i]);
                        }
                        lemma_fan_shape_frame(sub0k, before, mid, base);
                        assert forall|i: int| base + 1 <= i < base + 1 + seq_arena_sizes(sub0k)
                            implies after[i] == #[trigger] mid[i] by {
                            assert(i != sub.end@);
                        }
                        lemma_fan_shape_frame(sub0k, mid, after, base);
                        assert forall|i: int| fan_base <= i < fan_base + csk.arena_size()
                            && i != node_end(csk, fan_base) implies after[i] == #[trigger] mid[i] by {
                            assert(i != sub.end@);
                        }
                        lemma_node_shape_frame(csk, mid, after, fan_base);
                        let ext = ast_seq.subrange(0, k as int + 1);
                        assert(ext.drop_last() == sub0k);
                        assert(ext.last() == csk);
                        assert(fan_shape(ext, after, base)) by {
                            assert(fan_shape(sub0k, after, base));
                            assert(node_shape(csk, after, base + 1 + seq_arena_sizes(sub0k)));
                            assert(after[node_end(csk, fan_base)] == State::Empty(end));
                        }
                        assert(starts@[k as int] == sub.start);
                        assert(sub.start@ == node_start(csk, fan_base));
                        assert forall|m: int| 0 <= m < k + 1 implies (#[trigger] starts@[m])@
                            == node_start(ast_seq[m], base + 1 + seq_arena_sizes(
                                ast_seq.subrange(0, m),
                            )) by {
                            if m < k {
                            }
                        }
                    }
                    k = k + 1;
                }
                let ghost pre_root = self.spec_states();
                let start = self.add_state(State::Alternation(starts));
                proof {
                    assert(ast_seq.subrange(0, n as int) =~= ast_seq);
                    assert(ast.chars() == seq_chars(ast_seq));
                    assert(ast.arena_size() == seq_arena_sizes(ast_seq) + 2);
                    let after = self.spec_states();
                    assert forall|i: int| base + 1 <= i < base + 1 + seq_arena_sizes(ast_seq)
                        implies after[i] == #[trigger] pre_root[i] by {}
                    assert(fan_shape(ast_seq, pre_root, base)) by {
                        assert(ast_seq.subrange(0, n as int) == ast_seq);
                    }
                    lemma_fan_shape_frame(ast_seq, pre_root, after, base);
                    assert(after[base + seq_arena_sizes(ast_seq) + 1]
                        matches State::Alternation(ts) && ts@ == starts@);
                    assert(node_shape(*ast, after, base));
                    assert(node_start(*ast, base) == base + seq_arena_sizes(ast_seq) + 1);
                    assert(start@ == base + 1 + seq_arena_sizes(ast_seq));
                }
                StartEndIDs { start, end }
            },
            Ast::Repetition(child) => {
                proof {
                    assert(decreases_to!(*ast => *child));
                }
                let sub = self.build_node(child);
                let ghost mid = self.spec_states();
                let end = self.add_state(State::Match(self.pattern));
                let loop_starts = vec![sub.start, end];
                let start = self.add_state(State::Alternation(loop_starts));
                let back_starts = vec![sub.start, end];
                proof {
                    assert(self.spec_states()[sub.end@] == mid[sub.end@]);
                }
                self.patch(sub.end, State::Alternation(back_starts));
                proof {
                    let after = self.spec_states();
                    assert(after.subrange(0, base) =~= old(self).spec_states());
                    assert forall|i: int| base <= i < after.len() && i != end@
                        implies !((#[trigger] after[i]) is Match) by {}
                    assert(after[end@] == State::Match(old(self).spec_pattern()));
                    assert(self.alphabet_set() =~= old(self).alphabet_set().union(ast.chars()));
                    // the body's shape survives the two appends and the back-edge patch
                    let csize = (**child).arena_size();
                    assert(mid.len() == base + csize);
                    lemma_node_slots(**child, base);
                    assert forall|i: int| base <= i < base + csize && i != node_end(**child, base)
                        implies after[i] == #[trigger] mid[i] by {
                        assert(i != sub.end@);
                    }
                    lemma_node_shape_frame(**child, mid, after, base);
                    assert(loop_starts@[0] == sub.start && loop_starts@[1] == end);
                    assert(back_starts@[0] == sub.start && back_starts@[1] == end);
                    assert(after[base + csize + 1] matches State::Alternation(ts)
                        && ts@ == loop_starts@);
                    assert(after[node_end(**child, base)] matches State::Alternation(ts2)
                        && ts2@ == back_starts@);
                    assert(node_shape(*ast, after, base));
                }
                StartEndIDs { start, end }
            },
        }
    }

    /// Compiles one syntax tree into the arena as the pattern `pattern`,
    /// recording its start state.  Exactly one new `Match` state appears,
    /// tagged with `pattern`.
    pub fn add_ast(&mut self, ast: &Ast, pattern: PatternID)
        requires
            old(self).inv(),
            ast.wf(),
            alphabet_covered(old(self).spec_states(), old(self).spec_alphabet()),
        ensures
            final(self).inv(),
            alphabet_covered(final(self).spec_states(), final(self).spec_alphabet()),
            final(self).spec_pattern() == pattern,
            old(self).spec_states().len() < final(self).spec_states().len(),
            final(self).spec_states().subrange(0, old(self).spec_states().len() as int)
                == old(self).spec_states(),
            final(self).spec_starts().len() == old(self).spec_starts().len() + 1,
            final(self).spec_starts().subrange(0, old(self).spec_starts().len() as int)
                == old(self).spec_starts(),
            exists|m: int|
                {
                    &&& old(self).spec_states().len() <= m < final(self).spec_states().len()
                    &&& final(self).spec_states()[m] == State::Match(pattern)
                    &&& forall|i: int| old(self).spec_states().len() <= i
                        < final(self).spec_states().len() && i != m
                        ==> !((#[trigger] final(self).spec_states()[i]) is Match)
                },
            final(self).spec_states().len() == old(self).spec_states().len() + ast.arena_size(),
            node_shape(*ast, final(self).spec_states(), old(self).spec_states().len() as int),
            final(self).spec_starts()[old(self).spec_starts().len() as int]@
                == node_start(*ast, old(self).spec_states().len() as int),
            final(self).alphabet_set() == old(self).alphabet_set().union(ast.chars()),
    {
        self.pattern = pattern;
        let pair = self.build_node(ast);
        self.start_states.push(pair.start);
        proof {
            assert(final(self).spec_starts().subrange(0, old(self).spec_starts().len() as int)
                =~= old(self).spec_starts());
            assert(final(self).spec_states()[pair.end@] == State::Match(pattern));
        }
    }

    /// Finishes construction: fuses all patterns under one root alternation
    /// over their start states, which becomes the NFA's start state.
    pub fn build(self) -> (r: NFA)
        requires
            self.inv(),
            alphabet_covered(self.spec_states(), self.spec_alphabet()),
        ensures
            r.wf(),
            r.spec_states().len() == self.spec_states().len() + 1,
            r.spec_states().subrange(0, self.spec_states().len() as int) == self.spec_states(),
            r.spec_states().last() matches State::Alternation(ts) && ts@ == self.spec_starts(),
            r.spec_start() == self.spec_states().len() as int,
            r.spec_alphabet() == self.spec_alphabet(),
    {
        let Builder { pattern: _, mut states, start_states, alphabet } = self;
        let root = StateID::new(states.len());
        let ghost old_states = states@;
        let ghost starts_view = start_states@;
        proof {
            assert(starts_view == self.spec_starts());
            assert(old_states == self.spec_states());
        }
        states.push(State::Alternation(start_states));
        proof {
            let n2 = states@.len() as int;
            assert(states@[n2 - 1] matches State::Alternation(ts) && ts@ == starts_view);
            assert(state_wf(states@[n2 - 1], n2)) by {
                assert forall|m: int| 0 <= m < starts_view.len()
                    implies 0 <= (#[trigger] starts_view[m])@ < n2 by {
                    assert(0 <= self.spec_starts()[m]@ < old_states.len());
                }
            }
            assert forall|i: int| 0 <= i < states@.len()
                implies state_wf(#[trigger] states@[i], states@.len() as int) by {
                if i < old_states.len() {
                    assert(state_wf(old_states[i], old_states.len() as int));
                } else {
                    assert(i == n2 - 1);
                }
            }
            assert forall|i: int| 0 <= i < states@.len()
                implies (#[trigger] states@[i] matches State::Character(_, c)
                    ==> alphabet@.contains(c)) by {
                if i < old_states.len() {
                    assert(states@[i] == old_states[i]);
                    assert(old_states[i] matches State::Character(_, c2)
                        ==> self.spec_alphabet().contains(c2));
                }
            }
            assert(states@.subrange(0, old_states.len() as int) =~= old_states);
            lemma_covered_extend(old_states, states@, alphabet@);
        }
        NFA::from_parts(states, root, alphabet)
    }
}

/// Compiles one syntax tree into an NFA whose single `Match` state carries
/// `pattern`.  Trees with a childless concatenation or alternation node are
/// rejected with `InvalidAst`; no partial automaton is ever returned.
pub fn compile(ast: &Ast, pattern: PatternID) -> (r: Result<NFA, BuildError>)
    ensures
        r is Ok <==> ast.wf(),
        !ast.wf() ==> r == Err::<NFA, BuildError>(BuildError::InvalidAst),
        r matches Ok(nfa) ==> {
            &&& nfa.wf()
            &&& nfa.alphabet_set() == ast.chars()
            &&& match_pids(nfa.spec_states()) == Set::<int>::empty().insert(pattern@)
            &&& unique_match(nfa.spec_states())
            &&& nfa.spec_states().len() == ast.arena_size() + 1
            &&& nfa.spec_start() == ast.arena_size()
            &&& node_shape(*ast, nfa.spec_states(), 0)
            &&& nfa.spec_states()[nfa.spec_start()] matches State::Alternation(ts) && ts@.len() == 1
                && ts@[0]@ == node_start(*ast, 0)
        },
{
    if !ast.check_wf() {
        return Err(BuildError::InvalidAst);
    }
    let mut builder = Builder::new();
    builder.add_ast(ast, pattern);
    let ghost mid = builder;
    let nfa = builder.build();
    proof {
        let ss = nfa.spec_states();
        let bl = mid.spec_states().len() as int;
        let m = choose|m: int|
            {
                &&& 0 <= m < bl
                &&& mid.spec_states()[m] == State::Match(pattern)
                &&& forall|i: int| 0 <= i < bl && i != m
                    ==> !((#[trigger] mid.spec_states()[i]) is Match)
            };
        assert(ss.subrange(0, bl) == mid.spec_states());
        assert forall|i: int| 0 <= i < bl implies #[trigger] ss[i] == mid.spec_states()[i] by {
            assert(ss.subrange(0, bl)[i] == ss[i]);
        }
        assert(ss[m] == State::Match(pattern));
        assert forall|i: int| 0 <= i < ss.len() && i != m
            implies !((#[trigger] ss[i]) is Match) by {
            if i < bl {
                assert(!(mid.spec_states()[i] is Match));
            } else {
                assert(ss[i] == ss.last());
            }
        }
        assert forall|p: int| match_pids(ss).contains(p) <==> p == pattern@ by {
            if match_pids(ss).contains(p) {
                let i = choose|i: int|
                    {
                        &&& 0 <= i < ss.len()
                        &&& (#[trigger] ss[i]) matches State::Match(pid) && pid@ == p
                    };
                assert(i == m);
            }
            if p == pattern@ {
                assert(ss[m] matches State::Match(pid) && pid@ == p);
            }
        }
        assert(match_pids(ss) =~= Set::<int>::empty().insert(pattern@));
        assert(char_set_of(Seq::<char>::empty()) =~= Set::<char>::empty());
        assert(nfa.alphabet_set() =~= ast.chars());
        assert(node_shape(*ast, mid.spec_states(), 0));
        assert forall|w: int| 0 <= w < (*ast).arena_size() && w != node_end(*ast, 0)
            implies ss[w] == #[trigger] mid.spec_states()[w] by {
            assert(ss.subrange(0, bl)[w] == ss[w]);
        }
        lemma_node_shape_frame(*ast, mid.spec_states(), ss, 0);
        assert(mid.spec_starts()[0]@ == node_start(*ast, 0));
        assert(ss[nfa.spec_start()] matches State::Alternation(ts) && ts@ == mid.spec_starts());
    }
    Ok(nfa)
}

/// Compiles several syntax trees into one multi-pattern NFA: each tree keeps
/// its own sub-automaton and `Match` tag, and all are fused under one shared
/// root alternation.  Any invalid tree rejects the whole compilation.
#[verifier::loop_isolation(false)]
#[verifier::rlimit(100)]
#[verifier::spinoff_prover]
pub fn compile_many(patterns: &Vec<(Ast, PatternID)>) -> (r: Result<NFA, BuildError>)
    ensures
        r is Ok <==> (forall|k: int| 0 <= k < patterns@.len() ==> (#[trigger] patterns@[k].0).wf()),
        r is Err ==> r == Err::<NFA, BuildError>(BuildError::InvalidAst),
        r matches Ok(nfa) ==> {
            &&& nfa.wf()
            &&& nfa.alphabet_set() == pairs_chars(patterns@)
            &&& match_pids(nfa.spec_states()) == pids_of(patterns@)
            &&& nfa.spec_states().len() == pairs_sizes(patterns@) + 1
            &&& nfa.spec_start() == pairs_sizes(patterns@)
            &&& forall|k: int| 0 <= k < patterns@.len() ==> node_shape(
                (#[trigger] patterns@[k]).0,
                nfa.spec_states(),
                pairs_sizes(patterns@.subrange(0, k)),
            )
            &&& nfa.spec_states()[nfa.spec_start()] matches State::Alternation(ts)
                && ts@.len() == patterns@.len()
                && (forall|k: int| 0 <= k < patterns@.len() ==> (#[trigger] ts@[k])@
                    == node_start(patterns@[k].0, pairs_sizes(patterns@.subrange(0, k))))
        },
{
    let n = patterns.len();
    let mut k: usize = 0;
    while k < n
        invariant
            k <= n,
            forall|j: int| 0 <= j < k ==> (#[trigger] patterns@[j].0).wf(),
        decreases n - k,
    {
        if !patterns[k].0.check_wf() {
            return Err(BuildError::InvalidAst);
        }
        k = k + 1;
    }
    let mut builder = Builder::new();
    let mut i: usize = 0;
    proof {
        assert(char_set_of(Seq::<char>::empty()) =~= Set::<char>::empty());
        assert(pairs_chars(patterns@.subrange(0, 0)) =~= Set::<char>::empty()) by {
            assert(patterns@.subrange(0, 0) =~= Seq::<(Ast, PatternID)>::empty());
        }
        assert(pairs_sizes(patterns@.subrange(0, 0)) == 0) by {
            assert(patterns@.subrange(0, 0) =~= Seq::<(Ast, PatternID)>::empty());
        }
        assert forall|p: int| match_pids(builder.spec_states()).contains(p)
            <==> pids_of(patterns@.subrange(0, 0)).contains(p) by {
            if match_pids(builder.spec_states()).contains(p) {
                let w = choose|w: int|
                    {
                        &&& 0 <= w < builder.spec_states().len()
                        &&& (#[trigger] builder.spec_states()[w]) matches State::Match(pid) && pid@ == p
                    };
            }
            if pids_of(patterns@.subrange(0, 0)).contains(p) {
                let w = choose|w: int| 0 <= w < 0 && (#[trigger] patterns@.subrange(0, 0)[w].1)@ == p;
            }
        }
    }
    while i < n
        invariant
            i <= n,
            builder.inv(),
            builder.spec_states().len() == pairs_sizes(patterns@.subrange(0, i as int)),
            builder.spec_starts().len() == i,
            builder.alphabet_set() == pairs_chars(patterns@.subrange(0, i as int)),
            forall|p: int| match_pids(builder.spec_states()).contains(p)
                <==> pids_of(patterns@.subrange(0, i as int)).contains(p),
            forall|j: int| 0 <= j < i ==> node_shape(
                (#[trigger] patterns@[j]).0,
                builder.spec_states(),
                pairs_sizes(patterns@.subrange(0, j)),
            ),
            forall|j: int| 0 <= j < i ==> (#[trigger] builder.spec_starts()[j])@
                == node_start(patterns@[j].0, pairs_sizes(patterns@.subrange(0, j))),
            alphabet_covered(builder.spec_states(), builder.spec_alphabet()),
        decreases n - i,
    {
        let ghost before = builder.spec_states();
        let pid = patterns[i].1;
        builder.add_ast(&patterns[i].0, pid);
        proof {
            let after = builder.spec_states();
            let bl = before.len() as int;
            let m = choose|m: int|
                {
                    &&& bl <= m < after.len()
                    &&& after[m] == State::Match(pid)
                    &&& forall|w: int| bl <= w < after.len() && w != m
                        ==> !((#[trigger] after[w]) is Match)
                };
            assert forall|w: int| 0 <= w < bl implies #[trigger] after[w] == before[w] by {
                assert(after.subrange(0, bl)[w] == after[w]);
            }
            let pre = patterns@.subrange(0, i as int);
            let ext = patterns@.subrange(0, i as int + 1);
            assert(ext.drop_last() =~= pre);
            assert(ext.last() == patterns@[i as int]);
            assert forall|p: int| match_pids(after).contains(p) <==> pids_of(ext).contains(p) by {
                if match_pids(after).contains(p) {
                    let w = choose|w: int|
                        {
                            &&& 0 <= w < after.len()
                            &&& (#[trigger] after[w]) matches State::Match(pid2) && pid2@ == p
                        };
                    if w < bl {
                        assert(before[w] matches State::Match(pid3) && pid3@ == p);
                        assert(match_pids(before).contains(p));
                        assert(pids_of(pre).contains(p));
                        let q = choose|q: int| 0 <= q < pre.len() && (#[trigger] pre[q].1)@ == p;
                        assert(ext[q].1@ == p);
                        assert(pids_of(ext).contains(p));
                    } else {
                        assert(w == m);
                        assert(p == pid@);
                        assert(ext[i as int].1@ == p);
                        assert(pids_of(ext).contains(p));
                    }
                }
                if pids_of(ext).contains(p) {
                    let q = choose|q: int| 0 <= q < ext.len() && (#[trigger] ext[q].1)@ == p;
                    if q < i as int {
                        assert(pre[q].1@ == p);
                        assert(pids_of(pre).contains(p));
                        assert(match_pids(before).contains(p));
                        let w = choose|w: int|
                            {
                                &&& 0 <= w < before.len()
                                &&& (#[trigger] before[w]) matches State::Match(pid4) && pid4@ == p
                            };
                        assert(after[w] matches State::Match(pid5) && pid5@ == p);
                        assert(match_pids(after).contains(p));
                    } else {
                        assert(q == i as int);
                        assert(p == pid@);
                        assert(after[m] matches State::Match(pid6) && pid6@ == p);
                        assert(match_pids(after).contains(p));
                    }
                }
            }
            assert(builder.alphabet_set() =~= pairs_chars(ext)) by {
                assert(patterns@[i as int].0.chars() == ext.last().0.chars());
            }
            assert(pairs_sizes(ext) == pairs_sizes(pre) + patterns@[i as int].0.arena_size());
            // the shapes of the patterns already compiled survive the append
            assert forall|j: int| 0 <= j < i + 1 implies node_shape(
                (#[trigger] patterns@[j]).0,
                builder.spec_states(),
                pairs_sizes(patterns@.subrange(0, j)),
            ) by {
                if j < i {
                    let bj = pairs_sizes(patterns@.subrange(0, j));
                    let aj = patterns@[j].0;
                    assert(patterns@.subrange(0, 0) =~= Seq::<(Ast, PatternID)>::empty());
                    assert(pairs_sizes(patterns@.subrange(0, 0)) == 0);
                    lemma_pairs_sizes_take_mono(patterns@, 0, j);
                    lemma_pairs_sizes_take_mono(patterns@, j + 1, i as int);
                    assert(patterns@.subrange(0, j + 1).drop_last() =~= patterns@.subrange(0, j));
                    assert(patterns@.subrange(0, j + 1).last() == patterns@[j]);
                    assert(bj + aj.arena_size() <= before.len());
                    assert forall|w: int| bj <= w < bj + aj.arena_size() && w != node_end(aj, bj)
                        implies builder.spec_states()[w] == #[trigger] before[w] by {
                        assert(builder.spec_states().subrange(0, bl)[w]
                            == builder.spec_states()[w]);
                    }
                    lemma_node_shape_frame(aj, before, builder.spec_states(), bj);
                } else {
                    assert(before.len() == pairs_sizes(patterns@.subrange(0, j)));
                }
            }
            assert forall|j: int| 0 <= j < i + 1 implies (#[trigger] builder.spec_starts()[j])@
                == node_start(patterns@[j].0, pairs_sizes(patterns@.subrange(0, j))) by {
                if j < i {
                    assert(builder.spec_starts().subrange(0, i as int)[j]
                        == builder.spec_starts()[j]);
                } else {
                    assert(before.len() == pairs_sizes(patterns@.subrange(0, j)));
                }
            }
        }
        i = i + 1;
    }
    let ghost mid = builder;
    let nfa = builder.build();
    proof {
        let ss = nfa.spec_states();
        let bl = mid.spec_states().len() as int;
        assert forall|w: int| 0 <= w < bl implies #[trigger] ss[w] == mid.spec_states()[w] by {
            assert(ss.subrange(0, bl)[w] == ss[w]);
        }
        assert(patterns@.subrange(0, n as int) =~= patterns@);
        assert(nfa.spec_states().len() == pairs_sizes(patterns@) + 1);
        assert(nfa.spec_start() == pairs_sizes(patterns@));
        assert forall|p: int| match_pids(ss).contains(p) <==> pids_of(patterns@).contains(p) by {
            if match_pids(ss).contains(p) {
                let w = choose|w: int|
                    {
                        &&& 0 <= w < ss.len()
                        &&& (#[trigger] ss[w]) matches State::Match(pid7) && pid7@ == p
                    };
                assert(w < bl);
                assert(mid.spec_states()[w] matches State::Match(pid8) && pid8@ == p);
                assert(match_pids(mid.spec_states()).contains(p));
            }
            if pids_of(patterns@).contains(p) {
                assert(match_pids(mid.spec_states()).contains(p));
                let w = choose|w: int|
                    {
                        &&& 0 <= w < mid.spec_states().len()
                        &&& (#[trigger] mid.spec_states()[w]) matches State::Match(pid9) && pid9@ == p
                    };
                assert(ss[w] matches State::Match(pid10) && pid10@ == p);
                assert(match_pids(ss).contains(p));
            }
        }
        assert(match_pids(ss) =~= pids_of(patterns@));
        assert(nfa.alphabet_set() =~= pairs_chars(patterns@));
        // every pattern's shape survives the root append, and the root fans
        // out to exactly the recorded start states
        assert forall|k: int| 0 <= k < patterns@.len() implies node_shape(
            (#[trigger] patterns@[k]).0,
            ss,
            pairs_sizes(patterns@.subrange(0, k)),
        ) by {
            let bk = pairs_sizes(patterns@.subrange(0, k));
            let ak = patterns@[k].0;
            assert(patterns@.subrange(0, 0) =~= Seq::<(Ast, PatternID)>::empty());
            assert(pairs_sizes(patterns@.subrange(0, 0)) == 0);
            lemma_pairs_sizes_take_mono(patterns@, 0, k);
            lemma_pairs_sizes_take_mono(patterns@, k + 1, n as int);
            assert(patterns@.subrange(0, k + 1).drop_last() =~= patterns@.subrange(0, k));
            assert(patterns@.subrange(0, k + 1).last() == patterns@[k]);
            assert(patterns@.subrange(0, n as int) == patterns@);
            assert(bk + ak.arena_size() <= bl);
            assert forall|w: int| bk <= w < bk + ak.arena_size() && w != node_end(ak, bk)
                implies ss[w] == #[trigger] mid.spec_states()[w] by {
                assert(ss.subrange(0, bl)[w] == ss[w]);
            }
            lemma_node_shape_frame(ak, mid.spec_states(), ss, bk);
        }
        assert(ss[nfa.spec_start()] matches State::Alternation(ts) && ts@ == mid.spec_starts());
    }
    Ok(nfa)
}

impl NFA {
    /// Compiles `ast` into an NFA tagged with `pattern`; rejects invalid
    /// trees with `InvalidAst` instead of returning a partial automaton.
    pub fn new(ast: &Ast, pattern: PatternID) -> (r: Result<NFA, BuildError>)
        ensures
            r is Ok <==> ast.wf(),
            !ast.wf() ==> r == Err::<NFA, BuildError>(BuildError::InvalidAst),
            r matches Ok(nfa) ==> {
                &&& nfa.wf()
                &&& nfa.alphabet_set() == ast.chars()
                &&& match_pids(nfa.spec_states()) == Set::<int>::empty().insert(pattern@)
                &&& unique_match(nfa.spec_states())
                &&& nfa.spec_states().len() == ast.arena_size() + 1
                &&& nfa.spec_start() == ast.arena_size()
                &&& node_shape(*ast, nfa.spec_states(), 0)
                &&& nfa.spec_states()[nfa.spec_start()] matches State::Alternation(ts)
                    && ts@.len() == 1 && ts@[0]@ == node_start(*ast, 0)
            },
    {
        compile(ast, pattern)
    }
}

} // verus!
