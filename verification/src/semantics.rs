//! The mathematical meaning of an automaton arena.
//!
//! Everything here is specification: which single steps an arena allows,
//! which states are reachable along epsilon edges, and what configuration a
//! whole input drives the automaton into.  The executable simulation and the
//! subset construction are specified, and proved correct, against these
//! definitions.

use vstd::prelude::*;

use crate::state::{wf_arena, State};

verus! {

/// One epsilon edge: slot `a` reaches slot `b` without consuming input.
pub open spec fn eps_step(ss: Seq<State>, a: int, b: int) -> bool {
    &&& 0 <= a < ss.len()
    &&& match ss[a] {
        State::Empty(t) => b == t@,
        State::Alternation(ts) => exists|k: int| 0 <= k < ts@.len() && #[trigger] ts@[k]@ == b,
        State::Character(_, _) => false,
        State::Match(_) => false,
    }
}

/// One consuming edge: slot `a` reaches slot `b` by reading the symbol `c`.
pub open spec fn char_step(ss: Seq<State>, a: int, c: char, b: int) -> bool {
    &&& 0 <= a < ss.len()
    &&& match ss[a] {
        State::Character(t, sym) => sym == c && b == t@,
        _ => false,
    }
}

/// Consecutive entries of `p` are joined by epsilon edges.
pub open spec fn is_eps_path(ss: Seq<State>, p: Seq<int>) -> bool {
    forall|i: int| 0 <= i < p.len() - 1 ==> eps_step(ss, #[trigger] p[i], p[i + 1])
}

/// State `b` is reachable from some member of `from` along epsilon edges alone.
pub open spec fn eps_reach(ss: Seq<State>, from: Set<int>, b: int) -> bool {
    exists|p: Seq<int>|
        {
            &&& #[trigger] is_eps_path(ss, p)
            &&& p.len() >= 1
            &&& from.contains(p[0])
            &&& p.last() == b
        }
}

/// The epsilon closure: every state reachable from `from` along epsilon
/// edges alone, including the members of `from` themselves.
pub open spec fn eps_closure(ss: Seq<State>, from: Set<int>) -> Set<int> {
    Set::new(|b: int| eps_reach(ss, from, b))
}

/// The states reached from `c` by reading the single symbol `chr`
/// (not yet epsilon-closed).
pub open spec fn spec_step(ss: Seq<State>, c: Set<int>, chr: char) -> Set<int> {
    Set::new(|b: int| exists|a: int| #[trigger] c.contains(a) && char_step(ss, a, chr, b))
}

/// One full simulation move: read `chr`, then epsilon-close.
pub open spec fn spec_next(ss: Seq<State>, c: Set<int>, chr: char) -> Set<int> {
    eps_closure(ss, spec_step(ss, c, chr))
}

/// The configuration after folding `spec_next` over `input`, starting at `c`.
pub open spec fn spec_run_from(ss: Seq<State>, c: Set<int>, input: Seq<char>) -> Set<int>
    decreases input.len(),
{
    if input.len() == 0 {
        c
    } else {
        spec_run_from(ss, spec_next(ss, c, input[0]), input.drop_first())
    }
}

/// Every member of `c` lies inside an arena of `n` slots.
pub open spec fn set_in_bounds(c: Set<int>, n: int) -> bool {
    forall|b: int| c.contains(b) ==> 0 <= b < n
}

/// A configuration accepts when it holds at least one `Match` state.
pub open spec fn accepting(ss: Seq<State>, c: Set<int>) -> bool {
    exists|a: int| #[trigger] c.contains(a) && 0 <= a < ss.len() && ss[a] is Match
}

/// Members of `from` are reachable from `from`.
pub proof fn lemma_reach_refl(ss: Seq<State>, from: Set<int>, b: int)
    requires
        from.contains(b),
    ensures
        eps_reach(ss, from, b),
{
    let p = seq![b];
    assert(is_eps_path(ss, p));
    assert(p.last() == b);
}

/// Reachability extends along a further epsilon edge.
pub proof fn lemma_reach_step(ss: Seq<State>, from: Set<int>, b: int, c: int)
    requires
        eps_reach(ss, from, b),
        eps_step(ss, b, c),
    ensures
        eps_reach(ss, from, c),
{
    let p = choose|p: Seq<int>|
        {
            &&& #[trigger] is_eps_path(ss, p)
            &&& p.len() >= 1
            &&& from.contains(p[0])
            &&& p.last() == b
        };
    let q = p.push(c);
    assert(q[p.len() as int - 1] == b);
    assert forall|i: int| 0 <= i < q.len() - 1 implies eps_step(ss, #[trigger] q[i], q[i + 1]) by {
        if i < p.len() - 1 {
            assert(eps_step(ss, p[i], p[i + 1]));
            assert(q[i] == p[i] && q[i + 1] == p[i + 1]);
        } else {
            assert(q[i] == b && q[i + 1] == c);
        }
    }
    assert(q.last() == c);
    assert(from.contains(q[0]));
    assert(is_eps_path(ss, q));
}

/// Along an epsilon path, a set that contains the start and is closed under
/// epsilon edges also contains the end.
proof fn lemma_path_in_closed(ss: Seq<State>, s: Set<int>, p: Seq<int>)
    requires
        is_eps_path(ss, p),
        p.len() >= 1,
        s.contains(p[0]),
        forall|a: int, b: int| #![trigger s.contains(a), eps_step(ss, a, b)] s.contains(a) && eps_step(ss, a, b) ==> s.contains(b),
    ensures
        s.contains(p.last()),
    decreases p.len(),
{
    if p.len() == 1 {
    } else {
        assert(eps_step(ss, p[0], p[1]));
        let q = p.drop_first();
        assert(s.contains(q[0]));
        assert forall|i: int| 0 <= i < q.len() - 1 implies eps_step(ss, #[trigger] q[i], q[i + 1]) by {
            assert(eps_step(ss, p[i + 1], p[i + 2]));
        }
        lemma_path_in_closed(ss, s, q);
        assert(q.last() == p.last());
    }
}

/// A set that contains `from` and is closed under epsilon edges contains the
/// whole epsilon closure of `from`.
pub proof fn lemma_closed_contains(ss: Seq<State>, from: Set<int>, s: Set<int>)
    requires
        forall|b: int| from.contains(b) ==> s.contains(b),
        forall|a: int, b: int| #![trigger s.contains(a), eps_step(ss, a, b)] s.contains(a) && eps_step(ss, a, b) ==> s.contains(b),
    ensures
        forall|b: int| eps_reach(ss, from, b) ==> s.contains(b),
{
    assert forall|b: int| eps_reach(ss, from, b) implies s.contains(b) by {
        let p = choose|p: Seq<int>|
            {
                &&& #[trigger] is_eps_path(ss, p)
                &&& p.len() >= 1
                &&& from.contains(p[0])
                &&& p.last() == b
            };
        lemma_path_in_closed(ss, s, p);
    }
}

/// Epsilon edges of a well-formed arena lead only into the arena.
pub proof fn lemma_eps_step_bound(ss: Seq<State>, a: int, b: int)
    requires
        wf_arena(ss),
        eps_step(ss, a, b),
    ensures
        0 <= b < ss.len(),
{
    assert(state_wf_at(ss, a));
}

spec fn state_wf_at(ss: Seq<State>, a: int) -> bool {
    0 <= a < ss.len() && crate::state::state_wf(ss[a], ss.len() as int)
}

/// Consuming edges of a well-formed arena lead only into the arena.
pub proof fn lemma_char_step_bound(ss: Seq<State>, a: int, c: char, b: int)
    requires
        wf_arena(ss),
        char_step(ss, a, c, b),
    ensures
        0 <= b < ss.len(),
{
    assert(state_wf_at(ss, a));
}

/// Epsilon closure is idempotent: closing a closure adds nothing.
pub proof fn lemma_closure_idempotent(ss: Seq<State>, from: Set<int>)
    ensures
        eps_closure(ss, eps_closure(ss, from)) == eps_closure(ss, from),
{
    let c = eps_closure(ss, from);
    assert forall|a: int, b: int| #![trigger c.contains(a), eps_step(ss, a, b)] c.contains(a) && eps_step(ss, a, b) implies c.contains(b) by {
        if c.contains(a) && eps_step(ss, a, b) {
            lemma_reach_step(ss, from, a, b);
        }
    }
    lemma_closed_contains(ss, c, c);
    assert forall|b: int| c.contains(b) implies eps_closure(ss, c).contains(b) by {
        lemma_reach_refl(ss, c, b);
    }
    assert(eps_closure(ss, c) =~= c);
}

/// The epsilon closure of the empty configuration is empty.
pub proof fn lemma_closure_empty(ss: Seq<State>)
    ensures
        eps_closure(ss, Set::<int>::empty()) == Set::<int>::empty(),
{
    assert(eps_closure(ss, Set::<int>::empty()) =~= Set::<int>::empty());
}

/// Reading any symbol from the empty configuration yields the empty set.
pub proof fn lemma_step_empty(ss: Seq<State>, chr: char)
    ensures
        spec_step(ss, Set::<int>::empty(), chr) == Set::<int>::empty(),
        spec_next(ss, Set::<int>::empty(), chr) == Set::<int>::empty(),
{
    assert(spec_step(ss, Set::<int>::empty(), chr) =~= Set::<int>::empty());
    lemma_closure_empty(ss);
}

/// A run that has reached the empty configuration stays empty.
pub proof fn lemma_run_empty(ss: Seq<State>, input: Seq<char>)
    ensures
        spec_run_from(ss, Set::<int>::empty(), input) == Set::<int>::empty(),
    decreases input.len(),
{
    if input.len() > 0 {
        lemma_step_empty(ss, input[0]);
        lemma_run_empty(ss, input.drop_first());
    }
}

/// Folding one more symbol onto a run steps the final configuration once.
pub proof fn lemma_run_push(ss: Seq<State>, c: Set<int>, input: Seq<char>, x: char)
    ensures
        spec_run_from(ss, c, input.push(x)) == spec_next(ss, spec_run_from(ss, c, input), x),
    decreases input.len(),
{
    let p = input.push(x);
    if input.len() == 0 {
        assert(p[0] == x);
        assert(p.drop_first() =~= Seq::<char>::empty());
        assert(spec_run_from(ss, c, p) == spec_run_from(ss, spec_next(ss, c, x), p.drop_first()));
        assert(spec_run_from(ss, spec_next(ss, c, x), Seq::<char>::empty()) == spec_next(ss, c, x));
        assert(spec_run_from(ss, c, input) == c);
    } else {
        assert(p[0] == input[0]);
        assert(p.drop_first() =~= input.drop_first().push(x));
        assert(spec_run_from(ss, c, p) == spec_run_from(ss, spec_next(ss, c, input[0]), p.drop_first()));
        assert(spec_run_from(ss, c, input) == spec_run_from(ss, spec_next(ss, c, input[0]), input.drop_first()));
        lemma_run_push(ss, spec_next(ss, c, input[0]), input.drop_first(), x);
    }
}

/// The empty configuration accepts nothing.
pub proof fn lemma_accepting_empty(ss: Seq<State>)
    ensures
        !accepting(ss, Set::<int>::empty()),
{
}

} // verus!
