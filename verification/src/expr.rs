//! Compiling expressions through the combinator constructors.
//!
//! `thompsons_construction` folds a regular expression into a linear NFA by
//! reducing child automata with `NFA::concatenation`, `NFA::union` and
//! `NFA::kleene_star`.  The resulting arena size is pinned exactly by
//! `Expr::nfa_size`, so a repetition nested inside a repetition still
//! yields a finite automaton of known size.

use vstd::prelude::*;

use crate::ast::BuildError;
use crate::nfa::NFA;
use crate::state::State;
use crate::thompson::{concat_shape, star_shape, union_shape};

verus! {

/// A regular expression, in the same shape the syntax-tree type uses.
#[derive(Debug, PartialEq, Eq)]
pub enum Expr {
    /// Matches the empty string.
    Empty,
    /// Matches exactly one occurrence of the symbol.
    Character(char),
    /// Matches its children in order.
    Concatenation(Vec<Expr>),
    /// Matches any one of its children.
    Alternation(Vec<Expr>),
    /// Matches zero or more occurrences of its child.
    Repetition(Box<Expr>),
}

impl Expr {
    /// Every concatenation and alternation node has at least one child.
    pub open spec fn wf(self) -> bool
        decreases self,
    {
        match self {
            Expr::Empty => true,
            Expr::Character(_) => true,
            Expr::Concatenation(children) => children@.len() >= 1
                && (forall|i: int| 0 <= i < children@.len() ==> (#[trigger] children@[i]).wf()),
            Expr::Alternation(children) => children@.len() >= 1
                && (forall|i: int| 0 <= i < children@.len() ==> (#[trigger] children@[i]).wf()),
            Expr::Repetition(child) => (*child).wf(),
        }
    }

    /// The set of symbols that occur in `Character` nodes.
    pub open spec fn chars(self) -> Set<char>
        decreases self,
    {
        match self {
            Expr::Empty => Set::<char>::empty(),
            Expr::Character(c) => Set::<char>::empty().insert(c),
            Expr::Concatenation(children) => expr_seq_chars(children@),
            Expr::Alternation(children) => expr_seq_chars(children@),
            Expr::Repetition(child) => (*child).chars(),
        }
    }

    /// How many arena states Thompson's construction produces for this
    /// expression: two per leaf, one fewer per concatenation join, two more
    /// per alternation branch pair and per repetition.
    pub open spec fn nfa_size(self) -> int
        decreases self,
    {
        match self {
            Expr::Empty => 2,
            Expr::Character(_) => 2,
            Expr::Concatenation(children) => concat_size(children@),
            Expr::Alternation(children) => alt_size(children@),
            Expr::Repetition(child) => (*child).nfa_size() + 2,
        }
    }

    /// Whether every concatenation and alternation node has a child.
    pub fn check_wf(&self) -> (r: bool)
        ensures
            r == self.wf(),
        decreases *self,
    {
        match self {
            Expr::Empty => true,
            Expr::Character(_) => true,
            Expr::Concatenation(children) => {
                if children.len() == 0 {
                    return false;
                }
                expr_check_wf_all(children)
            },
            Expr::Alternation(children) => {
                if children.len() == 0 {
                    return false;
                }
                expr_check_wf_all(children)
            },
            Expr::Repetition(child) => child.check_wf(),
        }
    }
}

/// Whether every member of `children` is well formed.
#[verifier::loop_isolation(false)]
fn expr_check_wf_all(children: &Vec<Expr>) -> (r: bool)
    ensures
        r == forall|i: int| 0 <= i < children@.len() ==> (#[trigger] children@[i]).wf(),
    decreases children@,
{
    let n = children.len();
    let mut i: usize = 0;
    while i < n
        invariant
            i <= n,
            forall|k: int| 0 <= k < i ==> (#[trigger] children@[k]).wf(),
        decreases n - i,
    {
        proof {
            assert(decreases_to!(children@ => children@[i as int]));
        }
        if !children[i].check_wf() {
            return false;
        }
        i = i + 1;
    }
    true
}

/// The set of symbols occurring in any member of `s`.
pub open spec fn expr_seq_chars(s: Seq<Expr>) -> Set<char>
    decreases s,
{
    if s.len() == 0 {
        Set::<char>::empty()
    } else {
        expr_seq_chars(s.drop_last()).union(s.last().chars())
    }
}

/// The arena size of the concatenation of `s`: the accepting state of each
/// automaton but the last is merged away.
pub open spec fn concat_size(s: Seq<Expr>) -> int
    decreases s,
{
    if s.len() == 0 {
        0
    } else if s.len() == 1 {
        s[0].nfa_size()
    } else {
        concat_size(s.drop_last()) + s.last().nfa_size() - 1
    }
}

/// The arena size of the alternation of `s`: each further branch adds a
/// fresh fan-out and a fresh accepting state.
pub open spec fn alt_size(s: Seq<Expr>) -> int
    decreases s,
{
    if s.len() == 0 {
        0
    } else if s.len() == 1 {
        s[0].nfa_size()
    } else {
        alt_size(s.drop_last()) + s.last().nfa_size() + 2
    }
}

/// Every well-formed expression compiles to at least two states.
pub proof fn lemma_size_at_least_two(e: Expr)
    requires
        e.wf(),
    ensures
        e.nfa_size() >= 2,
    decreases e,
{
    match e {
        Expr::Empty => {},
        Expr::Character(_) => {},
        Expr::Concatenation(children) => {
            lemma_concat_size_lb(children@);
        },
        Expr::Alternation(children) => {
            lemma_alt_size_lb(children@);
        },
        Expr::Repetition(child) => {
            lemma_size_at_least_two(*child);
        },
    }
}

/// The concatenation of one or more well-formed expressions needs at least
/// two states.
pub proof fn lemma_concat_size_lb(s: Seq<Expr>)
    requires
        s.len() >= 1,
        forall|i: int| 0 <= i < s.len() ==> (#[trigger] s[i]).wf(),
    ensures
        concat_size(s) >= 2,
    decreases s,
{
    if s.len() == 1 {
        lemma_size_at_least_two(s[0]);
    } else {
        lemma_concat_size_lb(s.drop_last());
        lemma_size_at_least_two(s.last());
    }
}

/// The alternation of one or more well-formed expressions needs at least
/// two states.
pub proof fn lemma_alt_size_lb(s: Seq<Expr>)
    requires
        s.len() >= 1,
        forall|i: int| 0 <= i < s.len() ==> (#[trigger] s[i]).wf(),
    ensures
        alt_size(s) >= 2,
    decreases s,
{
    if s.len() == 1 {
        lemma_size_at_least_two(s[0]);
    } else {
        lemma_alt_size_lb(s.drop_last());
        lemma_size_at_least_two(s.last());
    }
}

/// A prefix of a concatenation never needs more states than the whole.
pub proof fn lemma_concat_size_prefix(s: Seq<Expr>, k: int)
    requires
        1 <= k <= s.len(),
        forall|i: int| 0 <= i < s.len() ==> (#[trigger] s[i]).wf(),
    ensures
        concat_size(s.take(k)) <= concat_size(s),
    decreases s.len() - k,
{
    if k == s.len() {
        assert(s.take(k) =~= s);
    } else {
        assert(s.take(k + 1).drop_last() =~= s.take(k));
        assert(s.take(k + 1).last() == s[k]);
        lemma_size_at_least_two(s[k]);
        lemma_concat_size_prefix(s, k + 1);
    }
}

/// The arena a compiled expression yields, slot by slot: leaves are the
/// two-state automata, and every composite arena is the corresponding
/// combinator shape over arenas of its children.
pub open spec fn expr_shape(e: Expr, ss: Seq<State>) -> bool
    decreases e,
{
    match e {
        Expr::Empty => ss.len() == 2
            && (ss[0] matches State::Empty(t) && t@ == 1)
            && ss[1] is Match,
        Expr::Character(c) => ss.len() == 2
            && (ss[0] matches State::Character(t, sym) && t@ == 1 && sym == c)
            && ss[1] is Match,
        Expr::Concatenation(children) => children@.len() >= 1
            && concat_fold_shape(children@, ss),
        Expr::Alternation(children) => children@.len() >= 1
            && union_fold_shape(children@, ss),
        Expr::Repetition(child) => exists|body: Seq<State>|
            {
                &&& expr_shape(*child, body)
                &&& #[trigger] star_shape(body, ss)
            },
    }
}

/// The arena of a left fold of `NFA::concatenation` over the children.
pub open spec fn concat_fold_shape(es: Seq<Expr>, ss: Seq<State>) -> bool
    decreases es,
{
    if es.len() <= 1 {
        es.len() == 1 && expr_shape(es[0], ss)
    } else {
        exists|f: Seq<State>, s2: Seq<State>|
            {
                &&& concat_fold_shape(es.drop_last(), f)
                &&& expr_shape(es.last(), s2)
                &&& #[trigger] concat_shape(f, s2, ss)
            }
    }
}

/// The arena of a left fold of `NFA::union` over the children.
pub open spec fn union_fold_shape(es: Seq<Expr>, ss: Seq<State>) -> bool
    decreases es,
{
    if es.len() <= 1 {
        es.len() == 1 && expr_shape(es[0], ss)
    } else {
        exists|f: Seq<State>, s2: Seq<State>|
            {
                &&& union_fold_shape(es.drop_last(), f)
                &&& expr_shape(es.last(), s2)
                &&& #[trigger] union_shape(f, s2, ss)
            }
    }
}

/// Wrapping a compiled body in the repetition combinator yields the shape
/// of the repetition expression.
proof fn lemma_star_shape_intro(child: Box<Expr>, body: Seq<State>, ss: Seq<State>)
    requires
        expr_shape(*child, body),
        star_shape(body, ss),
    ensures
        expr_shape(Expr::Repetition(child), ss),
{
    assert(exists|body2: Seq<State>|
        {
            &&& expr_shape(*child, body2)
            &&& #[trigger] star_shape(body2, ss)
        });
}

/// A prefix of an alternation never needs more states than the whole.
pub proof fn lemma_alt_size_prefix(s: Seq<Expr>, k: int)
    requires
        1 <= k <= s.len(),
        forall|i: int| 0 <= i < s.len() ==> (#[trigger] s[i]).wf(),
    ensures
        alt_size(s.take(k)) <= alt_size(s),
    decreases s.len() - k,
{
    if k == s.len() {
        assert(s.take(k) =~= s);
    } else {
        assert(s.take(k + 1).drop_last() =~= s.take(k));
        assert(s.take(k + 1).last() == s[k]);
        lemma_size_at_least_two(s[k]);
        lemma_alt_size_prefix(s, k + 1);
    }
}

/// Compiles an expression into a linear NFA by combining sub-automata.
/// Childless concatenations and alternations are rejected with
/// `InvalidAst`; otherwise the automaton's arena size is exactly
/// `expr.nfa_size()` and its alphabet is exactly the symbols of `expr`.
pub fn thompsons_construction(expr: &Expr) -> (r: Result<NFA, BuildError>)
    requires
        expr.wf() ==> expr.nfa_size() <= usize::MAX,
    ensures
        r is Ok <==> expr.wf(),
        !expr.wf() ==> r == Err::<NFA, BuildError>(BuildError::InvalidAst),
        r matches Ok(nfa) ==> {
            &&& nfa.linear()
            &&& nfa.spec_states().len() == expr.nfa_size()
            &&& nfa.alphabet_set() == expr.chars()
            &&& expr_shape(*expr, nfa.spec_states())
        },
{
    if !expr.check_wf() {
        return Err(BuildError::InvalidAst);
    }
    Ok(build_expr(expr))
}

/// Compiles a well-formed expression into a linear NFA.
fn build_expr(expr: &Expr) -> (r: NFA)
    requires
        expr.wf(),
        expr.nfa_size() <= usize::MAX,
    ensures
        r.linear(),
        r.spec_states().len() == expr.nfa_size(),
        r.alphabet_set() == expr.chars(),
        expr_shape(*expr, r.spec_states()),
    decreases *expr,
{
    match expr {
        Expr::Empty => {
            let nfa = NFA::empty();
            proof {
                assert(nfa.alphabet_set() =~= expr.chars());
                assert(expr_shape(*expr, nfa.spec_states()));
            }
            nfa
        },
        Expr::Character(c) => {
            let nfa = NFA::character(*c);
            proof {
                assert(nfa.alphabet_set() =~= expr.chars());
                assert(expr_shape(*expr, nfa.spec_states()));
            }
            nfa
        },
        Expr::Concatenation(children) => {
            let n = children.len();
            let ghost cs = children@;
            proof {
                assert(decreases_to!(*expr => children@[0]));
                assert(cs.take(1) =~= seq![cs[0]]);
                lemma_concat_size_prefix(cs, 1);
            }
            let mut cur = build_expr(&children[0]);
            let mut k: usize = 1;
            proof {
                assert(expr_seq_chars(cs.take(1)) =~= cs[0].chars()) by {
                    assert(cs.take(1).drop_last() =~= Seq::<Expr>::empty());
                    assert(cs.take(1).last() == cs[0]);
                    assert(expr_seq_chars(Seq::<Expr>::empty()) == Set::<char>::empty());
                    assert(expr_seq_chars(cs.take(1))
                        == expr_seq_chars(cs.take(1).drop_last()).union(cs.take(1).last().chars()));
                }
            }
            proof {
                assert(concat_fold_shape(cs.take(1), cur.spec_states())) by {
                    assert(cs.take(1)[0] == cs[0]);
                }
            }
            #[verifier::loop_isolation(false)]
            while k < n
                invariant
                    1 <= k <= n,
                    cur.linear(),
                    cur.spec_states().len() == concat_size(cs.take(k as int)),
                    cur.alphabet_set() == expr_seq_chars(cs.take(k as int)),
                    concat_fold_shape(cs.take(k as int), cur.spec_states()),
                decreases n - k,
            {
                proof {
                    assert(decreases_to!(*expr => children@[k as int]));
                    assert(cs.take(k as int + 1).drop_last() =~= cs.take(k as int));
                    assert(cs.take(k as int + 1).last() == cs[k as int]);
                    lemma_concat_size_lb_prefix(cs, k as int);
                    lemma_size_at_least_two(cs[k as int]);
                    lemma_concat_size_prefix(cs, k as int + 1);
                }
                let ghost prev_states = cur.spec_states();
                let sub = build_expr(&children[k]);
                let ghost sub_states = sub.spec_states();
                cur = NFA::concatenation(cur, sub);
                proof {
                    assert(concat_fold_shape(cs.take(k as int + 1), cur.spec_states())) by {
                        assert(cs.take(k as int + 1).drop_last() == cs.take(k as int));
                        assert(concat_fold_shape(cs.take(k as int), prev_states));
                        assert(expr_shape(cs[k as int], sub_states));
                        assert(concat_shape(prev_states, sub_states, cur.spec_states()));
                    }
                }
                k = k + 1;
            }
            proof {
                assert(cs.take(n as int) =~= cs);
                assert(expr_shape(*expr, cur.spec_states()));
            }
            cur
        },
        Expr::Alternation(children) => {
            let n = children.len();
            let ghost cs = children@;
            proof {
                assert(decreases_to!(*expr => children@[0]));
                assert(cs.take(1) =~= seq![cs[0]]);
                lemma_alt_size_prefix(cs, 1);
            }
            let mut cur = build_expr(&children[0]);
            let mut k: usize = 1;
            proof {
                assert(expr_seq_chars(cs.take(1)) =~= cs[0].chars()) by {
                    assert(cs.take(1).drop_last() =~= Seq::<Expr>::empty());
                    assert(cs.take(1).last() == cs[0]);
                    assert(expr_seq_chars(Seq::<Expr>::empty()) == Set::<char>::empty());
                    assert(expr_seq_chars(cs.take(1))
                        == expr_seq_chars(cs.take(1).drop_last()).union(cs.take(1).last().chars()));
                }
            }
            proof {
                assert(union_fold_shape(cs.take(1), cur.spec_states())) by {
                    assert(cs.take(1)[0] == cs[0]);
                }
            }
            #[verifier::loop_isolation(false)]
            while k < n
                invariant
                    1 <= k <= n,
                    cur.linear(),
                    cur.spec_states().len() == alt_size(cs.take(k as int)),
                    cur.alphabet_set() == expr_seq_chars(cs.take(k as int)),
                    union_fold_shape(cs.take(k as int), cur.spec_states()),
                decreases n - k,
            {
                proof {
                    assert(decreases_to!(*expr => children@[k as int]));
                    assert(cs.take(k as int + 1).drop_last() =~= cs.take(k as int));
                    assert(cs.take(k as int + 1).last() == cs[k as int]);
                    lemma_alt_size_lb_prefix(cs, k as int);
                    lemma_size_at_least_two(cs[k as int]);
                    lemma_alt_size_prefix(cs, k as int + 1);
                }
                let ghost prev_states = cur.spec_states();
                let sub = build_expr(&children[k]);
                let ghost sub_states = sub.spec_states();
                cur = NFA::union(cur, sub);
                proof {
                    assert(union_fold_shape(cs.take(k as int + 1), cur.spec_states())) by {
                        assert(cs.take(k as int + 1).drop_last() == cs.take(k as int));
                        assert(union_fold_shape(cs.take(k as int), prev_states));
                        assert(expr_shape(cs[k as int], sub_states));
                        assert(union_shape(prev_states, sub_states, cur.spec_states()));
                    }
                }
                k = k + 1;
            }
            proof {
                assert(cs.take(n as int) =~= cs);
                assert(expr_shape(*expr, cur.spec_states()));
            }
            cur
        },
        Expr::Repetition(child) => {
            proof {
                assert(decreases_to!(*expr => *child));
            }
            let body = build_expr(child);
            let ghost body_states = body.spec_states();
            let star = NFA::kleene_star(body);
            proof {
                lemma_star_shape_intro(*child, body_states, star.spec_states());
                assert(*expr == Expr::Repetition(*child));
                assert(expr_shape(*expr, star.spec_states()));
            }
            star
        },
    }
}

/// A nonempty prefix of well-formed children needs at least two states.
proof fn lemma_concat_size_lb_prefix(s: Seq<Expr>, k: int)
    requires
        1 <= k <= s.len(),
        forall|i: int| 0 <= i < s.len() ==> (#[trigger] s[i]).wf(),
    ensures
        concat_size(s.take(k)) >= 2,
{
    assert forall|i: int| 0 <= i < s.take(k).len() implies (#[trigger] s.take(k)[i]).wf() by {
        assert(s.take(k)[i] == s[i]);
    }
    lemma_concat_size_lb(s.take(k));
}

/// A nonempty prefix of well-formed branches needs at least two states.
proof fn lemma_alt_size_lb_prefix(s: Seq<Expr>, k: int)
    requires
        1 <= k <= s.len(),
        forall|i: int| 0 <= i < s.len() ==> (#[trigger] s[i]).wf(),
    ensures
        alt_size(s.take(k)) >= 2,
{
    assert forall|i: int| 0 <= i < s.take(k).len() implies (#[trigger] s.take(k)[i]).wf() by {
        assert(s.take(k)[i] == s[i]);
    }
    lemma_alt_size_lb(s.take(k));
}

} // verus!
