//! Regular-expression abstract syntax trees.
//!
//! An `Ast` is produced upstream (by hand or by a parser) and compiled into
//! an automaton.  Concatenation and alternation nodes must have at least one
//! child; the smart constructors reject empty child lists with
//! [`BuildError::InvalidAst`] instead of ever panicking during compilation.

use vstd::prelude::*;

verus! {

/// Why an automaton could not be built.
#[derive(Clone, Copy, Debug, PartialEq, Eq, Structural)]
pub enum BuildError {
    /// A concatenation or alternation node has no children.
    InvalidAst,
}

/// A regular-expression syntax tree.
#[derive(Debug, PartialEq, Eq)]
pub enum Ast {
    /// Matches the empty string.
    Empty,
    /// Matches exactly one occurrence of the symbol.
    Character(char),
    /// Matches its children in order.
    Concatenation(Vec<Ast>),
    /// Matches any one of its children.
    Alternation(Vec<Ast>),
    /// Matches zero or more occurrences of its child.
    Repetition(Box<Ast>),
}

impl Ast {
    /// Every concatenation and alternation node has at least one child.
    pub open spec fn wf(self) -> bool
        decreases self,
    {
        match self {
            Ast::Empty => true,
            Ast::Character(_) => true,
            Ast::Concatenation(children) => children@.len() >= 1
                && (forall|i: int| 0 <= i < children@.len() ==> (#[trigger] children@[i]).wf()),
            Ast::Alternation(children) => children@.len() >= 1
                && (forall|i: int| 0 <= i < children@.len() ==> (#[trigger] children@[i]).wf()),
            Ast::Repetition(child) => (*child).wf(),
        }
    }

    /// The set of symbols that occur in `Character` nodes.
    pub open spec fn chars(self) -> Set<char>
        decreases self,
    {
        match self {
            Ast::Empty => Set::<char>::empty(),
            Ast::Character(c) => Set::<char>::empty().insert(c),
            Ast::Concatenation(children) => seq_chars(children@),
            Ast::Alternation(children) => seq_chars(children@),
            Ast::Repetition(child) => (*child).chars(),
        }
    }

    /// How many arena states the builder creates for this node: two per
    /// leaf, two more per alternation or repetition, none for the
    /// concatenation joins themselves.
    pub open spec fn arena_size(self) -> int
        decreases self,
    {
        match self {
            Ast::Empty => 2,
            Ast::Character(_) => 2,
            Ast::Concatenation(children) => seq_arena_sizes(children@),
            Ast::Alternation(children) => seq_arena_sizes(children@) + 2,
            Ast::Repetition(child) => (*child).arena_size() + 2,
        }
    }

    /// The syntax tree matching the empty string.
    pub fn empty() -> (r: Result<Self, BuildError>)
        ensures
            r == Ok::<Ast, BuildError>(Ast::Empty),
    {
        Ok(Ast::Empty)
    }

    /// The syntax tree matching exactly `chr`.
    pub fn character(chr: char) -> (r: Result<Self, BuildError>)
        ensures
            r == Ok::<Ast, BuildError>(Ast::Character(chr)),
    {
        Ok(Ast::Character(chr))
    }

    /// The concatenation of `asts`, in order; empty lists are rejected.
    pub fn concatenation(asts: Vec<Ast>) -> (r: Result<Self, BuildError>)
        ensures
            asts@.len() == 0 ==> r == Err::<Ast, BuildError>(BuildError::InvalidAst),
            asts@.len() > 0 ==> r == Ok::<Ast, BuildError>(Ast::Concatenation(asts)),
    {
        if asts.len() == 0 {
            Err(BuildError::InvalidAst)
        } else {
            Ok(Ast::Concatenation(asts))
        }
    }

    /// The alternation of `asts`; empty lists are rejected.
    pub fn alternation(asts: Vec<Ast>) -> (r: Result<Self, BuildError>)
        ensures
            asts@.len() == 0 ==> r == Err::<Ast, BuildError>(BuildError::InvalidAst),
            asts@.len() > 0 ==> r == Ok::<Ast, BuildError>(Ast::Alternation(asts)),
    {
        if asts.len() == 0 {
            Err(BuildError::InvalidAst)
        } else {
            Ok(Ast::Alternation(asts))
        }
    }

    /// Zero or more repetitions of `ast`.
    pub fn repetition(ast: Ast) -> (r: Result<Self, BuildError>)
        ensures
            r matches Ok(a) && a matches Ast::Repetition(child) && *child == ast,
    {
        Ok(Ast::Repetition(Box::new(ast)))
    }

    /// Whether every concatenation and alternation node has a child.
    pub fn check_wf(&self) -> (r: bool)
        ensures
            r == self.wf(),
        decreases *self,
    {
        match self {
            Ast::Empty => true,
            Ast::Character(_) => true,
            Ast::Concatenation(children) => {
                if children.len() == 0 {
                    return false;
                }
                check_wf_all(children)
            },
            Ast::Alternation(children) => {
                if children.len() == 0 {
                    return false;
                }
                check_wf_all(children)
            },
            Ast::Repetition(child) => child.check_wf(),
        }
    }

    /// An iterator over this node and all its descendants: each node is
    /// handed out before its children, with the children of a node arriving
    /// in reverse order.
    pub fn iter<'a>(&'a self) -> (r: AstIter<'a>)
        ensures
            r.stack@.len() == 1,
    {
        AstIter { stack: vec![self] }
    }
}

/// Whether every member of `children` is well formed.
#[verifier::loop_isolation(false)]
fn check_wf_all(children: &Vec<Ast>) -> (r: bool)
    ensures
        r == forall|i: int| 0 <= i < children@.len() ==> (#[trigger] children@[i]).wf(),
    decreases children@,
{
    let n = children.len();
    let mut i: usize = 0;
    while i < n
        invariant
            i <= n,
            forall|k: int| 0 <= k < i ==> (#[trigger] children@[k]).wf(),
        decreases n - i,
    {
        proof {
            assert(decreases_to!(children@ => children@[i as int]));
        }
        if !children[i].check_wf() {
            return false;
        }
        i = i + 1;
    }
    true
}

/// The arena states needed for every member of `s` together.
pub open spec fn seq_arena_sizes(s: Seq<Ast>) -> int
    decreases s,
{
    if s.len() == 0 {
        0
    } else {
        seq_arena_sizes(s.drop_last()) + s.last().arena_size()
    }
}

/// The set of symbols occurring in any member of `s`.
pub open spec fn seq_chars(s: Seq<Ast>) -> Set<char>
    decreases s,
{
    if s.len() == 0 {
        Set::<char>::empty()
    } else {
        seq_chars(s.drop_last()).union(s.last().chars())
    }
}

/// A well-formed node compiles to at least two arena states.
pub proof fn lemma_arena_size_at_least_two(ast: Ast)
    requires
        ast.wf(),
    ensures
        ast.arena_size() >= 2,
    decreases ast,
{
    match ast {
        Ast::Empty => {},
        Ast::Character(_) => {},
        Ast::Concatenation(children) => {
            lemma_seq_arena_sizes_lb(children@);
        },
        Ast::Alternation(children) => {
            lemma_seq_arena_sizes_lb(children@);
        },
        Ast::Repetition(child) => {
            lemma_arena_size_at_least_two(*child);
        },
    }
}

/// One or more well-formed nodes together need at least two arena states.
pub proof fn lemma_seq_arena_sizes_lb(s: Seq<Ast>)
    requires
        s.len() >= 1,
        forall|i: int| 0 <= i < s.len() ==> (#[trigger] s[i]).wf(),
    ensures
        seq_arena_sizes(s) >= 2,
    decreases s,
{
    if s.len() == 1 {
        lemma_arena_size_at_least_two(s[0]);
        assert(s.drop_last() =~= Seq::<Ast>::empty());
        assert(seq_arena_sizes(Seq::<Ast>::empty()) == 0);
    } else {
        assert forall|i: int| 0 <= i < s.drop_last().len()
            implies (#[trigger] s.drop_last()[i]).wf() by {
            assert(s.drop_last()[i] == s[i]);
        }
        lemma_seq_arena_sizes_lb(s.drop_last());
        lemma_arena_size_at_least_two(s.last());
    }
}

/// A prefix of well-formed nodes needs a nonnegative number of states,
/// at least two once it is nonempty.
pub proof fn lemma_sizes_take_nonneg(s: Seq<Ast>, k: int)
    requires
        0 <= k <= s.len(),
        forall|i: int| 0 <= i < s.len() ==> (#[trigger] s[i]).wf(),
    ensures
        seq_arena_sizes(s.take(k)) >= 0,
        k >= 1 ==> seq_arena_sizes(s.take(k)) >= 2,
    decreases k,
{
    if k == 0 {
        assert(s.take(0) =~= Seq::<Ast>::empty());
    } else {
        lemma_sizes_take_nonneg(s, k - 1);
        assert(s.take(k).drop_last() =~= s.take(k - 1));
        assert(s.take(k).last() == s[k - 1]);
        lemma_arena_size_at_least_two(s[k - 1]);
    }
}

/// A prefix of well-formed nodes never needs more states than the whole.
pub proof fn lemma_sizes_take_mono(s: Seq<Ast>, k: int)
    requires
        0 <= k <= s.len(),
        forall|i: int| 0 <= i < s.len() ==> (#[trigger] s[i]).wf(),
    ensures
        seq_arena_sizes(s.take(k)) <= seq_arena_sizes(s),
    decreases s.len() - k,
{
    if k == s.len() {
        assert(s.take(k) =~= s);
    } else {
        assert(s.take(k + 1).drop_last() =~= s.take(k));
        assert(s.take(k + 1).last() == s[k]);
        lemma_arena_size_at_least_two(s[k]);
        lemma_sizes_take_mono(s, k + 1);
    }
}

/// A depth-first walk over the nodes of an [`Ast`].
pub struct AstIter<'a> {
    /// Nodes whose subtrees are still to be visited.
    pub stack: Vec<&'a Ast>,
}

impl<'a> AstIter<'a> {
    /// Hands out the next node — the most recently stacked one — and
    /// stacks that node's children in list order, so they are visited
    /// after it, most recent child first.
    pub fn next(&mut self) -> (r: Option<&'a Ast>)
        ensures
            r is None <==> old(self).stack@.len() == 0,
            r is None ==> final(self).stack@ == old(self).stack@,
            r matches Some(ast) ==> {
                let popped = old(self).stack@.drop_last();
                &&& ast == old(self).stack@.last()
                &&& final(self).stack@.subrange(0, popped.len() as int) == popped
                &&& (*ast matches Ast::Concatenation(children) ==> {
                    &&& final(self).stack@.len() == popped.len() + children@.len()
                    &&& forall|i: int| #![trigger final(self).stack@[popped.len() + i]]
                        0 <= i < children@.len()
                            ==> *final(self).stack@[popped.len() + i] == children@[i]
                })
                &&& (*ast matches Ast::Alternation(children) ==> {
                    &&& final(self).stack@.len() == popped.len() + children@.len()
                    &&& forall|i: int| #![trigger final(self).stack@[popped.len() + i]]
                        0 <= i < children@.len()
                            ==> *final(self).stack@[popped.len() + i] == children@[i]
                })
                &&& (*ast matches Ast::Repetition(child) ==> {
                    &&& final(self).stack@.len() == popped.len() + 1
                    &&& *final(self).stack@[popped.len() as int] == *child
                })
                &&& (*ast is Empty ==> final(self).stack@ == popped)
                &&& (*ast is Character ==> final(self).stack@ == popped)
            },
    {
        match self.stack.pop() {
            None => None,
            Some(ast) => {
                match ast {
                    Ast::Concatenation(children) => {
                        self.push_children(children);
                    },
                    Ast::Alternation(children) => {
                        self.push_children(children);
                    },
                    Ast::Repetition(child) => {
                        self.stack.push(child);
                    },
                    _ => {},
                }
                proof {
                    assert(self.stack@.subrange(0, old(self).stack@.len() - 1)
                        =~= old(self).stack@.drop_last());
                }
                Some(ast)
            },
        }
    }

    /// Stacks every member of `children`, in order.
    #[verifier::loop_isolation(false)]
    fn push_children(&mut self, children: &'a Vec<Ast>)
        ensures
            final(self).stack@.len() == old(self).stack@.len() + children@.len(),
            final(self).stack@.subrange(0, old(self).stack@.len() as int) == old(self).stack@,
            forall|i: int| #![trigger final(self).stack@[old(self).stack@.len() + i]]
                0 <= i < children@.len()
                    ==> *final(self).stack@[old(self).stack@.len() + i] == children@[i],
    {
        let n = children.len();
        let mut i: usize = 0;
        while i < n
            invariant
                i <= n,
                self.stack@.len() == old(self).stack@.len() + i,
                self.stack@.subrange(0, old(self).stack@.len() as int) == old(self).stack@,
                forall|k: int| #![trigger self.stack@[old(self).stack@.len() + k]]
                    0 <= k < i ==> *self.stack@[old(self).stack@.len() + k] == children@[k],
            decreases n - i,
        {
            self.stack.push(&children[i]);
            proof {
                assert(self.stack@.subrange(0, old(self).stack@.len() as int)
                    =~= old(self).stack@);
            }
            i = i + 1;
        }
    }
}

} // verus!
