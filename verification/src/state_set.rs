//! Canonical, ordered, duplicate-free sets of state handles.
//!
//! A `StateSet` keeps its members strictly sorted by arena index.  Two sets
//! with the same members therefore hold exactly the same vector, which is
//! what lets the subset construction recognise a configuration it has seen
//! before regardless of the path that produced it.

use vstd::prelude::*;

use crate::state_id::StateID;

verus! {

/// A sequence of integers that is strictly increasing.
pub open spec fn sorted_strict(s: Seq<int>) -> bool {
    forall|i: int, j: int| #![trigger s[i], s[j]] 0 <= i < j < s.len() ==> s[i] < s[j]
}

/// The set of values occurring in a sequence.
pub open spec fn set_of(s: Seq<int>) -> Set<int> {
    Set::new(|b: int| s.contains(b))
}

/// An ordered, duplicate-free set of `StateID`s.
#[derive(Debug, PartialEq, Eq, PartialOrd, Ord, Hash)]
pub struct StateSet {
    states: Vec<StateID>,
}

impl View for StateSet {
    type V = Set<int>;

    open spec fn view(&self) -> Set<int> {
        set_of(self.seq())
    }
}

impl StateSet {
    /// The members in their canonical (strictly increasing) order.
    pub closed spec fn seq(self) -> Seq<int> {
        self.states@.map_values(|s: StateID| s@)
    }

    /// The members are nonnegative and strictly sorted.
    pub open spec fn wf(self) -> bool {
        &&& sorted_strict(self.seq())
        &&& forall|i: int| 0 <= i < self.seq().len() ==> #[trigger] self.seq()[i] >= 0
    }

    /// The empty set.
    pub fn new() -> (r: Self)
        ensures
            r.wf(),
            r.seq() == Seq::<int>::empty(),
            r@ == Set::<int>::empty(),
    {
        let r = StateSet { states: Vec::new() };
        proof {
            assert(r.seq() =~= Seq::<int>::empty());
            assert(r@ =~= Set::<int>::empty());
        }
        r
    }

    /// The singleton set holding `state`.
    pub fn with_state(state: StateID) -> (r: Self)
        ensures
            r.wf(),
            r.seq() == seq![state@],
            r@ == Set::<int>::empty().insert(state@),
    {
        let mut r = StateSet::new();
        r.insert(state);
        proof {
            assert(r@.contains(state@));
            assert(r.seq().contains(state@));
            let k = choose|k: int| 0 <= k < r.seq().len() && r.seq()[k] == state@;
            assert(r.seq() =~= seq![state@]);
        }
        r
    }

    /// The set of all members of `states`, in canonical order.
    #[verifier::loop_isolation(false)]
    pub fn with_states(states: &Vec<StateID>) -> (r: Self)
        ensures
            r.wf(),
            forall|b: int| r@.contains(b) <==> exists|k: int| 0 <= k < states@.len() && states@[k]@ == b,
    {
        let mut r = StateSet::new();
        let mut i: usize = 0;
        while i < states.len()
            invariant
                i <= states@.len(),
                r.wf(),
                forall|b: int| r@.contains(b) <==> exists|k: int| 0 <= k < i && states@[k]@ == b,
            decreases states@.len() - i,
        {
            let s = states[i];
            r.insert(s);
            i = i + 1;
        }
        r
    }

    /// The position where `v` sits, or would be inserted, in canonical order.
    #[verifier::loop_isolation(false)]
    fn position_from(&self, v: usize) -> (j: usize)
        ensures
            j <= self.seq().len(),
            forall|k: int| 0 <= k < j ==> #[trigger] self.seq()[k] < v,
            j < self.seq().len() ==> self.seq()[j as int] >= v,
    {
        let n = self.states.len();
        let mut j: usize = 0;
        while j < n
            invariant
                j <= n,
                n == self.states@.len(),
                forall|k: int| 0 <= k < j ==> #[trigger] self.seq()[k] < v,
            decreases n - j,
        {
            let u = self.states[j].as_usize();
            proof {
                assert(self.seq()[j as int] == u as int);
            }
            if u >= v {
                return j;
            }
            j = j + 1;
        }
        j
    }

    /// Adds `state`; reports whether it was newly added.
    pub fn insert(&mut self, state: StateID) -> (added: bool)
        requires
            old(self).wf(),
        ensures
            final(self).wf(),
            final(self)@ == old(self)@.insert(state@),
            added == !old(self)@.contains(state@),
            added ==> final(self).seq().len() == old(self).seq().len() + 1,
            !added ==> final(self).seq() == old(self).seq(),
    {
        let n = self.states.len();
        let v = state.as_usize();
        let j = self.position_from(v);
        if j < n && self.states[j].as_usize() == v {
            proof {
                assert(self.seq()[j as int] == v as int);
                assert(self.seq().contains(v as int));
                assert(self@ =~= old(self)@.insert(state@));
            }
            return false;
        }
        proof {
            // every member at or after position j is strictly greater than v
            assert forall|k: int| j <= k < n implies #[trigger] self.seq()[k] > v by {
                if k == j {
                    assert(self.seq()[k] != v as int);
                } else {
                    assert(self.seq()[j as int] < self.seq()[k]);
                    assert(self.seq()[j as int] != v as int);
                }
            }
        }
        let ghost old_seq = self.seq();
        self.states.insert(j, state);
        proof {
            assert(self.seq() =~= old_seq.insert(j as int, state@));
            old_seq.insert_ensures(j as int, state@);
            assert forall|b: int| self.seq().contains(b) <==> (old_seq.contains(b) || b == v as int) by {
                if self.seq().contains(b) {
                    let k = choose|k: int| 0 <= k < self.seq().len() && self.seq()[k] == b;
                    if k < j {
                        assert(old_seq[k] == b);
                    } else if k == j {
                        assert(b == v as int);
                    } else {
                        assert(old_seq[k - 1] == b);
                    }
                } else {
                }
                if old_seq.contains(b) {
                    let k = choose|k: int| 0 <= k < old_seq.len() && old_seq[k] == b;
                    if k < j {
                        assert(self.seq()[k] == b);
                    } else {
                        assert(self.seq()[k + 1] == b);
                    }
                }
                if b == v as int {
                    assert(self.seq()[j as int] == b);
                }
            }
            assert(self@ =~= old(self)@.insert(state@));
            assert forall|i1: int, i2: int| 0 <= i1 < i2 < self.seq().len() implies self.seq()[i1] < self.seq()[i2] by {
                if i2 < j {
                    assert(old_seq[i1] < old_seq[i2]);
                } else if i1 > j {
                    assert(old_seq[i1 - 1] < old_seq[i2 - 1]);
                } else if i1 == j && i2 > j {
                    assert(self.seq()[i2] == old_seq[i2 - 1]);
                } else if i2 == j {
                    assert(self.seq()[i1] == old_seq[i1]);
                } else {
                    // i1 < j < i2
                    assert(self.seq()[i1] == old_seq[i1]);
                    assert(self.seq()[i2] == old_seq[i2 - 1]);
                    assert(old_seq[i1] < v as int);
                }
            }
            assert(!old_seq.contains(v as int));
        }
        true
    }

    /// Whether the set has no members.
    pub fn is_empty(&self) -> (r: bool)
        ensures
            r <==> self.seq().len() == 0,
            r <==> self@ == Set::<int>::empty(),
    {
        let r = self.states.len() == 0;
        proof {
            if self.seq().len() == 0 {
                assert forall|b: int| !self@.contains(b) by {}
                assert(self@ =~= Set::<int>::empty());
            } else {
                assert(self.seq().contains(self.seq()[0]));
                assert(self@.contains(self.seq()[0]));
            }
        }
        r
    }

    /// Whether `state` is a member.
    #[verifier::loop_isolation(false)]
    pub fn contains(&self, state: StateID) -> (r: bool)
        ensures
            r == self@.contains(state@),
    {
        let n = self.states.len();
        let v = state.as_usize();
        let mut j: usize = 0;
        while j < n
            invariant
                j <= n,
                n == self.states@.len(),
                forall|k: int| 0 <= k < j ==> #[trigger] self.seq()[k] != v,
            decreases n - j,
        {
            if self.states[j].as_usize() == v {
                proof {
                    assert(self.seq()[j as int] == v as int);
                    assert(self.seq().contains(state@));
                    assert(self@.contains(state@));
                }
                return true;
            }
            proof {
                assert(self.seq()[j as int] != v as int);
            }
            j = j + 1;
        }
        proof {
            if self.seq().contains(v as int) {
                let k = choose|k: int| 0 <= k < self.seq().len() && self.seq()[k] == v;
                assert(self.seq()[k] != v as int);
            }
        }
        false
    }

    /// The number of members.
    pub fn len(&self) -> (r: usize)
        ensures
            r == self.seq().len(),
    {
        self.states.len()
    }

    /// The member at position `i` in canonical order.
    pub fn index(&self, i: usize) -> (r: StateID)
        requires
            i < self.seq().len(),
        ensures
            r@ == self.seq()[i as int],
            self@.contains(r@),
    {
        let r = self.states[i];
        proof {
            assert(self.seq()[i as int] == r@);
            assert(self.seq().contains(r@));
        }
        r
    }

    /// An iterator over the members in canonical order.
    pub fn iter<'a>(&'a self) -> (r: StateSetIter<'a>)
        ensures
            r.set == self,
            r.pos == 0,
    {
        StateSetIter { set: self, pos: 0 }
    }
}

impl Clone for StateSet {
    /// Clones preserve the members exactly.
    #[verifier::loop_isolation(false)]
    fn clone(&self) -> (r: Self)
        ensures
            r.seq() == self.seq(),
            r@ == self@,
            r.wf() == self.wf(),
    {
        let mut v: Vec<StateID> = Vec::new();
        let mut i: usize = 0;
        let n = self.states.len();
        while i < n
            invariant
                i <= n,
                n == self.states@.len(),
                v@ =~= self.states@.subrange(0, i as int),
            decreases n - i,
        {
            v.push(self.states[i]);
            i = i + 1;
        }
        let r = StateSet { states: v };
        proof {
            assert(self.states@.subrange(0, n as int) =~= self.states@);
            assert(r.seq() =~= self.seq());
        }
        r
    }
}

/// An iterator over all members of a `StateSet`, in canonical order.
pub struct StateSetIter<'a> {
    /// The set being walked.
    pub set: &'a StateSet,
    /// The position of the next member to hand out.
    pub pos: usize,
}

impl<'a> StateSetIter<'a> {
    /// Hands out the next member, if one is left.
    pub fn next(&mut self) -> (r: Option<StateID>)
        ensures
            old(self).pos < old(self).set.seq().len() ==> {
                &&& r matches Some(s) && s@ == old(self).set.seq()[old(self).pos as int]
                &&& final(self).pos == old(self).pos + 1
            },
            old(self).pos >= old(self).set.seq().len() ==> r is None && final(self).pos == old(self).pos,
            final(self).set == old(self).set,
    {
        if self.pos < self.set.states.len() {
            let s = self.set.states[self.pos];
            proof {
                assert(self.set.seq()[self.pos as int] == s@);
            }
            self.pos = self.pos + 1;
            Some(s)
        } else {
            None
        }
    }
}

/// Strictly sorted members grow at least as fast as their position.
proof fn lemma_sorted_lower(s: Seq<int>, i: int)
    requires
        sorted_strict(s),
        forall|k: int| 0 <= k < s.len() ==> #[trigger] s[k] >= 0,
        0 <= i < s.len(),
    ensures
        s[i] >= i,
    decreases i,
{
    if i > 0 {
        lemma_sorted_lower(s, i - 1);
        assert(s[i - 1] < s[i]);
    }
}

/// A strictly sorted sequence of values drawn from `[0, n)` has at most `n` members.
pub proof fn lemma_sorted_bounded_len(s: Seq<int>, n: int)
    requires
        n >= 0,
        sorted_strict(s),
        forall|k: int| 0 <= k < s.len() ==> 0 <= #[trigger] s[k] < n,
    ensures
        s.len() <= n,
{
    if s.len() > n {
        lemma_sorted_lower(s, n);
        assert(s[n] < n);
    }
}

/// Two strictly sorted sequences with the same members are the same sequence.
pub proof fn lemma_sorted_unique(a: Seq<int>, b: Seq<int>)
    requires
        sorted_strict(a),
        sorted_strict(b),
        forall|x: int| a.contains(x) <==> b.contains(x),
    ensures
        a == b,
    decreases a.len(),
{
    if a.len() == 0 {
        if b.len() > 0 {
            assert(b.contains(b[0]));
            assert(a.contains(b[0]));
        }
        assert(a =~= b);
    } else {
        assert(b.contains(b[0])) by {
            assert(a.contains(a[0]));
        }
        assert(a.contains(a[0]));
        assert(b.contains(a[0]));
        let k = choose|k: int| 0 <= k < b.len() && b[k] == a[0];
        assert(b.contains(b[0]));
        assert(a.contains(b[0]));
        let m = choose|m: int| 0 <= m < a.len() && a[m] == b[0];
        // heads are equal: each head is a member of the other sequence,
        // and everything past a head is strictly larger than it
        assert(a[0] == b[0]) by {
            if k > 0 {
                assert(b[0] < b[k]);
                if m > 0 {
                    assert(a[0] < a[m]);
                } else {
                    assert(a[0] == b[0]);
                }
            }
            if m > 0 {
                assert(a[0] < a[m]);
                if k == 0 {
                    assert(a[0] == b[0]);
                }
            }
        }
        let at = a.drop_first();
        let bt = b.drop_first();
        assert forall|x: int| at.contains(x) <==> bt.contains(x) by {
            if at.contains(x) {
                let i = choose|i: int| 0 <= i < at.len() && at[i] == x;
                assert(a[i + 1] == x);
                assert(a.contains(x));
                assert(a[0] < x);
                assert(b.contains(x));
                let j = choose|j: int| 0 <= j < b.len() && b[j] == x;
                assert(j != 0);
                assert(bt[j - 1] == x);
                assert(bt.contains(x));
            }
            if bt.contains(x) {
                let i = choose|i: int| 0 <= i < bt.len() && bt[i] == x;
                assert(b[i + 1] == x);
                assert(b.contains(x));
                assert(b[0] < x);
                assert(a.contains(x));
                let j = choose|j: int| 0 <= j < a.len() && a[j] == x;
                assert(j != 0);
                assert(at[j - 1] == x);
                assert(at.contains(x));
            }
        }
        lemma_sorted_unique(at, bt);
        assert(a =~= b) by {
            assert forall|i: int| 0 <= i < a.len() implies a[i] == b[i] by {
                if i > 0 {
                    assert(at[i - 1] == bt[i - 1]);
                }
            }
        }
    }
}

/// Canonical form: two well-formed sets with the same members hold the same sequence.
pub proof fn lemma_canonical(a: StateSet, b: StateSet)
    requires
        a.wf(),
        b.wf(),
        a@ == b@,
    ensures
        a.seq() == b.seq(),
{
    assert forall|x: int| a.seq().contains(x) <==> b.seq().contains(x) by {
        assert(a@.contains(x) == a.seq().contains(x));
        assert(b@.contains(x) == b.seq().contains(x));
    }
    lemma_sorted_unique(a.seq(), b.seq());
}

} // verus!
