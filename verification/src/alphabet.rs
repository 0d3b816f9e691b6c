//! Duplicate-free alphabets of input symbols.
//!
//! An automaton's alphabet is the set of symbols that occur on any of its
//! consuming transitions, kept as a vector without duplicates in the order
//! the symbols were first seen.

use vstd::prelude::*;

verus! {

/// The set of characters occurring in a sequence.
pub open spec fn char_set_of(s: Seq<char>) -> Set<char> {
    Set::new(|c: char| s.contains(c))
}

/// Whether `c` occurs in `v`.
#[verifier::loop_isolation(false)]
pub(crate) fn chars_contain(v: &Vec<char>, c: char) -> (r: bool)
    ensures
        r == v@.contains(c),
{
    let n = v.len();
    let mut j: usize = 0;
    while j < n
        invariant
            j <= n,
            forall|k: int| 0 <= k < j ==> v@[k] != c,
        decreases n - j,
    {
        if v[j] == c {
            proof {
                assert(v@.contains(c));
            }
            return true;
        }
        j = j + 1;
    }
    proof {
        if v@.contains(c) {
            let k = choose|k: int| 0 <= k < v@.len() && v@[k] == c;
            assert(v@[k] != c);
        }
    }
    false
}

/// Adds `c` to an alphabet, keeping it duplicate-free.
pub(crate) fn alphabet_insert(v: &mut Vec<char>, c: char)
    requires
        old(v)@.no_duplicates(),
    ensures
        final(v)@.no_duplicates(),
        char_set_of(final(v)@) == char_set_of(old(v)@).insert(c),
{
    let present = chars_contain(v, c);
    if present {
        proof {
            assert(char_set_of(v@) =~= char_set_of(old(v)@).insert(c));
        }
        return;
    }
    let ghost old_seq = v@;
    v.push(c);
    proof {
        assert forall|b: char| v@.contains(b) <==> (old_seq.contains(b) || b == c) by {
            if v@.contains(b) {
                let k = choose|k: int| 0 <= k < v@.len() && v@[k] == b;
                if k < old_seq.len() {
                    assert(old_seq[k] == b);
                }
            }
            if old_seq.contains(b) {
                let k = choose|k: int| 0 <= k < old_seq.len() && old_seq[k] == b;
                assert(v@[k] == b);
            }
            if b == c {
                assert(v@[old_seq.len() as int] == b);
            }
        }
        assert(char_set_of(v@) =~= char_set_of(old_seq).insert(c));
        assert forall|i: int, j: int| 0 <= i < j < v@.len() implies v@[i] != v@[j] by {
            if j < old_seq.len() {
                assert(old_seq[i] != old_seq[j]);
            } else {
                assert(v@[j] == c);
                assert(old_seq[i] == v@[i]);
                assert(old_seq.contains(old_seq[i]));
                assert(!old_seq.contains(c));
            }
        }
    }
}

/// The alphabet holding the symbols of both arguments.
#[verifier::loop_isolation(false)]
pub(crate) fn alphabet_union(first: &Vec<char>, second: &Vec<char>) -> (r: Vec<char>)
    requires
        first@.no_duplicates(),
    ensures
        r@.no_duplicates(),
        char_set_of(r@) == char_set_of(first@).union(char_set_of(second@)),
{
    let mut r: Vec<char> = Vec::new();
    let mut i: usize = 0;
    let n1 = first.len();
    while i < n1
        invariant
            i <= n1,
            r@ =~= first@.subrange(0, i as int),
        decreases n1 - i,
    {
        r.push(first[i]);
        i = i + 1;
    }
    proof {
        assert(r@ =~= first@);
    }
    let mut k: usize = 0;
    let n2 = second.len();
    while k < n2
        invariant
            k <= n2,
            r@.no_duplicates(),
            forall|b: char| r@.contains(b) <==> first@.contains(b) || second@.subrange(0, k as int).contains(b),
        decreases n2 - k,
    {
        let ghost before = r@;
        let ghost c = second@[k as int];
        alphabet_insert(&mut r, second[k]);
        proof {
            assert(char_set_of(r@) == char_set_of(before).insert(c));
            assert forall|b: char| r@.contains(b)
                <==> first@.contains(b) || second@.subrange(0, k as int + 1).contains(b) by {
                assert(r@.contains(b) == char_set_of(r@).contains(b));
                assert(char_set_of(r@).contains(b) <==> before.contains(b) || b == c);
                let pre = second@.subrange(0, k as int);
                let ext = second@.subrange(0, k as int + 1);
                assert(ext =~= pre.push(c));
                if ext.contains(b) {
                    let m = choose|m: int| 0 <= m < ext.len() && ext[m] == b;
                    if m < pre.len() {
                        assert(pre[m] == b);
                        assert(pre.contains(b));
                    } else {
                        assert(b == c);
                    }
                }
                if pre.contains(b) {
                    let m = choose|m: int| 0 <= m < pre.len() && pre[m] == b;
                    assert(ext[m] == b);
                    assert(ext.contains(b));
                }
                if b == c {
                    assert(ext[pre.len() as int] == b);
                    assert(ext.contains(b));
                }
            }
        }
        k = k + 1;
    }
    proof {
        assert(second@.subrange(0, n2 as int) =~= second@);
        assert forall|b: char| char_set_of(r@).contains(b)
            <==> char_set_of(first@).union(char_set_of(second@)).contains(b) by {
            assert(r@.contains(b) <==> first@.contains(b) || second@.subrange(0, n2 as int).contains(b));
        }
        assert(char_set_of(r@) =~= char_set_of(first@).union(char_set_of(second@)));
    }
    r
}

} // verus!
