//! Orderings and sorting.

use vstd::multiset::Multiset;
use vstd::prelude::*;

verus! {

broadcast use vstd::seq_lib::group_to_multiset_ensures;

/// `a` comes before `b` in the order std gives strings (by code point, a
/// proper prefix first).
pub open spec fn lex_lt(a: Seq<char>, b: Seq<char>) -> bool
    decreases a.len(),
{
    if b.len() == 0 {
        false
    } else if a.len() == 0 {
        true
    } else if a[0] < b[0] {
        true
    } else if a[0] == b[0] {
        lex_lt(a.drop_first(), b.drop_first())
    } else {
        false
    }
}

proof fn lemma_lex_pair(a: Seq<char>, b: Seq<char>)
    ensures
        !lex_lt(a, a),
        lex_lt(a, b) ==> !lex_lt(b, a),
        a != b ==> lex_lt(a, b) || lex_lt(b, a),
    decreases a.len(),
{
    if a.len() > 0 {
        lemma_lex_pair(a.drop_first(), a.drop_first());
    }
    if a.len() > 0 && b.len() > 0 {
        lemma_lex_pair(a.drop_first(), b.drop_first());
        if a != b && a[0] == b[0] {
            assert(a.drop_first() != b.drop_first()) by {
                if a.drop_first() == b.drop_first() {
                    assert(a =~= seq![a[0]] + a.drop_first());
                    assert(b =~= seq![b[0]] + b.drop_first());
                }
            }
        }
    }
    if a != b && a.len() == 0 && b.len() == 0 {
        assert(a =~= b);
    }
}

proof fn lemma_lex_trans(a: Seq<char>, b: Seq<char>, c: Seq<char>)
    ensures
        lex_lt(a, b) && lex_lt(b, c) ==> lex_lt(a, c),
    decreases a.len(),
{
    if a.len() > 0 && b.len() > 0 && c.len() > 0 {
        lemma_lex_trans(a.drop_first(), b.drop_first(), c.drop_first());
    }
}

/// The order on strings is a strict total order.
pub proof fn lemma_lex(a: Seq<char>, b: Seq<char>, c: Seq<char>)
    ensures
        !lex_lt(a, a),
        lex_lt(a, b) ==> !lex_lt(b, a),
        lex_lt(a, b) && lex_lt(b, c) ==> lex_lt(a, c),
        a != b ==> lex_lt(a, b) || lex_lt(b, a),
{
    lemma_lex_pair(a, b);
    lemma_lex_trans(a, b, c);
}

/// Whether `a` comes before `b` in the order std gives strings.
pub fn lex_less(a: &[char], b: &[char]) -> (r: bool)
    ensures
        r == lex_lt(a@, b@),
{
    let mut i: usize = 0;
    assert(a@.skip(0) == a@);
    assert(b@.skip(0) == b@);
    while i < a.len() && i < b.len() && a[i] == b[i]
        invariant
            i <= a.len(),
            i <= b.len(),
            lex_lt(a@, b@) == lex_lt(a@.skip(i as int), b@.skip(i as int)),
        decreases a.len() - i,
    {
        assert(a@.skip(i as int).drop_first() == a@.skip(i + 1));
        assert(b@.skip(i as int).drop_first() == b@.skip(i + 1));
        i += 1;
    }
    if i == b.len() {
        false
    } else if i == a.len() {
        true
    } else {
        a[i] < b[i]
    }
}

/// `s` is in ascending order.
pub open spec fn ascending(s: Seq<u32>) -> bool {
    forall|i: int, j: int| 0 <= i < j < s.len() ==> s[i] <= s[j]
}

/// The PIDs in ascending order.
pub fn sort_ascending(v: Vec<u32>) -> (r: Vec<u32>)
    ensures
        ascending(r@),
        r@.to_multiset() == v@.to_multiset(),
{
    let mut src = v;
    let mut out: Vec<u32> = Vec::new();
    while src.len() > 0
        invariant
            ascending(out@),
            out@.to_multiset().add(src@.to_multiset()) == v@.to_multiset(),
        decreases src.len(),
    {
        let ghost before = src@;
        let x = src.pop().unwrap();
        assert(before == src@.push(x));
        let mut p: usize = 0;
        while p < out.len() && out[p] <= x
            invariant
                p <= out.len(),
                forall|k: int| 0 <= k < p ==> out@[k] <= x,
            decreases out.len() - p,
        {
            p += 1;
        }
        let ghost prev = out@;
        out.insert(p, x);
        assert(out@.to_multiset() == prev.to_multiset().insert(x));
        assert(out@.to_multiset().add(src@.to_multiset()) =~= prev.to_multiset().add(before.to_multiset()));
        assert forall|i: int, j: int| 0 <= i < j < out@.len() implies out@[i] <= out@[j] by {
            if j < p {
                assert(out@[i] == prev[i] && out@[j] == prev[j]);
            } else if j == p {
                assert(out@[i] == prev[i]);
            } else if i < p {
                assert(out@[i] == prev[i] && out@[j] == prev[j - 1]);
                assert(prev[i] <= prev[j - 1]);
            } else if i == p {
                assert(out@[j] == prev[j - 1]);
                assert(prev[p as int] > x);
                assert(prev[p as int] <= prev[j - 1]);
            } else {
                assert(out@[i] == prev[i - 1] && out@[j] == prev[j - 1]);
            }
        }
    }
    assert(src@.to_multiset() =~= Multiset::<u32>::empty());
    assert(out@.to_multiset().add(Multiset::empty()) =~= out@.to_multiset());
    out
}

} // verus!
