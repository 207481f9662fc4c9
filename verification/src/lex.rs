//! Lexicographic order on character sequences.
//!
//! Physical keys are sequences of characters; their natural order is the
//! lexicographic order induced by the character code points. This module
//! defines that order as a spec function and proves the laws the rest of
//! the crate needs: trichotomy, transitivity, and invariance under a
//! common prefix.

use vstd::prelude::*;

verus! {

/// Strict lexicographic order on character sequences, by code point.
/// A proper prefix sorts before every extension of itself.
pub open spec fn lex_lt(a: Seq<char>, b: Seq<char>) -> bool
    decreases a.len(),
{
    if b.len() == 0 {
        false
    } else if a.len() == 0 {
        true
    } else if a[0] != b[0] {
        (a[0] as u32) < (b[0] as u32)
    } else {
        lex_lt(a.skip(1), b.skip(1))
    }
}

/// Exactly one of `lex_lt(a, b)`, `lex_lt(b, a)`, `a == b` holds.
pub proof fn lemma_lex_trichotomy(a: Seq<char>, b: Seq<char>)
    ensures
        lex_lt(a, b) || lex_lt(b, a) || a =~= b,
        lex_lt(a, b) ==> !lex_lt(b, a) && !(a =~= b),
        lex_lt(b, a) ==> !lex_lt(a, b) && !(a =~= b),
    decreases a.len(),
{
    if a.len() == 0 && b.len() == 0 {
        assert(a =~= b);
    } else if a.len() == 0 {
        assert(lex_lt(a, b));
    } else if b.len() == 0 {
        assert(lex_lt(b, a));
    } else if a[0] != b[0] {
        assert((a[0] as u32) != (b[0] as u32)) by {
            vstd::utf8::char_u32_cast(a[0], a[0] as u32);
            vstd::utf8::char_u32_cast(b[0], b[0] as u32);
        }
    } else {
        lemma_lex_trichotomy(a.skip(1), b.skip(1));
        if a.skip(1) =~= b.skip(1) {
            assert forall|i: int| 0 <= i < a.len() implies a[i] == b[i] by {
                if i >= 1 {
                    assert(a[i] == a.skip(1)[i - 1]);
                    assert(b[i] == b.skip(1)[i - 1]);
                }
            }
            assert(a =~= b);
        }
        if a =~= b {
            assert(a.skip(1) =~= b.skip(1));
        }
    }
}

/// Lexicographic order is transitive.
pub proof fn lemma_lex_transitive(a: Seq<char>, b: Seq<char>, c: Seq<char>)
    requires
        lex_lt(a, b),
        lex_lt(b, c),
    ensures
        lex_lt(a, c),
    decreases a.len(),
{
    if a.len() == 0 {
    } else if b.len() == 0 {
    } else if c.len() == 0 {
    } else {
        if a[0] == b[0] && b[0] == c[0] {
            lemma_lex_transitive(a.skip(1), b.skip(1), c.skip(1));
        }
    }
}

/// Prepending one common character preserves and reflects the order.
pub proof fn lemma_lex_push_front(c: char, a: Seq<char>, b: Seq<char>)
    ensures
        lex_lt(seq![c] + a, seq![c] + b) <==> lex_lt(a, b),
{
    let ca = seq![c] + a;
    let cb = seq![c] + b;
    assert(ca.len() == 1 + a.len());
    assert(cb.len() == 1 + b.len());
    assert(ca[0] == c);
    assert(cb[0] == c);
    assert(ca.skip(1) =~= a);
    assert(cb.skip(1) =~= b);
}

/// Prepending a common prefix preserves and reflects the order.
pub proof fn lemma_lex_prefix(p: Seq<char>, a: Seq<char>, b: Seq<char>)
    ensures
        lex_lt(p + a, p + b) <==> lex_lt(a, b),
    decreases p.len(),
{
    if p.len() == 0 {
        assert(p + a =~= a);
        assert(p + b =~= b);
    } else {
        let q = p.skip(1);
        lemma_lex_prefix(q, a, b);
        let pa = p + a;
        let pb = p + b;
        assert(pa.len() > 0);
        assert(pb.len() > 0);
        assert(pa[0] == p[0]);
        assert(pb[0] == p[0]);
        assert(pa.skip(1) =~= q + a);
        assert(pb.skip(1) =~= q + b);
    }
}

/// When the first characters differ, they alone decide the order.
pub proof fn lemma_lex_first_char(a: Seq<char>, b: Seq<char>)
    requires
        a.len() > 0,
        b.len() > 0,
        a[0] != b[0],
    ensures
        lex_lt(a, b) <==> (a[0] as u32) < (b[0] as u32),
{
    assert((a[0] as u32) != (b[0] as u32)) by {
        vstd::utf8::char_u32_cast(a[0], a[0] as u32);
        vstd::utf8::char_u32_cast(b[0], b[0] as u32);
    }
}

/// A strict order between prefixes of one length decides the order of any
/// extensions of them.
pub proof fn lemma_lex_prefix_decided(p1: Seq<char>, p2: Seq<char>, a: Seq<char>, b: Seq<char>)
    requires
        p1.len() == p2.len(),
        lex_lt(p1, p2),
    ensures
        lex_lt(p1 + a, p2 + b),
    decreases p1.len(),
{
    if p1.len() == 0 {
    } else {
        let s1 = p1 + a;
        let s2 = p2 + b;
        assert(s1[0] == p1[0] && s2[0] == p2[0]);
        if p1[0] == p2[0] {
            lemma_lex_prefix_decided(p1.skip(1), p2.skip(1), a, b);
            assert(s1.skip(1) =~= p1.skip(1) + a);
            assert(s2.skip(1) =~= p2.skip(1) + b);
        }
    }
}

/// Compare two character vectors; the result reflects `lex_lt`.
pub fn lex_compare_lt(a: &Vec<char>, b: &Vec<char>) -> (r: bool)
    ensures
        r == lex_lt(a@, b@),
{
    let mut i: usize = 0;
    proof {
        assert(a@.skip(0) =~= a@);
        assert(b@.skip(0) =~= b@);
    }
    loop
        invariant
            i <= a.len(),
            i <= b.len(),
            a@.take(i as int) =~= b@.take(i as int),
            lex_lt(a@, b@) <==> lex_lt(a@.skip(i as int), b@.skip(i as int)),
        decreases a.len() - i,
    {
        if i == a.len() {
            return i < b.len();
        }
        if i == b.len() {
            return false;
        }
        let ca = a[i];
        let cb = b[i];
        if ca != cb {
            proof {
                assert(a@.skip(i as int)[0] == a@[i as int]);
                assert(b@.skip(i as int)[0] == b@[i as int]);
            }
            return (ca as u32) < (cb as u32);
        }
        proof {
            assert(a@.skip(i as int)[0] == a@[i as int]);
            assert(b@.skip(i as int)[0] == b@[i as int]);
            assert(a@.skip(i as int).skip(1) =~= a@.skip(i + 1 as int));
            assert(b@.skip(i as int).skip(1) =~= b@.skip(i + 1 as int));
            assert(a@.take(i + 1 as int) =~= a@.take(i as int).push(a@[i as int]));
            assert(b@.take(i + 1 as int) =~= b@.take(i as int).push(b@[i as int]));
        }
        i = i + 1;
    }
}

/// Test two character vectors for equality of their contents.
pub fn chars_eq(a: &Vec<char>, b: &Vec<char>) -> (r: bool)
    ensures
        r == (a@ =~= b@),
{
    if a.len() != b.len() {
        return false;
    }
    let mut i: usize = 0;
    while i < a.len()
        invariant
            i <= a.len(),
            a.len() == b.len(),
            forall|j: int| 0 <= j < i ==> a@[j] == b@[j],
        decreases a.len() - i,
    {
        if a[i] != b[i] {
            return false;
        }
        i = i + 1;
    }
    true
}

} // verus!
