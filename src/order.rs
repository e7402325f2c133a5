//! Lexicographic order on byte strings.
use std::cmp::Ordering;
use vstd::prelude::*;

verus! {

/// Three-way lexicographic comparison of two byte strings: negative when `a`
/// sorts first, zero when they are equal, positive when `b` sorts first.
/// A proper prefix sorts before the longer string.
pub open spec fn lex_cmp(a: Seq<u8>, b: Seq<u8>) -> int
    decreases a.len(),
{
    if a.len() == 0 {
        if b.len() == 0 {
            0
        } else {
            -1
        }
    } else if b.len() == 0 {
        1
    } else if a[0] < b[0] {
        -1
    } else if a[0] > b[0] {
        1
    } else {
        lex_cmp(a.drop_first(), b.drop_first())
    }
}

/// The `Ordering` that a three-way comparison result stands for.
pub open spec fn ordering_of(c: int) -> Ordering {
    if c < 0 {
        Ordering::Less
    } else if c == 0 {
        Ordering::Equal
    } else {
        Ordering::Greater
    }
}

/// Swapping the arguments negates the comparison, and its value is -1, 0 or 1.
pub proof fn lemma_lex_cmp_antisymmetric(a: Seq<u8>, b: Seq<u8>)
    ensures
        lex_cmp(a, b) == -lex_cmp(b, a),
        -1 <= lex_cmp(a, b) <= 1,
    decreases a.len(),
{
    if a.len() > 0 && b.len() > 0 && a[0] == b[0] {
        lemma_lex_cmp_antisymmetric(a.drop_first(), b.drop_first());
    }
}

/// Two byte strings compare equal exactly when they are the same string.
pub proof fn lemma_lex_cmp_zero_iff_equal(a: Seq<u8>, b: Seq<u8>)
    ensures
        lex_cmp(a, b) == 0 <==> a == b,
    decreases a.len(),
{
    if a.len() > 0 && b.len() > 0 && a[0] == b[0] {
        lemma_lex_cmp_zero_iff_equal(a.drop_first(), b.drop_first());
        if a.drop_first() == b.drop_first() {
            assert(a =~= seq![a[0]] + a.drop_first());
            assert(b =~= seq![b[0]] + b.drop_first());
        }
    }
    if a.len() == 0 && b.len() == 0 {
        assert(a =~= b);
    }
}

/// The non-strict lexicographic order is transitive.
pub proof fn lemma_lex_cmp_transitive(a: Seq<u8>, b: Seq<u8>, c: Seq<u8>)
    requires
        lex_cmp(a, b) <= 0,
        lex_cmp(b, c) <= 0,
    ensures
        lex_cmp(a, c) <= 0,
    decreases a.len(),
{
    if a.len() > 0 && b.len() > 0 && c.len() > 0 && a[0] == b[0] && b[0] == c[0] {
        lemma_lex_cmp_transitive(a.drop_first(), b.drop_first(), c.drop_first());
    }
}

/// Compares the byte span `a[a_lo..a_hi]` with the byte span `b[b_lo..b_hi]`.
pub fn compare_spans(a: &Vec<u8>, a_lo: usize, a_hi: usize, b: &Vec<u8>, b_lo: usize, b_hi: usize) -> (r:
    Ordering)
    requires
        a_lo <= a_hi <= a.len(),
        b_lo <= b_hi <= b.len(),
    ensures
        r == ordering_of(lex_cmp(a@.subrange(a_lo as int, a_hi as int), b@.subrange(b_lo as int, b_hi as int))),
{
    let ghost sa = a@.subrange(a_lo as int, a_hi as int);
    let ghost sb = b@.subrange(b_lo as int, b_hi as int);
    let mut i: usize = 0;
    assert(sa.skip(0) =~= sa);
    assert(sb.skip(0) =~= sb);
    while i < a_hi - a_lo && i < b_hi - b_lo
        invariant
            a_lo <= a_hi <= a.len(),
            b_lo <= b_hi <= b.len(),
            i <= a_hi - a_lo,
            i <= b_hi - b_lo,
            sa == a@.subrange(a_lo as int, a_hi as int),
            sb == b@.subrange(b_lo as int, b_hi as int),
            lex_cmp(sa, sb) == lex_cmp(sa.skip(i as int), sb.skip(i as int)),
        decreases a_hi - a_lo - i,
    {
        let x = a[a_lo + i];
        let y = b[b_lo + i];
        assert(sa.skip(i as int)[0] == x);
        assert(sb.skip(i as int)[0] == y);
        if x < y {
            return Ordering::Less;
        } else if x > y {
            return Ordering::Greater;
        }
        assert(sa.skip(i as int).drop_first() =~= sa.skip(i + 1));
        assert(sb.skip(i as int).drop_first() =~= sb.skip(i + 1));
        i = i + 1;
    }
    if i < a_hi - a_lo {
        Ordering::Greater
    } else if i < b_hi - b_lo {
        Ordering::Less
    } else {
        Ordering::Equal
    }
}

} // verus!
