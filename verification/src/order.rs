//! The lexicographic order of strings.

use vstd::prelude::*;


verus! {

/// Lexicographic order on strings, comparing characters by code point; a proper prefix comes
/// first. This is the order of `String`'s comparison operators.
pub open spec fn text_lt(a: Seq<char>, b: Seq<char>) -> bool
    decreases a.len(),
{
    if a.len() == 0 {
        b.len() > 0
    } else if b.len() == 0 {
        false
    } else if a[0] as u32 != b[0] as u32 {
        (a[0] as u32) < (b[0] as u32)
    } else {
        text_lt(a.drop_first(), b.drop_first())
    }
}

/// Two strings that agree before position `k` and differ there are ordered by that position.
pub proof fn lemma_text_lt_at(a: Seq<char>, b: Seq<char>, k: int)
    requires
        0 <= k < a.len(),
        k < b.len(),
        forall|i: int| 0 <= i < k ==> #[trigger] a[i] == b[i],
        a[k] != b[k],
    ensures
        text_lt(a, b) == ((a[k] as u32) < (b[k] as u32)),
    decreases k,
{
    if k > 0 {
        assert(a[0] == b[0]);
        lemma_text_lt_at(a.drop_first(), b.drop_first(), k - 1);
    } else {
        assert(a[0] as u32 != b[0] as u32) by {
            if a[0] as u32 == b[0] as u32 {
                char_code_injective(a[0], b[0]);
            }
        }
    }
}

/// A common prefix does not change the order of two strings.
pub proof fn lemma_text_lt_common_prefix(p: Seq<char>, a: Seq<char>, b: Seq<char>)
    ensures
        text_lt(p + a, p + b) == text_lt(a, b),
    decreases p.len(),
{
    if p.len() > 0 {
        assert((p + a).drop_first() =~= p.drop_first() + a);
        assert((p + b).drop_first() =~= p.drop_first() + b);
        lemma_text_lt_common_prefix(p.drop_first(), a, b);
    } else {
        assert(p + a =~= a);
        assert(p + b =~= b);
    }
}

/// Characters with the same code point are equal.
pub proof fn char_code_injective(c: char, d: char)
    requires
        c as u32 == d as u32,
    ensures
        c == d,
{
}

/// The order of strings is a strict total order: irreflexive, transitive, and any two
/// different strings are ordered one way or the other.
pub proof fn lemma_text_lt_strict_total(a: Seq<char>, b: Seq<char>, c: Seq<char>)
    ensures
        !text_lt(a, a),
        text_lt(a, b) ==> !text_lt(b, a),
        text_lt(a, b) && text_lt(b, c) ==> text_lt(a, c),
        a != b ==> text_lt(a, b) || text_lt(b, a),
    decreases a.len(),
{
    if a.len() > 0 && b.len() > 0 && c.len() > 0 {
        lemma_text_lt_strict_total(a.drop_first(), b.drop_first(), c.drop_first());
    }
    if a.len() > 0 {
        lemma_text_lt_strict_total(a.drop_first(), a.drop_first(), a.drop_first());
    }
    if a.len() > 0 && b.len() > 0 {
        lemma_text_lt_strict_total(a.drop_first(), b.drop_first(), b.drop_first());
        if a != b && a[0] as u32 == b[0] as u32 {
            char_code_injective(a[0], b[0]);
            if a.drop_first() == b.drop_first() {
                assert(a =~= seq![a[0]] + a.drop_first());
                assert(b =~= seq![b[0]] + b.drop_first());
            }
        }
    }
    if a.len() == 0 && b.len() == 0 {
        assert(a =~= b);
    }
}

/// Whether `a` comes before `b` in the lexicographic order of code points.
pub fn text_less(a: &str, b: &str) -> (r: bool)
    ensures
        r == text_lt(a@, b@),
{
    let ac = chars_of(a);
    let bc = chars_of(b);
    let mut i: usize = 0;
    assert(ac@.skip(0) =~= ac@);
    assert(bc@.skip(0) =~= bc@);
    while i < ac.len() && i < bc.len()
        invariant
            ac@ == a@,
            bc@ == b@,
            i <= ac@.len(),
            i <= bc@.len(),
            text_lt(a@, b@) == text_lt(ac@.skip(i as int), bc@.skip(i as int)),
        decreases ac@.len() - i,
    {
        let x = ac[i] as u32;
        let y = bc[i] as u32;
        assert(ac@.skip(i as int)[0] == ac@[i as int]);
        assert(bc@.skip(i as int)[0] == bc@[i as int]);
        if x != y {
            return x < y;
        }
        assert(ac@.skip(i as int).drop_first() =~= ac@.skip(i + 1));
        assert(bc@.skip(i as int).drop_first() =~= bc@.skip(i + 1));
        i += 1;
    }
    i == ac.len() && i < bc.len()
}

/// The characters of `s`, in order.
pub fn chars_of(s: &str) -> (r: Vec<char>)
    ensures
        r@ == s@,
{
    let mut r: Vec<char> = Vec::new();
    for c in it: s.chars()
        invariant
            it.seq() == s@,
            r@ == s@.take(it.index() as int),
    {
        r.push(c);
        assert(r@ =~= s@.take(it.index() + 1));
    }
    assert(r@ =~= s@);
    r
}

} // verus!
