//! Putting the decoded parts of a message back together in the order of their file names.

use vstd::prelude::*;

use vstd::multiset::Multiset;

use crate::order::{lemma_text_lt_strict_total, text_less, text_lt};

verus! {

broadcast use vstd::seq_lib::group_to_multiset_ensures;

/// A decoded part as plain text: the file it came from and the message found in it.
pub open spec fn part_view(part: (String, String)) -> (Seq<char>, Seq<char>) {
    (part.0@, part.1@)
}

/// The parts of `parts` as plain text.
pub open spec fn parts_view(parts: Seq<(String, String)>) -> Seq<(Seq<char>, Seq<char>)> {
    parts.map_values(|p: (String, String)| part_view(p))
}

/// The order of pairs of strings: by the first string, then by the second.
pub open spec fn part_lt(a: (Seq<char>, Seq<char>), b: (Seq<char>, Seq<char>)) -> bool {
    text_lt(a.0, b.0) || (a.0 == b.0 && text_lt(a.1, b.1))
}

/// No part comes after a part that it should precede.
pub open spec fn is_sorted(s: Seq<(Seq<char>, Seq<char>)>) -> bool {
    forall|i: int, j: int| 0 <= i < j < s.len() ==> !part_lt(#[trigger] s[j], #[trigger] s[i])
}

/// The messages of `s`, one after the other.
pub open spec fn messages_joined(s: Seq<(Seq<char>, Seq<char>)>) -> Seq<char>
    decreases s.len(),
{
    if s.len() == 0 {
        Seq::empty()
    } else {
        messages_joined(s.drop_last()) + s.last().1
    }
}

/// The sum of the lengths of the messages of `s`.
pub open spec fn message_lengths(s: Seq<(Seq<char>, Seq<char>)>) -> int
    decreases s.len(),
{
    if s.len() == 0 {
        0
    } else {
        message_lengths(s.drop_first()) + s[0].1.len()
    }
}

proof fn lemma_joined_append(s: Seq<(Seq<char>, Seq<char>)>, t: Seq<(Seq<char>, Seq<char>)>)
    ensures
        messages_joined(s + t) == messages_joined(s) + messages_joined(t),
    decreases t.len(),
{
    if t.len() > 0 {
        assert((s + t).drop_last() =~= s + t.drop_last());
        lemma_joined_append(s, t.drop_last());
    } else {
        assert(s + t =~= s);
    }
}

proof fn lemma_joined_length(s: Seq<(Seq<char>, Seq<char>)>)
    ensures
        messages_joined(s).len() == message_lengths(s),
    decreases s.len(),
{
    if s.len() > 0 {
        let e = Seq::<(Seq<char>, Seq<char>)>::empty();
        lemma_joined_length(s.drop_first());
        lemma_joined_append(seq![s[0]], s.drop_first());
        assert(seq![s[0]] + s.drop_first() =~= s);
        assert(seq![s[0]].drop_last() =~= e);
        assert(messages_joined(e) == Seq::<char>::empty());
        assert(messages_joined(seq![s[0]]) =~= s[0].1);
        assert(messages_joined(s) == s[0].1 + messages_joined(s.drop_first()));
    }
}

/// Joining is plain concatenation of every message, whatever the messages hold: nothing
/// joins to the empty text, appending a part appends its whole message, joining two lists
/// joins their texts, and the length is the sum of the messages' lengths.
pub proof fn lemma_messages_joined_concatenates(
    s: Seq<(Seq<char>, Seq<char>)>,
    t: Seq<(Seq<char>, Seq<char>)>,
    p: (Seq<char>, Seq<char>),
)
    ensures
        messages_joined(Seq::empty()) == Seq::<char>::empty(),
        messages_joined(s.push(p)) == messages_joined(s) + p.1,
        messages_joined(s + t) == messages_joined(s) + messages_joined(t),
        messages_joined(s).len() == message_lengths(s),
{
    assert(s.push(p).drop_last() =~= s);
    lemma_joined_append(s, t);
    lemma_joined_length(s);
}

/// The order of pairs is a strict total order.
pub proof fn lemma_part_lt_strict_total(
    a: (Seq<char>, Seq<char>),
    b: (Seq<char>, Seq<char>),
    c: (Seq<char>, Seq<char>),
)
    ensures
        !part_lt(a, a),
        part_lt(a, b) ==> !part_lt(b, a),
        part_lt(a, b) && part_lt(b, c) ==> part_lt(a, c),
        a != b ==> part_lt(a, b) || part_lt(b, a),
{
    lemma_text_lt_strict_total(a.0, b.0, c.0);
    lemma_text_lt_strict_total(a.1, b.1, c.1);
    lemma_text_lt_strict_total(b.0, a.0, c.0);
    lemma_text_lt_strict_total(b.1, a.1, c.1);
}

fn part_less(a: &(String, String), b: &(String, String)) -> (r: bool)
    ensures
        r == part_lt(part_view(*a), part_view(*b)),
{
    if text_less(a.0.as_str(), b.0.as_str()) {
        true
    } else if a.0 == b.0 {
        text_less(a.1.as_str(), b.1.as_str())
    } else {
        false
    }
}

/// Sorts the parts by file name, and parts with the same file name by message: the result
/// is sorted and holds the same parts.
pub fn sort_parts(parts: Vec<(String, String)>) -> (r: Vec<(String, String)>)
    ensures
        parts_view(r@).to_multiset() == parts_view(parts@).to_multiset(),
        is_sorted(parts_view(r@)),
{
    let mut rest = parts;
    let mut sorted: Vec<(String, String)> = Vec::new();
    assert(parts_view(sorted@) =~= Seq::empty());
    while rest.len() > 0
        invariant
            parts_view(sorted@).to_multiset().add(parts_view(rest@).to_multiset())
                == parts_view(parts@).to_multiset(),
            is_sorted(parts_view(sorted@)),
        decreases rest.len(),
    {
        let ghost before_rest = rest@;
        let x = rest.pop().unwrap();
        proof {
            assert(parts_view(before_rest) =~= parts_view(rest@).push(part_view(x)));
        }
        let mut p: usize = 0;
        while p < sorted.len() && !part_less(&x, &sorted[p])
            invariant
                p <= sorted.len(),
                forall|q: int| 0 <= q < p ==> !part_lt(part_view(x), #[trigger] parts_view(sorted@)[q]),
            decreases sorted.len() - p,
        {
            p += 1;
        }
        let ghost old_sorted = parts_view(sorted@);
        sorted.insert(p, x);
        proof {
            let v = part_view(x);
            let s = parts_view(sorted@);
            assert(s =~= old_sorted.insert(p as int, v));
            assert forall|i: int, j: int| 0 <= i < j < s.len() implies !part_lt(
                #[trigger] s[j],
                #[trigger] s[i],
            ) by {
                if i == p {
                    if j > p {
                        let y = old_sorted[j - 1];
                        lemma_part_lt_strict_total(y, v, old_sorted[p as int]);
                        lemma_part_lt_strict_total(y, old_sorted[p as int], v);
                        if j - 1 > p {
                            assert(!part_lt(old_sorted[j - 1], old_sorted[p as int]));
                        }
                    }
                } else if j == p {
                    assert(!part_lt(v, old_sorted[i]));
                } else {
                    let ii = if i < p { i } else { i - 1 };
                    let jj = if j < p { j } else { j - 1 };
                    assert(s[i] == old_sorted[ii] && s[j] == old_sorted[jj]);
                }
            }
        }
    }
    proof {
        assert(parts_view(rest@) =~= Seq::empty());
        assert(parts_view(rest@).to_multiset() =~= Multiset::empty());
    }
    sorted
}

/// Parts sorted in this order are determined by which parts there are: two sorted
/// arrangements of the same parts are the same, so the assembled message is too.
pub proof fn lemma_sorted_parts_unique(a: Seq<(Seq<char>, Seq<char>)>, b: Seq<(Seq<char>, Seq<char>)>)
    requires
        is_sorted(a),
        is_sorted(b),
        a.to_multiset() == b.to_multiset(),
    ensures
        a == b,
        messages_joined(a) == messages_joined(b),
    decreases a.len(),
{
    vstd::seq_lib::to_multiset_len(a);
    vstd::seq_lib::to_multiset_len(b);
    if a.len() == 0 {
        assert(b.len() == 0);
        assert(a =~= b);
    } else {
        assert(b.len() == a.len());
        assert(a.contains(a[0]));
        assert(b.contains(b[0]));
        vstd::seq_lib::to_multiset_contains(a, a[0]);
        vstd::seq_lib::to_multiset_contains(b, a[0]);
        vstd::seq_lib::to_multiset_contains(a, b[0]);
        vstd::seq_lib::to_multiset_contains(b, b[0]);
        let j = choose|j: int| 0 <= j < b.len() && b[j] == a[0];
        let i = choose|i: int| 0 <= i < a.len() && a[i] == b[0];
        if j > 0 {
            assert(!part_lt(b[j], b[0]));
        }
        if i > 0 {
            assert(!part_lt(a[i], a[0]));
        }
        lemma_part_lt_strict_total(a[0], b[0], a[0]);
        assert(a[0] == b[0]);
        let ra = a.drop_first();
        let rb = b.drop_first();
        assert(a.remove(0) =~= ra);
        assert(b.remove(0) =~= rb);
        vstd::seq_lib::to_multiset_remove(a, 0);
        vstd::seq_lib::to_multiset_remove(b, 0);
        assert forall|x: int, y: int| 0 <= x < y < ra.len() implies !part_lt(
            #[trigger] ra[y],
            #[trigger] ra[x],
        ) by {
            assert(ra[y] == a[y + 1] && ra[x] == a[x + 1]);
        }
        assert forall|x: int, y: int| 0 <= x < y < rb.len() implies !part_lt(
            #[trigger] rb[y],
            #[trigger] rb[x],
        ) by {
            assert(rb[y] == b[y + 1] && rb[x] == b[x + 1]);
        }
        lemma_sorted_parts_unique(ra, rb);
        assert forall|k: int| 0 <= k < a.len() implies a[k] == b[k] by {
            if k > 0 {
                assert(a[k] == ra[k - 1] && b[k] == rb[k - 1]);
            }
        }
        assert(a =~= b);
    }
}

/// The messages of `parts`, in order, as one string.
pub fn join_messages(parts: &Vec<(String, String)>) -> (r: String)
    ensures
        r@ == messages_joined(parts_view(parts@)),
        r@.len() == message_lengths(parts_view(parts@)),
{
    proof {
        lemma_joined_length(parts_view(parts@));
    }
    let mut final_string = String::new();
    let mut i: usize = 0;
    while i < parts.len()
        invariant
            i <= parts.len(),
            final_string@ == messages_joined(parts_view(parts@).take(i as int)),
        decreases parts.len() - i,
    {
        final_string.append(parts[i].1.as_str());
        proof {
            let s = parts_view(parts@);
            assert(s.take(i + 1).drop_last() =~= s.take(i as int));
        }
        i += 1;
    }
    assert(parts_view(parts@).take(i as int) =~= parts_view(parts@));
    final_string
}

/// The message that the decoded parts make up: their messages in the order of their file
/// names.
pub fn assemble_message(parts: Vec<(String, String)>) -> (r: String)
    ensures
        exists|sorted: Seq<(Seq<char>, Seq<char>)>|
            #![trigger messages_joined(sorted)]
            sorted.to_multiset() == parts_view(parts@).to_multiset() && is_sorted(sorted) && r@
                == messages_joined(sorted),
{
    let sorted = sort_parts(parts);
    let r = join_messages(&sorted);
    assert(messages_joined(parts_view(sorted@)) == r@);
    r
}

} // verus!
