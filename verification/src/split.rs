//! Preparing a message for encoding and cutting it into one part per image.

use vstd::prelude::*;
use vstd::string::StringSliceAdditionalSpecFns;

verus! {

/// The bytes of `text` followed by a NUL, which ends the hidden message.
pub fn terminated_message(text: &str) -> (r: Vec<u8>)
    ensures
        r@ == text.spec_bytes().push(0u8),
{
    let mut bytes: Vec<u8> = Vec::new();
    bytes.extend_from_slice(text.as_bytes());
    bytes.push(0);
    bytes
}

/// The sum of `counts`.
pub open spec fn total(counts: Seq<usize>) -> int
    decreases counts.len(),
{
    if counts.len() == 0 {
        0
    } else {
        total(counts.drop_last()) + counts.last()
    }
}

/// The total is the arithmetic sum of the counts: nothing totals 0, one count totals
/// itself, adding a count adds exactly that count, and totals of two lists add up.
pub proof fn lemma_total_is_sum(a: Seq<usize>, b: Seq<usize>, c: usize)
    ensures
        total(Seq::empty()) == 0,
        total(seq![c]) == c,
        total(a.push(c)) == total(a) + c,
        total(a + b) == total(a) + total(b),
    decreases b.len(),
{
    assert(a.push(c).drop_last() =~= a);
    assert(seq![c].drop_last() =~= Seq::<usize>::empty());
    if b.len() > 0 {
        assert((a + b).drop_last() =~= a + b.drop_last());
        lemma_total_is_sum(a, b.drop_last(), c);
    } else {
        assert(a + b =~= a);
    }
}

/// Whether a message of `message_len` bytes fits in images with `pixel_counts` pixel bytes
/// in all: each byte of the message takes eight pixel bytes.
pub fn message_fits(message_len: usize, pixel_counts: &[usize]) -> (b: bool)
    requires
        total(pixel_counts@) <= usize::MAX,
    ensures
        b == (message_len <= total(pixel_counts@) / 8),
        pixel_counts@.len() == 1 ==> b == (message_len <= pixel_counts@[0] / 8),
{
    proof {
        if pixel_counts@.len() == 1 {
            lemma_total_is_sum(Seq::empty(), Seq::empty(), pixel_counts@[0]);
            assert(pixel_counts@ =~= seq![pixel_counts@[0]]);
        }
    }
    let mut total_size: usize = 0;
    let mut i: usize = 0;
    while i < pixel_counts.len()
        invariant
            i <= pixel_counts.len(),
            total_size == total(pixel_counts@.take(i as int)),
            total(pixel_counts@) <= usize::MAX,
        decreases pixel_counts.len() - i,
    {
        proof {
            assert(pixel_counts@.take(i + 1).drop_last() =~= pixel_counts@.take(i as int));
            lemma_total_prefix(pixel_counts@, i + 1);
        }
        total_size += pixel_counts[i];
        i += 1;
    }
    assert(pixel_counts@.take(i as int) =~= pixel_counts@);
    let total_size = total_size / 8;
    message_len <= total_size
}

/// A prefix sums to no more than the whole.
proof fn lemma_total_prefix(counts: Seq<usize>, k: int)
    requires
        0 <= k <= counts.len(),
    ensures
        total(counts.take(k)) <= total(counts),
    decreases counts.len(),
{
    if k < counts.len() {
        assert(counts.drop_last().take(k) =~= counts.take(k));
        lemma_total_prefix(counts.drop_last(), k);
    } else {
        assert(counts.take(k) =~= counts);
    }
}

/// `message` cut into consecutive parts of `part_len` bytes; the last part may be shorter.
pub open spec fn parts(message: Seq<u8>, part_len: nat) -> Seq<Seq<u8>>
    decreases message.len(),
{
    if message.len() == 0 || part_len == 0 {
        Seq::empty()
    } else if message.len() <= part_len {
        seq![message]
    } else {
        seq![message.take(part_len as int)] + parts(message.skip(part_len as int), part_len)
    }
}

/// The concatenation of `pieces`.
pub open spec fn joined(pieces: Seq<Seq<u8>>) -> Seq<u8>
    decreases pieces.len(),
{
    if pieces.len() == 0 {
        Seq::empty()
    } else {
        pieces[0] + joined(pieces.drop_first())
    }
}

/// Cuts `message` into the parts that go into one image each: an image with `file_size`
/// pixel bytes carries `file_size / 8` message bytes.
pub fn split_message(message: &[u8], file_size: usize) -> (r: Vec<Vec<u8>>)
    requires
        message@.len() == 0 || file_size >= 8,
        message@.len() + file_size / 8 <= usize::MAX,
    ensures
        r@.map_values(|v: Vec<u8>| v@) == parts(message@, (file_size / 8) as nat),
{
    let part_len = file_size / 8;
    let mut jobs: Vec<Vec<u8>> = Vec::new();
    let mut start_slice: usize = 0;
    let mut end_slice: usize = 0;
    assert(message@.skip(0) =~= message@);
    assert(jobs@.map_values(|v: Vec<u8>| v@) + parts(message@, part_len as nat) =~= parts(
        message@,
        part_len as nat,
    ));
    while start_slice < message.len()
        invariant
            start_slice == end_slice,
            start_slice <= message@.len(),
            part_len > 0 || start_slice == message@.len(),
            message@.len() + part_len <= usize::MAX,
            jobs@.map_values(|v: Vec<u8>| v@) + parts(message@.skip(start_slice as int), part_len as nat)
                == parts(message@, part_len as nat),
        decreases message@.len() - start_slice,
    {
        let min = message.len();
        end_slice = end_slice + part_len;
        if end_slice > min {
            end_slice = min;
        }
        let message_fragment = &message[start_slice..end_slice];
        let mut part: Vec<u8> = Vec::new();
        part.extend_from_slice(message_fragment);
        let ghost rest = message@.skip(start_slice as int);
        let ghost old_jobs = jobs@.map_values(|v: Vec<u8>| v@);
        jobs.push(part);
        proof {
            if rest.len() <= part_len {
                assert(part@ =~= rest);
                assert(message@.skip(end_slice as int) =~= Seq::<u8>::empty());
            } else {
                assert(part@ =~= rest.take(part_len as int));
                assert(message@.skip(end_slice as int) =~= rest.skip(part_len as int));
            }
            assert(jobs@.map_values(|v: Vec<u8>| v@) =~= old_jobs.push(part@));
            assert(parts(rest, part_len as nat) =~= seq![part@] + parts(
                message@.skip(end_slice as int),
                part_len as nat,
            ));
            assert(jobs@.map_values(|v: Vec<u8>| v@) + parts(
                message@.skip(end_slice as int),
                part_len as nat,
            ) =~= old_jobs + parts(rest, part_len as nat));
        }
        start_slice = end_slice;
    }
    proof {
        assert(parts(message@.skip(start_slice as int), part_len as nat) =~= Seq::<Seq<u8>>::empty());
        assert(jobs@.map_values(|v: Vec<u8>| v@) + Seq::<Seq<u8>>::empty() =~= jobs@.map_values(
            |v: Vec<u8>| v@,
        ));
    }
    jobs
}

/// The parts of a message, put back together, are the message; each part is non-empty and
/// no longer than the part length, and all but the last have exactly that length.
pub proof fn lemma_parts_rejoin(message: Seq<u8>, part_len: nat)
    requires
        part_len > 0,
    ensures
        joined(parts(message, part_len)) == message,
        forall|k: int|
            0 <= k < parts(message, part_len).len() ==> 0 < (#[trigger] parts(message, part_len)[k]).len()
                <= part_len,
        forall|k: int|
            0 <= k < parts(message, part_len).len() - 1 ==> (#[trigger] parts(
                message,
                part_len,
            )[k]).len() == part_len,
    decreases message.len(),
{
    let p = parts(message, part_len);
    if message.len() == 0 {
        assert(p.len() == 0);
    } else if message.len() <= part_len {
        assert(p == seq![message]);
        assert(joined(p.drop_first()) == Seq::<u8>::empty());
        assert(joined(p) =~= message);
    } else {
        let rest = message.skip(part_len as int);
        lemma_parts_rejoin(rest, part_len);
        assert(p.drop_first() =~= parts(rest, part_len));
        assert(message =~= message.take(part_len as int) + rest);
        assert forall|k: int| 0 <= k < p.len() implies 0 < (#[trigger] p[k]).len() <= part_len by {
            if k > 0 {
                assert(p[k] == parts(rest, part_len)[k - 1]);
            }
        }
        assert forall|k: int| 0 <= k < p.len() - 1 implies (#[trigger] p[k]).len() == part_len by {
            if k > 0 {
                assert(p[k] == parts(rest, part_len)[k - 1]);
            }
        }
    }
}

} // verus!
