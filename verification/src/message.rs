//! Hiding a whole message in the pixel bytes of an image, and reading it back.

use vstd::prelude::*;

use crate::bits::{bit_value, pack_lsbs, with_lsb};
use crate::codec::{
    decode_character, encode_character, encoded_byte, lemma_character_roundtrip, low_byte,
};
use crate::error::StegError;
use crate::image::Ppm;
use crate::order::char_code_injective;
use crate::text::push_char;

verus! {

/// What a short final chunk is read as: eight bytes of value 20, whose least significant
/// bits are all zero.
pub open spec fn filler_chunk() -> Seq<u8> {
    Seq::new(8, |_i: int| 20u8)
}

/// Chunk `k` of `pixels` as the decoder reads it: bytes `8k .. 8k + 8`, or the filler when
/// fewer than eight bytes are left.
pub open spec fn chunk(pixels: Seq<u8>, k: int) -> Seq<u8> {
    if 8 * k + 8 <= pixels.len() {
        pixels.subrange(8 * k, 8 * k + 8)
    } else {
        filler_chunk()
    }
}

/// The characters hidden in `pixels` from chunk `k` on: one per chunk, up to and including
/// the first NUL or the last chunk; `None` when a chunk before that holds a value above 127.
pub open spec fn hidden_from(pixels: Seq<u8>, k: nat) -> Option<Seq<char>>
    decreases pixels.len() + 8 - 8 * k,
{
    if 8 * k >= pixels.len() {
        Some(Seq::empty())
    } else {
        let v = pack_lsbs(chunk(pixels, k as int));
        if v > 127 {
            None
        } else if v == 0 {
            Some(seq![0u8 as char])
        } else {
            match hidden_from(pixels, k + 1) {
                Some(rest) => Some(seq![v as char] + rest),
                None => None,
            }
        }
    }
}

/// The message hidden in `pixels`, or `None` when a non-ASCII value comes before its end.
pub open spec fn hidden_message(pixels: Seq<u8>) -> Option<Seq<char>> {
    hidden_from(pixels, 0)
}

/// The pixel bytes after hiding `msg` in `pixels`: byte `k` of the first `8 * msg.len()`
/// carries bit `k % 8` of the low byte of character `k / 8` in its least significant bit;
/// the other bytes are unchanged.
pub open spec fn embed(msg: Seq<char>, pixels: Seq<u8>) -> Seq<u8> {
    Seq::new(
        pixels.len(),
        |k: int|
            if k < 8 * msg.len() {
                with_lsb(pixels[k], bit_value(low_byte(msg[k / 8]), k % 8) == 1)
            } else {
                pixels[k]
            },
    )
}

/// The text of the error for a non-ASCII character.
pub open spec fn non_ascii_text() -> Seq<char> {
    "Found non-ascii value in decoded character!"@
}

spec fn prefixed(prefix: Seq<char>, rest: Option<Seq<char>>) -> Option<Seq<char>> {
    match rest {
        Some(r) => Some(prefix + r),
        None => None,
    }
}

/// Reads the message hidden in `pixels`, eight bytes per character, stopping after the
/// first NUL; a short final chunk reads as a NUL. Fails on a character above 127.
pub fn decode_message(pixels: &Vec<u8>) -> (r: Result<String, StegError>)
    ensures
        match hidden_message(pixels@) {
            Some(m) => r matches Ok(s) && s@ == m,
            None => r matches Err(StegError::BadDecode(e)) && e@ == non_ascii_text(),
        },
{
    let mut message = String::new();
    let base: [u8; 8] = [20, 20, 20, 20, 20, 20, 20, 20];
    let mut start: usize = 0;
    while start < pixels.len()
        invariant
            start % 8 == 0,
            base@ == filler_chunk(),
            hidden_message(pixels@) == prefixed(message@, hidden_from(pixels@, (start / 8) as nat)),
        decreases pixels.len() - start,
    {
        let ghost k = (start / 8) as int;
        let bytes: &[u8] = if pixels.len() - start >= 8 {
            &pixels[start..start + 8]
        } else {
            &base[0..base.len()]
        };
        assert(bytes@ == chunk(pixels@, k));
        let character = decode_character(bytes);
        if character > 127 {
            return Err(StegError::BadDecode("Found non-ascii value in decoded character!".to_string()));
        }
        push_char(&mut message, character as char);
        if character == 0 {
            return Ok(message);
        }
        assert(pixels.len() - start >= 8) by {
            if pixels.len() - start < 8 {
                crate::bits::lemma_pack_eight(bytes@);
            }
        }
        start += 8;
    }
    Ok(message)
}

/// Hides `message` in the pixels of `ppm`: character `i` goes into the least significant bits
/// of pixel bytes `8i .. 8i + 8`, as `encode_character` puts it; the remaining pixel bytes
/// follow unchanged. No terminator is written after the message.
pub fn encode_message(message: &str, ppm: &Ppm) -> (r: Result<Vec<u8>, StegError>)
    requires
        8 * message@.len() <= ppm.pixels@.len(),
    ensures
        r matches Ok(v) && v@ == embed(message@, ppm.pixels@),
{
    let mut encoded: Vec<u8> = Vec::new();
    let ghost pixels = ppm.pixels@;
    let ghost target = embed(message@, pixels);
    let mut start_index: usize = 0;
    for c in it: message.chars()
        invariant
            it.seq() == message@,
            8 * message@.len() <= pixels.len(),
            pixels == ppm.pixels@,
            target == embed(message@, pixels),
            start_index == 8 * it.index(),
            encoded@ == target.take(start_index as int),
    {
        let ghost k = it.index();
        assert(k < message@.len());
        assert(start_index + 8 <= ppm.pixels.len());
        let chunk = encode_character(c, &ppm.pixels[start_index..start_index + 8]);
        let ghost before = encoded@;
        encoded.extend_from_slice(chunk.as_slice());
        assert(encoded@ == target.take(start_index + 8)) by {
            assert forall|j: int| 0 <= j < start_index + 8 implies #[trigger] encoded@[j]
                == target[j] by {
                if j >= start_index {
                    assert((j / 8) == k);
                    assert(j % 8 == j - start_index);
                    assert(chunk[j - start_index] == encoded_byte(
                        low_byte(c),
                        pixels.subrange(start_index as int, start_index + 8),
                        j - start_index,
                    ));
                }
            }
        }
        start_index += 8;
    }
    assert(start_index == 8 * message@.len());
    encoded.extend_from_slice(&ppm.pixels[start_index..ppm.pixels.len()]);
    assert(encoded@ =~= target);
    Ok(encoded)
}

/// Hiding a message keeps the image: as many bytes, each with its seven high bits unchanged,
/// and every byte past the hidden characters unchanged.
pub proof fn lemma_embed_keeps_image(msg: Seq<char>, pixels: Seq<u8>)
    ensures
        embed(msg, pixels).len() == pixels.len(),
        forall|k: int| 0 <= k < pixels.len() ==> #[trigger] embed(msg, pixels)[k] / 2 == pixels[k] / 2,
        forall|k: int|
            8 * msg.len() <= k < pixels.len() ==> #[trigger] embed(msg, pixels)[k] == pixels[k],
{
    assert forall|k: int| 0 <= k < pixels.len() implies #[trigger] embed(msg, pixels)[k] / 2
        == pixels[k] / 2 by {
        crate::bits::lemma_lsb_masks(pixels[k]);
    }
}

/// The value held by the eight bytes `8k .. 8k + 8` of `pixels`.
pub open spec fn full_chunk_value(pixels: Seq<u8>, k: int) -> int {
    pack_lsbs(pixels.subrange(8 * k, 8 * k + 8))
}

/// The characters held by the full chunks of `pixels`, one per eight bytes.
pub open spec fn full_chunk_chars(pixels: Seq<u8>) -> Seq<char> {
    Seq::new(pixels.len() / 8, |k: int| full_chunk_value(pixels, k) as char)
}

proof fn lemma_decode_chunks_from(pixels: Seq<u8>, k: nat)
    requires
        k <= pixels.len() / 8,
        forall|j: int| 0 <= j < pixels.len() / 8 ==> 0 < #[trigger] full_chunk_value(pixels, j) <= 127,
    ensures
        hidden_from(pixels, k) == Some(
            if pixels.len() % 8 == 0 {
                full_chunk_chars(pixels).skip(k as int)
            } else {
                full_chunk_chars(pixels).skip(k as int).push(0u8 as char)
            },
        ),
    decreases pixels.len() / 8 - k,
{
    let chars = full_chunk_chars(pixels);
    if k == pixels.len() / 8 {
        assert(chars.skip(k as int) =~= Seq::<char>::empty());
        if pixels.len() % 8 != 0 {
            assert(8 * k + 8 > pixels.len());
            crate::bits::lemma_pack_eight(filler_chunk());
            assert(Seq::<char>::empty().push(0u8 as char) =~= seq![0u8 as char]);
        }
    } else {
        lemma_decode_chunks_from(pixels, k + 1);
        let v = full_chunk_value(pixels, k as int);
        assert(chunk(pixels, k as int) == pixels.subrange(8 * k as int, 8 * k as int + 8));
        assert(chars.skip(k as int) =~= seq![v as char] + chars.skip(k as int + 1));
        assert(chars.skip(k as int).push(0u8 as char) =~= seq![v as char] + chars.skip(k as int + 1).push(
            0u8 as char,
        ));
    }
}

/// Decoding reads one character per full chunk and treats a short final chunk as the end of
/// the message, whatever its bytes hold: when every full chunk holds an ASCII character other
/// than NUL, the message is those characters, followed by a NUL exactly when the pixel count
/// is not a multiple of eight.
pub proof fn lemma_decode_full_chunks(pixels: Seq<u8>)
    requires
        forall|j: int| 0 <= j < pixels.len() / 8 ==> 0 < #[trigger] full_chunk_value(pixels, j) <= 127,
    ensures
        pixels.len() % 8 == 0 ==> hidden_message(pixels) == Some(full_chunk_chars(pixels)),
        pixels.len() % 8 != 0 ==> hidden_message(pixels) == Some(
            full_chunk_chars(pixels).push(0u8 as char),
        ),
{
    lemma_decode_chunks_from(pixels, 0);
    assert(full_chunk_chars(pixels).skip(0) =~= full_chunk_chars(pixels));
}

/// `msg` is a message as the encoder is meant to carry it: ASCII characters, a NUL at the
/// end, and no NUL before it.
pub open spec fn is_terminated_ascii(msg: Seq<char>) -> bool {
    &&& msg.len() >= 1
    &&& forall|i: int| 0 <= i < msg.len() ==> ((#[trigger] msg[i]) as u32) <= 127
    &&& forall|i: int| 0 <= i < msg.len() - 1 ==> ((#[trigger] msg[i]) as u32) != 0
    &&& msg.last() as u32 == 0
}

proof fn lemma_hidden_suffix(msg: Seq<char>, pixels: Seq<u8>, k: nat)
    requires
        is_terminated_ascii(msg),
        8 * msg.len() <= pixels.len(),
        k < msg.len(),
    ensures
        hidden_from(embed(msg, pixels), k) == Some(msg.subrange(k as int, msg.len() as int)),
    decreases msg.len() - k,
{
    let e = embed(msg, pixels);
    let bytes = pixels.subrange(8 * k as int, 8 * k as int + 8);
    let enc = e.subrange(8 * k as int, 8 * k as int + 8);
    assert(chunk(e, k as int) == enc);
    assert forall|i: int| 0 <= i < 8 implies #[trigger] enc[i] == encoded_byte(
        low_byte(msg[k as int]),
        bytes,
        i,
    ) by {
        assert((8 * k + i) / 8 == k);
        assert((8 * k + i) % 8 == i);
    }
    lemma_character_roundtrip(msg[k as int], bytes, enc);
    let c = msg[k as int];
    let ci = c as u32;
    assert(ci <= 127);
    assert(low_byte(c) == ci);
    let v = pack_lsbs(chunk(e, k as int));
    assert((v as char) as u32 == c as u32);
    char_code_injective(c, v as char);
    if k + 1 == msg.len() {
        assert(((0u8 as char) as u32) == 0);
        char_code_injective(c, 0u8 as char);
    }
    if k + 1 < msg.len() {
        lemma_hidden_suffix(msg, pixels, k + 1);
        assert(msg.subrange(k as int, msg.len() as int) =~= seq![c] + msg.subrange(
            k + 1 as int,
            msg.len() as int,
        ));
    } else {
        assert(msg.subrange(k as int, msg.len() as int) =~= seq![c]);
    }
}

/// A terminated ASCII message hidden in pixels with room for it is read back unchanged.
pub proof fn lemma_message_roundtrip(msg: Seq<char>, pixels: Seq<u8>)
    requires
        is_terminated_ascii(msg),
        8 * msg.len() <= pixels.len(),
    ensures
        hidden_message(embed(msg, pixels)) == Some(msg),
{
    lemma_hidden_suffix(msg, pixels, 0);
    assert(msg.subrange(0, msg.len() as int) =~= msg);
}

} // verus!
