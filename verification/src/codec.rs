//! Hiding one character in the least significant bits of eight bytes, and reading it back.

use vstd::prelude::*;

use crate::bits::{
    bit_set_at, bit_value, lemma_byte_from_bits, lemma_lsb_masks, lemma_pack_eight, lsb, pack_lsbs,
    with_lsb,
};

verus! {

/// The eight single-bit masks, most significant bit first.
proof fn lemma_single_bit_masks()
    by (bit_vector)
    ensures
        0x80u8 >> 0u8 == 0b1000_0000u8,
        0x80u8 >> 1u8 == 0b0100_0000u8,
        0x80u8 >> 2u8 == 0b0010_0000u8,
        0x80u8 >> 3u8 == 0b0001_0000u8,
        0x80u8 >> 4u8 == 0b0000_1000u8,
        0x80u8 >> 5u8 == 0b0000_0100u8,
        0x80u8 >> 6u8 == 0b0000_0010u8,
        0x80u8 >> 7u8 == 0b0000_0001u8,
{
}

/// Flipping the bit at position `k` (from the most significant bit) leaves every other bit.
proof fn lemma_flip_bit(x: u8, k: u8, j: u8)
    by (bit_vector)
    requires
        k < 8,
        j < 8,
    ensures
        ((x ^ (0x80u8 >> k)) >> (7 - j) as u8) & 1u8 == if j == k {
            1 - ((x >> (7 - j) as u8) & 1u8)
        } else {
            ((x >> (7 - j) as u8) & 1u8) as int
        },
{
}

/// The low byte of the code point of `c`, which is what `c as u8` gives.
pub open spec fn low_byte(c: char) -> u8 {
    (c as u32) as u8
}

/// The byte of `ret` at `i` after hiding character byte `c` in `bytes`.
pub open spec fn encoded_byte(c: u8, bytes: Seq<u8>, i: int) -> u8 {
    if i < bytes.len() {
        with_lsb(bytes[i], bit_value(c, i) == 1)
    } else {
        0
    }
}

/// Hides the low byte of `c` in `bytes`: the least significant bit of byte `i` becomes bit `i`
/// of that byte, counted from the most significant bit. Positions past the end of `bytes`
/// are zero.
pub fn encode_character(c: char, bytes: &[u8]) -> (ret: [u8; 8])
    requires
        bytes.len() <= 8,
    ensures
        forall|i: int| 0 <= i < 8 ==> #[trigger] ret[i] == encoded_byte(low_byte(c), bytes@, i),
{
    let c = (c as u32) as u8;
    let mut ret = [0u8; 8];
    let n = bytes.len();
    for i in 0..n
        invariant
            n == bytes.len(),
            n <= 8,
            forall|j: int| 0 <= j < i ==> #[trigger] ret[j] == encoded_byte(c, bytes@, j),
            forall|j: int| i <= j < 8 ==> #[trigger] ret[j] == 0,
    {
        proof {
            lemma_lsb_masks(bytes[i as int]);
        }
        if bit_set_at(c, i) {
            ret[i] = bytes[i] | 0b0000_0001;
        } else {
            ret[i] = bytes[i] & 0b1111_1110;
        }
    }
    ret
}

/// Reads a character byte back from eight bytes: bit `i` of the result, counted from the
/// most significant bit, is the least significant bit of `bytes[i]`.
pub fn decode_character(bytes: &[u8]) -> (character: u8)
    requires
        bytes.len() == 8,
    ensures
        character == pack_lsbs(bytes@),
{
    let mut character: u8 = 0b0000_0000;
    let mut i: usize = 0;
    assert forall|j: int| 0 <= j < 8 implies #[trigger] bit_value(0u8, j) == 0 by {
        let jj = j as u8;
        assert((0u8 >> (7 - jj) as u8) & 1u8 == 0) by (bit_vector);
    }
    while i < 8
        invariant
            bytes.len() == 8,
            i <= 8,
            forall|j: int|
                0 <= j < 8 ==> #[trigger] bit_value(character, j) == if j < i {
                    bytes@[j] % 2
                } else {
                    0
                },
        decreases 8 - i,
    {
        let byte = bytes[i];
        let ghost before = character;
        if lsb(byte) {
            match i {
                0 => character ^= 0b1000_0000,
                1 => character ^= 0b0100_0000,
                2 => character ^= 0b0010_0000,
                3 => character ^= 0b0001_0000,
                4 => character ^= 0b0000_1000,
                5 => character ^= 0b0000_0100,
                6 => character ^= 0b0000_0010,
                _ => character ^= 0b0000_0001,
            }
            proof {
                lemma_single_bit_masks();
                assert(character == before ^ (0x80u8 >> (i as u8)));
                assert forall|j: int| 0 <= j < 8 implies #[trigger] bit_value(character, j) == if j
                    < i + 1 {
                    bytes@[j] % 2
                } else {
                    0
                } by {
                    // the invariant's fact about this bit of `before`
                    assert(bit_value(before, j) == if j < i { bytes@[j] % 2 } else { 0 });
                    lemma_flip_bit(before, i as u8, j as u8);
                    assert(byte % 2 == 1);
                }
            }
        }
        i += 1;
    }
    proof {
        lemma_byte_from_bits(character);
        lemma_pack_eight(bytes@);
    }
    character
}

/// Decoding the bytes that hide a character gives back the low byte of that character.
pub proof fn lemma_character_roundtrip(c: char, bytes: Seq<u8>, encoded: Seq<u8>)
    requires
        bytes.len() == 8,
        encoded.len() == 8,
        forall|i: int| 0 <= i < 8 ==> #[trigger] encoded[i] == encoded_byte(low_byte(c), bytes, i),
    ensures
        pack_lsbs(encoded) == low_byte(c),
        forall|i: int| 0 <= i < 8 ==> #[trigger] encoded[i] / 2 == bytes[i] / 2,
{
    let b = low_byte(c);
    assert forall|i: int| 0 <= i < 8 implies #[trigger] encoded[i] % 2 == bit_value(b, i)
        && encoded[i] / 2 == bytes[i] / 2 by {
        lemma_lsb_masks(bytes[i]);
        let ii = i as u8;
        assert((b >> (7 - ii) as u8) & 1u8 <= 1) by (bit_vector);
    }
    lemma_pack_eight(encoded);
    lemma_byte_from_bits(b);
}

} // verus!
