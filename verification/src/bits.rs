//! Single-bit operations on bytes and the packing of eight hidden bits into one byte.

use vstd::prelude::*;

verus! {

/// The bit of `c` at `position`, where position 0 is the most significant bit and
/// position 7 the least significant one.
pub open spec fn bit_value(c: u8, position: int) -> u8 {
    (c >> ((7 - position) as u8)) & 1u8
}

/// `b` with its least significant bit replaced by `bit`; the seven high bits are kept.
pub open spec fn with_lsb(b: u8, bit: bool) -> u8 {
    (b / 2 * 2 + if bit { 1int } else { 0int }) as u8
}

/// The number whose binary digits, most significant first, are the least significant
/// bits of the bytes of `bytes`.
pub open spec fn pack_lsbs(bytes: Seq<u8>) -> int
    decreases bytes.len(),
{
    if bytes.len() == 0 {
        0
    } else {
        pack_lsbs(bytes.drop_last()) * 2 + bytes.last() % 2
    }
}

/// True exactly when the least significant bit of `byte` is set.
pub fn lsb(byte: u8) -> (b: bool)
    ensures
        b == (byte % 2 == 1),
{
    assert((0b0000_0001u8 & byte) == byte % 2) by (bit_vector);
    (0b0000_0001 & byte) == 1
}

/// The bit of `c` at `position`, counted from the most significant bit, as 0 or 1.
pub fn bit_at(c: u8, position: usize) -> (r: u8)
    requires
        position <= 7,
    ensures
        r == bit_value(c, position as int),
        r <= 1,
{
    let shift: u8 = (7 - position) as u8;
    assert((c >> shift) & 0b0000_0001u8 <= 1) by (bit_vector);
    (c >> shift) & 0b0000_0001
}

/// Whether the bit of `c` at `position`, counted from the most significant bit, is set.
pub fn bit_set_at(c: u8, position: usize) -> (b: bool)
    requires
        position <= 7,
    ensures
        b == (bit_value(c, position as int) == 1),
{
    bit_at(c, position) == 1
}

/// Setting the least significant bit with `|` and clearing it with `&` are both `with_lsb`.
pub proof fn lemma_lsb_masks(b: u8)
    ensures
        b | 1u8 == with_lsb(b, true),
        b & 0b1111_1110u8 == with_lsb(b, false),
        with_lsb(b, true) % 2 == 1,
        with_lsb(b, false) % 2 == 0,
        with_lsb(b, true) / 2 == b / 2,
        with_lsb(b, false) / 2 == b / 2,
{
    assert(b | 1u8 == b / 2 * 2 + 1) by (bit_vector);
    assert(b & 0b1111_1110u8 == b / 2 * 2) by (bit_vector);
}

/// Eight bytes pack into the sum of their least significant bits weighted from 128 down to 1.
pub proof fn lemma_pack_eight(s: Seq<u8>)
    requires
        s.len() == 8,
    ensures
        pack_lsbs(s) == 128 * (s[0] % 2) + 64 * (s[1] % 2) + 32 * (s[2] % 2) + 16 * (s[3] % 2)
            + 8 * (s[4] % 2) + 4 * (s[5] % 2) + 2 * (s[6] % 2) + (s[7] % 2),
{
    reveal_with_fuel(pack_lsbs, 9);
    assert(s.drop_last().drop_last().drop_last().drop_last().drop_last().drop_last().drop_last()
        .drop_last() =~= Seq::<u8>::empty());
}

/// A byte is the weighted sum of its bits, most significant first.
pub proof fn lemma_byte_from_bits(c: u8)
    ensures
        c as int == 128 * bit_value(c, 0) + 64 * bit_value(c, 1) + 32 * bit_value(c, 2) + 16
            * bit_value(c, 3) + 8 * bit_value(c, 4) + 4 * bit_value(c, 5) + 2 * bit_value(c, 6)
            + bit_value(c, 7),
{
    assert(c == 128 * ((c >> 7u8) & 1u8) + 64 * ((c >> 6u8) & 1u8) + 32 * ((c >> 5u8) & 1u8) + 16
        * ((c >> 4u8) & 1u8) + 8 * ((c >> 3u8) & 1u8) + 4 * ((c >> 2u8) & 1u8) + 2 * ((c >> 1u8)
        & 1u8) + ((c >> 0u8) & 1u8)) by (bit_vector);
}

} // verus!
