//! The bytes of a PPM file that carries a hidden message.

use vstd::prelude::*;

use crate::decimal::{decimal, decimal_digits, digits_value, is_digits, lemma_decimal_value};
use crate::error::StegError;
use crate::image::{Ppm, PpmHeader};
use crate::message::{embed, encode_message};

verus! {

/// A PPM file: the magic number, a newline, the width, a space, the height, a newline, the
/// maximum color value and a newline, all numbers in decimal, then the pixel bytes.
pub open spec fn file_bytes(header: &PpmHeader, pixels: Seq<u8>) -> Seq<u8> {
    header.magic_number@ + seq![10u8] + decimal(header.width as nat) + seq![32u8] + decimal(
        header.height as nat,
    ) + seq![10u8] + decimal(header.max_color_value as nat) + seq![10u8] + pixels
}

/// `s` is how a number is written in a header: a non-empty run of decimal digits with no
/// leading zero unless it is the single digit zero.
pub open spec fn is_header_number(s: Seq<u8>) -> bool {
    &&& s.len() >= 1
    &&& is_digits(s)
    &&& (s.len() == 1 || s[0] != 48)
}

/// The header of the file gives every number exactly: after the magic number and a newline
/// come the width, a space, the height, a newline, the maximum color value and a newline,
/// each written in canonical decimal that reads back as the header's value, and then the
/// pixel bytes unchanged.
pub proof fn lemma_file_header_numbers(header: &PpmHeader, pixels: Seq<u8>)
    ensures
        exists|w: Seq<u8>, h: Seq<u8>, m: Seq<u8>|
            #![trigger digits_value(w), digits_value(h), digits_value(m)]
            {
                &&& is_header_number(w) && digits_value(w) == header.width
                &&& is_header_number(h) && digits_value(h) == header.height
                &&& is_header_number(m) && digits_value(m) == header.max_color_value
                &&& file_bytes(header, pixels) == header.magic_number@ + seq![10u8] + w + seq![32u8]
                    + h + seq![10u8] + m + seq![10u8] + pixels
            },
{
    let w = decimal(header.width as nat);
    let h = decimal(header.height as nat);
    let m = decimal(header.max_color_value as nat);
    lemma_decimal_value(header.width as nat);
    lemma_decimal_value(header.height as nat);
    lemma_decimal_value(header.max_color_value as nat);
    assert(digits_value(w) == header.width && digits_value(h) == header.height && digits_value(m)
        == header.max_color_value);
}

fn append_bytes(out: &mut Vec<u8>, bytes: &[u8])
    ensures
        final(out)@ == old(out)@ + bytes@,
{
    out.extend_from_slice(bytes);
}

/// The bytes of a PPM file with `header` and the pixel bytes `pixels`.
pub fn ppm_file_bytes(header: &PpmHeader, pixels: &[u8]) -> (r: Vec<u8>)
    ensures
        r@ == file_bytes(header, pixels@),
{
    let mut out: Vec<u8> = Vec::new();
    append_bytes(&mut out, header.magic_number.as_slice());
    out.push(10);
    let width = decimal_digits(header.width);
    append_bytes(&mut out, width.as_slice());
    out.push(32);
    let height = decimal_digits(header.height);
    append_bytes(&mut out, height.as_slice());
    out.push(10);
    let max_color = decimal_digits(header.max_color_value);
    append_bytes(&mut out, max_color.as_slice());
    out.push(10);
    append_bytes(&mut out, pixels);
    assert(out@ =~= file_bytes(header, pixels@));
    out
}

/// The file that carries `message` in the image `ppm`: the header of `ppm`, then its pixels
/// with the message hidden in them.
pub fn encode_file(message: &str, ppm: &Ppm) -> (r: Result<Vec<u8>, StegError>)
    requires
        8 * message@.len() <= ppm.pixels@.len(),
    ensures
        r matches Ok(v) && v@ == file_bytes(&ppm.header, embed(message@, ppm.pixels@)),
{
    match encode_message(message, ppm) {
        Ok(bytes) => Ok(ppm_file_bytes(&ppm.header, bytes.as_slice())),
        Err(err) => Err(err),
    }
}

} // verus!
