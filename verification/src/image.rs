//! The parts of a PPM image that the encoder reads.

use vstd::prelude::*;

verus! {

/// The header of a binary PPM image.
pub struct PpmHeader {
    /// The magic number at the very start of the file, such as `P6`.
    pub magic_number: Vec<u8>,
    pub width: u64,
    pub height: u64,
    pub max_color_value: u64,
}

/// A PPM image: its header and the raw bytes of its pixel data.
pub struct Ppm {
    pub header: PpmHeader,
    pub pixels: Vec<u8>,
}

} // verus!
