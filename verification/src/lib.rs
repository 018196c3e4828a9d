//! Least-significant-bit steganography over the pixel bytes of a PPM image.

pub mod assemble;
pub mod bits;
pub mod codec;
pub mod decimal;
pub mod error;
pub mod image;
pub mod message;
pub mod naming;
pub mod order;
pub mod ppm_file;
pub mod split;
pub mod threads;
mod text;
