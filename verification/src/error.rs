//! The errors of encoding and decoding.

use vstd::prelude::*;

verus! {

/// An error in encoding or decoding a hidden message.
#[derive(Debug)]
pub enum StegError {
    BadDecode(String),
    BadEncode(String),
    BadError(String),
}

} // verus!
