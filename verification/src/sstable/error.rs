//! How table building and reading fail.

use vstd::prelude::*;

verus! {

/// Building refuses an empty input and a snapshot whose keys collide once
/// truncated to the key-slot width; reading refuses an image that is not a
/// well-formed table.
#[derive(Debug)]
pub enum SSTableError {
    EmptyMemtableError,
    EncodingError,
    DBFileCorrupted { file: Vec<u8> },
}

} // verus!
