//! The fixed values of the archive format.

use vstd::prelude::*;

verus! {

/// The two bytes that end the header of an archive.
pub const DICTIONARY_END: [u8; 2] = [0, 0];

/// The number of bytes that are read from a file at a time.
pub const DEFAULT_BUFFER_SIZE: usize = 2_097_152;

/// What the name of an archive ends with.
pub const ARCHIVE_EXTENSION: &'static str = ".nk";

/// The bytes `hmmcl`: they open the header of an archive whose body is
/// protected by Hamming blocks.
pub const HAMMING_CODE_LENGTH_KEY: [u8; 5] = [104, 109, 109, 99, 108];

} // verus!
