//! What can go wrong in encoding and decoding.
use vstd::prelude::*;

verus! {

/// Why an encode or a decode was given up.
#[derive(Clone, Copy, Debug, PartialEq, Eq, Structural)]
pub enum CodecError {
    /// The palette was to have no entry.
    EmptyPalette,
    /// The palette was to have more entries than a one-byte index can name.
    PaletteTooLarge,
    /// The packed stream held no byte while pixels were still expected.
    UnexpectedEnd,
    /// A decoded index names no entry of the palette.
    IndexOutOfRange { pixel: usize, index: usize },
    /// The zlib layer could not compress the packed stream.
    Compression,
    /// The zlib layer could not inflate its input.
    Decompression,
}

} // verus!
