//! Sizes shared by the reader and the parsers.

use vstd::prelude::*;

verus! {

/// The longest line of the input, its newline included.
pub const MAX_LINE_LENGTH: usize = 30;

/// How many bytes the reader asks the stream for at a time.
pub const CHUNK_SIZE: usize = 524288;

/// The capacity of one frame: sixteen chunks and one line.
pub const MAX_CHUNK_SIZE: usize = CHUNK_SIZE * 16 + MAX_LINE_LENGTH;

/// How many parser tasks consume the frames.
pub const NUMBER_OF_THREADS: usize = 8;

} // verus!
