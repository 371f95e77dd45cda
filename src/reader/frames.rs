//! The decisions of the chunking reader, apart from its I/O.
//!
//! The reader reads a chunk, hands it to [`FrameBuilder::push_chunk`], and is
//! told whether to flush. To flush, it reads up to and including the next
//! newline and hands that line to [`FrameBuilder::finish_frame`], which gives
//! back a frame of whole lines and says whether the stream has ended.

use vstd::prelude::*;

use super::func::{buffer_full, clone_buffer, headroom_low, transfer_buffer};
use crate::config::{CHUNK_SIZE, MAX_CHUNK_SIZE, MAX_LINE_LENGTH};

verus! {

/// Whether `s` is empty or ends with a newline: what follows starts a line.
pub open spec fn ends_at_line(s: Seq<u8>) -> bool {
    s.len() == 0 || s.last() == 10
}

/// Whether a line read up to a newline stopped at the end of the stream instead.
pub open spec fn line_hit_end(line: Seq<u8>) -> bool {
    line.len() == 0 || line.last() != 10
}

/// The state of the reader between reads: the frame being filled and the
/// sizes it was made with.
pub struct FrameBuilder {
    frame: Vec<u8>,
    chunk_size: usize,
    max_chunk_size: usize,
    handed_out: Ghost<Seq<u8>>,
}

impl FrameBuilder {
    /// The bytes of the frame being filled.
    pub closed spec fn pending(&self) -> Seq<u8> {
        self.frame@
    }

    /// All bytes of the frames handed out so far, in order.
    pub closed spec fn handed_out(&self) -> Seq<u8> {
        self.handed_out@
    }

    /// How many bytes one read asks for.
    pub closed spec fn read_size(&self) -> nat {
        self.chunk_size as nat
    }

    /// The capacity of a frame.
    pub closed spec fn frame_capacity(&self) -> nat {
        self.max_chunk_size as nat
    }

    /// The frame being filled starts a line of the stream.
    pub open spec fn inv(&self) -> bool {
        ends_at_line(self.handed_out())
    }

    /// Create a builder with the default sizes.
    pub fn new() -> (r: Self)
        ensures
            r.inv(),
            r.pending().len() == 0,
            r.handed_out().len() == 0,
            r.read_size() == CHUNK_SIZE,
            r.frame_capacity() == MAX_CHUNK_SIZE,
    {
        Self::with_chunk_sizes(CHUNK_SIZE, MAX_CHUNK_SIZE)
    }

    /// Create a builder that reads `chunk_size` bytes at a time, but never
    /// less than one line, into frames of `max_chunk_size` bytes.
    pub fn with_chunk_sizes(chunk_size: usize, max_chunk_size: usize) -> (r: Self)
        ensures
            r.inv(),
            r.pending().len() == 0,
            r.handed_out().len() == 0,
            r.read_size() == if chunk_size < MAX_LINE_LENGTH { MAX_LINE_LENGTH } else { chunk_size },
            r.frame_capacity() == max_chunk_size,
    {
        let chunk_size = if chunk_size < MAX_LINE_LENGTH { MAX_LINE_LENGTH } else { chunk_size };
        FrameBuilder {
            frame: Vec::with_capacity(max_chunk_size),
            chunk_size,
            max_chunk_size,
            handed_out: Ghost(Seq::empty()),
        }
    }

    /// How many bytes the frame being filled holds.
    pub fn pending_len(&self) -> (r: usize)
        ensures
            r == self.pending().len(),
    {
        self.frame.len()
    }

    /// How many bytes one read asks for.
    pub fn chunk_size(&self) -> (r: usize)
        ensures
            r == self.read_size(),
    {
        self.chunk_size
    }

    /// Add the bytes of one read to the frame, and say whether to flush it now:
    /// at the end of the stream (an empty read), when the frame has no more
    /// headroom than one chunk and one line, or when a consumer is waiting.
    pub fn push_chunk(&mut self, chunk: &mut [u8], consumers_waiting: bool) -> (flush: bool)
        requires
            old(self).pending().len() + old(chunk)@.len() <= usize::MAX,
        ensures
            final(self).pending() == old(self).pending() + old(chunk)@,
            final(self).handed_out() == old(self).handed_out(),
            final(self).read_size() == old(self).read_size(),
            final(self).frame_capacity() == old(self).frame_capacity(),
            flush == (old(chunk)@.len() == 0 || consumers_waiting || headroom_low(
                final(self).pending().len() as int,
                old(self).frame_capacity() as int,
                old(self).read_size() as int,
            )),
    {
        let empty = chunk.len() == 0;
        clone_buffer(chunk, &mut self.frame);
        empty || consumers_waiting || buffer_full(&self.frame, self.max_chunk_size, self.chunk_size)
    }

    /// Close the frame with the rest of its last line, as read up to and
    /// including the next newline, and hand it out; a new frame begins.
    ///
    /// Also says whether the stream has ended: the line read stopped before a
    /// newline. Unless it has, the frame ends with a newline and, as it began
    /// at the start of a line, holds whole lines only.
    pub fn finish_frame(&mut self, line: &mut Vec<u8>) -> (r: (Vec<u8>, bool))
        requires
            old(self).inv(),
        ensures
            r.0@ == old(self).pending() + old(line)@,
            r.1 == line_hit_end(old(line)@),
            !r.1 ==> r.0@.len() > 0 && r.0@.last() == 10,
            ends_at_line(old(self).handed_out()),
            final(self).handed_out() == old(self).handed_out() + r.0@,
            !r.1 ==> final(self).inv(),
            final(self).pending().len() == 0,
            final(line)@.len() == 0,
            final(self).read_size() == old(self).read_size(),
            final(self).frame_capacity() == old(self).frame_capacity(),
    {
        let hit_end = line.len() == 0 || line[line.len() - 1] != 10;
        transfer_buffer(line, &mut self.frame);
        let mut frame: Vec<u8> = Vec::with_capacity(self.max_chunk_size);
        std::mem::swap(&mut frame, &mut self.frame);
        self.handed_out = Ghost(self.handed_out@ + frame@);
        (frame, hit_end)
    }
}

} // verus!
