//! Helper functions for the reader.

use vstd::prelude::*;

use crate::config::MAX_LINE_LENGTH;

verus! {

/// Transfer the bytes of the read buffer to the end of the export buffer.
///
/// This leaves the read buffer empty.
pub fn transfer_buffer(buffer_read: &mut Vec<u8>, buffer_export: &mut Vec<u8>)
    ensures
        final(buffer_export)@ == old(buffer_export)@ + old(buffer_read)@,
        final(buffer_read)@.len() == 0,
{
    buffer_export.append(buffer_read);
}

/// Copy the bytes of the read buffer to the end of the export buffer.
pub fn clone_buffer(buffer_read: &mut [u8], buffer_export: &mut Vec<u8>)
    ensures
        final(buffer_export)@ == old(buffer_export)@ + old(buffer_read)@,
        final(buffer_read)@ == old(buffer_read)@,
{
    buffer_export.extend_from_slice(buffer_read);
}

/// Whether a buffer of `capacity` bytes holding `len` has no more headroom
/// than one chunk and one line.
pub open spec fn headroom_low(len: int, capacity: int, chunk_size: int) -> bool {
    capacity - len <= chunk_size + MAX_LINE_LENGTH
}

/// Check if the export buffer, of `capacity` bytes, is full: its headroom is
/// no more than one chunk and one line.
pub fn buffer_full(buffer_export: &Vec<u8>, capacity: usize, chunk_size: usize) -> (r: bool)
    ensures
        r == headroom_low(buffer_export@.len() as int, capacity as int, chunk_size as int),
{
    (buffer_export.len() as u128) + (chunk_size as u128) + (MAX_LINE_LENGTH as u128) >= capacity as u128
}

} // verus!
