//! How new bytes reach the device buffer.

use vstd::prelude::*;

verus! {

/// Whether `data_len` bytes can be written over a device buffer of
/// `buffer_size` bytes; otherwise the buffer must be replaced by a new one
/// made from the bytes.
pub fn fits_in_buffer(buffer_size: u64, data_len: usize) -> (r: bool)
    ensures
        r == (buffer_size as int >= data_len as int),
{
    buffer_size as u128 >= data_len as u128
}

} // verus!
