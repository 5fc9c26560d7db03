//! How far the download of a word list has come.

use vstd::prelude::*;

verus! {

/// The position of a download of `total_size` bytes after one more chunk of
/// `chunk_len` bytes arrived behind the `downloaded` bytes before it: their
/// sum, but never more than the announced size.
pub fn progress_after(downloaded: u64, chunk_len: usize, total_size: u64) -> (position: u64)
    requires
        downloaded + chunk_len <= u64::MAX,
    ensures
        position == vstd::math::min(downloaded + chunk_len, total_size as int),
{
    let reached: u64 = downloaded + (chunk_len as u64);
    if reached <= total_size {
        reached
    } else {
        total_size
    }
}

} // verus!
