//! A fully resident, immutable byte image of a database file.

use vstd::prelude::*;
use vstd::slice::{slice_subrange, slice_to_vec};

verus! {

/// An immutable, bounds-checked byte image. The reader depends only on
/// "contiguous bytes of a known length"; how the bytes were acquired
/// (read from a file, handed over by a caller) is outside this type.
pub struct FileBuffer {
    data: Vec<u8>,
}

impl View for FileBuffer {
    type V = Seq<u8>;

    closed spec fn view(&self) -> Seq<u8> {
        self.data@
    }
}

impl FileBuffer {
    /// Copies `s` into a fresh in-memory image.
    pub fn copy_from_slice(s: &[u8]) -> (r: FileBuffer)
        ensures
            r@ == s@,
    {
        FileBuffer { data: slice_to_vec(s) }
    }

    /// Wraps an already owned byte vector as an image without copying.
    pub fn from_vec(data: Vec<u8>) -> (r: FileBuffer)
        ensures
            r@ == data@,
    {
        FileBuffer { data }
    }

    /// Length of the image in bytes.
    pub fn len(&self) -> (n: usize)
        ensures
            n == self@.len(),
    {
        self.data.len()
    }

    /// The bytes in `[start, end)`, or `None` when the range is out of
    /// bounds. Every access the reader makes goes through here.
    pub fn slice(&self, start: usize, end: usize) -> (r: Option<&[u8]>)
        ensures
            match r {
                Some(s) => start <= end <= self@.len() && s@ == self@.subrange(
                    start as int,
                    end as int,
                ),
                None => !(start <= end <= self@.len()),
            },
    {
        if start <= end && end <= self.data.len() {
            Some(slice_subrange(self.data.as_slice(), start, end))
        } else {
            None
        }
    }
}

} // verus!
