//! Reading and writing 32-bit CDB ("constant database") files.
//!
//! A CDB is an immutable on-disk associative array mapping byte-string keys
//! to byte-string values, allowing multiple values per key. Lookups are
//! O(1) on average; the file is never updated in place, only rebuilt.
//!
//! The on-disk layout is: a 2,048-byte primary header of 256 `(offset,
//! slot-count)` pairs, a packed data region of `(klen, dlen, key, data)`
//! records, and 256 open-address secondary hash tables of `(hash, offset)`
//! slots. All integers are 32-bit little-endian.
//!
//! [`CDB`] looks keys up in a fully resident byte image; [`CDBMake`] builds
//! a new image from a sequence of records. Both are specified against the
//! mathematical layout in [`format`] and verified.

use vstd::prelude::*;

pub mod filebuffer;
pub mod format;
pub mod hash;
pub mod props;
pub mod reader;
pub mod uint32;
pub mod writer;

pub use crate::filebuffer::FileBuffer;
pub use crate::reader::{CDB, CDBKeyValueIter, CDBValueIter};
pub use crate::writer::CDBMake;

verus! {

/// Everything that can go wrong while reading or building a database.
#[derive(Clone, Copy, Debug, PartialEq, Eq, Structural)]
pub enum Error {
    /// The byte image is too small or too large to be a CDB, or full
    /// iteration met a record whose declared length runs past the data
    /// region.
    BadFormat,
    /// A key or value handed to the writer has a length of at least
    /// 2^32 - 1 bytes and cannot be stored.
    RecordTooLarge,
    /// The writer's running file position would overflow 32 bits.
    FileTooBig,
}

impl Error {
    /// A short human-readable description of the error.
    pub fn message(&self) -> (s: &'static str)
        ensures
            s@ == self.spec_message(),
    {
        match self {
            Error::BadFormat => "Invalid file format",
            Error::RecordTooLarge => "Key or data too big",
            Error::FileTooBig => "File too big",
        }
    }

    /// What `message` returns for each variant.
    pub open spec fn spec_message(&self) -> Seq<char> {
        match self {
            Error::BadFormat => "Invalid file format"@,
            Error::RecordTooLarge => "Key or data too big"@,
            Error::FileTooBig => "File too big"@,
        }
    }
}

} // verus!
