//! A random-access byte source: the bytes of one archive, read by ranges.

use crate::error::MDictError;
use vstd::prelude::*;
use vstd::slice::slice_subrange;

verus! {

/// The bytes of one archive file, held for positioned reads.
pub struct ByteSource {
    data: Vec<u8>,
}

impl View for ByteSource {
    type V = Seq<u8>;

    closed spec fn view(&self) -> Seq<u8> {
        self.data@
    }
}

/// Whether the range of `len` bytes at `offset` lies inside `bytes`.
pub open spec fn range_inside(bytes: Seq<u8>, offset: nat, len: nat) -> bool {
    offset + len <= bytes.len()
}

/// The bytes of `bytes` in the range of `len` bytes at `offset`.
pub open spec fn range_of(bytes: Seq<u8>, offset: nat, len: nat) -> Seq<u8> {
    bytes.subrange(offset as int, (offset + len) as int)
}

impl ByteSource {
    /// Wraps the bytes of an archive.
    pub fn new(data: Vec<u8>) -> (source: ByteSource)
        ensures
            source@ == data@,
    {
        ByteSource { data }
    }

    /// The number of bytes in the source.
    pub fn len(&self) -> (n: usize)
        ensures
            n == self@.len(),
    {
        self.data.len()
    }

    /// Gives the bytes of the source back.
    pub fn into_bytes(self) -> (data: Vec<u8>)
        ensures
            data@ == self@,
    {
        self.data
    }

    /// All bytes of the source.
    pub fn as_slice(&self) -> (bytes: &[u8])
        ensures
            bytes@ == self@,
    {
        self.data.as_slice()
    }

    /// Reads exactly `len` bytes at `offset`. Fails with `Io` exactly where the
    /// range reaches beyond the end of the source.
    pub fn read_exact_at(&self, offset: u64, len: u64) -> (r: Result<&[u8], MDictError>)
        ensures
            match r {
                Ok(bytes) => range_inside(self@, offset as nat, len as nat) && bytes@ == range_of(
                    self@,
                    offset as nat,
                    len as nat,
                ) && offset + len <= usize::MAX,
                Err(e) => e == MDictError::Io && !range_inside(self@, offset as nat, len as nat),
            },
    {
        let total: usize = self.data.len();
        if offset > total as u64 || len > total as u64 - offset {
            return Err(MDictError::Io);
        }
        let start: usize = offset as usize;
        let end: usize = start + len as usize;
        Ok(slice_subrange(self.data.as_slice(), start, end))
    }
}

} // verus!
