//! Compressed blocks: a four-byte compression tag, the big-endian ADLER-32 of
//! the decompressed bytes, then the payload.

use crate::checksum::{adler32, adler32_of};
use crate::error::MDictError;
use crate::outside::{expand_lzo1x, inflate_zlib, lzo1x_expanded, zlib_inflated};
use crate::wire::{be_u32_at, read_be_u32};
use vstd::prelude::*;
use vstd::slice::{slice_subrange, slice_to_vec};

verus! {

/// How the payload of a block is stored.
#[derive(Clone, Copy, PartialEq, Eq, Debug, Structural)]
pub enum Compression {
    /// Tag `00 00 00 00`: the payload is the data.
    Raw,
    /// Tag `01 00 00 00`: the payload is an LZO1X stream.
    Lzo,
    /// Tag `02 00 00 00`: the payload is a zlib stream.
    Zlib,
}

/// The length of the tag and checksum that precede the payload.
pub const BLOCK_PREFIX: usize = 8;

/// The compression that the first four bytes of a block name, if any.
pub open spec fn compression_of(block: Seq<u8>) -> Option<Compression> {
    if block.len() < 4 || block[1] != 0 || block[2] != 0 || block[3] != 0 {
        None
    } else if block[0] == 0 {
        Some(Compression::Raw)
    } else if block[0] == 1 {
        Some(Compression::Lzo)
    } else if block[0] == 2 {
        Some(Compression::Zlib)
    } else {
        None
    }
}

/// The checksum that a block stores for its decompressed bytes.
pub open spec fn stored_checksum(block: Seq<u8>) -> nat {
    be_u32_at(block, 4)
}

/// The payload of a block: everything after tag and checksum.
pub open spec fn payload_of(block: Seq<u8>) -> Seq<u8> {
    block.subrange(8, block.len() as int)
}

/// What the payload of a block expands to before the checksum is held against
/// it. `expected` is the decompressed size that the containing table gives;
/// LZO1X needs it, and a size beyond half the address space cannot be met.
pub open spec fn expanded(block: Seq<u8>, expected: Option<u64>) -> Option<Seq<u8>> {
    if block.len() < 8 {
        None
    } else {
        match compression_of(block) {
            None => None,
            Some(Compression::Raw) => Some(payload_of(block)),
            Some(Compression::Lzo) => match expected {
                Some(size) => if size <= usize::MAX / 2 {
                    lzo1x_expanded(payload_of(block), size as nat)
                } else {
                    None
                },
                None => None,
            },
            Some(Compression::Zlib) => zlib_inflated(payload_of(block)),
        }
    }
}

/// The decompressed bytes of a block, or `Corrupt` where the block is shorter
/// than its prefix, names no known compression, does not decompress, or
/// decompresses to bytes with another checksum than the stored one.
pub open spec fn decoded_block(block: Seq<u8>, expected: Option<u64>) -> Result<
    Seq<u8>,
    MDictError,
> {
    match expanded(block, expected) {
        Some(bytes) => if adler32_of(bytes) == stored_checksum(block) {
            Ok(bytes)
        } else {
            Err(MDictError::Corrupt)
        },
        None => Err(MDictError::Corrupt),
    }
}

/// Reads the compression tag of a block.
pub fn read_compression(block: &[u8]) -> (tag: Option<Compression>)
    ensures
        tag == compression_of(block@),
{
    if block.len() < 4 || block[1] != 0 || block[2] != 0 || block[3] != 0 {
        None
    } else if block[0] == 0 {
        Some(Compression::Raw)
    } else if block[0] == 1 {
        Some(Compression::Lzo)
    } else if block[0] == 2 {
        Some(Compression::Zlib)
    } else {
        None
    }
}

/// Expands the payload of a block according to its tag, without looking at the
/// checksum.
pub fn expand_block(block: &[u8], expected: Option<u64>) -> (out: Option<Vec<u8>>)
    ensures
        match expanded(block@, expected) {
            Some(bytes) => out matches Some(v) && v@ == bytes,
            None => out.is_none(),
        },
{
    if block.len() < BLOCK_PREFIX {
        return None;
    }
    let payload = slice_subrange(block, BLOCK_PREFIX, block.len());
    match read_compression(block) {
        None => None,
        Some(Compression::Raw) => Some(slice_to_vec(payload)),
        Some(Compression::Lzo) => match expected {
            Some(size) => {
                if size <= (usize::MAX / 2) as u64 {
                    expand_lzo1x(payload, size as usize)
                } else {
                    None
                }
            },
            None => None,
        },
        Some(Compression::Zlib) => inflate_zlib(payload),
    }
}

/// Decompresses a block and verifies its checksum. On success the ADLER-32 of
/// the returned bytes equals the checksum that the block stores.
pub fn decode_block(block: &[u8], expected: Option<u64>) -> (r: Result<Vec<u8>, MDictError>)
    ensures
        match decoded_block(block@, expected) {
            Ok(bytes) => r matches Ok(v) && v@ == bytes,
            Err(e) => r == Err::<Vec<u8>, MDictError>(e),
        },
        r matches Ok(v) ==> adler32_of(v@) == stored_checksum(block@),
        r matches Err(e) ==> e == MDictError::Corrupt,
{
    match expand_block(block, expected) {
        None => Err(MDictError::Corrupt),
        Some(bytes) => {
            let stored: u32 = match read_be_u32(block, 4) {
                Some(v) => v,
                None => 0,
            };
            if adler32(bytes.as_slice()) == stored {
                Ok(bytes)
            } else {
                Err(MDictError::Corrupt)
            }
        },
    }
}

} // verus!
