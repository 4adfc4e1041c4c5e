//! Fixed-width integers as the archive stores them, and the size-word whose
//! width depends on the format version.

use vstd::prelude::*;

verus! {

/// The two layouts of the format.
#[derive(Clone, Copy, PartialEq, Eq, Debug, Structural)]
pub enum Version {
    /// Engine versions below 2.0: size-words are 32 bits wide.
    V1,
    /// Engine versions from 2.0 on: size-words are 64 bits wide.
    V2,
}

impl Version {
    /// The width of a size-word in bytes.
    pub open spec fn word_width(self) -> nat {
        match self {
            Version::V1 => 4,
            Version::V2 => 8,
        }
    }

    /// The width of a size-word in bytes.
    pub fn width(self) -> (w: usize)
        ensures
            w == self.word_width(),
    {
        match self {
            Version::V1 => 4,
            Version::V2 => 8,
        }
    }
}

/// The big-endian value of the four bytes of `s` that start at `p`.
pub open spec fn be_u32_at(s: Seq<u8>, p: int) -> nat {
    (s[p] as nat) * 16777216 + (s[p + 1] as nat) * 65536 + (s[p + 2] as nat) * 256 + (s[p
        + 3] as nat)
}

/// The little-endian value of the four bytes of `s` that start at `p`.
pub open spec fn le_u32_at(s: Seq<u8>, p: int) -> nat {
    (s[p + 3] as nat) * 16777216 + (s[p + 2] as nat) * 65536 + (s[p + 1] as nat) * 256 + (s[p] as nat)
}

/// The big-endian value of the eight bytes of `s` that start at `p`.
pub open spec fn be_u64_at(s: Seq<u8>, p: int) -> nat {
    be_u32_at(s, p) * 4294967296 + be_u32_at(s, p + 4)
}

/// The value of the size-word of `s` that starts at `p`.
pub open spec fn size_word_at(s: Seq<u8>, p: int, version: Version) -> nat {
    match version {
        Version::V1 => be_u32_at(s, p),
        Version::V2 => be_u64_at(s, p),
    }
}

/// Whether `width` bytes starting at `p` lie inside a sequence of length `len`.
pub open spec fn in_bounds(len: nat, p: int, width: nat) -> bool {
    0 <= p && p + width <= len
}

/// Reads a big-endian `u32` at `pos`; `None` where four bytes are not there.
pub fn read_be_u32(data: &[u8], pos: usize) -> (r: Option<u32>)
    ensures
        r.is_some() == in_bounds(data@.len(), pos as int, 4),
        r matches Some(v) ==> v == be_u32_at(data@, pos as int),
{
    if data.len() < 4 || pos > data.len() - 4 {
        return None;
    }
    let b0: u32 = data[pos] as u32;
    let b1: u32 = data[pos + 1] as u32;
    let b2: u32 = data[pos + 2] as u32;
    let b3: u32 = data[pos + 3] as u32;
    Some(b0 * 16777216 + b1 * 65536 + b2 * 256 + b3)
}

/// Reads a little-endian `u32` at `pos`; `None` where four bytes are not there.
pub fn read_le_u32(data: &[u8], pos: usize) -> (r: Option<u32>)
    ensures
        r.is_some() == in_bounds(data@.len(), pos as int, 4),
        r matches Some(v) ==> v == le_u32_at(data@, pos as int),
{
    if data.len() < 4 || pos > data.len() - 4 {
        return None;
    }
    let b0: u32 = data[pos] as u32;
    let b1: u32 = data[pos + 1] as u32;
    let b2: u32 = data[pos + 2] as u32;
    let b3: u32 = data[pos + 3] as u32;
    Some(b3 * 16777216 + b2 * 65536 + b1 * 256 + b0)
}

/// Reads a big-endian `u64` at `pos`; `None` where eight bytes are not there.
pub fn read_be_u64(data: &[u8], pos: usize) -> (r: Option<u64>)
    ensures
        r.is_some() == in_bounds(data@.len(), pos as int, 8),
        r matches Some(v) ==> v == be_u64_at(data@, pos as int),
{
    if data.len() < 8 || pos > data.len() - 8 {
        return None;
    }
    let high: u64 = match read_be_u32(data, pos) {
        Some(v) => v as u64,
        None => 0,
    };
    let low: u64 = match read_be_u32(data, pos + 4) {
        Some(v) => v as u64,
        None => 0,
    };
    Some(high * 4294967296 + low)
}

/// Reads the size-word at `pos` in the width of `version`; `None` where the
/// word does not lie inside `data`.
pub fn read_size_word(data: &[u8], pos: usize, version: Version) -> (r: Option<u64>)
    ensures
        r.is_some() == in_bounds(data@.len(), pos as int, version.word_width()),
        r matches Some(v) ==> v == size_word_at(data@, pos as int, version),
{
    match version {
        Version::V1 => match read_be_u32(data, pos) {
            Some(v) => Some(v as u64),
            None => None,
        },
        Version::V2 => read_be_u64(data, pos),
    }
}

/// The four bytes of `value` modulo 2^32, least significant first.
pub open spec fn le_bytes_of(value: nat) -> Seq<u8> {
    seq![
        (value % 256) as u8,
        ((value / 256) % 256) as u8,
        ((value / 65536) % 256) as u8,
        ((value / 16777216) % 256) as u8,
    ]
}

/// Writes the low 32 bits of `value` as four bytes, least significant first.
pub fn le_bytes(value: u64) -> (out: Vec<u8>)
    ensures
        out@ == le_bytes_of(value as nat),
{
    let mut out: Vec<u8> = Vec::new();
    out.push((value % 256) as u8);
    out.push(((value / 256) % 256) as u8);
    out.push(((value / 65536) % 256) as u8);
    out.push(((value / 16777216) % 256) as u8);
    proof {
        assert(out@ =~= le_bytes_of(value as nat));
    }
    out
}

} // verus!
