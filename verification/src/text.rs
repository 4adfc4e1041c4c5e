//! The text encodings an archive may declare, and decoding under each.

use crate::outside::{
    big5_text, chars_of, decode_big5, decode_gb18030, decode_gbk, gb18030_text, gbk_text,
    str_from_utf8, string_from_utf16, utf16_text,
};
use vstd::prelude::*;
use vstd::utf8::*;

verus! {

/// The codec of keys and entry bodies.
#[derive(Clone, Copy, PartialEq, Eq, Debug, Structural)]
pub enum TextEncoding {
    Utf8,
    Utf16Le,
    Gbk,
    Big5,
    Gb18030,
}

/// The longest input handed to a legacy decoder: one eighth of the address space.
pub open spec fn legacy_limit() -> nat {
    (usize::MAX / 8) as nat
}

/// The UTF-16 code units that little-endian byte pairs spell.
pub open spec fn le_units(bytes: Seq<u8>) -> Seq<u16> {
    Seq::new(
        (bytes.len() / 2) as nat,
        |i: int| (bytes[2 * i] as int + 256 * (bytes[2 * i + 1] as int)) as u16,
    )
}

impl TextEncoding {
    /// The width in bytes of the NUL that terminates a key.
    pub open spec fn nul_width(self) -> nat {
        match self {
            TextEncoding::Utf16Le => 2,
            _ => 1,
        }
    }

    /// The width in bytes of the NUL that terminates a key.
    pub fn terminator_width(self) -> (w: usize)
        ensures
            w == self.nul_width(),
    {
        match self {
            TextEncoding::Utf16Le => 2,
            _ => 1,
        }
    }

    /// The text that `bytes` stand for under this encoding, or `None` where
    /// they do not decode: invalid UTF-8, an odd number of bytes or an
    /// unpaired surrogate in UTF-16, a malformed or over-long legacy sequence.
    pub open spec fn decoded(self, bytes: Seq<u8>) -> Option<Seq<char>> {
        match self {
            TextEncoding::Utf8 => if valid_utf8(bytes) {
                Some(decode_utf8(bytes))
            } else {
                None
            },
            TextEncoding::Utf16Le => if bytes.len() % 2 == 0 {
                utf16_text(le_units(bytes))
            } else {
                None
            },
            TextEncoding::Gbk => if bytes.len() <= legacy_limit() {
                gbk_text(bytes)
            } else {
                None
            },
            TextEncoding::Big5 => if bytes.len() <= legacy_limit() {
                big5_text(bytes)
            } else {
                None
            },
            TextEncoding::Gb18030 => if bytes.len() <= legacy_limit() {
                gb18030_text(bytes)
            } else {
                None
            },
        }
    }

    /// Decodes `bytes` under this encoding.
    pub fn decode(self, bytes: &[u8]) -> (text: Option<String>)
        ensures
            chars_of(text) == self.decoded(bytes@),
            self == TextEncoding::Utf8 ==> (text matches Some(s) ==> encode_utf8(s@) == bytes@),
    {
        match self {
            TextEncoding::Utf8 => match str_from_utf8(bytes) {
                Some(s) => {
                    proof {
                        decode_utf8_encode_utf8(bytes@);
                    }
                    Some(s.to_owned())
                },
                None => None,
            },
            TextEncoding::Utf16Le => {
                if bytes.len() % 2 != 0 {
                    return None;
                }
                let units = units_from_le(bytes);
                string_from_utf16(units.as_slice())
            },
            TextEncoding::Gbk => {
                if bytes.len() > usize::MAX / 8 {
                    return None;
                }
                decode_gbk(bytes)
            },
            TextEncoding::Big5 => {
                if bytes.len() > usize::MAX / 8 {
                    return None;
                }
                decode_big5(bytes)
            },
            TextEncoding::Gb18030 => {
                if bytes.len() > usize::MAX / 8 {
                    return None;
                }
                decode_gb18030(bytes)
            },
        }
    }
}

/// Pairs bytes into UTF-16 code units, low byte first. A trailing odd byte is dropped.
pub fn units_from_le(bytes: &[u8]) -> (units: Vec<u16>)
    ensures
        units@ == le_units(bytes@),
{
    let count: usize = bytes.len() / 2;
    let mut units: Vec<u16> = Vec::new();
    let mut i: usize = 0;
    while i < count
        invariant
            count == bytes@.len() / 2,
            bytes@.len() <= usize::MAX,
            i <= count,
            units@.len() == i,
            forall|k: int| 0 <= k < i ==> units@[k] == le_units(bytes@)[k],
        decreases count - i,
    {
        let low: u16 = bytes[2 * i] as u16;
        let high: u16 = bytes[2 * i + 1] as u16;
        units.push(low + 256 * high);
        i = i + 1;
    }
    proof {
        assert(units@ =~= le_units(bytes@));
    }
    units
}

} // verus!
