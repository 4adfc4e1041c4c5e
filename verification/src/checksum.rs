//! The ADLER-32 checksum that guards the header and every compressed block.

use vstd::prelude::*;

verus! {

/// The modulus of both running sums: the largest prime below 2^16.
pub const ADLER_MODULUS: u32 = 65521;

/// The low sum: one plus the bytes, modulo 65521.
pub open spec fn adler_low(bytes: Seq<u8>) -> nat
    decreases bytes.len(),
{
    if bytes.len() == 0 {
        1
    } else {
        (adler_low(bytes.drop_last()) + bytes.last() as nat) % 65521
    }
}

/// The high sum: the sum of the low sums of all non-empty prefixes, modulo 65521.
pub open spec fn adler_high(bytes: Seq<u8>) -> nat
    decreases bytes.len(),
{
    if bytes.len() == 0 {
        0
    } else {
        (adler_high(bytes.drop_last()) + adler_low(bytes)) % 65521
    }
}

/// The ADLER-32 checksum of a byte sequence: high sum in the upper 16 bits,
/// low sum in the lower 16 bits.
pub open spec fn adler32_of(bytes: Seq<u8>) -> nat {
    adler_high(bytes) * 65536 + adler_low(bytes)
}

/// Computes the ADLER-32 checksum of `data`.
pub fn adler32(data: &[u8]) -> (sum: u32)
    ensures
        sum == adler32_of(data@),
{
    let mut low: u32 = 1;
    let mut high: u32 = 0;
    let mut i: usize = 0;
    while i < data.len()
        invariant
            i <= data.len(),
            low == adler_low(data@.take(i as int)),
            high == adler_high(data@.take(i as int)),
            low < 65521,
            high < 65521,
        decreases data.len() - i,
    {
        proof {
            assert(data@.take(i + 1).drop_last() =~= data@.take(i as int));
            assert(data@.take(i + 1).last() == data@[i as int]);
        }
        low = (low + data[i] as u32) % ADLER_MODULUS;
        high = (high + low) % ADLER_MODULUS;
        i = i + 1;
    }
    proof {
        assert(data@.take(i as int) =~= data@);
    }
    high * 65536 + low
}

} // verus!
