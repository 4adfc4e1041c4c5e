//! The descrambler of an encrypted keyword-block index table.

use crate::outside::{ripemd128, ripemd128_digest};
use crate::wire::{le_bytes, le_bytes_of};
use vstd::prelude::*;

verus! {

/// A byte rotated right by three bits.
pub open spec fn rotated_right3(x: u8) -> u8 {
    (x >> 3u8) | (x << 5u8)
}

/// One descrambled byte: the scrambled byte, the key byte and the low eight
/// bits of the position are combined by exclusive or, and the result is
/// rotated right by three bits.
pub open spec fn unscrambled_byte(scrambled: u8, key: u8, position: nat) -> u8 {
    rotated_right3(scrambled ^ key ^ ((position % 256) as u8))
}

/// The message whose digest is the descrambling key: the compressed size of
/// the table as four little-endian bytes, then `95 36 00 00`.
pub open spec fn key_message(table_size: nat) -> Seq<u8> {
    le_bytes_of(table_size) + seq![0x95u8, 0x36u8, 0u8, 0u8]
}

/// The sixteen-byte key that descrambles a table of the given compressed size.
pub open spec fn table_key(table_size: nat) -> Seq<u8> {
    ripemd128_digest(key_message(table_size))
}

/// The payload descrambled byte by byte under a sixteen-byte key.
pub open spec fn unscrambled(payload: Seq<u8>, key: Seq<u8>) -> Seq<u8> {
    Seq::new(payload.len(), |i: int| unscrambled_byte(payload[i], key[i % 16], i as nat))
}

/// An encrypted table made readable: the first eight bytes pass through, the
/// rest is descrambled. A table shorter than eight bytes is left as it is.
pub open spec fn decrypted_table(table: Seq<u8>, table_size: nat) -> Seq<u8> {
    if table.len() < 8 {
        table
    } else {
        table.subrange(0, 8) + unscrambled(
            table.subrange(8, table.len() as int),
            table_key(table_size),
        )
    }
}

/// Derives the descrambling key of a table of the given compressed size.
pub fn derive_table_key(table_size: u64) -> (key: Vec<u8>)
    ensures
        key@ == table_key(table_size as nat),
        key@.len() == 16,
{
    let mut message: Vec<u8> = le_bytes(table_size);
    message.push(0x95u8);
    message.push(0x36u8);
    message.push(0u8);
    message.push(0u8);
    proof {
        assert(message@ =~= key_message(table_size as nat));
    }
    ripemd128(message.as_slice())
}

/// Descrambles one byte.
pub fn unscramble_byte(scrambled: u8, key: u8, position: usize) -> (clear: u8)
    ensures
        clear == unscrambled_byte(scrambled, key, position as nat),
{
    let mixed: u8 = scrambled ^ key ^ ((position % 256) as u8);
    (mixed >> 3u8) | (mixed << 5u8)
}

/// Makes an encrypted keyword-block index table readable.
pub fn decrypt_table(table: &[u8], table_size: u64) -> (clear: Vec<u8>)
    ensures
        clear@ == decrypted_table(table@, table_size as nat),
        clear@.len() == table@.len(),
{
    let mut clear: Vec<u8> = Vec::new();
    if table.len() < 8 {
        clear.extend_from_slice(table);
        return clear;
    }
    let key = derive_table_key(table_size);
    let ghost payload = table@.subrange(8, table@.len() as int);
    let mut j: usize = 0;
    while j < 8
        invariant
            table@.len() >= 8,
            j <= 8,
            clear@ =~= table@.subrange(0, j as int),
        decreases 8 - j,
    {
        clear.push(table[j]);
        j = j + 1;
    }
    let mut i: usize = 8;
    while i < table.len()
        invariant
            8 <= i <= table@.len(),
            key@.len() == 16,
            key@ == table_key(table_size as nat),
            payload == table@.subrange(8, table@.len() as int),
            clear@.len() == i,
            clear@.subrange(0, 8) =~= table@.subrange(0, 8),
            forall|k: int|
                8 <= k < i ==> clear@[k] == unscrambled_byte(
                    payload[k - 8],
                    key@[(k - 8) % 16],
                    (k - 8) as nat,
                ),
        decreases table@.len() - i,
    {
        let position: usize = i - 8;
        let byte = unscramble_byte(table[i], key[position % 16], position);
        let ghost before = clear@;
        clear.push(byte);
        proof {
            assert(clear@.subrange(0, 8) =~= before.subrange(0, 8));
        }
        i = i + 1;
    }
    proof {
        assert(clear@ =~= decrypted_table(table@, table_size as nat));
    }
    clear
}

} // verus!
