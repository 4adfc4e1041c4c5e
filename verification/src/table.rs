//! The two block-index tables of an archive: the keyword-block index, which
//! describes the compressed blocks that hold the keys, and the record-block
//! index, which describes the compressed blocks that hold the entries.

use crate::block::{decode_block, decoded_block};
use crate::checksum::{adler32, adler32_of};
use crate::cipher::{decrypt_table, decrypted_table};
use crate::error::MDictError;
use crate::source::{range_inside, range_of, ByteSource};
use crate::text::TextEncoding;
use crate::wire::{be_u32_at, in_bounds, read_be_u32, read_size_word, size_word_at, Version};
use vstd::prelude::*;
use vstd::slice::{slice_subrange, slice_to_vec};

verus! {

/// The counters that precede the keyword-block index table.
#[derive(Clone, Copy, PartialEq, Eq, Debug, Structural)]
pub struct KeywordCounters {
    /// The number of keyword blocks.
    pub n_blocks: u64,
    /// The number of keys in the archive.
    pub n_entries: u64,
    /// The decompressed size of the index table; zero in the `V1` layout,
    /// which does not store it.
    pub index_decompressed_size: u64,
    /// The compressed size of the index table.
    pub index_compressed_size: u64,
    /// The size of all keyword blocks together.
    pub blocks_total_size: u64,
}

/// The width of the counters: four size-words in `V1`; five size-words and a
/// four-byte checksum in `V2`.
pub open spec fn counters_width(version: Version) -> nat {
    match version {
        Version::V1 => 16,
        Version::V2 => 44,
    }
}

/// The counters that `bytes` spell.
pub open spec fn counters_of(bytes: Seq<u8>, version: Version) -> KeywordCounters {
    match version {
        Version::V1 => KeywordCounters {
            n_blocks: size_word_at(bytes, 0, version) as u64,
            n_entries: size_word_at(bytes, 4, version) as u64,
            index_decompressed_size: 0,
            index_compressed_size: size_word_at(bytes, 8, version) as u64,
            blocks_total_size: size_word_at(bytes, 12, version) as u64,
        },
        Version::V2 => KeywordCounters {
            n_blocks: size_word_at(bytes, 0, version) as u64,
            n_entries: size_word_at(bytes, 8, version) as u64,
            index_decompressed_size: size_word_at(bytes, 16, version) as u64,
            index_compressed_size: size_word_at(bytes, 24, version) as u64,
            blocks_total_size: size_word_at(bytes, 32, version) as u64,
        },
    }
}

/// The keyword counters at `pos`: `Io` where the archive ends before them,
/// `Corrupt` where the `V2` checksum over the five size-words differs.
pub open spec fn parsed_counters(archive: Seq<u8>, pos: nat, version: Version) -> Result<
    KeywordCounters,
    MDictError,
> {
    if !range_inside(archive, pos, counters_width(version)) {
        Err(MDictError::Io)
    } else {
        let bytes = range_of(archive, pos, counters_width(version));
        if version == Version::V2 && be_u32_at(bytes, 40) != adler32_of(bytes.subrange(0, 40)) {
            Err(MDictError::Corrupt)
        } else {
            Ok(counters_of(bytes, version))
        }
    }
}

/// Reads the keyword counters at `pos`.
pub fn parse_counters(source: &ByteSource, pos: u64, version: Version) -> (r: Result<
    KeywordCounters,
    MDictError,
>)
    ensures
        r == parsed_counters(source@, pos as nat, version),
        r.is_ok() ==> pos + counters_width(version) <= usize::MAX,
{
    match version {
        Version::V1 => {
            let bytes = match source.read_exact_at(pos, 16) {
                Ok(bytes) => bytes,
                Err(e) => {
                    return Err(e);
                },
            };
            Ok(
                KeywordCounters {
                    n_blocks: word_or_zero(bytes, 0, version),
                    n_entries: word_or_zero(bytes, 4, version),
                    index_decompressed_size: 0,
                    index_compressed_size: word_or_zero(bytes, 8, version),
                    blocks_total_size: word_or_zero(bytes, 12, version),
                },
            )
        },
        Version::V2 => {
            let bytes = match source.read_exact_at(pos, 44) {
                Ok(bytes) => bytes,
                Err(e) => {
                    return Err(e);
                },
            };
            let stored: u32 = match read_be_u32(bytes, 40) {
                Some(v) => v,
                None => 0,
            };
            if stored != adler32(slice_subrange(bytes, 0, 40)) {
                return Err(MDictError::Corrupt);
            }
            Ok(
                KeywordCounters {
                    n_blocks: word_or_zero(bytes, 0, version),
                    n_entries: word_or_zero(bytes, 8, version),
                    index_decompressed_size: word_or_zero(bytes, 16, version),
                    index_compressed_size: word_or_zero(bytes, 24, version),
                    blocks_total_size: word_or_zero(bytes, 32, version),
                },
            )
        },
    }
}

/// Reads the size-word at `pos`, or zero where it does not lie inside `data`.
pub fn word_or_zero(data: &[u8], pos: usize, version: Version) -> (v: u64)
    ensures
        in_bounds(data@.len(), pos as int, version.word_width()) ==> v == size_word_at(
            data@,
            pos as int,
            version,
        ),
        !in_bounds(data@.len(), pos as int, version.word_width()) ==> v == 0,
{
    match read_size_word(data, pos, version) {
        Some(v) => v,
        None => 0,
    }
}

/// One entry of the keyword-block index.
pub struct KeywordBlockInfo {
    /// The number of keys in the block.
    pub num_entries: u64,
    /// The first key of the block, without its terminator.
    pub first_key: Vec<u8>,
    /// The last key of the block, without its terminator.
    pub last_key: Vec<u8>,
    /// The size of the block in the archive.
    pub compressed_size: u64,
    /// The size of the block once decompressed.
    pub decompressed_size: u64,
}

/// The mathematical content of an entry of the keyword-block index.
pub ghost struct KeywordBlockModel {
    pub num_entries: u64,
    pub first_key: Seq<u8>,
    pub last_key: Seq<u8>,
    pub compressed_size: u64,
    pub decompressed_size: u64,
}

impl View for KeywordBlockInfo {
    type V = KeywordBlockModel;

    open spec fn view(&self) -> KeywordBlockModel {
        KeywordBlockModel {
            num_entries: self.num_entries,
            first_key: self.first_key@,
            last_key: self.last_key@,
            compressed_size: self.compressed_size,
            decompressed_size: self.decompressed_size,
        }
    }
}

/// The models of a list of entries.
pub open spec fn block_models(blocks: Seq<KeywordBlockInfo>) -> Seq<KeywordBlockModel> {
    Seq::new(blocks.len(), |i: int| blocks[i]@)
}

/// A key field at `pos`: a size-word, then that many bytes of which the last
/// `nul` are the terminator. Yields the key without the terminator and the
/// position after the field; `None` where the field does not lie inside
/// `bytes` or is shorter than its terminator.
pub open spec fn key_field_at(bytes: Seq<u8>, pos: int, version: Version, nul: nat) -> Option<
    (Seq<u8>, int),
> {
    let w = version.word_width();
    if !in_bounds(bytes.len(), pos, w) {
        None
    } else {
        let size = size_word_at(bytes, pos, version);
        if size < nul || pos + w + size > bytes.len() {
            None
        } else {
            Some((bytes.subrange(pos + w, pos + w + size - nul), pos + w + size))
        }
    }
}

/// The entry of the keyword-block index at `pos` and the position after it:
/// the number of keys, the first key, the last key, the compressed and the
/// decompressed size of the block.
pub open spec fn keyword_block_at(bytes: Seq<u8>, pos: int, version: Version, nul: nat) -> Option<
    (KeywordBlockModel, int),
> {
    let w = version.word_width();
    if !in_bounds(bytes.len(), pos, w) {
        None
    } else {
        match key_field_at(bytes, pos + w, version, nul) {
            None => None,
            Some((first_key, p1)) => match key_field_at(bytes, p1, version, nul) {
                None => None,
                Some((last_key, p2)) => if !in_bounds(bytes.len(), p2, 2 * w) {
                    None
                } else {
                    Some(
                        (
                            KeywordBlockModel {
                                num_entries: size_word_at(bytes, pos, version) as u64,
                                first_key,
                                last_key,
                                compressed_size: size_word_at(bytes, p2, version) as u64,
                                decompressed_size: size_word_at(bytes, p2 + w, version) as u64,
                            },
                            p2 + 2 * w,
                        ),
                    )
                },
            },
        }
    }
}

/// The next `remaining` entries of the keyword-block index from `pos` on,
/// appended to `acc`; `None` where the table ends before them.
pub open spec fn keyword_blocks_from(
    bytes: Seq<u8>,
    pos: int,
    remaining: nat,
    version: Version,
    nul: nat,
    acc: Seq<KeywordBlockModel>,
) -> Option<Seq<KeywordBlockModel>>
    decreases remaining,
{
    if remaining == 0 {
        Some(acc)
    } else {
        match keyword_block_at(bytes, pos, version, nul) {
            None => None,
            Some((block, next)) => keyword_blocks_from(
                bytes,
                next,
                (remaining - 1) as nat,
                version,
                nul,
                acc.push(block),
            ),
        }
    }
}

/// The number of keys that the blocks hold together.
pub open spec fn entries_sum(blocks: Seq<KeywordBlockModel>) -> nat
    decreases blocks.len(),
{
    if blocks.len() == 0 {
        0
    } else {
        entries_sum(blocks.drop_last()) + blocks.last().num_entries as nat
    }
}

/// The size of the blocks together, as compressed.
pub open spec fn compressed_sum(blocks: Seq<KeywordBlockModel>) -> nat
    decreases blocks.len(),
{
    if blocks.len() == 0 {
        0
    } else {
        compressed_sum(blocks.drop_last()) + blocks.last().compressed_size as nat
    }
}

/// The keyword-block index whose table starts at `pos`.
///
/// The table is `index_compressed_size` bytes long (`Io` where the archive
/// ends before that). Where `encrypted` it is descrambled first. It is a
/// compressed block (`Corrupt` where it does not decode; the `V2` layout
/// gives its decompressed size). Decompressed it holds `n_blocks` entries;
/// `InvalidFormat` where it ends before them, where the entries do not hold
/// `n_entries` keys together, or where the blocks are not
/// `blocks_total_size` bytes together.
pub open spec fn parsed_keyword_index(
    archive: Seq<u8>,
    pos: nat,
    counters: KeywordCounters,
    version: Version,
    encoding: TextEncoding,
    encrypted: bool,
) -> Result<Seq<KeywordBlockModel>, MDictError> {
    if !range_inside(archive, pos, counters.index_compressed_size as nat) {
        Err(MDictError::Io)
    } else {
        let raw = range_of(archive, pos, counters.index_compressed_size as nat);
        let table = if encrypted {
            decrypted_table(raw, counters.index_compressed_size as nat)
        } else {
            raw
        };
        let expected = if version == Version::V2 {
            Some(counters.index_decompressed_size)
        } else {
            None
        };
        match decoded_block(table, expected) {
            Err(e) => Err(e),
            Ok(bytes) => match keyword_blocks_from(
                bytes,
                0,
                counters.n_blocks as nat,
                version,
                encoding.nul_width(),
                Seq::empty(),
            ) {
                None => Err(MDictError::InvalidFormat),
                Some(blocks) => if entries_sum(blocks) != counters.n_entries || compressed_sum(
                    blocks,
                ) != counters.blocks_total_size {
                    Err(MDictError::InvalidFormat)
                } else {
                    Ok(blocks)
                },
            },
        }
    }
}

/// Reads a key field at `pos`.
pub fn parse_key_field(
    bytes: &[u8],
    pos: usize,
    version: Version,
    encoding: TextEncoding,
) -> (r: Option<
    (Vec<u8>, usize),
>)
    ensures
        match key_field_at(bytes@, pos as int, version, encoding.nul_width()) {
            Some((key, next)) => r matches Some((k, n)) && k@ == key && n == next,
            None => r.is_none(),
        },
{
    let nul: usize = encoding.terminator_width();
    let w: usize = version.width();
    let total: usize = bytes.len();
    let size: u64 = match read_size_word(bytes, pos, version) {
        Some(v) => v,
        None => {
            return None;
        },
    };
    let start: usize = pos + w;
    if size < nul as u64 || size > (total - start) as u64 {
        return None;
    }
    let end: usize = start + size as usize;
    Some((slice_to_vec(slice_subrange(bytes, start, end - nul)), end))
}

/// Reads the entry of the keyword-block index at `pos`.
pub fn parse_keyword_block(
    bytes: &[u8],
    pos: usize,
    version: Version,
    encoding: TextEncoding,
) -> (r: Option<
    (KeywordBlockInfo, usize),
>)
    ensures
        match keyword_block_at(bytes@, pos as int, version, encoding.nul_width()) {
            Some((block, next)) => r matches Some((b, n)) && b@ == block && n == next,
            None => r.is_none(),
        },
{
    let nul: usize = encoding.terminator_width();
    let w: usize = version.width();
    let total: usize = bytes.len();
    let num_entries: u64 = match read_size_word(bytes, pos, version) {
        Some(v) => v,
        None => {
            return None;
        },
    };
    let (first_key, p1) = match parse_key_field(bytes, pos + w, version, encoding) {
        Some(field) => field,
        None => {
            return None;
        },
    };
    let (last_key, p2) = match parse_key_field(bytes, p1, version, encoding) {
        Some(field) => field,
        None => {
            return None;
        },
    };
    if total - p2 < 2 * w {
        return None;
    }
    let compressed_size: u64 = word_or_zero(bytes, p2, version);
    let decompressed_size: u64 = word_or_zero(bytes, p2 + w, version);
    Some(
        (
            KeywordBlockInfo { num_entries, first_key, last_key, compressed_size, decompressed_size },
            p2 + 2 * w,
        ),
    )
}

/// Reads `count` entries of the keyword-block index from the start of a
/// decompressed table.
pub fn parse_keyword_blocks(
    bytes: &[u8],
    count: u64,
    version: Version,
    encoding: TextEncoding,
) -> (r: Option<
    Vec<KeywordBlockInfo>,
>)
    ensures
        match keyword_blocks_from(bytes@, 0, count as nat, version, encoding.nul_width(), Seq::empty()) {
            Some(blocks) => r matches Some(v) && block_models(v@) == blocks,
            None => r.is_none(),
        },
{
    let nul: usize = encoding.terminator_width();
    let mut out: Vec<KeywordBlockInfo> = Vec::new();
    let mut pos: usize = 0;
    let mut done: u64 = 0;
    proof {
        assert(block_models(out@) =~= Seq::empty());
    }
    while done < count
        invariant
            nul == encoding.nul_width(),
            done <= count,
            pos <= bytes@.len(),
            keyword_blocks_from(bytes@, 0, count as nat, version, encoding.nul_width(), Seq::empty())
                == keyword_blocks_from(
                bytes@,
                pos as int,
                (count - done) as nat,
                version,
                encoding.nul_width(),
                block_models(out@),
            ),
        decreases count - done,
    {
        match parse_keyword_block(bytes, pos, version, encoding) {
            None => {
                return None;
            },
            Some((block, next)) => {
                let ghost before = block_models(out@);
                let ghost model = block@;
                out.push(block);
                proof {
                    assert(block_models(out@) =~= before.push(model));
                }
                pos = next;
                done = done + 1;
            },
        }
    }
    Some(out)
}

/// Adds up the keys of the blocks; `None` where the sum does not fit.
pub fn sum_entries(blocks: &Vec<KeywordBlockInfo>) -> (r: Option<u64>)
    ensures
        match r {
            Some(sum) => sum == entries_sum(block_models(blocks@)),
            None => entries_sum(block_models(blocks@)) > u64::MAX,
        },
{
    let ghost models = block_models(blocks@);
    let mut sum: u64 = 0;
    let mut i: usize = 0;
    proof {
        assert(models.take(0) =~= Seq::empty());
    }
    while i < blocks.len()
        invariant
            i <= blocks@.len(),
            models == block_models(blocks@),
            sum == entries_sum(models.take(i as int)),
        decreases blocks@.len() - i,
    {
        proof {
            assert(models.take(i + 1).drop_last() =~= models.take(i as int));
            assert(models.take(i + 1).last() == models[i as int]);
        }
        if blocks[i].num_entries > u64::MAX - sum {
            proof {
                lemma_entries_sum_grows(models, i + 1);
            }
            return None;
        }
        sum = sum + blocks[i].num_entries;
        i = i + 1;
    }
    proof {
        assert(models.take(i as int) =~= models);
    }
    Some(sum)
}

/// Adds up the compressed sizes of the blocks; `None` where the sum does not fit.
pub fn sum_compressed(blocks: &Vec<KeywordBlockInfo>) -> (r: Option<u64>)
    ensures
        match r {
            Some(sum) => sum == compressed_sum(block_models(blocks@)),
            None => compressed_sum(block_models(blocks@)) > u64::MAX,
        },
{
    let ghost models = block_models(blocks@);
    let mut sum: u64 = 0;
    let mut i: usize = 0;
    proof {
        assert(models.take(0) =~= Seq::empty());
    }
    while i < blocks.len()
        invariant
            i <= blocks@.len(),
            models == block_models(blocks@),
            sum == compressed_sum(models.take(i as int)),
        decreases blocks@.len() - i,
    {
        proof {
            assert(models.take(i + 1).drop_last() =~= models.take(i as int));
            assert(models.take(i + 1).last() == models[i as int]);
        }
        if blocks[i].compressed_size > u64::MAX - sum {
            proof {
                lemma_compressed_sum_grows(models, i + 1);
            }
            return None;
        }
        sum = sum + blocks[i].compressed_size;
        i = i + 1;
    }
    proof {
        assert(models.take(i as int) =~= models);
    }
    Some(sum)
}

/// The keys of a prefix of the blocks are no more than the keys of all.
pub proof fn lemma_entries_sum_grows(blocks: Seq<KeywordBlockModel>, n: int)
    requires
        0 <= n <= blocks.len(),
    ensures
        entries_sum(blocks.take(n)) <= entries_sum(blocks),
    decreases blocks.len() - n,
{
    if n == blocks.len() {
        assert(blocks.take(n) =~= blocks);
    } else {
        lemma_entries_sum_grows(blocks, n + 1);
        assert(blocks.take(n + 1).drop_last() =~= blocks.take(n));
    }
}

/// The compressed size of a prefix of the blocks is no more than that of all.
pub proof fn lemma_compressed_sum_grows(blocks: Seq<KeywordBlockModel>, n: int)
    requires
        0 <= n <= blocks.len(),
    ensures
        compressed_sum(blocks.take(n)) <= compressed_sum(blocks),
    decreases blocks.len() - n,
{
    if n == blocks.len() {
        assert(blocks.take(n) =~= blocks);
    } else {
        lemma_compressed_sum_grows(blocks, n + 1);
        assert(blocks.take(n + 1).drop_last() =~= blocks.take(n));
    }
}

/// Reads the keyword-block index whose table starts at `pos`.
pub fn parse_keyword_index(
    source: &ByteSource,
    pos: u64,
    counters: &KeywordCounters,
    version: Version,
    encoding: TextEncoding,
    encrypted: bool,
) -> (r: Result<Vec<KeywordBlockInfo>, MDictError>)
    ensures
        match parsed_keyword_index(source@, pos as nat, *counters, version, encoding, encrypted) {
            Ok(blocks) => r matches Ok(v) && block_models(v@) == blocks,
            Err(e) => r matches Err(e2) && e2 == e,
        },
        r.is_ok() ==> pos + counters.index_compressed_size <= usize::MAX,
{
    let raw = match source.read_exact_at(pos, counters.index_compressed_size) {
        Ok(bytes) => bytes,
        Err(e) => {
            return Err(e);
        },
    };
    let expected: Option<u64> = match version {
        Version::V2 => Some(counters.index_decompressed_size),
        Version::V1 => None,
    };
    let decoded = if encrypted {
        let table = decrypt_table(raw, counters.index_compressed_size);
        decode_block(table.as_slice(), expected)
    } else {
        decode_block(raw, expected)
    };
    let bytes = match decoded {
        Ok(bytes) => bytes,
        Err(e) => {
            return Err(e);
        },
    };
    let blocks = match parse_keyword_blocks(
        bytes.as_slice(),
        counters.n_blocks,
        version,
        encoding,
    ) {
        Some(blocks) => blocks,
        None => {
            return Err(MDictError::InvalidFormat);
        },
    };
    let entries_match = match sum_entries(&blocks) {
        Some(sum) => sum == counters.n_entries,
        None => false,
    };
    let sizes_match = match sum_compressed(&blocks) {
        Some(sum) => sum == counters.blocks_total_size,
        None => false,
    };
    if !entries_match || !sizes_match {
        return Err(MDictError::InvalidFormat);
    }
    Ok(blocks)
}

} // verus!
