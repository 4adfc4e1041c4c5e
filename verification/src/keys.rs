//! The key list of an archive: the keyword blocks decoded into keys with
//! their record offsets, and the record offsets resolved into locators.

use crate::block::{decode_block, decoded_block};
use crate::error::MDictError;
use crate::records::{
    covering_block, is_covering, lemma_tiled_bounded, lemma_tiled_ordered, stream_end, tiled,
    MDictRecordBlockIndex, MDictRecordIndex, RecordBlockTable,
};
use crate::source::{range_inside, range_of, ByteSource};
use crate::table::{block_models, compressed_sum, entries_sum, KeywordBlockInfo, KeywordBlockModel};
use crate::text::TextEncoding;
use crate::wire::{in_bounds, read_size_word, size_word_at, Version};
use vstd::prelude::*;
use vstd::slice::{slice_subrange, slice_to_vec};

verus! {

/// One key of the archive as stored: its bytes without the terminator, and
/// the offset of its record in the decompressed record stream.
pub struct KeyEntry {
    pub key: Vec<u8>,
    pub record_offset: u64,
}

impl View for KeyEntry {
    type V = (Seq<u8>, u64);

    open spec fn view(&self) -> (Seq<u8>, u64) {
        (self.key@, self.record_offset)
    }
}

/// The keys and record offsets of a list of entries.
pub open spec fn entry_pairs(entries: Seq<KeyEntry>) -> Seq<(Seq<u8>, u64)> {
    Seq::new(entries.len(), |i: int| entries[i]@)
}

/// Whether a terminator of `nul` zero bytes stands at `p`.
pub open spec fn is_nul_at(bytes: Seq<u8>, p: int, nul: nat) -> bool {
    if nul == 2 {
        bytes[p] == 0 && bytes[p + 1] == 0
    } else {
        bytes[p] == 0
    }
}

/// The position of the terminator of the key that starts at `p`, looked for
/// in steps of `nul` bytes. Where there is none, the result leaves no room
/// for a terminator before the end of `bytes`.
pub open spec fn terminator_from(bytes: Seq<u8>, p: int, nul: nat) -> int
    decreases bytes.len() - p,
{
    if nul == 0 || p < 0 || p + nul > bytes.len() || is_nul_at(bytes, p, nul) {
        p
    } else {
        terminator_from(bytes, p + nul, nul)
    }
}

/// The pair at `pos` of a decompressed keyword block and the position after
/// it: the record offset as a size-word, then the key up to its terminator.
/// `None` where the block ends before the size-word or the terminator.
pub open spec fn pair_at(bytes: Seq<u8>, pos: int, version: Version, nul: nat) -> Option<
    ((Seq<u8>, u64), int),
> {
    let w = version.word_width();
    if !in_bounds(bytes.len(), pos, w) {
        None
    } else {
        let start = pos + w;
        let t = terminator_from(bytes, start, nul);
        if t < start || t + nul > bytes.len() {
            None
        } else {
            Some(((bytes.subrange(start, t), size_word_at(bytes, pos, version) as u64), t + nul))
        }
    }
}

/// The next `remaining` pairs of a decompressed keyword block from `pos` on,
/// appended to `acc`. `None` where the block ends before them, or does not
/// end with the last of them.
pub open spec fn pairs_from(
    bytes: Seq<u8>,
    pos: int,
    remaining: nat,
    version: Version,
    nul: nat,
    acc: Seq<(Seq<u8>, u64)>,
) -> Option<Seq<(Seq<u8>, u64)>>
    decreases remaining,
{
    if remaining == 0 {
        if pos == bytes.len() {
            Some(acc)
        } else {
            None
        }
    } else {
        match pair_at(bytes, pos, version, nul) {
            None => None,
            Some((pair, next)) => pairs_from(
                bytes,
                next,
                (remaining - 1) as nat,
                version,
                nul,
                acc.push(pair),
            ),
        }
    }
}

/// The pairs of the keyword blocks from block `i` on, appended to `acc`.
/// Block `i` starts at `pos` in the archive and the blocks lie back to back.
/// `Io` where the archive ends before a block, `Corrupt` where a block does
/// not decode, `InvalidFormat` where a block does not hold exactly as many
/// pairs as its index entry says.
pub open spec fn key_entries_from(
    archive: Seq<u8>,
    pos: nat,
    blocks: Seq<KeywordBlockModel>,
    i: int,
    version: Version,
    nul: nat,
    acc: Seq<(Seq<u8>, u64)>,
) -> Result<Seq<(Seq<u8>, u64)>, MDictError>
    decreases blocks.len() - i,
{
    if i < 0 || i >= blocks.len() {
        Ok(acc)
    } else if !range_inside(archive, pos, blocks[i].compressed_size as nat) {
        Err(MDictError::Io)
    } else {
        match decoded_block(
            range_of(archive, pos, blocks[i].compressed_size as nat),
            Some(blocks[i].decompressed_size),
        ) {
            Err(e) => Err(e),
            Ok(bytes) => match pairs_from(
                bytes,
                0,
                blocks[i].num_entries as nat,
                version,
                nul,
                acc,
            ) {
                None => Err(MDictError::InvalidFormat),
                Some(more) => key_entries_from(
                    archive,
                    pos + blocks[i].compressed_size as nat,
                    blocks,
                    i + 1,
                    version,
                    nul,
                    more,
                ),
            },
        }
    }
}

/// A keyword block that decodes holds as many pairs as were asked of it.
pub proof fn lemma_pairs_count(
    bytes: Seq<u8>,
    pos: int,
    remaining: nat,
    version: Version,
    nul: nat,
    acc: Seq<(Seq<u8>, u64)>,
    out: Seq<(Seq<u8>, u64)>,
)
    requires
        pairs_from(bytes, pos, remaining, version, nul, acc) == Some(out),
    ensures
        out.len() == acc.len() + remaining,
    decreases remaining,
{
    if remaining > 0 {
        let (pair, next) = pair_at(bytes, pos, version, nul).unwrap();
        lemma_pairs_count(bytes, next, (remaining - 1) as nat, version, nul, acc.push(pair), out);
    }
}

/// The keyword blocks from block `i` on add as many pairs to `acc` as their
/// index entries announce.
pub proof fn lemma_key_entries_count(
    archive: Seq<u8>,
    pos: nat,
    blocks: Seq<KeywordBlockModel>,
    i: int,
    version: Version,
    nul: nat,
    acc: Seq<(Seq<u8>, u64)>,
    out: Seq<(Seq<u8>, u64)>,
)
    requires
        0 <= i <= blocks.len(),
        key_entries_from(archive, pos, blocks, i, version, nul, acc) == Ok::<
            Seq<(Seq<u8>, u64)>,
            MDictError,
        >(out),
    ensures
        out.len() + entries_sum(blocks.take(i)) == acc.len() + entries_sum(blocks),
    decreases blocks.len() - i,
{
    if i < blocks.len() {
        let bytes = decoded_block(
            range_of(archive, pos, blocks[i].compressed_size as nat),
            Some(blocks[i].decompressed_size),
        ).unwrap();
        let more = pairs_from(bytes, 0, blocks[i].num_entries as nat, version, nul, acc).unwrap();
        lemma_pairs_count(bytes, 0, blocks[i].num_entries as nat, version, nul, acc, more);
        lemma_key_entries_count(
            archive,
            pos + blocks[i].compressed_size as nat,
            blocks,
            i + 1,
            version,
            nul,
            more,
            out,
        );
        assert(blocks.take(i + 1).drop_last() =~= blocks.take(i));
        assert(blocks.take(i + 1).last() == blocks[i]);
    } else {
        assert(blocks.take(i) =~= blocks);
    }
}

/// The key list of an archive whose keyword blocks start at `pos`.
pub open spec fn key_entries_of(
    archive: Seq<u8>,
    pos: nat,
    blocks: Seq<KeywordBlockModel>,
    version: Version,
    nul: nat,
) -> Result<Seq<(Seq<u8>, u64)>, MDictError> {
    key_entries_from(archive, pos, blocks, 0, version, nul, Seq::empty())
}

/// Finds the terminator of the key that starts at `p`.
pub fn scan_terminator(bytes: &[u8], p: usize, encoding: TextEncoding) -> (t: usize)
    ensures
        t == terminator_from(bytes@, p as int, encoding.nul_width()),
        p <= bytes@.len() ==> p <= t <= bytes@.len(),
{
    let nul: usize = encoding.terminator_width();
    let total: usize = bytes.len();
    if p > total {
        return p;
    }
    let mut t: usize = p;
    while total - t >= nul && !(bytes[t] == 0 && (nul == 1 || bytes[t + 1] == 0))
        invariant
            1 <= nul <= 2,
            nul == encoding.nul_width(),
            total == bytes@.len(),
            p <= t <= total,
            terminator_from(bytes@, p as int, encoding.nul_width()) == terminator_from(
                bytes@,
                t as int,
                encoding.nul_width(),
            ),
        decreases total - t,
    {
        t = t + nul;
    }
    t
}

/// Reads the pair at `pos` of a decompressed keyword block.
pub fn parse_pair(bytes: &[u8], pos: usize, version: Version, encoding: TextEncoding) -> (r: Option<
    (KeyEntry, usize),
>)
    ensures
        match pair_at(bytes@, pos as int, version, encoding.nul_width()) {
            Some((pair, next)) => r matches Some((entry, n)) && entry@ == pair && n == next,
            None => r.is_none(),
        },
{
    let nul: usize = encoding.terminator_width();
    let w: usize = version.width();
    let total: usize = bytes.len();
    let record_offset: u64 = match read_size_word(bytes, pos, version) {
        Some(v) => v,
        None => {
            return None;
        },
    };
    let start: usize = pos + w;
    let t = scan_terminator(bytes, start, encoding);
    if total - t < nul {
        return None;
    }
    Some((KeyEntry { key: slice_to_vec(slice_subrange(bytes, start, t)), record_offset }, t + nul))
}

/// Reads `count` pairs from a decompressed keyword block, which must end
/// with the last of them, and appends them to `entries`.
pub fn parse_pairs(
    bytes: &[u8],
    count: u64,
    version: Version,
    encoding: TextEncoding,
    entries: Vec<KeyEntry>,
) -> (r: Option<Vec<KeyEntry>>)
    ensures
        match pairs_from(bytes@, 0, count as nat, version, encoding.nul_width(), entry_pairs(entries@)) {
            Some(pairs) => r matches Some(v) && entry_pairs(v@) == pairs,
            None => r.is_none(),
        },
        r matches Some(v) ==> v@.len() == entries@.len() + count,
{
    let nul: usize = encoding.terminator_width();
    let mut out = entries;
    let mut pos: usize = 0;
    let mut done: u64 = 0;
    while done < count
        invariant
            1 <= nul <= 2,
            nul == encoding.nul_width(),
            done <= count,
            pos <= bytes@.len(),
            out@.len() == entries@.len() + done,
            pairs_from(bytes@, 0, count as nat, version, encoding.nul_width(), entry_pairs(entries@))
                == pairs_from(
                bytes@,
                pos as int,
                (count - done) as nat,
                version,
                encoding.nul_width(),
                entry_pairs(out@),
            ),
        decreases count - done,
    {
        match parse_pair(bytes, pos, version, encoding) {
            None => {
                return None;
            },
            Some((entry, next)) => {
                let ghost before = entry_pairs(out@);
                let ghost pair = entry@;
                out.push(entry);
                proof {
                    assert(entry_pairs(out@) =~= before.push(pair));
                }
                pos = next;
                done = done + 1;
            },
        }
    }
    if pos == bytes.len() {
        Some(out)
    } else {
        None
    }
}

/// Decodes the keyword blocks, which start at `pos` in the archive, into the
/// key list. Returns the list and the offset at which the last block ends.
/// The list holds as many pairs as the index entries of the blocks announce.
pub fn parse_key_entries(
    source: &ByteSource,
    pos: u64,
    blocks: &Vec<KeywordBlockInfo>,
    version: Version,
    encoding: TextEncoding,
) -> (r: Result<(Vec<KeyEntry>, u64), MDictError>)
    ensures
        match key_entries_of(source@, pos as nat, block_models(blocks@), version, encoding.nul_width()) {
            Ok(pairs) => r matches Ok((v, end)) && entry_pairs(v@) == pairs,
            Err(e) => r matches Err(e2) && e2 == e,
        },
        r matches Ok((v, end)) ==> {
            &&& v@.len() == entries_sum(block_models(blocks@))
            &&& end == pos + compressed_sum(block_models(blocks@))
            &&& blocks@.len() > 0 ==> end <= source@.len()
        },
{
    let nul: usize = encoding.terminator_width();
    let ghost models = block_models(blocks@);
    let mut entries: Vec<KeyEntry> = Vec::new();
    let mut at: u64 = pos;
    let mut i: usize = 0;
    proof {
        assert(entry_pairs(entries@) =~= Seq::empty());
        assert(models.take(0) =~= Seq::empty());
    }
    while i < blocks.len()
        invariant
            1 <= nul <= 2,
            nul == encoding.nul_width(),
            i <= blocks@.len(),
            models == block_models(blocks@),
            entries@.len() == entries_sum(models.take(i as int)),
            at == pos + compressed_sum(models.take(i as int)),
            i > 0 ==> at <= source@.len() && at <= usize::MAX,
            key_entries_of(source@, pos as nat, models, version, encoding.nul_width()) == key_entries_from(
                source@,
                at as nat,
                models,
                i as int,
                version,
                encoding.nul_width(),
                entry_pairs(entries@),
            ),
        decreases blocks@.len() - i,
    {
        let info = &blocks[i];
        proof {
            assert(models[i as int] == info@);
        }
        let compressed = match source.read_exact_at(at, info.compressed_size) {
            Ok(bytes) => bytes,
            Err(e) => {
                return Err(e);
            },
        };
        let bytes = match decode_block(compressed, Some(info.decompressed_size)) {
            Ok(bytes) => bytes,
            Err(e) => {
                return Err(e);
            },
        };
        entries = match parse_pairs(bytes.as_slice(), info.num_entries, version, encoding, entries) {
            Some(more) => more,
            None => {
                return Err(MDictError::InvalidFormat);
            },
        };
        proof {
            assert(models.take(i + 1).drop_last() =~= models.take(i as int));
            assert(models.take(i + 1).last() == models[i as int]);
        }
        at = at + info.compressed_size;
        i = i + 1;
    }
    proof {
        assert(models.take(i as int) =~= models);
    }
    Ok((entries, at))
}

/// Where the record of entry `i` ends in the decompressed record stream: at
/// the offset of the next entry, or at the end of the stream for the last.
pub open spec fn record_end(entries: Seq<(Seq<u8>, u64)>, total: nat, i: int) -> nat {
    if i + 1 < entries.len() {
        entries[i + 1].1 as nat
    } else {
        total
    }
}

/// The locator of entry `i`: the block that covers its record offset, the
/// offset within that block, and the length up to the end of the record.
/// `None` where no block covers the offset, the record ends before it starts
/// or after its block, or a part of the locator does not fit in 32 bits.
pub open spec fn locator_at(
    entries: Seq<(Seq<u8>, u64)>,
    blocks: Seq<MDictRecordBlockIndex>,
    total: nat,
    i: int,
) -> Option<MDictRecordIndex> {
    let off = entries[i].1 as nat;
    let end = record_end(entries, total, i);
    match covering_block(blocks, off) {
        None => None,
        Some(b) => if end < off || end > stream_end(blocks[b]) || b > u32::MAX || off
            - blocks[b].decompressed_offset > u32::MAX || end - off > u32::MAX {
            None
        } else {
            Some(
                MDictRecordIndex {
                    block: b as u32,
                    offset: (off - blocks[b].decompressed_offset) as u32,
                    length: (end - off) as u32,
                },
            )
        },
    }
}

/// The locators of the entries from `i` on, appended to `acc`.
pub open spec fn locators_from(
    entries: Seq<(Seq<u8>, u64)>,
    blocks: Seq<MDictRecordBlockIndex>,
    total: nat,
    i: int,
    acc: Seq<MDictRecordIndex>,
) -> Option<Seq<MDictRecordIndex>>
    decreases entries.len() - i,
{
    if i < 0 || i >= entries.len() {
        Some(acc)
    } else {
        match locator_at(entries, blocks, total, i) {
            None => None,
            Some(locator) => locators_from(entries, blocks, total, i + 1, acc.push(locator)),
        }
    }
}

/// The locators of a key list, one for each entry and in the same order.
/// `Corrupt` where the records do not start at the beginning of the stream
/// (an archive without entries has no stream), or an entry has no locator.
pub open spec fn located(
    entries: Seq<(Seq<u8>, u64)>,
    blocks: Seq<MDictRecordBlockIndex>,
    total: nat,
) -> Result<Seq<MDictRecordIndex>, MDictError> {
    if (entries.len() == 0 && total != 0) || (entries.len() > 0 && entries[0].1 != 0) {
        Err(MDictError::Corrupt)
    } else {
        match locators_from(entries, blocks, total, 0, Seq::empty()) {
            None => Err(MDictError::Corrupt),
            Some(locators) => Ok(locators),
        }
    }
}

/// The bytes that the locators assign to block `b`, added up.
pub open spec fn block_fill(locators: Seq<MDictRecordIndex>, b: int) -> nat
    decreases locators.len(),
{
    if locators.len() == 0 {
        0
    } else {
        block_fill(locators.drop_last(), b) + if locators.last().block == b {
            locators.last().length as nat
        } else {
            0
        }
    }
}

/// Whether the records assigned to each block add up to its decompressed size.
pub open spec fn blocks_filled(
    locators: Seq<MDictRecordIndex>,
    blocks: Seq<MDictRecordBlockIndex>,
) -> bool {
    forall|b: int| 0 <= b < blocks.len() ==> #[trigger] block_fill(locators, b) == blocks[b].decompressed_size
}

/// Whether a locator points into the index and stays inside its block.
pub open spec fn locator_inside(locator: MDictRecordIndex, blocks: Seq<MDictRecordBlockIndex>) -> bool {
    locator.block < blocks.len() && locator.offset + locator.length
        <= blocks[locator.block as int].decompressed_size
}

/// Where a record starts in the decompressed record stream.
pub open spec fn stream_start_of(locator: MDictRecordIndex, blocks: Seq<MDictRecordBlockIndex>) -> nat {
    (blocks[locator.block as int].decompressed_offset + locator.offset) as nat
}

/// Where a record ends in the decompressed record stream.
pub open spec fn stream_end_of(locator: MDictRecordIndex, blocks: Seq<MDictRecordBlockIndex>) -> nat {
    stream_start_of(locator, blocks) + locator.length as nat
}

/// Whether every locator stays inside its block and each record ends where a
/// later one starts or before.
pub open spec fn locators_in_order(
    locators: Seq<MDictRecordIndex>,
    blocks: Seq<MDictRecordBlockIndex>,
) -> bool {
    &&& forall|i: int| 0 <= i < locators.len() ==> locator_inside(#[trigger] locators[i], blocks)
    &&& forall|i: int, j: int|
        0 <= i < j < locators.len() ==> stream_end_of(#[trigger] locators[i], blocks)
            <= stream_start_of(#[trigger] locators[j], blocks)
}

/// How much of a block lies before the offset `cur` of the record stream.
pub open spec fn filled_before(block: MDictRecordBlockIndex, cur: nat) -> nat {
    if stream_end(block) <= cur {
        block.decompressed_size as nat
    } else if block.decompressed_offset <= cur {
        (cur - block.decompressed_offset) as nat
    } else {
        0
    }
}

/// The offset up to which the first `k` records fill the stream: where
/// record `k` starts, or the end of the stream after the last record.
pub open spec fn cursor_at(entries: Seq<(Seq<u8>, u64)>, total: nat, k: int) -> nat {
    if k < entries.len() {
        entries[k].1 as nat
    } else {
        total
    }
}

/// Where the locators from entry `i` on exist, there is one for each entry,
/// after those of `acc`, and each is the locator of the entry at its place.
pub proof fn lemma_locators_pointwise(
    entries: Seq<(Seq<u8>, u64)>,
    blocks: Seq<MDictRecordBlockIndex>,
    total: nat,
    i: int,
    acc: Seq<MDictRecordIndex>,
    out: Seq<MDictRecordIndex>,
)
    requires
        0 <= i <= entries.len(),
        locators_from(entries, blocks, total, i, acc) == Some(out),
    ensures
        out.len() == acc.len() + entries.len() - i,
        forall|j: int| 0 <= j < acc.len() ==> out[j] == acc[j],
        forall|j: int|
            i <= j < entries.len() ==> #[trigger] locator_at(entries, blocks, total, j) == Some(
                out[acc.len() + j - i],
            ),
    decreases entries.len() - i,
{
    if i < entries.len() {
        let locator = locator_at(entries, blocks, total, i).unwrap();
        lemma_locators_pointwise(entries, blocks, total, i + 1, acc.push(locator), out);
        assert forall|j: int| 0 <= j < acc.len() implies out[j] == acc[j] by {
            assert(acc.push(locator)[j] == acc[j]);
        }
        assert(acc.push(locator)[acc.len() as int] == locator);
    }
}

/// The locator of an entry points into the block that covers the record
/// offset of the entry, starts where the record starts, and ends where the
/// record ends, which is inside the block.
pub proof fn lemma_locator_place(
    entries: Seq<(Seq<u8>, u64)>,
    blocks: Seq<MDictRecordBlockIndex>,
    total: nat,
    j: int,
    locator: MDictRecordIndex,
)
    requires
        0 <= j < entries.len(),
        locator_at(entries, blocks, total, j) == Some(locator),
    ensures
        is_covering(blocks, entries[j].1 as nat, locator.block as int),
        locator_inside(locator, blocks),
        stream_start_of(locator, blocks) == entries[j].1,
        stream_end_of(locator, blocks) == record_end(entries, total, j),
        entries[j].1 <= record_end(entries, total, j) <= stream_end(blocks[locator.block as int]),
{
    let b = covering_block(blocks, entries[j].1 as nat).unwrap();
    assert(is_covering(blocks, entries[j].1 as nat, b));
}

/// Where every record ends at or after its start, a record ends where a
/// later one starts or before.
pub proof fn lemma_records_ascend(entries: Seq<(Seq<u8>, u64)>, total: nat, i: int, j: int)
    requires
        forall|k: int|
            0 <= k < entries.len() ==> entries[k].1 <= #[trigger] record_end(entries, total, k),
        0 <= i < j < entries.len(),
    ensures
        record_end(entries, total, i) <= entries[j].1,
    decreases j - i,
{
    if j > i + 1 {
        lemma_records_ascend(entries, total, i, j - 1);
        assert(entries[j - 1].1 <= record_end(entries, total, j - 1));
    }
}

/// The first `k` locators fill each block up to where record `k` starts.
pub proof fn lemma_fill_prefix(
    entries: Seq<(Seq<u8>, u64)>,
    blocks: Seq<MDictRecordBlockIndex>,
    c_start: nat,
    total: nat,
    locators: Seq<MDictRecordIndex>,
    k: int,
)
    requires
        tiled(blocks, c_start, total),
        locators.len() == entries.len(),
        cursor_at(entries, total, 0) == 0,
        forall|j: int|
            0 <= j < entries.len() ==> #[trigger] locator_at(entries, blocks, total, j) == Some(
                locators[j],
            ),
        0 <= k <= entries.len(),
    ensures
        forall|b: int|
            0 <= b < blocks.len() ==> #[trigger] block_fill(locators.take(k), b) == filled_before(
                blocks[b],
                cursor_at(entries, total, k),
            ),
    decreases k,
{
    if k == 0 {
        assert(locators.take(0) =~= Seq::empty());
    } else {
        lemma_fill_prefix(entries, blocks, c_start, total, locators, k - 1);
        let locator = locators[k - 1];
        let c = locator.block as int;
        assert(locator_at(entries, blocks, total, k - 1) == Some(locator));
        lemma_locator_place(entries, blocks, total, k - 1, locator);
        assert(locators.take(k).drop_last() =~= locators.take(k - 1));
        assert(locators.take(k).last() == locator);
        assert(record_end(entries, total, k - 1) == cursor_at(entries, total, k));
        assert forall|b: int| 0 <= b < blocks.len() implies #[trigger] block_fill(
            locators.take(k),
            b,
        ) == filled_before(blocks[b], cursor_at(entries, total, k)) by {
            assert(block_fill(locators.take(k - 1), b) == filled_before(
                blocks[b],
                cursor_at(entries, total, k - 1),
            ));
            if b < c {
                lemma_tiled_ordered(blocks, c_start, total, b, c);
            } else if b > c {
                lemma_tiled_ordered(blocks, c_start, total, c, b);
            }
        }
    }
}

/// The locators of a key list against a tiling record-block index: there is
/// one for each entry; each stays inside its block, and the records follow
/// one another in the stream without overlap; and the records assigned to
/// each block add up to its decompressed size.
pub proof fn lemma_located_records(
    entries: Seq<(Seq<u8>, u64)>,
    blocks: Seq<MDictRecordBlockIndex>,
    c_start: nat,
    total: nat,
    locators: Seq<MDictRecordIndex>,
)
    requires
        tiled(blocks, c_start, total),
        located(entries, blocks, total) == Ok::<Seq<MDictRecordIndex>, MDictError>(locators),
    ensures
        locators.len() == entries.len(),
        locators_in_order(locators, blocks),
        blocks_filled(locators, blocks),
{
    lemma_locators_pointwise(entries, blocks, total, 0, Seq::empty(), locators);
    assert forall|j: int| 0 <= j < entries.len() implies #[trigger] locator_at(
        entries,
        blocks,
        total,
        j,
    ) == Some(locators[j]) by {
        assert(locator_at(entries, blocks, total, j) == Some(locators[0 + j - 0]));
    }
    assert forall|k: int| 0 <= k < entries.len() implies entries[k].1 <= #[trigger] record_end(
        entries,
        total,
        k,
    ) by {
        assert(locator_at(entries, blocks, total, k) == Some(locators[k]));
        lemma_locator_place(entries, blocks, total, k, locators[k]);
    }
    assert forall|i: int| 0 <= i < locators.len() implies locator_inside(
        #[trigger] locators[i],
        blocks,
    ) by {
        assert(locator_at(entries, blocks, total, i) == Some(locators[i]));
        lemma_locator_place(entries, blocks, total, i, locators[i]);
    }
    assert forall|i: int, j: int| 0 <= i < j < locators.len() implies stream_end_of(
        #[trigger] locators[i],
        blocks,
    ) <= stream_start_of(#[trigger] locators[j], blocks) by {
        assert(locator_at(entries, blocks, total, i) == Some(locators[i]));
        assert(locator_at(entries, blocks, total, j) == Some(locators[j]));
        lemma_locator_place(entries, blocks, total, i, locators[i]);
        lemma_locator_place(entries, blocks, total, j, locators[j]);
        lemma_records_ascend(entries, total, i, j);
    }
    lemma_fill_prefix(entries, blocks, c_start, total, locators, entries.len() as int);
    assert(locators.take(entries.len() as int) =~= locators);
    assert forall|b: int| 0 <= b < blocks.len() implies #[trigger] block_fill(locators, b)
        == blocks[b].decompressed_size by {
        lemma_tiled_bounded(blocks, c_start, total, b);
    }
}

/// Resolves the record offsets of a key list into locators.
///
/// On success there is one locator for each entry, in the same order; the
/// records assigned to each block add up to its decompressed size; and the
/// records follow one another in the stream without overlap.
pub fn locate_records(entries: &Vec<KeyEntry>, table: &RecordBlockTable) -> (r: Result<
    Vec<MDictRecordIndex>,
    MDictError,
>)
    ensures
        match located(entry_pairs(entries@), table.blocks(), table.total()) {
            Ok(locators) => r matches Ok(v) && v@ == locators,
            Err(e) => r matches Err(e2) && e2 == e,
        },
        r matches Ok(v) ==> {
            &&& v@.len() == entries@.len()
            &&& blocks_filled(v@, table.blocks())
            &&& locators_in_order(v@, table.blocks())
        },
{
    let blocks = table.entries();
    let total: u64 = table.stream_size();
    let ghost pairs = entry_pairs(entries@);
    let count: usize = entries.len();
    let block_count: usize = blocks.len();
    if (count == 0 && total != 0) || (count > 0 && entries[0].record_offset != 0) {
        return Err(MDictError::Corrupt);
    }
    let mut out: Vec<MDictRecordIndex> = Vec::new();
    let mut i: usize = 0;
    while i < count
        invariant
            i <= count,
            count == entries@.len(),
            block_count == blocks@.len(),
            pairs == entry_pairs(entries@),
            blocks@ == table.blocks(),
            total == table.total(),
            tiled(blocks@, table.start(), total as nat),
            locators_from(pairs, blocks@, total as nat, 0, Seq::empty()) == locators_from(
                pairs,
                blocks@,
                total as nat,
                i as int,
                out@,
            ),
        decreases count - i,
    {
        let off: u64 = entries[i].record_offset;
        let end: u64 = if i + 1 < count {
            entries[i + 1].record_offset
        } else {
            total
        };
        proof {
            assert(pairs[i as int] == entries@[i as int]@);
            if i + 1 < count {
                assert(pairs[i + 1] == entries@[i + 1]@);
            }
            assert(end == record_end(pairs, total as nat, i as int));
        }
        let b: usize = match table.find_block(off) {
            Some(b) => b,
            None => {
                return Err(MDictError::Corrupt);
            },
        };
        proof {
            let covering = covering_block(blocks@, off as nat);
            assert(is_covering(blocks@, off as nat, covering.unwrap()));
            assert(covering == Some(b as int));
            lemma_tiled_bounded(blocks@, table.start(), total as nat, b as int);
        }
        let entry = blocks[b];
        if end < off || end > entry.decompressed_offset + entry.decompressed_size || b
            > u32::MAX as usize || off - entry.decompressed_offset > u32::MAX as u64 || end - off
            > u32::MAX as u64 {
            return Err(MDictError::Corrupt);
        }
        let locator = MDictRecordIndex {
            block: b as u32,
            offset: (off - entry.decompressed_offset) as u32,
            length: (end - off) as u32,
        };
        out.push(locator);
        proof {
            assert(locator_at(pairs, blocks@, total as nat, i as int) == Some(locator));
        }
        i = i + 1;
    }
    proof {
        lemma_located_records(pairs, blocks@, table.start(), total as nat, out@);
    }
    Ok(out)
}

/// The number of records that the locators assign to block `b`.
pub open spec fn block_count(locators: Seq<MDictRecordIndex>, b: int) -> nat
    decreases locators.len(),
{
    if locators.len() == 0 {
        0
    } else {
        block_count(locators.drop_last(), b) + if locators.last().block == b {
            1nat
        } else {
            0nat
        }
    }
}

/// The number of records that the locators assign to the first `n` blocks together.
pub open spec fn assigned_upto(locators: Seq<MDictRecordIndex>, n: nat) -> nat
    decreases n,
{
    if n == 0 {
        0
    } else {
        assigned_upto(locators, (n - 1) as nat) + block_count(locators, n - 1)
    }
}

/// One more locator is one more record for the blocks, where it points into them.
pub proof fn lemma_assigned_push(locators: Seq<MDictRecordIndex>, locator: MDictRecordIndex, n: nat)
    ensures
        assigned_upto(locators.push(locator), n) == assigned_upto(locators, n) + if locator.block
            < n {
            1nat
        } else {
            0nat
        },
    decreases n,
{
    if n > 0 {
        lemma_assigned_push(locators, locator, (n - 1) as nat);
        assert(locators.push(locator).drop_last() =~= locators);
        assert(locators.push(locator).last() == locator);
    }
}

/// Locators that all point into the first `n` blocks assign each record to
/// exactly one of these blocks: the blocks hold as many records as there are locators.
pub proof fn lemma_assigned_all(locators: Seq<MDictRecordIndex>, n: nat)
    requires
        forall|i: int| 0 <= i < locators.len() ==> (#[trigger] locators[i]).block < n,
    ensures
        assigned_upto(locators, n) == locators.len(),
    decreases locators.len(),
{
    if locators.len() == 0 {
        lemma_assigned_none(n);
        assert(locators =~= Seq::empty());
    } else {
        let rest = locators.drop_last();
        assert forall|i: int| 0 <= i < rest.len() implies (#[trigger] rest[i]).block < n by {
            assert(rest[i] == locators[i]);
        }
        lemma_assigned_all(rest, n);
        lemma_assigned_push(rest, locators.last(), n);
        assert(rest.push(locators.last()) =~= locators);
    }
}

/// Without locators no block holds a record.
pub proof fn lemma_assigned_none(n: nat)
    ensures
        assigned_upto(Seq::<MDictRecordIndex>::empty(), n) == 0,
    decreases n,
{
    if n > 0 {
        lemma_assigned_none((n - 1) as nat);
    }
}

} // verus!
