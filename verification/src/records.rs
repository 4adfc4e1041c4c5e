//! The record-block index, record locators, and the fetch of one record:
//! read the block a locator points into, decompress it, and cut the record out.

use crate::block::{decode_block, decoded_block};
use crate::error::MDictError;
use crate::source::{range_inside, range_of, ByteSource};
use crate::table::word_or_zero;
use crate::wire::{in_bounds, size_word_at, Version};
use vstd::prelude::*;
use vstd::slice::{slice_subrange, slice_to_vec};

verus! {

/// One entry of the record-block index.
#[derive(Clone, Copy, PartialEq, Eq, Debug, Structural)]
pub struct MDictRecordBlockIndex {
    /// Where the compressed block starts in the archive.
    pub compressed_offset: u64,
    /// The size of the block in the archive.
    pub compressed_size: u64,
    /// Where the block starts in the decompressed record stream.
    pub decompressed_offset: u64,
    /// The size of the block once decompressed.
    pub decompressed_size: u64,
}

/// The place of one record: a block of the record-block index, the offset of
/// the record in the decompressed block, and its length.
#[derive(Clone, Copy, PartialEq, Eq, Debug, Structural)]
pub struct MDictRecordIndex {
    pub block: u32,
    pub offset: u32,
    pub length: u32,
}

/// The counters that precede the record-block index.
#[derive(Clone, Copy, PartialEq, Eq, Debug, Structural)]
pub struct RecordCounters {
    /// The number of record blocks.
    pub n_blocks: u64,
    /// The number of records in the archive.
    pub n_records: u64,
    /// The size of the record-block index in bytes.
    pub index_size: u64,
    /// The size of all record blocks together, as compressed.
    pub blocks_total_size: u64,
}

/// The width of the record counters: four size-words.
pub open spec fn record_counters_width(version: Version) -> nat {
    match version {
        Version::V1 => 16,
        Version::V2 => 32,
    }
}

/// The size of a record-block index of `n` entries: two size-words each.
pub open spec fn index_size_for(n: nat, version: Version) -> nat {
    match version {
        Version::V1 => n * 8,
        Version::V2 => n * 16,
    }
}

/// The record counters at `pos`; `Io` where the archive ends before them.
pub open spec fn parsed_record_counters(archive: Seq<u8>, pos: nat, version: Version) -> Result<
    RecordCounters,
    MDictError,
> {
    if !range_inside(archive, pos, record_counters_width(version)) {
        Err(MDictError::Io)
    } else {
        let bytes = range_of(archive, pos, record_counters_width(version));
        let w = version.word_width() as int;
        Ok(
            RecordCounters {
                n_blocks: size_word_at(bytes, 0, version) as u64,
                n_records: size_word_at(bytes, w, version) as u64,
                index_size: size_word_at(bytes, 2 * w, version) as u64,
                blocks_total_size: size_word_at(bytes, 3 * w, version) as u64,
            },
        )
    }
}

/// Reads the record counters at `pos`.
pub fn parse_record_counters(source: &ByteSource, pos: u64, version: Version) -> (r: Result<
    RecordCounters,
    MDictError,
>)
    ensures
        r == parsed_record_counters(source@, pos as nat, version),
        r.is_ok() ==> pos + record_counters_width(version) <= usize::MAX,
{
    let w: usize = version.width();
    let bytes = match source.read_exact_at(pos, (4 * w) as u64) {
        Ok(bytes) => bytes,
        Err(e) => {
            return Err(e);
        },
    };
    Ok(
        RecordCounters {
            n_blocks: word_or_zero(bytes, 0, version),
            n_records: word_or_zero(bytes, w, version),
            index_size: word_or_zero(bytes, 2 * w, version),
            blocks_total_size: word_or_zero(bytes, 3 * w, version),
        },
    )
}

/// The next `remaining` entries of the record-block index from `pos` on,
/// appended to `acc`, with the offsets at which the blocks end: in the archive
/// and in the decompressed record stream. Each entry is a compressed and a
/// decompressed size; the offsets are the running sums from `c_off` and
/// `d_off`. `None` where the index ends before the entries or an offset does
/// not fit in 64 bits.
pub open spec fn record_blocks_from(
    bytes: Seq<u8>,
    pos: int,
    remaining: nat,
    version: Version,
    c_off: nat,
    d_off: nat,
    acc: Seq<MDictRecordBlockIndex>,
) -> Option<(Seq<MDictRecordBlockIndex>, nat, nat)>
    decreases remaining,
{
    let w = version.word_width();
    if remaining == 0 {
        Some((acc, c_off, d_off))
    } else if !in_bounds(bytes.len(), pos, 2 * w) {
        None
    } else {
        let c_size = size_word_at(bytes, pos, version);
        let d_size = size_word_at(bytes, pos + w, version);
        if c_off + c_size > u64::MAX || d_off + d_size > u64::MAX {
            None
        } else {
            record_blocks_from(
                bytes,
                pos + 2 * w,
                (remaining - 1) as nat,
                version,
                c_off + c_size,
                d_off + d_size,
                acc.push(
                    MDictRecordBlockIndex {
                        compressed_offset: c_off as u64,
                        compressed_size: c_size as u64,
                        decompressed_offset: d_off as u64,
                        decompressed_size: d_size as u64,
                    },
                ),
            )
        }
    }
}

/// Where a block ends in the decompressed record stream.
pub open spec fn stream_end(block: MDictRecordBlockIndex) -> nat {
    (block.decompressed_offset + block.decompressed_size) as nat
}

/// Where a block ends in the archive.
pub open spec fn archive_end(block: MDictRecordBlockIndex) -> nat {
    (block.compressed_offset + block.compressed_size) as nat
}

/// Whether the blocks lie back to back, in the archive from `c_start` on and
/// in the decompressed record stream from 0 to `total`.
pub open spec fn tiled(blocks: Seq<MDictRecordBlockIndex>, c_start: nat, total: nat) -> bool {
    &&& blocks.len() == 0 ==> total == 0
    &&& blocks.len() > 0 ==> {
        &&& blocks[0].decompressed_offset == 0
        &&& blocks[0].compressed_offset == c_start
        &&& stream_end(blocks.last()) == total
    }
    &&& forall|i: int, j: int|
        0 <= i && j == i + 1 && j < blocks.len() ==> (#[trigger] blocks[j]).decompressed_offset
            == stream_end(#[trigger] blocks[i]) && blocks[j].compressed_offset == archive_end(
            blocks[i],
        )
}

/// Where the last of the blocks ends in the archive; `c_start` where there is none.
pub open spec fn span_end(blocks: Seq<MDictRecordBlockIndex>, c_start: nat) -> nat {
    if blocks.len() == 0 {
        c_start
    } else {
        archive_end(blocks.last())
    }
}

/// In a tiling, an earlier block ends where a later one starts or before.
pub proof fn lemma_tiled_ordered(
    blocks: Seq<MDictRecordBlockIndex>,
    c_start: nat,
    total: nat,
    i: int,
    j: int,
)
    requires
        tiled(blocks, c_start, total),
        0 <= i < j < blocks.len(),
    ensures
        stream_end(blocks[i]) <= blocks[j].decompressed_offset,
    decreases j - i,
{
    if j == i + 1 {
        assert(blocks[j].decompressed_offset == stream_end(blocks[i]));
    } else {
        lemma_tiled_ordered(blocks, c_start, total, i, j - 1);
        assert(blocks[j].decompressed_offset == stream_end(blocks[j - 1]));
    }
}

/// In a tiling, no block ends after the whole stream.
pub proof fn lemma_tiled_bounded(
    blocks: Seq<MDictRecordBlockIndex>,
    c_start: nat,
    total: nat,
    i: int,
)
    requires
        tiled(blocks, c_start, total),
        0 <= i < blocks.len(),
    ensures
        stream_end(blocks[i]) <= total,
{
    if i < blocks.len() - 1 {
        lemma_tiled_ordered(blocks, c_start, total, i, blocks.len() - 1);
    }
}

/// Whether block `b` covers the offset `off` of the decompressed record stream.
pub open spec fn is_covering(blocks: Seq<MDictRecordBlockIndex>, off: nat, b: int) -> bool {
    0 <= b < blocks.len() && blocks[b].decompressed_offset <= off < stream_end(blocks[b])
}

/// The block that covers the offset `off` of the decompressed record stream,
/// if there is one.
pub open spec fn covering_block(blocks: Seq<MDictRecordBlockIndex>, off: nat) -> Option<int> {
    if exists|b: int| is_covering(blocks, off, b) {
        Some(choose|b: int| is_covering(blocks, off, b))
    } else {
        None
    }
}

/// In a tiling, at most one block covers an offset.
pub proof fn lemma_covering_unique(
    blocks: Seq<MDictRecordBlockIndex>,
    c_start: nat,
    total: nat,
    off: nat,
    a: int,
    b: int,
)
    requires
        tiled(blocks, c_start, total),
        is_covering(blocks, off, a),
        is_covering(blocks, off, b),
    ensures
        a == b,
{
    if a < b {
        lemma_tiled_ordered(blocks, c_start, total, a, b);
    } else if b < a {
        lemma_tiled_ordered(blocks, c_start, total, b, a);
    }
}

/// The record-block index of an archive: its entries, which lie back to
/// back, the place of the first block in the archive, and the size of the
/// decompressed record stream.
pub struct RecordBlockTable {
    blocks: Vec<MDictRecordBlockIndex>,
    start: u64,
    total: u64,
}

impl RecordBlockTable {
    #[verifier::type_invariant]
    closed spec fn well_formed(self) -> bool {
        tiled(self.blocks@, self.start as nat, self.total as nat)
    }

    /// The entries of the index.
    pub closed spec fn blocks(self) -> Seq<MDictRecordBlockIndex> {
        self.blocks@
    }

    /// Where the first record block starts in the archive.
    pub closed spec fn start(self) -> nat {
        self.start as nat
    }

    /// The size of the decompressed record stream.
    pub closed spec fn total(self) -> nat {
        self.total as nat
    }

    /// The entries of the index, which tile the record stream.
    pub fn entries(&self) -> (entries: &Vec<MDictRecordBlockIndex>)
        ensures
            entries@ == self.blocks(),
            tiled(entries@, self.start(), self.total()),
    {
        proof {
            use_type_invariant(self);
        }
        &self.blocks
    }

    /// The number of record blocks.
    pub fn len(&self) -> (n: usize)
        ensures
            n == self.blocks().len(),
    {
        self.blocks.len()
    }

    /// The entry of block `b`, if the index has one.
    pub fn get(&self, b: usize) -> (entry: Option<MDictRecordBlockIndex>)
        ensures
            entry == (if b < self.blocks().len() {
                Some(self.blocks()[b as int])
            } else {
                None
            }),
    {
        if b < self.blocks.len() {
            Some(self.blocks[b])
        } else {
            None
        }
    }

    /// Where the first record block starts in the archive: right after the
    /// record-block index.
    pub fn first_offset(&self) -> (offset: u64)
        ensures
            offset == self.start(),
    {
        self.start
    }

    /// The size of the decompressed record stream.
    pub fn stream_size(&self) -> (n: u64)
        ensures
            n == self.total(),
    {
        self.total
    }

    /// Finds, by binary search over the running sums, the block that covers
    /// the offset `off` of the decompressed record stream.
    pub fn find_block(&self, off: u64) -> (r: Option<usize>)
        ensures
            match covering_block(self.blocks(), off as nat) {
                Some(b) => r == Some(b as usize) && is_covering(self.blocks(), off as nat, b),
                None => r.is_none(),
            },
    {
        proof {
            use_type_invariant(self);
        }
        let ghost blocks = self.blocks@;
        let ghost start = self.start as nat;
        let ghost total = self.total as nat;
        let count: usize = self.blocks.len();
        let mut low: usize = 0;
        let mut high: usize = count;
        while low < high
            invariant
                blocks == self.blocks@,
                count == blocks.len(),
                tiled(blocks, start, total),
                total <= u64::MAX,
                low <= high <= count,
                forall|b: int| 0 <= b < low ==> stream_end(#[trigger] blocks[b]) <= off,
                forall|b: int| high <= b < count ==> stream_end(#[trigger] blocks[b]) > off,
            decreases high - low,
        {
            let mid: usize = low + (high - low) / 2;
            let entry = self.blocks[mid];
            proof {
                lemma_tiled_bounded(blocks, start, total, mid as int);
            }
            if entry.decompressed_offset + entry.decompressed_size > off {
                proof {
                    assert forall|b: int| mid <= b < count implies stream_end(
                        #[trigger] blocks[b],
                    ) > off by {
                        if mid < b {
                            lemma_tiled_ordered(blocks, start, total, mid as int, b);
                        }
                    }
                }
                high = mid;
            } else {
                proof {
                    assert forall|b: int| 0 <= b < mid + 1 implies stream_end(
                        #[trigger] blocks[b],
                    ) <= off by {
                        if b < mid {
                            lemma_tiled_ordered(blocks, start, total, b, mid as int);
                        }
                    }
                }
                low = mid + 1;
            }
        }
        if low < count {
            proof {
                if low > 0 {
                    assert(blocks[low as int].decompressed_offset == stream_end(blocks[low - 1]));
                }
                assert(is_covering(blocks, off as nat, low as int));
                let chosen = choose|b: int| is_covering(blocks, off as nat, b);
                lemma_covering_unique(blocks, start, total, off as nat, chosen, low as int);
            }
            Some(low)
        } else {
            proof {
                assert forall|b: int| !is_covering(blocks, off as nat, b) by {
                    if 0 <= b < count {
                        assert(stream_end(blocks[b]) <= off);
                    }
                }
            }
            None
        }
    }
}

/// The record-block index that starts at `pos`, with the size of the
/// decompressed record stream.
///
/// `InvalidFormat` where the counters give another number of records than
/// the archive has keys, or another index size than two size-words for each
/// block; `Io` where the archive ends before the index; `InvalidFormat`
/// where an offset does not fit in 64 bits or the blocks are not
/// `blocks_total_size` bytes together. The first block starts right after
/// the index.
pub open spec fn parsed_record_index(
    archive: Seq<u8>,
    pos: nat,
    counters: RecordCounters,
    version: Version,
    n_entries: u64,
) -> Result<(Seq<MDictRecordBlockIndex>, nat), MDictError> {
    if counters.n_records != n_entries || counters.index_size != index_size_for(
        counters.n_blocks as nat,
        version,
    ) {
        Err(MDictError::InvalidFormat)
    } else if !range_inside(archive, pos, counters.index_size as nat) {
        Err(MDictError::Io)
    } else {
        match record_blocks_from(
            range_of(archive, pos, counters.index_size as nat),
            0,
            counters.n_blocks as nat,
            version,
            (pos + counters.index_size) as nat,
            0,
            Seq::empty(),
        ) {
            None => Err(MDictError::InvalidFormat),
            Some((blocks, c_end, total)) => if c_end - (pos + counters.index_size)
                != counters.blocks_total_size {
                Err(MDictError::InvalidFormat)
            } else {
                Ok((blocks, total))
            },
        }
    }
}

/// The entries of a record-block index lie back to back: where the entries
/// of `acc` tile and end at the running offsets, so do the entries that the
/// index adds to them.
pub proof fn lemma_record_blocks_tile(
    bytes: Seq<u8>,
    pos: int,
    remaining: nat,
    version: Version,
    c_start: nat,
    c_off: nat,
    d_off: nat,
    acc: Seq<MDictRecordBlockIndex>,
    out: (Seq<MDictRecordBlockIndex>, nat, nat),
)
    requires
        tiled(acc, c_start, d_off),
        c_off == span_end(acc, c_start),
        record_blocks_from(bytes, pos, remaining, version, c_off, d_off, acc) == Some(out),
    ensures
        tiled(out.0, c_start, out.2),
        out.1 == span_end(out.0, c_start),
    decreases remaining,
{
    if remaining > 0 {
        let w = version.word_width();
        let c_size = size_word_at(bytes, pos, version);
        let d_size = size_word_at(bytes, pos + w, version);
        let block = MDictRecordBlockIndex {
            compressed_offset: c_off as u64,
            compressed_size: c_size as u64,
            decompressed_offset: d_off as u64,
            decompressed_size: d_size as u64,
        };
        let more = acc.push(block);
        assert forall|i: int, j: int|
            0 <= i && j == i + 1 && j < more.len() implies (#[trigger] more[j]).decompressed_offset
            == stream_end(#[trigger] more[i]) && more[j].compressed_offset == archive_end(
            more[i],
        ) by {
            if j < acc.len() {
                assert(more[j] == acc[j]);
                assert(more[i] == acc[i]);
            } else {
                assert(more[i] == acc.last());
            }
        }
        lemma_record_blocks_tile(
            bytes,
            pos + 2 * w,
            (remaining - 1) as nat,
            version,
            c_start,
            c_off + c_size,
            d_off + d_size,
            more,
            out,
        );
    }
}

/// Reads the record-block index that starts at `pos`. The blocks it returns
/// lie back to back from the end of the index on.
pub fn parse_record_index(
    source: &ByteSource,
    pos: u64,
    counters: &RecordCounters,
    version: Version,
    n_entries: u64,
) -> (r: Result<RecordBlockTable, MDictError>)
    ensures
        match parsed_record_index(source@, pos as nat, *counters, version, n_entries) {
            Ok((blocks, total)) => r matches Ok(table) && table.blocks() == blocks
                && table.total() == total && table.start() == pos + counters.index_size,
            Err(e) => r matches Err(e2) && e2 == e,
        },
{
    let size_matches: bool = match version {
        Version::V1 => counters.n_blocks <= u64::MAX / 8 && counters.index_size
            == counters.n_blocks * 8,
        Version::V2 => counters.n_blocks <= u64::MAX / 16 && counters.index_size
            == counters.n_blocks * 16,
    };
    if counters.n_records != n_entries || !size_matches {
        return Err(MDictError::InvalidFormat);
    }
    let bytes = match source.read_exact_at(pos, counters.index_size) {
        Ok(bytes) => bytes,
        Err(e) => {
            return Err(e);
        },
    };
    let total_len: usize = source.len();
    let w: usize = version.width();
    let start: u64 = pos + counters.index_size;
    let mut blocks: Vec<MDictRecordBlockIndex> = Vec::new();
    let mut at: usize = 0;
    let mut done: u64 = 0;
    let mut c_off: u64 = start;
    let mut d_off: u64 = 0;
    while done < counters.n_blocks
        invariant
            w == version.word_width(),
            done <= counters.n_blocks,
            at <= bytes@.len(),
            counters.n_records == n_entries,
            counters.index_size == index_size_for(counters.n_blocks as nat, version),
            range_inside(source@, pos as nat, counters.index_size as nat),
            bytes@ == range_of(source@, pos as nat, counters.index_size as nat),
            start == pos + counters.index_size,
            start <= c_off,
            tiled(blocks@, start as nat, d_off as nat),
            c_off == span_end(blocks@, start as nat),
            record_blocks_from(
                bytes@,
                0,
                counters.n_blocks as nat,
                version,
                start as nat,
                0,
                Seq::empty(),
            ) == record_blocks_from(
                bytes@,
                at as int,
                (counters.n_blocks - done) as nat,
                version,
                c_off as nat,
                d_off as nat,
                blocks@,
            ),
        decreases counters.n_blocks - done,
    {
        if bytes.len() - at < 2 * w {
            return Err(MDictError::InvalidFormat);
        }
        let c_size: u64 = word_or_zero(bytes, at, version);
        let d_size: u64 = word_or_zero(bytes, at + w, version);
        if c_size > u64::MAX - c_off || d_size > u64::MAX - d_off {
            return Err(MDictError::InvalidFormat);
        }
        let ghost before = blocks@;
        blocks.push(
            MDictRecordBlockIndex {
                compressed_offset: c_off,
                compressed_size: c_size,
                decompressed_offset: d_off,
                decompressed_size: d_size,
            },
        );
        proof {
            assert forall|i: int, j: int|
                0 <= i && j == i + 1 && j < blocks@.len() implies (#[trigger] blocks@[j]).decompressed_offset
                == stream_end(#[trigger] blocks@[i]) && blocks@[j].compressed_offset == archive_end(
                blocks@[i],
            ) by {
                if j < before.len() {
                    assert(blocks@[j] == before[j]);
                    assert(blocks@[i] == before[i]);
                } else {
                    assert(blocks@[i] == before.last());
                }
            }
        }
        c_off = c_off + c_size;
        d_off = d_off + d_size;
        at = at + 2 * w;
        done = done + 1;
    }
    if c_off - start != counters.blocks_total_size {
        return Err(MDictError::InvalidFormat);
    }
    Ok(RecordBlockTable { blocks, start, total: d_off })
}

/// The record that a locator cuts out of a decompressed block; `OutOfRange`
/// where the locator reaches beyond the block.
pub open spec fn record_slice(block: Seq<u8>, locator: MDictRecordIndex) -> Result<
    Seq<u8>,
    MDictError,
> {
    if locator.offset + locator.length > block.len() {
        Err(MDictError::OutOfRange)
    } else {
        Ok(block.subrange(locator.offset as int, locator.offset + locator.length))
    }
}

/// The record that a locator names in the bytes of its compressed block: the
/// block is decompressed and checked (`Corrupt`), and the record is cut out
/// of it (`OutOfRange`). The index entry gives the decompressed size.
pub open spec fn record_of_block(
    block: Seq<u8>,
    locator: MDictRecordIndex,
    entry: MDictRecordBlockIndex,
) -> Result<Seq<u8>, MDictError> {
    match decoded_block(block, Some(entry.decompressed_size)) {
        Err(e) => Err(e),
        Ok(bytes) => record_slice(bytes, locator),
    }
}

/// The record that a locator names in an archive: the compressed block is
/// read at the place the index entry gives (`Io` where the archive ends
/// before it), and the record is taken from the block.
pub open spec fn fetched(archive: Seq<u8>, locator: MDictRecordIndex, entry: MDictRecordBlockIndex)
    -> Result<Seq<u8>, MDictError> {
    if !range_inside(archive, entry.compressed_offset as nat, entry.compressed_size as nat) {
        Err(MDictError::Io)
    } else {
        record_of_block(
            range_of(archive, entry.compressed_offset as nat, entry.compressed_size as nat),
            locator,
            entry,
        )
    }
}

/// Cuts the record that a locator names out of a decompressed block.
pub fn slice_record(block: &[u8], locator: &MDictRecordIndex) -> (r: Result<Vec<u8>, MDictError>)
    ensures
        match record_slice(block@, *locator) {
            Ok(bytes) => r matches Ok(v) && v@ == bytes,
            Err(e) => r matches Err(e2) && e2 == e,
        },
        r matches Ok(v) ==> v@.len() == locator.length,
{
    let start: u64 = locator.offset as u64;
    let end: u64 = start + locator.length as u64;
    if end > block.len() as u64 {
        return Err(MDictError::OutOfRange);
    }
    Ok(slice_to_vec(slice_subrange(block, start as usize, end as usize)))
}

/// Takes one record from the bytes of its compressed block, as one ranged
/// read of `compressed_size` bytes at `compressed_offset` gives them.
pub fn record_from_block(
    block: &[u8],
    locator: &MDictRecordIndex,
    entry: &MDictRecordBlockIndex,
) -> (r: Result<Vec<u8>, MDictError>)
    ensures
        match record_of_block(block@, *locator, *entry) {
            Ok(bytes) => r matches Ok(v) && v@ == bytes,
            Err(e) => r matches Err(e2) && e2 == e,
        },
        r matches Ok(v) ==> v@.len() == locator.length,
{
    let bytes = match decode_block(block, Some(entry.decompressed_size)) {
        Ok(bytes) => bytes,
        Err(e) => {
            return Err(e);
        },
    };
    slice_record(bytes.as_slice(), locator)
}

/// Fetches one record: reads the block that the index entry describes,
/// decompresses it, and cuts out the bytes that the locator names.
pub fn fetch(source: &ByteSource, locator: &MDictRecordIndex, entry: &MDictRecordBlockIndex) -> (r:
    Result<Vec<u8>, MDictError>)
    ensures
        match fetched(source@, *locator, *entry) {
            Ok(bytes) => r matches Ok(v) && v@ == bytes,
            Err(e) => r matches Err(e2) && e2 == e,
        },
        r matches Ok(v) ==> v@.len() == locator.length,
{
    let block = match source.read_exact_at(entry.compressed_offset, entry.compressed_size) {
        Ok(bytes) => bytes,
        Err(e) => {
            return Err(e);
        },
    };
    record_from_block(block, locator, entry)
}

} // verus!
