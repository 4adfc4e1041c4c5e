//! One archive decoded from end to end: header, keyword-block index, key
//! list, record-block index, and the locator of every key.

use crate::error::MDictError;
use crate::header::{parse_header, parsed_header, HeaderModel, MDictHeader, MDictMode};
use crate::keys::{
    assigned_upto, blocks_filled, entry_pairs, key_entries_of, lemma_assigned_all, locate_records,
    located, locators_in_order, parse_key_entries, KeyEntry,
};
use crate::outside::{string_from_utf16, utf16_text};
use crate::records::{
    parse_record_counters, parse_record_index, parsed_record_counters, parsed_record_index,
    record_counters_width, MDictRecordBlockIndex, MDictRecordIndex, RecordBlockTable,
};
use crate::source::ByteSource;
use crate::table::{
    block_models, counters_width, entries_sum, parse_counters, parse_keyword_index,
    parsed_counters, parsed_keyword_index, KeywordBlockInfo, KeywordBlockModel, KeywordCounters,
};
use crate::text::{le_units, units_from_le, TextEncoding};
use crate::wire::Version;
use vstd::prelude::*;

verus! {

/// The units of a resource key made canonical: the leading backslash is
/// dropped and every other backslash becomes a slash.
pub open spec fn canonical_units(units: Seq<u16>) -> Seq<u16> {
    Seq::new(
        (units.len() - 1) as nat,
        |i: int|
            if units[i + 1] == 0x5C {
                0x2Fu16
            } else {
                units[i + 1]
            },
    )
}

/// The canonical text of a resource key, which is stored in UTF-16LE and
/// starts with a backslash: `Corrupt` where the bytes are not UTF-16,
/// `InvalidFormat` where the key does not start with a backslash.
pub open spec fn resource_key(raw: Seq<u8>) -> Result<Seq<char>, MDictError> {
    if raw.len() % 2 != 0 {
        Err(MDictError::Corrupt)
    } else if raw.len() == 0 || le_units(raw)[0] != 0x5C {
        Err(MDictError::InvalidFormat)
    } else {
        match utf16_text(canonical_units(le_units(raw))) {
            None => Err(MDictError::Corrupt),
            Some(text) => Ok(text),
        }
    }
}

/// The text of a key as the index holds it: a keyword decoded under the
/// encoding of the archive (`Corrupt` where it does not decode), a resource
/// key made canonical.
pub open spec fn key_text(raw: Seq<u8>, mode: MDictMode, encoding: TextEncoding) -> Result<
    Seq<char>,
    MDictError,
> {
    match mode {
        MDictMode::Mdd => resource_key(raw),
        MDictMode::Mdx => match encoding.decoded(raw) {
            None => Err(MDictError::Corrupt),
            Some(text) => Ok(text),
        },
    }
}

/// The texts of the keys from entry `i` on, appended to `acc`; the error of
/// the first key that has no text.
pub open spec fn key_texts_from(
    pairs: Seq<(Seq<u8>, u64)>,
    i: int,
    mode: MDictMode,
    encoding: TextEncoding,
    acc: Seq<Seq<char>>,
) -> Result<Seq<Seq<char>>, MDictError>
    decreases pairs.len() - i,
{
    if i < 0 || i >= pairs.len() {
        Ok(acc)
    } else {
        match key_text(pairs[i].0, mode, encoding) {
            Err(e) => Err(e),
            Ok(text) => key_texts_from(pairs, i + 1, mode, encoding, acc.push(text)),
        }
    }
}

/// Where the keys from entry `i` on all have a text, there is one text for
/// each of them after those of `acc`.
pub proof fn lemma_key_texts_count(
    pairs: Seq<(Seq<u8>, u64)>,
    i: int,
    mode: MDictMode,
    encoding: TextEncoding,
    acc: Seq<Seq<char>>,
    out: Seq<Seq<char>>,
)
    requires
        0 <= i <= pairs.len(),
        key_texts_from(pairs, i, mode, encoding, acc) == Ok::<Seq<Seq<char>>, MDictError>(out),
    ensures
        out.len() == acc.len() + pairs.len() - i,
    decreases pairs.len() - i,
{
    if i < pairs.len() {
        let text = key_text(pairs[i].0, mode, encoding).unwrap();
        lemma_key_texts_count(pairs, i + 1, mode, encoding, acc.push(text), out);
    }
}

/// The characters of a list of strings.
pub open spec fn string_views(strings: Seq<String>) -> Seq<Seq<char>> {
    Seq::new(strings.len(), |i: int| strings[i]@)
}

/// Makes a resource key canonical and decodes it.
pub fn decode_resource_key(raw: &[u8]) -> (r: Result<String, MDictError>)
    ensures
        match resource_key(raw@) {
            Ok(text) => r matches Ok(s) && s@ == text,
            Err(e) => r matches Err(e2) && e2 == e,
        },
{
    if raw.len() % 2 != 0 {
        return Err(MDictError::Corrupt);
    }
    let units = units_from_le(raw);
    if units.len() == 0 || units[0] != 0x5C {
        return Err(MDictError::InvalidFormat);
    }
    let mut canonical: Vec<u16> = Vec::new();
    let mut i: usize = 1;
    while i < units.len()
        invariant
            1 <= i <= units@.len(),
            canonical@.len() == i - 1,
            forall|k: int| 0 <= k < i - 1 ==> canonical@[k] == canonical_units(units@)[k],
        decreases units@.len() - i,
    {
        let unit: u16 = if units[i] == 0x5C {
            0x2F
        } else {
            units[i]
        };
        canonical.push(unit);
        i = i + 1;
    }
    proof {
        assert(canonical@ =~= canonical_units(units@));
    }
    match string_from_utf16(canonical.as_slice()) {
        Some(text) => Ok(text),
        None => Err(MDictError::Corrupt),
    }
}

/// Decodes the key of one entry into the text that the index holds.
pub fn decode_key(raw: &[u8], mode: MDictMode, encoding: TextEncoding) -> (r: Result<
    String,
    MDictError,
>)
    ensures
        match key_text(raw@, mode, encoding) {
            Ok(text) => r matches Ok(s) && s@ == text,
            Err(e) => r matches Err(e2) && e2 == e,
        },
{
    match mode {
        MDictMode::Mdd => decode_resource_key(raw),
        MDictMode::Mdx => match encoding.decode(raw) {
            Some(text) => Ok(text),
            None => Err(MDictError::Corrupt),
        },
    }
}

/// Decodes the keys of a key list, in order.
pub fn decode_keys(entries: &Vec<KeyEntry>, mode: MDictMode, encoding: TextEncoding) -> (r: Result<
    Vec<String>,
    MDictError,
>)
    ensures
        match key_texts_from(entry_pairs(entries@), 0, mode, encoding, Seq::empty()) {
            Ok(texts) => r matches Ok(v) && string_views(v@) == texts,
            Err(e) => r matches Err(e2) && e2 == e,
        },
        r matches Ok(v) ==> v@.len() == entries@.len(),
{
    let ghost pairs = entry_pairs(entries@);
    let mut out: Vec<String> = Vec::new();
    let mut i: usize = 0;
    proof {
        assert(string_views(out@) =~= Seq::empty());
    }
    while i < entries.len()
        invariant
            i <= entries@.len(),
            out@.len() == i,
            pairs == entry_pairs(entries@),
            key_texts_from(pairs, 0, mode, encoding, Seq::empty()) == key_texts_from(
                pairs,
                i as int,
                mode,
                encoding,
                string_views(out@),
            ),
        decreases entries@.len() - i,
    {
        proof {
            assert(pairs[i as int] == entries@[i as int]@);
        }
        match decode_key(entries[i].key.as_slice(), mode, encoding) {
            Err(e) => {
                return Err(e);
            },
            Ok(text) => {
                let ghost before = string_views(out@);
                let ghost chars = text@;
                out.push(text);
                proof {
                    assert(string_views(out@) =~= before.push(chars));
                }
            },
        }
        i = i + 1;
    }
    Ok(out)
}

/// One archive, decoded.
pub struct ParsedArchive {
    /// The header.
    pub header: MDictHeader,
    /// The counters of the keyword section.
    pub counters: KeywordCounters,
    /// The keyword-block index.
    pub keyword_blocks: Vec<KeywordBlockInfo>,
    /// The record-block index.
    pub records: RecordBlockTable,
    /// The keys, in the order of the archive.
    pub keys: Vec<String>,
    /// The locator of each key, in the same order.
    pub locators: Vec<MDictRecordIndex>,
}

/// The mathematical content of a decoded archive.
pub ghost struct ArchiveModel {
    pub header: HeaderModel,
    pub counters: KeywordCounters,
    pub keyword_blocks: Seq<KeywordBlockModel>,
    pub record_blocks: Seq<MDictRecordBlockIndex>,
    pub stream_size: nat,
    pub keys: Seq<Seq<char>>,
    pub locators: Seq<MDictRecordIndex>,
}

impl View for ParsedArchive {
    type V = ArchiveModel;

    open spec fn view(&self) -> ArchiveModel {
        ArchiveModel {
            header: self.header@,
            counters: self.counters,
            keyword_blocks: block_models(self.keyword_blocks@),
            record_blocks: self.records.blocks(),
            stream_size: self.records.total(),
            keys: string_views(self.keys@),
            locators: self.locators@,
        }
    }
}

/// The keyword section of an archive, as far as decoding needs it.
pub ghost struct KeywordSection {
    pub counters: KeywordCounters,
    pub keyword_blocks: Seq<KeywordBlockModel>,
    pub pairs: Seq<(Seq<u8>, u64)>,
    pub end: nat,
}

/// The record section of an archive with the locators of the key list.
pub ghost struct RecordSection {
    pub record_blocks: Seq<MDictRecordBlockIndex>,
    pub stream_size: nat,
    pub locators: Seq<MDictRecordIndex>,
}

/// The keyword section that starts at `pos`: the counters, the keyword-block
/// index, and the keyword blocks decoded into the key list. It ends where
/// the last keyword block ends.
pub open spec fn keyword_section(
    archive: Seq<u8>,
    pos: nat,
    version: Version,
    encoding: TextEncoding,
    encrypted: bool,
) -> Result<KeywordSection, MDictError> {
    match parsed_counters(archive, pos, version) {
        Err(e) => Err(e),
        Ok(counters) => {
            let p1 = pos + counters_width(version);
            match parsed_keyword_index(archive, p1, counters, version, encoding, encrypted) {
                Err(e) => Err(e),
                Ok(keyword_blocks) => {
                    let p2 = p1 + counters.index_compressed_size as nat;
                    match key_entries_of(
                        archive,
                        p2,
                        keyword_blocks,
                        version,
                        encoding.nul_width(),
                    ) {
                        Err(e) => Err(e),
                        Ok(pairs) => Ok(
                            KeywordSection {
                                counters,
                                keyword_blocks,
                                pairs,
                                end: p2 + counters.blocks_total_size as nat,
                            },
                        ),
                    }
                },
            }
        },
    }
}

/// The record section that starts at `pos`: the counters and the
/// record-block index, against which every record offset of the key list is
/// resolved into a locator.
pub open spec fn record_section(
    archive: Seq<u8>,
    pos: nat,
    version: Version,
    n_entries: u64,
    pairs: Seq<(Seq<u8>, u64)>,
) -> Result<RecordSection, MDictError> {
    match parsed_record_counters(archive, pos, version) {
        Err(e) => Err(e),
        Ok(record_counters) => match parsed_record_index(
            archive,
            pos + record_counters_width(version),
            record_counters,
            version,
            n_entries,
        ) {
            Err(e) => Err(e),
            Ok((record_blocks, stream_size)) => match located(pairs, record_blocks, stream_size) {
                Err(e) => Err(e),
                Ok(locators) => Ok(RecordSection { record_blocks, stream_size, locators }),
            },
        },
    }
}

/// The content of an archive, decoded in the order of the file: the header,
/// the keyword section, the record section; then every key is resolved into
/// its text. The first step that fails gives the error.
#[verifier::opaque]
pub open spec fn parsed_archive(archive: Seq<u8>, mode: MDictMode) -> Result<
    ArchiveModel,
    MDictError,
> {
    match parsed_header(archive, mode) {
        Err(e) => Err(e),
        Ok((header, p0)) => match keyword_section(
            archive,
            p0,
            header.version,
            header.encoding,
            header.encrypted & 1u8 != 0u8,
        ) {
            Err(e) => Err(e),
            Ok(keywords) => match record_section(
                archive,
                keywords.end,
                header.version,
                keywords.counters.n_entries,
                keywords.pairs,
            ) {
                Err(e) => Err(e),
                Ok(records) => match key_texts_from(
                    keywords.pairs,
                    0,
                    mode,
                    header.encoding,
                    Seq::empty(),
                ) {
                    Err(e) => Err(e),
                    Ok(keys) => Ok(
                        ArchiveModel {
                            header,
                            counters: keywords.counters,
                            keyword_blocks: keywords.keyword_blocks,
                            record_blocks: records.record_blocks,
                            stream_size: records.stream_size,
                            keys,
                            locators: records.locators,
                        },
                    ),
                },
            },
        },
    }
}

/// What holds of every decoded archive: the keyword blocks announce as many
/// keys as the counters, as many keys were decoded, each has a locator, and
/// the record blocks hold that many records together; the records assigned
/// to a block add up to its decompressed size; the records follow one
/// another in the stream without overlap, each inside its block.
pub open spec fn archive_consistent(model: ArchiveModel) -> bool {
    &&& entries_sum(model.keyword_blocks) == model.counters.n_entries
    &&& model.keys.len() == model.counters.n_entries
    &&& model.locators.len() == model.counters.n_entries
    &&& assigned_upto(model.locators, model.record_blocks.len()) == model.counters.n_entries
    &&& blocks_filled(model.locators, model.record_blocks)
    &&& locators_in_order(model.locators, model.record_blocks)
}

/// Decodes the keyword section that starts at `pos`. Returns the counters,
/// the keyword-block index, the key list, and the offset at which the
/// section ends. The key list holds as many keys as the counters announce.
pub fn parse_keyword_section(
    source: &ByteSource,
    pos: u64,
    version: Version,
    encoding: TextEncoding,
    encrypted: bool,
) -> (r: Result<(KeywordCounters, Vec<KeywordBlockInfo>, Vec<KeyEntry>, u64), MDictError>)
    ensures
        match keyword_section(source@, pos as nat, version, encoding, encrypted) {
            Ok(section) => r matches Ok((counters, blocks, entries, end)) && counters
                == section.counters && block_models(blocks@) == section.keyword_blocks
                && entry_pairs(entries@) == section.pairs && end == section.end,
            Err(e) => r matches Err(e2) && e2 == e,
        },
        r matches Ok((counters, blocks, entries, end)) ==> {
            &&& entries_sum(block_models(blocks@)) == counters.n_entries
            &&& entries@.len() == counters.n_entries
        },
{
    let counters = match parse_counters(source, pos, version) {
        Ok(counters) => counters,
        Err(e) => {
            return Err(e);
        },
    };
    let p1: u64 = pos + match version {
        Version::V1 => 16u64,
        Version::V2 => 44u64,
    };
    let keyword_blocks = match parse_keyword_index(
        source,
        p1,
        &counters,
        version,
        encoding,
        encrypted,
    ) {
        Ok(blocks) => blocks,
        Err(e) => {
            return Err(e);
        },
    };
    let p2: u64 = p1 + counters.index_compressed_size;
    let (entries, end) = match parse_key_entries(
        source,
        p2,
        &keyword_blocks,
        version,
        encoding,
    ) {
        Ok(parsed) => parsed,
        Err(e) => {
            return Err(e);
        },
    };
    Ok((counters, keyword_blocks, entries, end))
}

/// Decodes the record section that starts at `pos` and resolves the record
/// offsets of the key list against it.
pub fn parse_record_section(
    source: &ByteSource,
    pos: u64,
    version: Version,
    n_entries: u64,
    entries: &Vec<KeyEntry>,
) -> (r: Result<(RecordBlockTable, Vec<MDictRecordIndex>), MDictError>)
    ensures
        match record_section(source@, pos as nat, version, n_entries, entry_pairs(entries@)) {
            Ok(section) => r matches Ok((table, locators)) && table.blocks()
                == section.record_blocks && table.total() == section.stream_size && locators@
                == section.locators,
            Err(e) => r matches Err(e2) && e2 == e,
        },
        r matches Ok((table, locators)) ==> {
            &&& locators@.len() == entries@.len()
            &&& assigned_upto(locators@, table.blocks().len()) == entries@.len()
            &&& blocks_filled(locators@, table.blocks())
            &&& locators_in_order(locators@, table.blocks())
        },
{
    let record_counters = match parse_record_counters(source, pos, version) {
        Ok(counters) => counters,
        Err(e) => {
            return Err(e);
        },
    };
    let p1: u64 = pos + match version {
        Version::V1 => 16u64,
        Version::V2 => 32u64,
    };
    let records = match parse_record_index(source, p1, &record_counters, version, n_entries) {
        Ok(table) => table,
        Err(e) => {
            return Err(e);
        },
    };
    let locators = match locate_records(entries, &records) {
        Ok(locators) => locators,
        Err(e) => {
            return Err(e);
        },
    };
    proof {
        lemma_assigned_all(locators@, records.blocks().len());
    }
    Ok((records, locators))
}

/// Decodes an archive from its bytes.
pub fn parse_archive(source: &ByteSource, mode: MDictMode) -> (r: Result<ParsedArchive, MDictError>)
    ensures
        match parsed_archive(source@, mode) {
            Ok(model) => r matches Ok(archive) && archive@ == model,
            Err(e) => r matches Err(e2) && e2 == e,
        },
        r matches Ok(archive) ==> archive_consistent(archive@),
{
    reveal(parsed_archive);
    let (header, p0) = match parse_header(source, mode) {
        Ok(parsed) => parsed,
        Err(e) => {
            return Err(e);
        },
    };
    let version = header.version;
    let encoding = header.encoding;
    let (counters, keyword_blocks, entries, p1) = match parse_keyword_section(
        source,
        p0,
        version,
        encoding,
        header.index_encrypted(),
    ) {
        Ok(parsed) => parsed,
        Err(e) => {
            return Err(e);
        },
    };
    let (records, locators) = match parse_record_section(
        source,
        p1,
        version,
        counters.n_entries,
        &entries,
    ) {
        Ok(parsed) => parsed,
        Err(e) => {
            return Err(e);
        },
    };
    let keys = match decode_keys(&entries, mode, encoding) {
        Ok(keys) => keys,
        Err(e) => {
            return Err(e);
        },
    };
    Ok(ParsedArchive { header, counters, keyword_blocks, records, keys, locators })
}

} // verus!
