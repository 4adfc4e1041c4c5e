//! The archive set: one `.mdx` archive and its `.mdd` companions behind one
//! handle, with the prefix index from keys to locators and the lookups.

use crate::archive::{parse_archive, parsed_archive, string_views, ArchiveModel};
use crate::error::MDictError;
use crate::header::{attribute_value, HeaderModel, MDictHeader, MDictMode};
use crate::outside::{bytes_before, key_list, str_from_utf8};
use crate::paths::{has_mdx_extension, is_mdx_path};
use crate::records::{
    fetch, fetched, MDictRecordBlockIndex, MDictRecordIndex, RecordBlockTable,
};
use crate::source::ByteSource;
use crate::store::{MDictRecordIndices, PrefixIndex};
use crate::text::TextEncoding;
use vstd::prelude::*;
use vstd::utf8::{decode_utf8_encode_utf8, encode_utf8, encode_utf8_valid_utf8, valid_utf8};

verus! {

/// The mathematical content of an archive set.
pub ghost struct IndexModel {
    /// The header of the `.mdx` archive.
    pub header: HeaderModel,
    /// The locators of each keyword, in the order of the archive; keyed by
    /// the UTF-8 bytes of the keyword.
    pub words: Map<Seq<u8>, Seq<MDictRecordIndex>>,
    /// The record-block index of the `.mdx` archive.
    pub word_blocks: Seq<MDictRecordBlockIndex>,
    /// The bytes of the `.mdx` archive.
    pub word_bytes: Seq<u8>,
    /// The owner and locator of each resource; keyed by the UTF-8 bytes of
    /// the canonical path.
    pub resources: Map<Seq<u8>, (u8, MDictRecordIndex)>,
    /// The record-block index of each companion.
    pub resource_blocks: Seq<Seq<MDictRecordBlockIndex>>,
    /// The bytes of each companion.
    pub resource_bytes: Seq<Seq<u8>>,
}

/// The word index after the keys from `i` on are added to `acc`: each key is
/// bound to its locator, or gets it at the end of the list it has.
pub open spec fn word_map_from(
    keys: Seq<Seq<char>>,
    locators: Seq<MDictRecordIndex>,
    i: int,
    acc: Map<Seq<u8>, Seq<MDictRecordIndex>>,
) -> Map<Seq<u8>, Seq<MDictRecordIndex>>
    decreases keys.len() - i,
{
    if i < 0 || i >= keys.len() {
        acc
    } else {
        let k = encode_utf8(keys[i]);
        word_map_from(
            keys,
            locators,
            i + 1,
            acc.insert(
                k,
                if acc.contains_key(k) {
                    acc[k].push(locators[i])
                } else {
                    seq![locators[i]]
                },
            ),
        )
    }
}

/// The resource index after the keys of companion `id` from `i` on are added
/// to `acc`: each key is bound to the companion and its locator; a key that
/// was bound is bound anew.
pub open spec fn resource_map_from(
    keys: Seq<Seq<char>>,
    locators: Seq<MDictRecordIndex>,
    id: u8,
    i: int,
    acc: Map<Seq<u8>, (u8, MDictRecordIndex)>,
) -> Map<Seq<u8>, (u8, MDictRecordIndex)>
    decreases keys.len() - i,
{
    if i < 0 || i >= keys.len() {
        acc
    } else {
        resource_map_from(
            keys,
            locators,
            id,
            i + 1,
            acc.insert(encode_utf8(keys[i]), (id, locators[i])),
        )
    }
}

/// The resource index and the record-block indexes after the companions from
/// `i` on are decoded and added; the error of the first companion that does
/// not decode.
pub open spec fn companions_from(
    companions: Seq<Seq<u8>>,
    i: int,
    resources: Map<Seq<u8>, (u8, MDictRecordIndex)>,
    blocks: Seq<Seq<MDictRecordBlockIndex>>,
) -> Result<(Map<Seq<u8>, (u8, MDictRecordIndex)>, Seq<Seq<MDictRecordBlockIndex>>), MDictError>
    decreases companions.len() - i,
{
    if i < 0 || i >= companions.len() {
        Ok((resources, blocks))
    } else {
        match parsed_archive(companions[i], MDictMode::Mdd) {
            Err(e) => Err(e),
            Ok(archive) => companions_from(
                companions,
                i + 1,
                resource_map_from(archive.keys, archive.locators, i as u8, 0, resources),
                blocks.push(archive.record_blocks),
            ),
        }
    }
}

/// The archive set that a path and the bytes of its files open to.
///
/// `InvalidInput` where the path does not name an `.mdx` file or there are
/// more than 256 companions. Then the `.mdx` archive is decoded and its keys
/// are indexed; then each companion in turn. The first archive that does not
/// decode gives the error.
pub open spec fn opened(path: Seq<char>, mdx: Seq<u8>, companions: Seq<Seq<u8>>) -> Result<
    IndexModel,
    MDictError,
> {
    if !is_mdx_path(path) || companions.len() > 256 {
        Err(MDictError::InvalidInput)
    } else {
        match parsed_archive(mdx, MDictMode::Mdx) {
            Err(e) => Err(e),
            Ok(archive) => match companions_from(companions, 0, Map::empty(), Seq::empty()) {
                Err(e) => Err(e),
                Ok((resources, resource_blocks)) => Ok(
                    IndexModel {
                        header: archive.header,
                        words: word_map_from(archive.keys, archive.locators, 0, Map::empty()),
                        word_blocks: archive.record_blocks,
                        word_bytes: mdx,
                        resources,
                        resource_blocks,
                        resource_bytes: companions,
                    },
                ),
            },
        }
    }
}

/// The bytes of one record: `OutOfRange` where the locator names no block of
/// the index, else the record fetched from its block.
pub open spec fn record_at(
    archive: Seq<u8>,
    blocks: Seq<MDictRecordBlockIndex>,
    locator: MDictRecordIndex,
) -> Result<Seq<u8>, MDictError> {
    if locator.block >= blocks.len() {
        Err(MDictError::OutOfRange)
    } else {
        fetched(archive, locator, blocks[locator.block as int])
    }
}

/// The text of one record: the record is fetched and decoded under the
/// encoding of the archive; `Corrupt` where it does not decode.
pub open spec fn body_at(
    archive: Seq<u8>,
    blocks: Seq<MDictRecordBlockIndex>,
    encoding: TextEncoding,
    locator: MDictRecordIndex,
) -> Result<Seq<char>, MDictError> {
    match record_at(archive, blocks, locator) {
        Err(e) => Err(e),
        Ok(raw) => match encoding.decoded(raw) {
            None => Err(MDictError::Corrupt),
            Some(text) => Ok(text),
        },
    }
}

/// The texts of the records from locator `i` on, appended to `acc`; the
/// error of the first record that has no text.
pub open spec fn bodies_from(
    archive: Seq<u8>,
    blocks: Seq<MDictRecordBlockIndex>,
    encoding: TextEncoding,
    locators: Seq<MDictRecordIndex>,
    i: int,
    acc: Seq<Seq<char>>,
) -> Result<Seq<Seq<char>>, MDictError>
    decreases locators.len() - i,
{
    if i < 0 || i >= locators.len() {
        Ok(acc)
    } else {
        match body_at(archive, blocks, encoding, locators[i]) {
            Err(e) => Err(e),
            Ok(text) => bodies_from(archive, blocks, encoding, locators, i + 1, acc.push(text)),
        }
    }
}

/// Whether the archive set holds the keyword.
pub open spec fn has_word(model: IndexModel, key: Seq<char>) -> bool {
    model.words.contains_key(encode_utf8(key))
}

/// The entries of a keyword: `NotFound` where the set does not hold it,
/// else the text of each of its records in the order of its locators.
pub open spec fn word_bodies(model: IndexModel, key: Seq<char>) -> Result<
    Seq<Seq<char>>,
    MDictError,
> {
    if !has_word(model, key) {
        Err(MDictError::NotFound)
    } else {
        bodies_from(
            model.word_bytes,
            model.word_blocks,
            model.header.encoding,
            model.words[encode_utf8(key)],
            0,
            Seq::empty(),
        )
    }
}

/// The bytes of a resource: `NotFound` where the set does not hold the path,
/// else the record fetched from the companion that owns it.
pub open spec fn resource_content(model: IndexModel, key: Seq<char>) -> Result<
    Seq<u8>,
    MDictError,
> {
    let k = encode_utf8(key);
    if !model.resources.contains_key(k) {
        Err(MDictError::NotFound)
    } else {
        let (id, locator) = model.resources[k];
        record_at(model.resource_bytes[id as int], model.resource_blocks[id as int], locator)
    }
}

/// Whether every keyword of a word index is UTF-8 and has at least one
/// locator, and every locator points into one of `count` record blocks.
pub open spec fn words_in_range(words: Map<Seq<u8>, Seq<MDictRecordIndex>>, count: nat) -> bool {
    forall|k: Seq<u8>| #[trigger]
        words.contains_key(k) ==> {
            &&& valid_utf8(k)
            &&& words[k].len() >= 1
            &&& forall|j: int| 0 <= j < words[k].len() ==> (#[trigger] words[k][j]).block < count
        }
}

/// Whether every resource of a resource index is owned by one of the
/// companions and its locator points into the record blocks of its owner.
pub open spec fn resources_in_range(
    resources: Map<Seq<u8>, (u8, MDictRecordIndex)>,
    tables: Seq<Seq<MDictRecordBlockIndex>>,
) -> bool {
    forall|k: Seq<u8>| #[trigger]
        resources.contains_key(k) ==> resources[k].0 < tables.len() && resources[k].1.block
            < tables[resources[k].0 as int].len()
}

/// What holds of every archive set: each keyword is UTF-8 and has at least
/// one locator, every locator points into the record-block index of its
/// archive, and every resource is owned by one of the companions.
pub open spec fn index_sound(model: IndexModel) -> bool {
    &&& model.resource_blocks.len() == model.resource_bytes.len()
    &&& words_in_range(model.words, model.word_blocks.len())
    &&& resources_in_range(model.resources, model.resource_blocks)
}

/// Whether `keys` lists the keywords of the set: the set holds every listed
/// keyword, every keyword of the set is listed, and the list ascends in the
/// order of the UTF-8 bytes, so that no keyword is listed twice.
pub open spec fn lists_keywords(model: IndexModel, keys: Seq<Seq<char>>) -> bool {
    &&& forall|i: int| 0 <= i < keys.len() ==> has_word(model, #[trigger] keys[i])
    &&& forall|word: Seq<char>| has_word(model, word) ==> #[trigger] keys.contains(word)
    &&& forall|i: int, j: int|
        0 <= i < j < keys.len() ==> bytes_before(
            encode_utf8(#[trigger] keys[i]),
            encode_utf8(#[trigger] keys[j]),
        )
}

/// The bytes of a list of sources.
pub open spec fn source_views(sources: Seq<ByteSource>) -> Seq<Seq<u8>> {
    Seq::new(sources.len(), |i: int| sources[i]@)
}

/// The entries of a list of record-block indexes.
pub open spec fn table_views(tables: Seq<RecordBlockTable>) -> Seq<Seq<MDictRecordBlockIndex>> {
    Seq::new(tables.len(), |i: int| tables[i].blocks())
}

/// The locators of each key of a word index.
pub open spec fn word_views(index: PrefixIndex<MDictRecordIndices>) -> Map<
    Seq<u8>,
    Seq<MDictRecordIndex>,
> {
    Map::new(|k: Seq<u8>| index.has(k), |k: Seq<u8>| index.value(k)@)
}

/// Whether every key of a word index is UTF-8 and every locator of it points
/// into the record-block index.
pub open spec fn words_sound(
    index: PrefixIndex<MDictRecordIndices>,
    blocks: Seq<MDictRecordBlockIndex>,
) -> bool {
    forall|k: Seq<u8>| #[trigger]
        index.has(k) ==> {
            &&& valid_utf8(k)
            &&& index.value(k)@.len() >= 1
            &&& forall|j: int|
                0 <= j < index.value(k)@.len() ==> (#[trigger] index.value(k)@[j]).block
                    < blocks.len()
        }
}

/// Whether every resource of a resource index is owned by one of the
/// companions and its locator points into the record-block index of its owner.
pub open spec fn resources_sound(
    index: PrefixIndex<(u8, MDictRecordIndex)>,
    tables: Seq<Seq<MDictRecordBlockIndex>>,
) -> bool {
    forall|k: Seq<u8>| #[trigger]
        index.has(k) ==> index.value(k).0 < tables.len() && index.value(k).1.block
            < tables[index.value(k).0 as int].len()
}

/// Fetches the record that a locator names.
pub fn read_record(source: &ByteSource, table: &RecordBlockTable, locator: &MDictRecordIndex) -> (r:
    Result<Vec<u8>, MDictError>)
    ensures
        match record_at(source@, table.blocks(), *locator) {
            Ok(bytes) => r matches Ok(v) && v@ == bytes,
            Err(e) => r matches Err(e2) && e2 == e,
        },
{
    match table.get(locator.block as usize) {
        Some(entry) => fetch(source, locator, &entry),
        None => Err(MDictError::OutOfRange),
    }
}

/// Fetches the record that a locator names and decodes it.
pub fn read_body(
    source: &ByteSource,
    table: &RecordBlockTable,
    encoding: TextEncoding,
    locator: &MDictRecordIndex,
) -> (r: Result<String, MDictError>)
    ensures
        match body_at(source@, table.blocks(), encoding, *locator) {
            Ok(text) => r matches Ok(s) && s@ == text,
            Err(e) => r matches Err(e2) && e2 == e,
        },
{
    let raw = match read_record(source, table, locator) {
        Ok(raw) => raw,
        Err(e) => {
            return Err(e);
        },
    };
    match encoding.decode(raw.as_slice()) {
        Some(text) => Ok(text),
        None => Err(MDictError::Corrupt),
    }
}

/// Fetches and decodes the records of a keyword, in the order of its locators.
pub fn read_bodies(
    source: &ByteSource,
    table: &RecordBlockTable,
    encoding: TextEncoding,
    indices: &MDictRecordIndices,
) -> (r: Result<Vec<String>, MDictError>)
    ensures
        match bodies_from(source@, table.blocks(), encoding, indices@, 0, Seq::empty()) {
            Ok(bodies) => r matches Ok(v) && string_views(v@) == bodies,
            Err(e) => r matches Err(e2) && e2 == e,
        },
        r matches Ok(v) ==> v@.len() == indices@.len(),
{
    let count: usize = indices.len();
    let mut cursor = indices.iter();
    let mut out: Vec<String> = Vec::new();
    proof {
        assert(string_views(out@) =~= Seq::empty());
    }
    loop
        invariant
            count == indices@.len(),
            cursor.items() == indices@,
            cursor.position() == out@.len(),
            cursor.position() <= indices@.len(),
            bodies_from(source@, table.blocks(), encoding, indices@, 0, Seq::empty())
                == bodies_from(
                source@,
                table.blocks(),
                encoding,
                indices@,
                out@.len() as int,
                string_views(out@),
            ),
        decreases indices@.len() - cursor.position(),
    {
        let locator = match cursor.next() {
            Some(locator) => locator,
            None => {
                return Ok(out);
            },
        };
        let text = match read_body(source, table, encoding, &locator) {
            Ok(text) => text,
            Err(e) => {
                return Err(e);
            },
        };
        let ghost before = string_views(out@);
        let ghost chars = text@;
        out.push(text);
        proof {
            assert(string_views(out@) =~= before.push(chars));
        }
    }
}

/// Decodes companion `id` and adds its keys and its record-block index.
fn add_companion(
    index: PrefixIndex<(u8, MDictRecordIndex)>,
    tables: Vec<RecordBlockTable>,
    source: &ByteSource,
    id: u8,
) -> (r: Result<(PrefixIndex<(u8, MDictRecordIndex)>, Vec<RecordBlockTable>), MDictError>)
    requires
        tables@.len() == id,
        resources_sound(index, table_views(tables@)),
    ensures
        match parsed_archive(source@, MDictMode::Mdd) {
            Ok(archive) => r matches Ok((more, grown)) && more.bindings() == resource_map_from(
                archive.keys,
                archive.locators,
                id,
                0,
                index.bindings(),
            ) && table_views(grown@) == table_views(tables@).push(archive.record_blocks)
                && resources_sound(more, table_views(grown@)) && grown@.len() == tables@.len() + 1,
            Err(e) => r matches Err(e2) && e2 == e,
        },
{
    let companion = match parse_archive(source, MDictMode::Mdd) {
        Ok(companion) => companion,
        Err(e) => {
            return Err(e);
        },
    };
    let keys = companion.keys;
    let locators = companion.locators;
    let ghost before = table_views(tables@);
    let ghost blocks = companion.records.blocks();
    let mut tables = tables;
    tables.push(companion.records);
    proof {
        assert(table_views(tables@) =~= before.push(blocks));
        assert forall|q: Seq<u8>| #[trigger] index.has(q) implies index.value(q).0 < table_views(
            tables@,
        ).len() && index.value(q).1.block < table_views(tables@)[index.value(q).0 as int].len() by {
            assert(table_views(tables@)[index.value(q).0 as int] == before[index.value(
                q,
            ).0 as int]);
        }
    }
    let more = index_resources(index, &keys, &locators, id, Ghost(table_views(tables@)));
    Ok((more, tables))
}

/// The lookups that an archive set answers.
pub trait MDictLookup {
    /// The archive set that the lookups answer from.
    spec fn model(&self) -> IndexModel;

    /// Whether the set holds the keyword. Looks at the index only.
    fn word_exists(&self, key: &str) -> (r: Result<bool, MDictError>)
        ensures
            r == Ok::<bool, MDictError>(has_word(self.model(), key@)),
    ;

    /// The entries of a keyword: `NotFound` where the set does not hold it,
    /// else the text of each of its records in the order of its locators.
    fn lookup_word(&self, key: &str) -> (r: Result<Vec<String>, MDictError>)
        ensures
            match word_bodies(self.model(), key@) {
                Ok(bodies) => r matches Ok(v) && string_views(v@) == bodies,
                Err(e) => r matches Err(e2) && e2 == e,
            },
    ;

    /// The bytes of a resource: `NotFound` where the set does not hold the
    /// path, else the record fetched from the companion that owns it.
    fn lookup_resource(&self, key: &str) -> (r: Result<Vec<u8>, MDictError>)
        ensures
            match resource_content(self.model(), key@) {
                Ok(bytes) => r matches Ok(v) && v@ == bytes,
                Err(e) => r matches Err(e2) && e2 == e,
            },
    ;
}

/// An archive set held in memory: the bytes of its files, the record-block
/// indexes, and the prefix indexes from keys to locators. A host that keeps
/// the files on disk asks for the locators of a key and the index entry of
/// their blocks, reads one block, and takes the record from it with
/// `record_from_block`.
pub struct MDictMemIndex {
    mdx_index: PrefixIndex<MDictRecordIndices>,
    mdx_block: RecordBlockTable,
    mdx_file: ByteSource,
    mdd_index: PrefixIndex<(u8, MDictRecordIndex)>,
    mdd_blocks: Vec<RecordBlockTable>,
    mdd_files: Vec<ByteSource>,
    header: MDictHeader,
}

impl View for MDictMemIndex {
    type V = IndexModel;

    closed spec fn view(&self) -> IndexModel {
        IndexModel {
            header: self.header@,
            words: word_views(self.mdx_index),
            word_blocks: self.mdx_block.blocks(),
            word_bytes: self.mdx_file@,
            resources: self.mdd_index.bindings(),
            resource_blocks: table_views(self.mdd_blocks@),
            resource_bytes: source_views(self.mdd_files@),
        }
    }
}

/// Adds the keys of an `.mdx` archive to a word index.
fn index_words(keys: &Vec<String>, locators: &Vec<MDictRecordIndex>, blocks: Ghost<
    Seq<MDictRecordBlockIndex>,
>) -> (index: PrefixIndex<MDictRecordIndices>)
    requires
        keys@.len() == locators@.len(),
        forall|i: int| 0 <= i < locators@.len() ==> (#[trigger] locators@[i]).block < blocks@.len(),
    ensures
        word_views(index) == word_map_from(string_views(keys@), locators@, 0, Map::empty()),
        words_sound(index, blocks@),
{
    let ghost texts = string_views(keys@);
    let mut index: PrefixIndex<MDictRecordIndices> = PrefixIndex::new();
    let mut i: usize = 0;
    proof {
        assert(word_views(index) =~= Map::empty());
    }
    while i < keys.len()
        invariant
            i <= keys@.len(),
            keys@.len() == locators@.len(),
            texts == string_views(keys@),
            forall|i: int|
                0 <= i < locators@.len() ==> (#[trigger] locators@[i]).block < blocks@.len(),
            words_sound(index, blocks@),
            word_map_from(texts, locators@, 0, Map::empty()) == word_map_from(
                texts,
                locators@,
                i as int,
                word_views(index),
            ),
        decreases keys@.len() - i,
    {
        let key = keys[i].as_str().as_bytes();
        let locator = locators[i];
        let ghost before = index;
        let ghost k = encode_utf8(texts[i as int]);
        proof {
            assert(texts[i as int] == keys@[i as int]@);
            assert(key@ == k);
            encode_utf8_valid_utf8(texts[i as int]);
        }
        index = index.add(key, locator);
        proof {
            let old_map = word_views(before);
            assert(word_views(index) =~= old_map.insert(
                k,
                if old_map.contains_key(k) {
                    old_map[k].push(locator)
                } else {
                    seq![locator]
                },
            ));
            assert forall|q: Seq<u8>| #[trigger] index.has(q) implies {
                &&& valid_utf8(q)
                &&& index.value(q)@.len() >= 1
                &&& forall|j: int|
                    0 <= j < index.value(q)@.len() ==> (#[trigger] index.value(q)@[j]).block
                        < blocks@.len()
            } by {
                if q == k {
                    if before.has(k) {
                        assert forall|j: int| 0 <= j < index.value(q)@.len() implies (
                        #[trigger] index.value(q)@[j]).block < blocks@.len() by {
                            if j < before.value(k)@.len() {
                                assert(index.value(q)@[j] == before.value(k)@[j]);
                            }
                        }
                    }
                } else {
                    assert(before.has(q));
                    assert(index.value(q) == before.value(q));
                }
            }
        }
        i = i + 1;
    }
    index
}

/// Adds the keys of companion `id` to a resource index.
fn index_resources(
    index: PrefixIndex<(u8, MDictRecordIndex)>,
    keys: &Vec<String>,
    locators: &Vec<MDictRecordIndex>,
    id: u8,
    tables: Ghost<Seq<Seq<MDictRecordBlockIndex>>>,
) -> (r: PrefixIndex<(u8, MDictRecordIndex)>)
    requires
        keys@.len() == locators@.len(),
        id < tables@.len(),
        forall|i: int|
            0 <= i < locators@.len() ==> (#[trigger] locators@[i]).block < tables@[id as int].len(),
        resources_sound(index, tables@),
    ensures
        r.bindings() == resource_map_from(
            string_views(keys@),
            locators@,
            id,
            0,
            index.bindings(),
        ),
        resources_sound(r, tables@),
{
    let ghost texts = string_views(keys@);
    let ghost start = index;
    let mut index = index;
    let mut i: usize = 0;
    while i < keys.len()
        invariant
            i <= keys@.len(),
            keys@.len() == locators@.len(),
            texts == string_views(keys@),
            id < tables@.len(),
            forall|i: int|
                0 <= i < locators@.len() ==> (#[trigger] locators@[i]).block
                    < tables@[id as int].len(),
            resources_sound(index, tables@),
            resource_map_from(texts, locators@, id, 0, start.bindings()) == resource_map_from(
                texts,
                locators@,
                id,
                i as int,
                index.bindings(),
            ),
        decreases keys@.len() - i,
    {
        let key = keys[i].as_str().as_bytes();
        let locator = locators[i];
        let ghost before = index;
        let ghost k = encode_utf8(texts[i as int]);
        proof {
            assert(texts[i as int] == keys@[i as int]@);
            assert(key@ == k);
        }
        index = index.insert(key, (id, locator));
        proof {
            assert(index.bindings() =~= before.bindings().insert(k, (id, locator)));
            assert forall|q: Seq<u8>| #[trigger] index.has(q) implies index.value(q).0
                < tables@.len() && index.value(q).1.block < tables@[index.value(q).0 as int].len() by {
                if q != k {
                    assert(before.has(q));
                    assert(index.value(q) == before.value(q));
                }
            }
        }
        i = i + 1;
    }
    index
}

impl MDictMemIndex {
    #[verifier::type_invariant]
    closed spec fn well_formed(self) -> bool {
        &&& self.mdd_blocks@.len() == self.mdd_files@.len()
        &&& words_sound(self.mdx_index, self.mdx_block.blocks())
        &&& resources_sound(self.mdd_index, table_views(self.mdd_blocks@))
    }

    /// Opens an archive set from the path of its `.mdx` file, the bytes of
    /// that file, and the bytes of its companions in their order.
    pub fn new(path: &str, mdx: ByteSource, companions: Vec<ByteSource>) -> (r: Result<
        MDictMemIndex,
        MDictError,
    >)
        ensures
            match opened(path@, mdx@, source_views(companions@)) {
                Ok(model) => r matches Ok(index) && index@ == model,
                Err(e) => r matches Err(e2) && e2 == e,
            },
            r matches Ok(index) ==> index_sound(index@),
    {
        if !has_mdx_extension(path) || companions.len() > 256 {
            return Err(MDictError::InvalidInput);
        }
        let archive = match parse_archive(&mdx, MDictMode::Mdx) {
            Ok(archive) => archive,
            Err(e) => {
                return Err(e);
            },
        };
        let mdx_index = index_words(&archive.keys, &archive.locators, Ghost(archive.records.blocks()));
        let ghost sources = source_views(companions@);
        let ghost model = archive@;
        let mut mdd_index: PrefixIndex<(u8, MDictRecordIndex)> = PrefixIndex::new();
        let mut mdd_blocks: Vec<RecordBlockTable> = Vec::new();
        let mut i: usize = 0;
        proof {
            assert(mdd_index.bindings() =~= Map::empty());
            assert(table_views(mdd_blocks@) =~= Seq::empty());
        }
        while i < companions.len()
            invariant
                i <= companions@.len(),
                companions@.len() <= 256,
                is_mdx_path(path@),
                parsed_archive(mdx@, MDictMode::Mdx) == Ok::<ArchiveModel, MDictError>(model),
                sources == source_views(companions@),
                mdd_blocks@.len() == i,
                resources_sound(mdd_index, table_views(mdd_blocks@)),
                companions_from(sources, 0, Map::empty(), Seq::empty()) == companions_from(
                    sources,
                    i as int,
                    mdd_index.bindings(),
                    table_views(mdd_blocks@),
                ),
            decreases companions@.len() - i,
        {
            proof {
                assert(sources[i as int] == companions@[i as int]@);
            }
            let (more, grown) = match add_companion(mdd_index, mdd_blocks, &companions[i], i as u8) {
                Ok(added) => added,
                Err(e) => {
                    return Err(e);
                },
            };
            mdd_index = more;
            mdd_blocks = grown;
            i = i + 1;
        }
        Ok(
            MDictMemIndex {
                mdx_index,
                mdx_block: archive.records,
                mdx_file: mdx,
                mdd_index,
                mdd_blocks,
                mdd_files: companions,
                header: archive.header,
            },
        )
    }

    /// The keywords of the `.mdx` archive: each once, in ascending order of
    /// their UTF-8 bytes. The set holds every keyword that is returned, and
    /// every keyword that the set holds is returned.
    pub fn keyword_iter(&self) -> (keys: Vec<String>)
        ensures
            lists_keywords(self@, string_views(keys@)),
            index_sound(self@),
    {
        proof {
            use_type_invariant(self);
        }
        let raw = self.mdx_index.keys();
        let ghost list = key_list(raw);
        let mut keys: Vec<String> = Vec::new();
        let mut i: usize = 0;
        while i < raw.len()
            invariant
                i <= raw@.len(),
                keys@.len() == i,
                list == key_list(raw),
                words_sound(self.mdx_index, self.mdx_block.blocks()),
                forall|m: int| 0 <= m < raw@.len() ==> self.mdx_index.has(#[trigger] list[m]),
                forall|m: int| 0 <= m < i ==> encode_utf8(#[trigger] keys@[m]@) == list[m],
            decreases raw@.len() - i,
        {
            proof {
                assert(list[i as int] == raw@[i as int]@);
                assert(self.mdx_index.has(list[i as int]));
                decode_utf8_encode_utf8(list[i as int]);
            }
            match str_from_utf8(raw[i].as_slice()) {
                Some(text) => {
                    keys.push(text.to_owned());
                },
                None => {
                    // Every key of the index is the UTF-8 of a keyword.
                    assert(false);
                },
            }
            i = i + 1;
        }
        proof {
            assert forall|word: Seq<char>| has_word(self@, word) implies #[trigger] string_views(
                keys@,
            ).contains(word) by {
                let k = encode_utf8(word);
                assert(self.mdx_index.has(k));
                assert(list.contains(k));
                let m = choose|m: int| 0 <= m < list.len() && list[m] == k;
                vstd::utf8::encode_utf8_decode_utf8(word);
                vstd::utf8::encode_utf8_decode_utf8(keys@[m]@);
                assert(string_views(keys@)[m] == word);
            }
            let views = string_views(keys@);
            assert forall|a: int, b: int| 0 <= a < b < views.len() implies bytes_before(
                encode_utf8(#[trigger] views[a]),
                encode_utf8(#[trigger] views[b]),
            ) by {
                assert(bytes_before(list[a], list[b]));
            }
            assert forall|a: int| 0 <= a < views.len() implies has_word(
                self@,
                #[trigger] views[a],
            ) by {
                assert(self.mdx_index.has(list[a]));
            }
        }
        keys
    }

    /// The header of the `.mdx` archive.
    pub fn header(&self) -> (header: &MDictHeader)
        ensures
            header@ == self@.header,
    {
        &self.header
    }

    /// The value of an attribute of the header of the `.mdx` archive.
    pub fn header_attribute(&self, name: &str) -> (r: Option<&String>)
        ensures
            match attribute_value(self@.header.attrs, name@) {
                Some(value) => r matches Some(s) && s@ == value,
                None => r.is_none(),
            },
    {
        self.header.attribute(name)
    }

    /// The number of companions of the set.
    pub fn companions(&self) -> (n: usize)
        ensures
            n == self@.resource_bytes.len(),
    {
        self.mdd_files.len()
    }

    /// The locators of a keyword, in the order of the archive; `None` where
    /// the set does not hold the keyword.
    pub fn word_locators(&self, key: &str) -> (r: Option<&MDictRecordIndices>)
        ensures
            match r {
                Some(locators) => has_word(self@, key@) && locators@ == self@.words[encode_utf8(
                    key@,
                )] && locators@.len() >= 1,
                None => !has_word(self@, key@),
            },
    {
        proof {
            use_type_invariant(self);
        }
        self.mdx_index.get(key.as_bytes())
    }

    /// The index entry of the record block that a locator of a keyword
    /// points into: where the block lies in the `.mdx` file and how large it
    /// is. `None` where the locator names no block.
    pub fn word_block(&self, locator: &MDictRecordIndex) -> (r: Option<MDictRecordBlockIndex>)
        ensures
            r == (if locator.block < self@.word_blocks.len() {
                Some(self@.word_blocks[locator.block as int])
            } else {
                None
            }),
    {
        self.mdx_block.get(locator.block as usize)
    }

    /// The index entry of the record block that a locator of a resource
    /// points into, in the companion `owner`. `None` where there is no such
    /// companion or the locator names no block of it.
    pub fn resource_block(&self, owner: u8, locator: &MDictRecordIndex) -> (r: Option<
        MDictRecordBlockIndex,
    >)
        ensures
            r == (if owner < self@.resource_blocks.len() && locator.block
                < self@.resource_blocks[owner as int].len() {
                Some(self@.resource_blocks[owner as int][locator.block as int])
            } else {
                None
            }),
    {
        let id: usize = owner as usize;
        if id >= self.mdd_blocks.len() {
            return None;
        }
        proof {
            assert(table_views(self.mdd_blocks@)[id as int] == self.mdd_blocks@[id as int].blocks());
        }
        self.mdd_blocks[id].get(locator.block as usize)
    }

    /// The companion that owns a resource and the locator of the resource;
    /// `None` where the set does not hold the path.
    pub fn resource_locator(&self, key: &str) -> (r: Option<(u8, MDictRecordIndex)>)
        ensures
            match r {
                Some(found) => self@.resources.contains_key(encode_utf8(key@)) && found
                    == self@.resources[encode_utf8(key@)],
                None => !self@.resources.contains_key(encode_utf8(key@)),
            },
    {
        match self.mdd_index.get(key.as_bytes()) {
            Some(found) => Some(*found),
            None => None,
        }
    }
}

impl MDictLookup for MDictMemIndex {
    open spec fn model(&self) -> IndexModel {
        self@
    }

    /// Whether the set holds the keyword. Looks at the index only.
    fn word_exists(&self, key: &str) -> (r: Result<bool, MDictError>)
    {
        Ok(self.mdx_index.get(key.as_bytes()).is_some())
    }

    /// The entries of a keyword: every record bound to it is fetched and
    /// decoded, in the order of its locators.
    fn lookup_word(&self, key: &str) -> (r: Result<Vec<String>, MDictError>)
        ensures
            r matches Ok(v) ==> v@.len() == self@.words[encode_utf8(key@)].len() && v@.len() >= 1,
    {
        proof {
            use_type_invariant(self);
        }
        let indices = match self.mdx_index.get(key.as_bytes()) {
            Some(indices) => indices,
            None => {
                return Err(MDictError::NotFound);
            },
        };
        read_bodies(&self.mdx_file, &self.mdx_block, self.header.encoding, indices)
    }

    /// The bytes of a resource, fetched from the companion that owns it.
    fn lookup_resource(&self, key: &str) -> (r: Result<Vec<u8>, MDictError>)
    {
        proof {
            use_type_invariant(self);
        }
        let (id, locator) = match self.mdd_index.get(key.as_bytes()) {
            Some(found) => *found,
            None => {
                return Err(MDictError::NotFound);
            },
        };
        let owner: usize = id as usize;
        proof {
            assert(table_views(self.mdd_blocks@)[owner as int] == self.mdd_blocks@[owner as int].blocks());
            assert(source_views(self.mdd_files@)[owner as int] == self.mdd_files@[owner as int]@);
        }
        read_record(&self.mdd_files[owner], &self.mdd_blocks[owner], &locator)
    }
}

} // verus!
