//! Laws of the library that relate several of its functions, stated over the
//! models that the contracts of the functions use, and proved.

use crate::archive::{
    archive_consistent, keyword_section, lemma_key_texts_count, parsed_archive, record_section,
    ArchiveModel,
};
use crate::block::{decoded_block, stored_checksum};
use crate::checksum::adler32_of;
use crate::error::MDictError;
use crate::header::{parsed_header, MDictMode};
use crate::index::{
    bodies_from, body_at, companions_from, has_word, index_sound, lists_keywords, opened,
    record_at, resource_map_from, resources_in_range, word_bodies, word_map_from,
    words_in_range, IndexModel,
};
use crate::keys::{
    lemma_assigned_all, lemma_key_entries_count, lemma_located_records, locators_in_order,
    stream_end_of, stream_start_of,
};
use crate::outside::bytes_before;
use crate::records::{
    lemma_record_blocks_tile, parsed_record_counters, record_blocks_from, record_counters_width,
    record_of_block, MDictRecordBlockIndex, MDictRecordIndex,
};
use crate::source::{range_inside, range_of};
use crate::table::{counters_width, parsed_counters};
use crate::text::TextEncoding;
use vstd::prelude::*;
use vstd::utf8::{
    decode_utf8, decode_utf8_encode_utf8, encode_utf8, encode_utf8_valid_utf8, valid_utf8,
};

verus! {

/// Every archive that decodes is consistent: the keyword blocks announce as
/// many keys as the counters, as many keys are decoded, each has a locator,
/// and the record blocks hold that many records together; the records
/// assigned to each record block add up to its decompressed size; and the
/// records lie in the stream one after another, each inside its block.
pub proof fn lemma_decoded_archive_is_consistent(
    archive: Seq<u8>,
    mode: MDictMode,
    model: ArchiveModel,
)
    requires
        parsed_archive(archive, mode) == Ok::<ArchiveModel, MDictError>(model),
    ensures
        archive_consistent(model),
{
    reveal(parsed_archive);
    let (header, p0) = parsed_header(archive, mode).unwrap();
    let version = header.version;
    let encoding = header.encoding;
    let keywords = keyword_section(
        archive,
        p0,
        version,
        encoding,
        header.encrypted & 1u8 != 0u8,
    ).unwrap();
    let counters = parsed_counters(archive, p0, version).unwrap();
    let p2 = p0 + counters_width(version) + counters.index_compressed_size as nat;
    lemma_key_entries_count(
        archive,
        p2,
        keywords.keyword_blocks,
        0,
        version,
        encoding.nul_width(),
        Seq::empty(),
        keywords.pairs,
    );
    assert(keywords.keyword_blocks.take(0) =~= Seq::empty());
    let records = record_section(
        archive,
        keywords.end,
        version,
        counters.n_entries,
        keywords.pairs,
    ).unwrap();
    let record_counters = parsed_record_counters(archive, keywords.end, version).unwrap();
    let p4 = keywords.end + record_counters_width(version);
    let c_start = (p4 + record_counters.index_size) as nat;
    let read = record_blocks_from(
        range_of(archive, p4, record_counters.index_size as nat),
        0,
        record_counters.n_blocks as nat,
        version,
        c_start,
        0,
        Seq::empty(),
    ).unwrap();
    lemma_record_blocks_tile(
        range_of(archive, p4, record_counters.index_size as nat),
        0,
        record_counters.n_blocks as nat,
        version,
        c_start,
        c_start,
        0,
        Seq::empty(),
        read,
    );
    lemma_located_records(
        keywords.pairs,
        records.record_blocks,
        c_start,
        records.stream_size,
        records.locators,
    );
    lemma_key_texts_count(keywords.pairs, 0, mode, encoding, Seq::empty(), model.keys);
    lemma_assigned_all(model.locators, model.record_blocks.len());
}

/// Adding keys whose locators point into the record blocks keeps a word
/// index in range.
pub proof fn lemma_word_map_in_range(
    keys: Seq<Seq<char>>,
    locators: Seq<MDictRecordIndex>,
    count: nat,
    i: int,
    acc: Map<Seq<u8>, Seq<MDictRecordIndex>>,
)
    requires
        keys.len() == locators.len(),
        0 <= i <= keys.len(),
        forall|j: int| 0 <= j < locators.len() ==> (#[trigger] locators[j]).block < count,
        words_in_range(acc, count),
    ensures
        words_in_range(word_map_from(keys, locators, i, acc), count),
    decreases keys.len() - i,
{
    if i < keys.len() {
        let k = encode_utf8(keys[i]);
        let value = if acc.contains_key(k) {
            acc[k].push(locators[i])
        } else {
            seq![locators[i]]
        };
        let more = acc.insert(k, value);
        encode_utf8_valid_utf8(keys[i]);
        assert forall|q: Seq<u8>| #[trigger] more.contains_key(q) implies {
            &&& valid_utf8(q)
            &&& more[q].len() >= 1
            &&& forall|j: int| 0 <= j < more[q].len() ==> (#[trigger] more[q][j]).block < count
        } by {
            if q == k {
                assert forall|j: int| 0 <= j < value.len() implies (#[trigger] value[j]).block
                    < count by {
                    if acc.contains_key(k) && j < acc[k].len() {
                        assert(value[j] == acc[k][j]);
                    }
                }
            } else {
                assert(acc.contains_key(q));
            }
        }
        lemma_word_map_in_range(keys, locators, count, i + 1, more);
    }
}

/// Adding the keys of a companion whose locators point into its record
/// blocks keeps a resource index in range.
pub proof fn lemma_resource_map_in_range(
    keys: Seq<Seq<char>>,
    locators: Seq<MDictRecordIndex>,
    id: u8,
    tables: Seq<Seq<MDictRecordBlockIndex>>,
    i: int,
    acc: Map<Seq<u8>, (u8, MDictRecordIndex)>,
)
    requires
        keys.len() == locators.len(),
        0 <= i <= keys.len(),
        id < tables.len(),
        forall|j: int|
            0 <= j < locators.len() ==> (#[trigger] locators[j]).block < tables[id as int].len(),
        resources_in_range(acc, tables),
    ensures
        resources_in_range(resource_map_from(keys, locators, id, i, acc), tables),
    decreases keys.len() - i,
{
    if i < keys.len() {
        let more = acc.insert(encode_utf8(keys[i]), (id, locators[i]));
        assert forall|q: Seq<u8>| #[trigger] more.contains_key(q) implies more[q].0 < tables.len()
            && more[q].1.block < tables[more[q].0 as int].len() by {
            if q != encode_utf8(keys[i]) {
                assert(acc.contains_key(q));
            }
        }
        lemma_resource_map_in_range(keys, locators, id, tables, i + 1, more);
    }
}

/// Decoding the companions from `i` on keeps the resource index in range,
/// and gives one record-block index for each companion.
pub proof fn lemma_companions_in_range(
    companions: Seq<Seq<u8>>,
    i: int,
    resources: Map<Seq<u8>, (u8, MDictRecordIndex)>,
    tables: Seq<Seq<MDictRecordBlockIndex>>,
    out: (Map<Seq<u8>, (u8, MDictRecordIndex)>, Seq<Seq<MDictRecordBlockIndex>>),
)
    requires
        companions.len() <= 256,
        0 <= i <= companions.len(),
        tables.len() == i,
        resources_in_range(resources, tables),
        companions_from(companions, i, resources, tables) == Ok::<
            (Map<Seq<u8>, (u8, MDictRecordIndex)>, Seq<Seq<MDictRecordBlockIndex>>),
            MDictError,
        >(out),
    ensures
        out.1.len() == companions.len(),
        resources_in_range(out.0, out.1),
    decreases companions.len() - i,
{
    if i < companions.len() {
        let archive = parsed_archive(companions[i], MDictMode::Mdd).unwrap();
        lemma_decoded_archive_is_consistent(companions[i], MDictMode::Mdd, archive);
        let grown = tables.push(archive.record_blocks);
        assert forall|q: Seq<u8>| #[trigger] resources.contains_key(q) implies resources[q].0
            < grown.len() && resources[q].1.block < grown[resources[q].0 as int].len() by {
            assert(grown[resources[q].0 as int] == tables[resources[q].0 as int]);
        }
        assert(grown[i] == archive.record_blocks);
        lemma_resource_map_in_range(
            archive.keys,
            archive.locators,
            i as u8,
            grown,
            0,
            resources,
        );
        lemma_companions_in_range(
            companions,
            i + 1,
            resource_map_from(archive.keys, archive.locators, i as u8, 0, resources),
            grown,
            out,
        );
    }
}

/// Every archive set that opens is sound: each keyword is UTF-8 and has at
/// least one locator, every locator points into the record-block index of
/// its archive, and every resource is owned by one of the companions.
pub proof fn lemma_opened_index_is_sound(
    path: Seq<char>,
    mdx: Seq<u8>,
    companions: Seq<Seq<u8>>,
    model: IndexModel,
)
    requires
        opened(path, mdx, companions) == Ok::<IndexModel, MDictError>(model),
    ensures
        index_sound(model),
{
    let archive = parsed_archive(mdx, MDictMode::Mdx).unwrap();
    lemma_decoded_archive_is_consistent(mdx, MDictMode::Mdx, archive);
    lemma_word_map_in_range(
        archive.keys,
        archive.locators,
        archive.record_blocks.len(),
        0,
        Map::empty(),
    );
    lemma_companions_in_range(
        companions,
        0,
        Map::empty(),
        Seq::empty(),
        (model.resources, model.resource_blocks),
    );
}

/// A block that decodes has the checksum that it stores: the ADLER-32 of the
/// decompressed bytes equals the checksum in the four bytes after the tag.
pub proof fn lemma_decoded_block_checksum(block: Seq<u8>, expected: Option<u64>, bytes: Seq<u8>)
    requires
        decoded_block(block, expected) == Ok::<Seq<u8>, MDictError>(bytes),
    ensures
        adler32_of(bytes) == stored_checksum(block),
        block.len() >= 8,
{
}

/// One ranged read serves a record: where the block that the index entry
/// describes lies inside the archive, the record taken from the bytes of
/// that block alone is the record that a lookup fetches.
pub proof fn lemma_block_read_serves_the_record(
    archive: Seq<u8>,
    blocks: Seq<MDictRecordBlockIndex>,
    locator: MDictRecordIndex,
)
    requires
        locator.block < blocks.len(),
        range_inside(
            archive,
            blocks[locator.block as int].compressed_offset as nat,
            blocks[locator.block as int].compressed_size as nat,
        ),
    ensures
        record_at(archive, blocks, locator) == record_of_block(
            range_of(
                archive,
                blocks[locator.block as int].compressed_offset as nat,
                blocks[locator.block as int].compressed_size as nat,
            ),
            locator,
            blocks[locator.block as int],
        ),
{
}

/// Every keyword that the list of keywords returns exists: asking the set
/// whether it holds the keyword answers yes, and looking it up does not
/// answer that it was not found.
pub proof fn lemma_listed_keywords_exist(model: IndexModel, keys: Seq<Seq<char>>, i: int)
    requires
        lists_keywords(model, keys),
        0 <= i < keys.len(),
    ensures
        has_word(model, keys[i]),
        word_bodies(model, keys[i]) != Err::<Seq<Seq<char>>, MDictError>(MDictError::NotFound),
{
    lemma_bodies_never_not_found(
        model.word_bytes,
        model.word_blocks,
        model.header.encoding,
        model.words[encode_utf8(keys[i])],
        0,
        Seq::empty(),
    );
}

/// Reading the records of a keyword never fails with `NotFound`: only a
/// keyword that the set does not hold is reported missing.
pub proof fn lemma_bodies_never_not_found(
    archive: Seq<u8>,
    blocks: Seq<MDictRecordBlockIndex>,
    encoding: TextEncoding,
    locators: Seq<MDictRecordIndex>,
    i: int,
    acc: Seq<Seq<char>>,
)
    requires
        0 <= i <= locators.len(),
    ensures
        bodies_from(archive, blocks, encoding, locators, i, acc) != Err::<
            Seq<Seq<char>>,
            MDictError,
        >(MDictError::NotFound),
    decreases locators.len() - i,
{
    if i < locators.len() {
        match body_at(archive, blocks, encoding, locators[i]) {
            Err(e) => {},
            Ok(text) => {
                lemma_bodies_never_not_found(
                    archive,
                    blocks,
                    encoding,
                    locators,
                    i + 1,
                    acc.push(text),
                );
            },
        }
    }
}

/// Where the records from locator `i` on are read with success, the result
/// is `acc` with one text more for each locator, and each of these texts is
/// the text of the record that its locator names.
pub proof fn lemma_bodies_follow_locators(
    archive: Seq<u8>,
    blocks: Seq<MDictRecordBlockIndex>,
    encoding: TextEncoding,
    locators: Seq<MDictRecordIndex>,
    i: int,
    acc: Seq<Seq<char>>,
    bodies: Seq<Seq<char>>,
)
    requires
        0 <= i <= locators.len(),
        bodies_from(archive, blocks, encoding, locators, i, acc) == Ok::<
            Seq<Seq<char>>,
            MDictError,
        >(bodies),
    ensures
        bodies.len() == acc.len() + locators.len() - i,
        forall|j: int| 0 <= j < acc.len() ==> bodies[j] == acc[j],
        forall|j: int|
            i <= j < locators.len() ==> body_at(archive, blocks, encoding, #[trigger] locators[j])
                == Ok::<Seq<char>, MDictError>(bodies[acc.len() + j - i]),
    decreases locators.len() - i,
{
    if i < locators.len() {
        let text = body_at(archive, blocks, encoding, locators[i]).unwrap();
        lemma_bodies_follow_locators(
            archive,
            blocks,
            encoding,
            locators,
            i + 1,
            acc.push(text),
            bodies,
        );
        assert forall|j: int| 0 <= j < acc.len() implies bodies[j] == acc[j] by {
            assert(acc.push(text)[j] == acc[j]);
        }
        assert(acc.push(text)[acc.len() as int] == text);
    }
}

/// A keyword that the set holds has at least one entry: where its lookup
/// succeeds, it returns one text for each locator of the keyword, and there
/// is at least one.
pub proof fn lemma_found_word_has_entries(
    model: IndexModel,
    key: Seq<char>,
    bodies: Seq<Seq<char>>,
)
    requires
        index_sound(model),
        has_word(model, key),
        word_bodies(model, key) == Ok::<Seq<Seq<char>>, MDictError>(bodies),
    ensures
        bodies.len() == model.words[encode_utf8(key)].len(),
        bodies.len() >= 1,
{
    lemma_bodies_follow_locators(
        model.word_bytes,
        model.word_blocks,
        model.header.encoding,
        model.words[encode_utf8(key)],
        0,
        Seq::empty(),
        bodies,
    );
}

/// In a UTF-8 archive the text of a record encodes back to the bytes of the
/// record, and the text of a record that is not empty is not empty.
pub proof fn lemma_utf8_body_round_trip(
    archive: Seq<u8>,
    blocks: Seq<MDictRecordBlockIndex>,
    locator: MDictRecordIndex,
    text: Seq<char>,
)
    requires
        body_at(archive, blocks, TextEncoding::Utf8, locator) == Ok::<Seq<char>, MDictError>(text),
    ensures
        record_at(archive, blocks, locator) == Ok::<Seq<u8>, MDictError>(encode_utf8(text)),
        encode_utf8(text).len() == locator.length,
        locator.length > 0 ==> text.len() > 0,
{
    let raw = record_at(archive, blocks, locator).unwrap();
    assert(valid_utf8(raw));
    assert(text == decode_utf8(raw));
    decode_utf8_encode_utf8(raw);
    if text.len() == 0 {
        assert(encode_utf8(text).len() == 0);
    }
}

/// In a UTF-8 archive every entry that a lookup returns encodes back to the
/// bytes of the record that the locator at its place names.
pub proof fn lemma_utf8_entries_round_trip(
    model: IndexModel,
    key: Seq<char>,
    bodies: Seq<Seq<char>>,
    i: int,
)
    requires
        model.header.encoding == TextEncoding::Utf8,
        has_word(model, key),
        word_bodies(model, key) == Ok::<Seq<Seq<char>>, MDictError>(bodies),
        0 <= i < bodies.len(),
    ensures
        i < model.words[encode_utf8(key)].len(),
        record_at(model.word_bytes, model.word_blocks, model.words[encode_utf8(key)][i]) == Ok::<
            Seq<u8>,
            MDictError,
        >(encode_utf8(bodies[i])),
{
    let locators = model.words[encode_utf8(key)];
    lemma_bodies_follow_locators(
        model.word_bytes,
        model.word_blocks,
        TextEncoding::Utf8,
        locators,
        0,
        Seq::empty(),
        bodies,
    );
    assert(body_at(model.word_bytes, model.word_blocks, TextEncoding::Utf8, locators[i]) == Ok::<
        Seq<char>,
        MDictError,
    >(bodies[i]));
    lemma_utf8_body_round_trip(model.word_bytes, model.word_blocks, locators[i], bodies[i]);
}

/// Two records of one block do not overlap: in the order of the key list the
/// earlier record ends where the later one starts or before, and it starts
/// before the later one unless it is empty.
pub proof fn lemma_records_of_a_block_apart(
    locators: Seq<MDictRecordIndex>,
    blocks: Seq<MDictRecordBlockIndex>,
    i: int,
    j: int,
)
    requires
        locators_in_order(locators, blocks),
        0 <= i < j < locators.len(),
        locators[i].block == locators[j].block,
    ensures
        locators[i].offset + locators[i].length <= locators[j].offset,
        locators[i].length > 0 ==> locators[i].offset < locators[j].offset,
{
    assert(stream_end_of(locators[i], blocks) <= stream_start_of(locators[j], blocks));
}

/// Opening the same files twice gives the same archive set: the same
/// keywords, and for every key the same answer to a lookup.
pub proof fn lemma_opening_is_repeatable(
    path: Seq<char>,
    mdx: Seq<u8>,
    companions: Seq<Seq<u8>>,
    first: IndexModel,
    second: IndexModel,
    key: Seq<char>,
)
    requires
        opened(path, mdx, companions) == Ok::<IndexModel, MDictError>(first),
        opened(path, mdx, companions) == Ok::<IndexModel, MDictError>(second),
    ensures
        first == second,
        first.words.dom() == second.words.dom(),
        has_word(first, key) == has_word(second, key),
        word_bodies(first, key) == word_bodies(second, key),
{
}

/// A listed keyword of a UTF-8 archive that has a record that is not empty
/// has an entry that is not empty: where its lookup succeeds, it returns at
/// least one text, and the text of that record is not empty.
pub proof fn lemma_listed_keyword_has_text(
    path: Seq<char>,
    mdx: Seq<u8>,
    companions: Seq<Seq<u8>>,
    model: IndexModel,
    keys: Seq<Seq<char>>,
    i: int,
    bodies: Seq<Seq<char>>,
    j: int,
)
    requires
        opened(path, mdx, companions) == Ok::<IndexModel, MDictError>(model),
        lists_keywords(model, keys),
        0 <= i < keys.len(),
        word_bodies(model, keys[i]) == Ok::<Seq<Seq<char>>, MDictError>(bodies),
        model.header.encoding == TextEncoding::Utf8,
        0 <= j < model.words[encode_utf8(keys[i])].len(),
        model.words[encode_utf8(keys[i])][j].length > 0,
    ensures
        bodies.len() >= 1,
        j < bodies.len(),
        bodies[j].len() > 0,
{
    let locators = model.words[encode_utf8(keys[i])];
    lemma_bodies_follow_locators(
        model.word_bytes,
        model.word_blocks,
        TextEncoding::Utf8,
        locators,
        0,
        Seq::empty(),
        bodies,
    );
    assert(body_at(model.word_bytes, model.word_blocks, TextEncoding::Utf8, locators[j]) == Ok::<
        Seq<char>,
        MDictError,
    >(bodies[j]));
    lemma_utf8_body_round_trip(model.word_bytes, model.word_blocks, locators[j], bodies[j]);
}

/// How often `key` stands in a list of keys.
pub open spec fn occurrences(keys: Seq<Seq<u8>>, key: Seq<u8>) -> nat
    decreases keys.len(),
{
    if keys.len() == 0 {
        0
    } else {
        occurrences(keys.drop_last(), key) + if keys.last() == key {
            1nat
        } else {
            0nat
        }
    }
}

/// The UTF-8 bytes of each keyword of a list.
pub open spec fn key_bytes(keys: Seq<Seq<char>>) -> Seq<Seq<u8>> {
    Seq::new(keys.len(), |i: int| encode_utf8(keys[i]))
}

/// The number of locators that a word index binds to the listed keys together.
pub open spec fn bound_to(words: Map<Seq<u8>, Seq<MDictRecordIndex>>, listed: Seq<Seq<u8>>) -> nat
    decreases listed.len(),
{
    if listed.len() == 0 {
        0
    } else {
        bound_to(words, listed.drop_last()) + if words.contains_key(listed.last()) {
            words[listed.last()].len()
        } else {
            0nat
        }
    }
}

/// How often the listed keys stand in a list of keys together.
pub open spec fn listed_occurrences(keys: Seq<Seq<u8>>, listed: Seq<Seq<u8>>) -> nat
    decreases listed.len(),
{
    if listed.len() == 0 {
        0
    } else {
        listed_occurrences(keys, listed.drop_last()) + occurrences(keys, listed.last())
    }
}

/// Whether a word index binds exactly the keys among the first `i`, each to
/// as many locators as it stands among them.
pub open spec fn counts_first(
    words: Map<Seq<u8>, Seq<MDictRecordIndex>>,
    keys: Seq<Seq<u8>>,
    i: int,
) -> bool {
    forall|k: Seq<u8>|
        (#[trigger] words.contains_key(k) <==> occurrences(keys.take(i), k) > 0) && (
        words.contains_key(k) ==> words[k].len() == occurrences(keys.take(i), k))
}

/// A key that is not in a list stands in it zero times.
pub proof fn lemma_absent_occurs_never(keys: Seq<Seq<u8>>, key: Seq<u8>)
    requires
        !keys.contains(key),
    ensures
        occurrences(keys, key) == 0,
    decreases keys.len(),
{
    if keys.len() > 0 {
        assert(keys[keys.len() - 1] == keys.last());
        assert forall|j: int| 0 <= j < keys.drop_last().len() implies keys.drop_last()[j]
            != key by {
            assert(keys[j] == keys.drop_last()[j]);
        }
        lemma_absent_occurs_never(keys.drop_last(), key);
    }
}

/// A key of a list without repetition stands in it once.
pub proof fn lemma_listed_occurs_once(listed: Seq<Seq<u8>>, key: Seq<u8>)
    requires
        forall|a: int, b: int| 0 <= a < b < listed.len() ==> listed[a] != listed[b],
        listed.contains(key),
    ensures
        occurrences(listed, key) == 1,
    decreases listed.len(),
{
    let rest = listed.drop_last();
    let at = choose|j: int| 0 <= j < listed.len() && listed[j] == key;
    assert forall|a: int, b: int| 0 <= a < b < rest.len() implies rest[a] != rest[b] by {
        assert(rest[a] == listed[a] && rest[b] == listed[b]);
    }
    if listed.last() == key {
        assert forall|j: int| 0 <= j < rest.len() implies rest[j] != key by {
            assert(rest[j] == listed[j]);
            assert(listed[listed.len() - 1] == key);
        }
        lemma_absent_occurs_never(rest, key);
    } else {
        assert(rest[at] == key);
        lemma_listed_occurs_once(rest, key);
    }
}

/// One more key in a list is one more occurrence among the listed keys for
/// each time it is listed.
pub proof fn lemma_listed_occurrences_step(keys: Seq<Seq<u8>>, listed: Seq<Seq<u8>>)
    requires
        keys.len() > 0,
    ensures
        listed_occurrences(keys, listed) == listed_occurrences(keys.drop_last(), listed)
            + occurrences(listed, keys.last()),
    decreases listed.len(),
{
    if listed.len() > 0 {
        lemma_listed_occurrences_step(keys, listed.drop_last());
    }
}

/// Where a list without repetition holds every key of a list of keys, the
/// listed keys stand in the list of keys as often as it is long.
pub proof fn lemma_listed_occurrences_total(keys: Seq<Seq<u8>>, listed: Seq<Seq<u8>>)
    requires
        forall|a: int, b: int| 0 <= a < b < listed.len() ==> listed[a] != listed[b],
        forall|j: int| 0 <= j < keys.len() ==> listed.contains(#[trigger] keys[j]),
    ensures
        listed_occurrences(keys, listed) == keys.len(),
    decreases keys.len(),
{
    if keys.len() == 0 {
        lemma_no_keys_occur(listed);
        assert(keys =~= Seq::<Seq<u8>>::empty());
    } else {
        let rest = keys.drop_last();
        assert forall|j: int| 0 <= j < rest.len() implies listed.contains(#[trigger] rest[j]) by {
            assert(rest[j] == keys[j]);
        }
        lemma_listed_occurrences_total(rest, listed);
        lemma_listed_occurrences_step(keys, listed);
        assert(keys[keys.len() - 1] == keys.last());
        lemma_listed_occurs_once(listed, keys.last());
    }
}

/// In an empty list of keys no listed key stands.
pub proof fn lemma_no_keys_occur(listed: Seq<Seq<u8>>)
    ensures
        listed_occurrences(Seq::<Seq<u8>>::empty(), listed) == 0,
    decreases listed.len(),
{
    if listed.len() > 0 {
        lemma_no_keys_occur(listed.drop_last());
    }
}

/// Adding the keys from `i` on to a word index that counts the first `i`
/// gives a word index that counts them all.
pub proof fn lemma_word_map_counts(
    keys: Seq<Seq<char>>,
    locators: Seq<MDictRecordIndex>,
    i: int,
    acc: Map<Seq<u8>, Seq<MDictRecordIndex>>,
)
    requires
        0 <= i <= keys.len(),
        counts_first(acc, key_bytes(keys), i),
    ensures
        counts_first(
            word_map_from(keys, locators, i, acc),
            key_bytes(keys),
            keys.len() as int,
        ),
    decreases keys.len() - i,
{
    let listed = key_bytes(keys);
    if i < keys.len() {
        let k = encode_utf8(keys[i]);
        let value = if acc.contains_key(k) {
            acc[k].push(locators[i])
        } else {
            seq![locators[i]]
        };
        let more = acc.insert(k, value);
        assert(listed.take(i + 1).drop_last() =~= listed.take(i));
        assert(listed.take(i + 1).last() == k);
        assert forall|q: Seq<u8>|
            (#[trigger] more.contains_key(q) <==> occurrences(listed.take(i + 1), q) > 0) && (
            more.contains_key(q) ==> more[q].len() == occurrences(listed.take(i + 1), q)) by {
            assert(acc.contains_key(q) <==> occurrences(listed.take(i), q) > 0);
        }
        lemma_word_map_counts(keys, locators, i + 1, more);
    }
}

/// Where a word index counts a list of keys, it binds as many locators to
/// the listed keys as the listed keys stand in the list of keys.
pub proof fn lemma_bound_is_occurrences(
    words: Map<Seq<u8>, Seq<MDictRecordIndex>>,
    keys: Seq<Seq<u8>>,
    listed: Seq<Seq<u8>>,
)
    requires
        counts_first(words, keys, keys.len() as int),
    ensures
        bound_to(words, listed) == listed_occurrences(keys, listed),
    decreases listed.len(),
{
    if listed.len() > 0 {
        lemma_bound_is_occurrences(words, keys, listed.drop_last());
        assert(keys.take(keys.len() as int) =~= keys);
        assert(words.contains_key(listed.last()) <==> occurrences(keys, listed.last()) > 0);
    }
}

/// A byte string that comes before another is another.
pub proof fn lemma_before_differs(a: Seq<u8>, b: Seq<u8>)
    requires
        bytes_before(a, b),
    ensures
        a != b,
{
}

/// The index holds every locator of the archive: the locators bound to the
/// listed keywords of an archive set add up to the number of entries that
/// the counters of the `.mdx` archive announce.
pub proof fn lemma_index_holds_every_locator(
    path: Seq<char>,
    mdx: Seq<u8>,
    companions: Seq<Seq<u8>>,
    model: IndexModel,
    keys: Seq<Seq<char>>,
)
    requires
        opened(path, mdx, companions) == Ok::<IndexModel, MDictError>(model),
        lists_keywords(model, keys),
    ensures
        bound_to(model.words, key_bytes(keys)) == parsed_archive(
            mdx,
            MDictMode::Mdx,
        ).unwrap().counters.n_entries,
{
    let archive = parsed_archive(mdx, MDictMode::Mdx).unwrap();
    lemma_decoded_archive_is_consistent(mdx, MDictMode::Mdx, archive);
    let stored = key_bytes(archive.keys);
    let listed = key_bytes(keys);
    assert(stored.take(0) =~= Seq::empty());
    lemma_word_map_counts(archive.keys, archive.locators, 0, Map::empty());
    assert(stored.take(stored.len() as int) =~= stored);
    assert forall|a: int, b: int| 0 <= a < b < listed.len() implies listed[a] != listed[b] by {
        assert(bytes_before(encode_utf8(keys[a]), encode_utf8(keys[b])));
        lemma_before_differs(listed[a], listed[b]);
    }
    assert forall|j: int| 0 <= j < stored.len() implies listed.contains(#[trigger] stored[j]) by {
        lemma_occurs_in_own_list(stored, j);
        assert(model.words.contains_key(stored[j]));
        assert(has_word(model, archive.keys[j]));
        assert(keys.contains(archive.keys[j]));
        let at = choose|at: int| 0 <= at < keys.len() && keys[at] == archive.keys[j];
        assert(listed[at] == stored[j]);
    }
    lemma_listed_occurrences_total(stored, listed);
    lemma_bound_is_occurrences(model.words, stored, listed);
}

/// A key of a list stands in it at least once.
pub proof fn lemma_occurs_in_own_list(keys: Seq<Seq<u8>>, j: int)
    requires
        0 <= j < keys.len(),
    ensures
        occurrences(keys, keys[j]) > 0,
    decreases keys.len(),
{
    if j < keys.len() - 1 {
        assert(keys.drop_last()[j] == keys[j]);
        lemma_occurs_in_own_list(keys.drop_last(), j);
    }
}

} // verus!
