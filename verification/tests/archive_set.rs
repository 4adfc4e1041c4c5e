use mdict_index::archive::parse_archive;
use mdict_index::checksum::adler32;
use mdict_index::error::MDictError;
use mdict_index::header::MDictMode;
use mdict_index::index::{MDictLookup, MDictMemIndex};
use mdict_index::records::{record_from_block, MDictRecordIndex};
use mdict_index::source::ByteSource;
use ripemd::Digest;
use std::io::Write;

const V2_UTF8: &str =
    "<Dictionary GeneratedByEngineVersion=\"2.0\" Encrypted=\"0\" Encoding=\"UTF-8\" Title=\"Sample\" />";
const V1_UTF16: &str =
    "<Dictionary GeneratedByEngineVersion=\"1.2\" Encrypted=\"No\" Encoding=\"UTF-16\" Title=\"Sample\" />";
const V2_MDD: &str = "<Library_Data GeneratedByEngineVersion=\"2.0\" Encrypted=\"0\" Title=\"Media\" />";

struct Layout {
    declaration: String,
    v2: bool,
    nul: usize,
    compression: u8,
    encrypted: bool,
    key_blocks: Vec<usize>,
    record_blocks: Vec<usize>,
}

struct Built {
    bytes: Vec<u8>,
    record_blocks: Vec<(usize, usize)>,
    keyword_table: (usize, usize),
    counters: usize,
}

fn layout(declaration: &str, v2: bool, nul: usize, n: usize) -> Layout {
    Layout {
        declaration: declaration.to_string(),
        v2,
        nul,
        compression: 0,
        encrypted: false,
        key_blocks: vec![n],
        record_blocks: vec![n],
    }
}

fn word(v: u64, v2: bool) -> Vec<u8> {
    if v2 {
        v.to_be_bytes().to_vec()
    } else {
        (v as u32).to_be_bytes().to_vec()
    }
}

fn utf16le(s: &str) -> Vec<u8> {
    let mut out: Vec<u8> = Vec::new();
    for u in s.encode_utf16() {
        out.extend_from_slice(&u.to_le_bytes());
    }
    out
}

fn header_bytes(declaration: &str) -> Vec<u8> {
    let mut text = utf16le(declaration);
    text.extend_from_slice(&[0, 0]);
    let mut out = (text.len() as u32).to_be_bytes().to_vec();
    out.extend_from_slice(&text);
    out.extend_from_slice(&adler32(&text).to_le_bytes());
    out
}

fn zlib(data: &[u8]) -> Vec<u8> {
    let mut encoder = flate2::write::ZlibEncoder::new(Vec::new(), flate2::Compression::default());
    encoder.write_all(data).unwrap();
    encoder.finish().unwrap()
}

fn block(data: &[u8], compression: u8) -> Vec<u8> {
    let mut out = vec![compression, 0, 0, 0];
    out.extend_from_slice(&adler32(data).to_be_bytes());
    match compression {
        0 => out.extend_from_slice(data),
        1 => out.extend_from_slice(&lzo1x::compress(data, lzo1x::CompressLevel::default())),
        _ => out.extend_from_slice(&zlib(data)),
    }
    out
}

fn scramble(table: &mut [u8]) {
    let mut message = (table.len() as u32).to_le_bytes().to_vec();
    message.extend_from_slice(&[0x95, 0x36, 0, 0]);
    let key = ripemd::Ripemd128::digest(&message);
    for i in 8..table.len() {
        let position: usize = i - 8;
        let clear = table[i];
        table[i] = clear.rotate_left(3) ^ key[position % 16] ^ (position as u8);
    }
}

fn build(layout: &Layout, entries: &[(Vec<u8>, Vec<u8>)]) -> Built {
    let v2 = layout.v2;
    let mut offsets: Vec<u64> = Vec::new();
    let mut running: u64 = 0;
    for (_, body) in entries {
        offsets.push(running);
        running += body.len() as u64;
    }
    let mut infos: Vec<u8> = Vec::new();
    let mut key_area: Vec<u8> = Vec::new();
    let mut at: usize = 0;
    for count in &layout.key_blocks {
        let mut payload: Vec<u8> = Vec::new();
        for i in at..at + count {
            payload.extend_from_slice(&word(offsets[i], v2));
            payload.extend_from_slice(&entries[i].0);
            payload.extend_from_slice(&vec![0u8; layout.nul]);
        }
        let packed = block(&payload, layout.compression);
        infos.extend_from_slice(&word(*count as u64, v2));
        let first: Vec<u8> = if *count > 0 { entries[at].0.clone() } else { Vec::new() };
        let last: Vec<u8> = if *count > 0 { entries[at + count - 1].0.clone() } else { Vec::new() };
        for key in [first, last] {
            infos.extend_from_slice(&word((key.len() + layout.nul) as u64, v2));
            infos.extend_from_slice(&key);
            infos.extend_from_slice(&vec![0u8; layout.nul]);
        }
        infos.extend_from_slice(&word(packed.len() as u64, v2));
        infos.extend_from_slice(&word(payload.len() as u64, v2));
        key_area.extend_from_slice(&packed);
        at += count;
    }
    let mut table = block(&infos, layout.compression);
    if layout.encrypted {
        scramble(&mut table);
    }
    let mut counters: Vec<u8> = Vec::new();
    counters.extend_from_slice(&word(layout.key_blocks.len() as u64, v2));
    counters.extend_from_slice(&word(entries.len() as u64, v2));
    if v2 {
        counters.extend_from_slice(&word(infos.len() as u64, v2));
    }
    counters.extend_from_slice(&word(table.len() as u64, v2));
    counters.extend_from_slice(&word(key_area.len() as u64, v2));
    if v2 {
        let sum = adler32(&counters);
        counters.extend_from_slice(&sum.to_be_bytes());
    }
    let mut record_index: Vec<u8> = Vec::new();
    let mut record_area: Vec<u8> = Vec::new();
    let mut spans: Vec<(usize, usize)> = Vec::new();
    let mut at: usize = 0;
    for count in &layout.record_blocks {
        let mut payload: Vec<u8> = Vec::new();
        for i in at..at + count {
            payload.extend_from_slice(&entries[i].1);
        }
        let packed = block(&payload, layout.compression);
        record_index.extend_from_slice(&word(packed.len() as u64, v2));
        record_index.extend_from_slice(&word(payload.len() as u64, v2));
        spans.push((record_area.len(), packed.len()));
        record_area.extend_from_slice(&packed);
        at += count;
    }
    let mut bytes = header_bytes(&layout.declaration);
    let counters_at = bytes.len();
    bytes.extend_from_slice(&counters);
    let table_at = bytes.len();
    bytes.extend_from_slice(&table);
    bytes.extend_from_slice(&key_area);
    bytes.extend_from_slice(&word(layout.record_blocks.len() as u64, v2));
    bytes.extend_from_slice(&word(entries.len() as u64, v2));
    bytes.extend_from_slice(&word(record_index.len() as u64, v2));
    bytes.extend_from_slice(&word(record_area.len() as u64, v2));
    bytes.extend_from_slice(&record_index);
    let base = bytes.len();
    bytes.extend_from_slice(&record_area);
    Built {
        bytes,
        record_blocks: spans.iter().map(|(o, l)| (base + o, *l)).collect(),
        keyword_table: (table_at, table.len()),
        counters: counters_at,
    }
}

fn utf8_entries(pairs: &[(&str, &str)]) -> Vec<(Vec<u8>, Vec<u8>)> {
    pairs.iter().map(|(k, v)| (k.as_bytes().to_vec(), v.as_bytes().to_vec())).collect()
}

fn open(mdx: Vec<u8>, companions: Vec<Vec<u8>>) -> Result<MDictMemIndex, MDictError> {
    MDictMemIndex::new(
        "/dicts/sample.mdx",
        ByteSource::new(mdx),
        companions.into_iter().map(ByteSource::new).collect(),
    )
}

fn hello_archive() -> Vec<u8> {
    build(&layout(V2_UTF8, true, 1, 1), &utf8_entries(&[("hello", "<p>world</p>")])).bytes
}

fn error_of(r: Result<MDictMemIndex, MDictError>) -> MDictError {
    match r {
        Ok(_) => panic!("the archive set opened"),
        Err(e) => e,
    }
}

#[test]
fn v2_utf8_single_value() {
    let index = open(hello_archive(), vec![]).unwrap();
    assert_eq!(index.lookup_word("hello"), Ok(vec!["<p>world</p>".to_string()]));
    assert_eq!(index.word_exists("hello"), Ok(true));
    assert_eq!(index.word_exists("hi"), Ok(false));
    assert_eq!(index.lookup_word("hi"), Err(MDictError::NotFound));
}

#[test]
fn v1_utf16_single_value() {
    let entries = vec![(utf16le("hello"), utf16le("<p>world</p>"))];
    let built = build(&layout(V1_UTF16, false, 2, 1), &entries);
    let index = open(built.bytes, vec![]).unwrap();
    assert_eq!(index.lookup_word("hello"), Ok(vec!["<p>world</p>".to_string()]));
    assert_eq!(index.word_exists("hi"), Ok(false));
    assert_eq!(index.lookup_word("hi"), Err(MDictError::NotFound));
}

#[test]
fn multi_valued_key_keeps_archive_order() {
    let entries = utf8_entries(&[("cat", "A"), ("cat", "B"), ("dog", "C"), ("cat", "D")]);
    let index = open(build(&layout(V2_UTF8, true, 1, 4), &entries).bytes, vec![]).unwrap();
    assert_eq!(
        index.lookup_word("cat"),
        Ok(vec!["A".to_string(), "B".to_string(), "D".to_string()])
    );
    assert_eq!(index.lookup_word("dog"), Ok(vec!["C".to_string()]));
    let locators = index.word_locators("cat").unwrap();
    assert_eq!(locators.len(), 3);
    assert_eq!(locators.get(1), Some(MDictRecordIndex { block: 0, offset: 1, length: 1 }));
    assert_eq!(locators.get(3), None);
}

#[test]
fn two_values_give_two_bodies() {
    let entries = utf8_entries(&[("cat", "A"), ("cat", "B")]);
    let index = open(build(&layout(V2_UTF8, true, 1, 2), &entries).bytes, vec![]).unwrap();
    let bodies = index.lookup_word("cat").unwrap();
    assert_eq!(bodies.len(), 2);
    assert!(bodies.contains(&"A".to_string()));
    assert!(bodies.contains(&"B".to_string()));
}

fn logo_companion() -> Vec<u8> {
    let entries = vec![(utf16le("\\img\\logo.png"), vec![0xDE, 0xAD, 0xBE, 0xEF, 1, 2, 3, 4])];
    build(&layout(V2_MDD, true, 2, 1), &entries).bytes
}

#[test]
fn mdd_companion_serves_resource() {
    let index = open(hello_archive(), vec![logo_companion()]).unwrap();
    assert_eq!(
        index.lookup_resource("img/logo.png"),
        Ok(vec![0xDE, 0xAD, 0xBE, 0xEF, 1, 2, 3, 4])
    );
    assert_eq!(index.lookup_resource("\\img\\logo.png"), Err(MDictError::NotFound));
    assert_eq!(index.lookup_resource("img/none.png"), Err(MDictError::NotFound));
    assert_eq!(index.companions(), 1);
}

fn companion_with(path: &str, body: &[u8]) -> Vec<u8> {
    build(&layout(V2_MDD, true, 2, 1), &[(utf16le(path), body.to_vec())]).bytes
}

#[test]
fn numbered_mdd_siblings_keep_their_order() {
    let index = open(
        hello_archive(),
        vec![
            companion_with("\\a.css", b"zero"),
            companion_with("\\b.css", b"one"),
            companion_with("\\c.css", b"two"),
        ],
    )
    .unwrap();
    assert_eq!(index.companions(), 3);
    assert_eq!(index.resource_locator("a.css").map(|r| r.0), Some(0));
    assert_eq!(index.resource_locator("b.css").map(|r| r.0), Some(1));
    assert_eq!(index.resource_locator("c.css").map(|r| r.0), Some(2));
    assert_eq!(index.lookup_resource("b.css"), Ok(b"one".to_vec()));
    assert_eq!(index.resource_locator("d.css"), None);
}

#[test]
fn later_companion_replaces_resource_of_same_path() {
    let index = open(
        hello_archive(),
        vec![companion_with("\\a.css", b"old"), companion_with("\\a.css", b"new")],
    )
    .unwrap();
    assert_eq!(index.resource_locator("a.css").map(|r| r.0), Some(1));
    assert_eq!(index.lookup_resource("a.css"), Ok(b"new".to_vec()));
}

fn two_block_archive(compression: u8) -> Built {
    let mut shape = layout(V2_UTF8, true, 1, 4);
    shape.compression = compression;
    shape.key_blocks = vec![3, 1];
    shape.record_blocks = vec![2, 2];
    let entries = utf8_entries(&[
        ("alpha", "first entry, first block"),
        ("beta", "second entry, first block"),
        ("gamma", "third entry, second block"),
        ("delta", "fourth entry, second block"),
    ]);
    build(&shape, &entries)
}

#[test]
fn corrupt_block_fails_only_its_own_lookups() {
    for compression in [0u8, 1, 2] {
        let mut built = two_block_archive(compression);
        let (offset, len) = built.record_blocks[1];
        built.bytes[offset + len - 3] ^= 0x40;
        let index = open(built.bytes, vec![]).unwrap();
        assert_eq!(index.lookup_word("gamma"), Err(MDictError::Corrupt));
        assert_eq!(index.lookup_word("delta"), Err(MDictError::Corrupt));
        assert_eq!(index.lookup_word("alpha"), Ok(vec!["first entry, first block".to_string()]));
        assert_eq!(index.lookup_word("beta"), Ok(vec!["second entry, first block".to_string()]));
    }
}

#[test]
fn one_block_read_serves_a_lookup() {
    let built = two_block_archive(2);
    let index = open(built.bytes.clone(), vec![logo_companion()]).unwrap();
    let locator = index.word_locators("delta").unwrap().get(0).unwrap();
    let entry = index.word_block(&locator).unwrap();
    assert_eq!((entry.compressed_offset as usize, entry.compressed_size as usize), built.record_blocks[1]);
    let start: usize = entry.compressed_offset as usize;
    let block = &built.bytes[start..start + entry.compressed_size as usize];
    let record = record_from_block(block, &locator, &entry).unwrap();
    assert_eq!(index.header().encoding.decode(&record), Some("fourth entry, second block".to_string()));
    assert_eq!(index.word_block(&MDictRecordIndex { block: 2, offset: 0, length: 0 }), None);
    let (owner, resource) = index.resource_locator("img/logo.png").unwrap();
    let held = index.resource_block(owner, &resource).unwrap();
    let companion = logo_companion();
    let at: usize = held.compressed_offset as usize;
    assert_eq!(
        record_from_block(&companion[at..at + held.compressed_size as usize], &resource, &held),
        index.lookup_resource("img/logo.png")
    );
    assert_eq!(index.resource_block(1, &resource), None);
    assert_eq!(index.resource_block(0, &MDictRecordIndex { block: 9, offset: 0, length: 0 }), None);
}

#[test]
fn index_part_alone_opens_the_set() {
    // Without the record blocks the index is the same; only the records are out of reach.
    let built = two_block_archive(2);
    let index_end: usize = built.record_blocks[0].0;
    let index = open(built.bytes[..index_end].to_vec(), vec![]).unwrap();
    assert_eq!(index.keyword_iter().len(), 4);
    assert_eq!(index.lookup_word("alpha"), Err(MDictError::Io));
    let whole = open(built.bytes, vec![]).unwrap();
    assert_eq!(
        index.word_locators("gamma").unwrap().get(0),
        whole.word_locators("gamma").unwrap().get(0)
    );
}

#[test]
fn listed_keywords_hold_every_locator() {
    let entries = utf8_entries(&[("cat", "A"), ("cat", "B"), ("dog", "C"), ("cat", "D"), ("", "E")]);
    let index = open(build(&layout(V2_UTF8, true, 1, 5), &entries).bytes, vec![]).unwrap();
    let bound: usize =
        index.keyword_iter().iter().map(|k| index.word_locators(k).unwrap().len()).sum();
    assert_eq!(bound, 5);
}

#[test]
fn every_compression_serves_every_entry() {
    for compression in [0u8, 1, 2] {
        let index = open(two_block_archive(compression).bytes, vec![]).unwrap();
        assert_eq!(index.lookup_word("alpha"), Ok(vec!["first entry, first block".to_string()]));
        assert_eq!(index.lookup_word("delta"), Ok(vec!["fourth entry, second block".to_string()]));
        assert_eq!(
            index.word_locators("delta").unwrap().get(0),
            Some(MDictRecordIndex { block: 1, offset: 25, length: 26 })
        );
    }
}

#[test]
fn encrypted_keyword_index_is_descrambled() {
    let mut shape = layout(
        "<Dictionary GeneratedByEngineVersion=\"2.0\" Encrypted=\"1\" Encoding=\"UTF-8\" />",
        true,
        1,
        2,
    );
    shape.encrypted = true;
    shape.compression = 2;
    let entries = utf8_entries(&[("one", "1"), ("two", "22")]);
    let index = open(build(&shape, &entries).bytes, vec![]).unwrap();
    assert_eq!(index.lookup_word("two"), Ok(vec!["22".to_string()]));
    shape.encrypted = false;
    assert_eq!(error_of(open(build(&shape, &entries).bytes, vec![])), MDictError::Corrupt);
}

#[test]
fn keys_exist_and_come_sorted() {
    let entries = utf8_entries(&[("pear", "1"), ("apple", "2"), ("fig", "3"), ("apple", "4"), ("", "5")]);
    let index = open(build(&layout(V2_UTF8, true, 1, 5), &entries).bytes, vec![]).unwrap();
    let keys = index.keyword_iter();
    assert_eq!(keys, vec!["".to_string(), "apple".to_string(), "fig".to_string(), "pear".to_string()]);
    for key in &keys {
        assert_eq!(index.word_exists(key), Ok(true));
        assert!(!index.lookup_word(key).unwrap().is_empty());
    }
}

#[test]
fn empty_record_gives_an_empty_entry() {
    let entries = utf8_entries(&[("a", ""), ("b", "x")]);
    let index = open(build(&layout(V2_UTF8, true, 1, 2), &entries).bytes, vec![]).unwrap();
    assert_eq!(index.lookup_word("a"), Ok(vec![String::new()]));
    assert_eq!(index.lookup_word("b"), Ok(vec!["x".to_string()]));
    // A record that starts where the stream ends lies in no block.
    let late = utf8_entries(&[("a", "x"), ("b", "")]);
    assert_eq!(
        error_of(open(build(&layout(V2_UTF8, true, 1, 2), &late).bytes, vec![])),
        MDictError::Corrupt
    );
}

#[test]
fn opening_twice_gives_the_same_answers() {
    let bytes = two_block_archive(2).bytes;
    let a = open(bytes.clone(), vec![logo_companion()]).unwrap();
    let b = open(bytes, vec![logo_companion()]).unwrap();
    assert_eq!(a.keyword_iter(), b.keyword_iter());
    for key in a.keyword_iter() {
        assert_eq!(a.lookup_word(&key), b.lookup_word(&key));
    }
    assert_eq!(a.lookup_resource("img/logo.png"), b.lookup_resource("img/logo.png"));
}

#[test]
fn utf8_bodies_encode_back_to_the_record() {
    let body = "na\u{ef}ve \u{4e2d}\u{6587} \u{1f600}";
    let index = open(
        build(&layout(V2_UTF8, true, 1, 1), &utf8_entries(&[("k", body)])).bytes,
        vec![],
    )
    .unwrap();
    let bodies = index.lookup_word("k").unwrap();
    assert_eq!(bodies[0].as_bytes(), body.as_bytes());
}

#[test]
fn invalid_utf8_body_is_corrupt() {
    let entries = vec![(b"k".to_vec(), vec![0xFF, 0xFE, 0x41])];
    let index = open(build(&layout(V2_UTF8, true, 1, 1), &entries).bytes, vec![]).unwrap();
    assert_eq!(index.lookup_word("k"), Err(MDictError::Corrupt));
}

#[test]
fn gbk_archive_decodes_keys_and_bodies() {
    let declaration = "<Dictionary GeneratedByEngineVersion=\"2.0\" Encoding=\"GBK\" />";
    let entries = vec![(vec![0xD6, 0xD0], vec![0xCE, 0xC4, 0x41])];
    let index = open(build(&layout(declaration, true, 1, 1), &entries).bytes, vec![]).unwrap();
    assert_eq!(index.keyword_iter(), vec!["\u{4e2d}".to_string()]);
    assert_eq!(index.lookup_word("\u{4e2d}"), Ok(vec!["\u{6587}A".to_string()]));
}

#[test]
fn path_must_name_an_mdx_file() {
    let r = MDictMemIndex::new("/dicts/sample.mdd", ByteSource::new(hello_archive()), vec![]);
    assert_eq!(error_of(r), MDictError::InvalidInput);
    let r = MDictMemIndex::new("/dicts/.mdx", ByteSource::new(hello_archive()), vec![]);
    assert_eq!(error_of(r), MDictError::InvalidInput);
    assert!(MDictMemIndex::new("/dicts/SAMPLE.MDX", ByteSource::new(hello_archive()), vec![]).is_ok());
}

#[test]
fn more_than_256_companions_are_refused() {
    let companions: Vec<ByteSource> = (0..257).map(|_| ByteSource::new(Vec::new())).collect();
    let r = MDictMemIndex::new("a.mdx", ByteSource::new(hello_archive()), companions);
    assert_eq!(error_of(r), MDictError::InvalidInput);
}

#[test]
fn truncated_archive_is_an_io_error() {
    let bytes = hello_archive();
    assert_eq!(error_of(open(bytes[..2].to_vec(), vec![])), MDictError::Io);
    assert_eq!(error_of(open(bytes[..60].to_vec(), vec![])), MDictError::Io);
    let counters_end: usize = header_bytes(V2_UTF8).len() + 44;
    assert_eq!(error_of(open(bytes[..counters_end + 3].to_vec(), vec![])), MDictError::Io);
    assert_eq!(error_of(open(Vec::new(), vec![])), MDictError::Io);
}

#[test]
fn truncated_record_block_fails_the_lookup_with_io() {
    let bytes = hello_archive();
    let shorter: usize = bytes.len() - 1;
    let index = open(bytes[..shorter].to_vec(), vec![]).unwrap();
    assert_eq!(index.lookup_word("hello"), Err(MDictError::Io));
}

#[test]
fn header_checksum_mismatch_is_invalid_format() {
    let mut bytes = hello_archive();
    bytes[10] ^= 1;
    assert_eq!(error_of(open(bytes, vec![])), MDictError::InvalidFormat);
}

#[test]
fn counters_checksum_mismatch_is_corrupt() {
    let mut built = build(&layout(V2_UTF8, true, 1, 1), &utf8_entries(&[("hello", "x")]));
    built.bytes[built.counters + 40] ^= 1;
    assert_eq!(error_of(open(built.bytes, vec![])), MDictError::Corrupt);
}

#[test]
fn damaged_keyword_table_is_corrupt() {
    let mut built = build(&layout(V2_UTF8, true, 1, 1), &utf8_entries(&[("hello", "x")]));
    let (offset, len) = built.keyword_table;
    built.bytes[offset + len - 1] ^= 1;
    assert_eq!(error_of(open(built.bytes, vec![])), MDictError::Corrupt);
}

#[test]
fn record_data_encryption_is_unsupported() {
    let declaration = "<Dictionary GeneratedByEngineVersion=\"2.0\" Encrypted=\"2\" />";
    let built = build(&layout(declaration, true, 1, 1), &utf8_entries(&[("a", "b")]));
    assert_eq!(error_of(open(built.bytes, vec![])), MDictError::Unsupported);
}

#[test]
fn missing_or_unknown_header_values_are_invalid_format() {
    for declaration in [
        "<Dictionary Encoding=\"UTF-8\" />",
        "<Dictionary GeneratedByEngineVersion=\"two\" />",
        "<Dictionary GeneratedByEngineVersion=\"2.0\" Encoding=\"KLINGON\" />",
        "<Dictionary GeneratedByEngineVersion=\"2.0\" Encrypted=\"maybe\" />",
        "<Dictionary GeneratedByEngineVersion=\"2.0",
    ] {
        let built = build(&layout(declaration, true, 1, 1), &utf8_entries(&[("a", "b")]));
        assert_eq!(error_of(open(built.bytes, vec![])), MDictError::InvalidFormat);
    }
}

#[test]
fn resource_key_without_backslash_is_invalid_format() {
    let companion = companion_with("img\\logo.png", b"x");
    assert_eq!(error_of(open(hello_archive(), vec![companion])), MDictError::InvalidFormat);
}

#[test]
fn first_failing_companion_gives_the_error() {
    let broken = companion_with("\\a", b"x")[..20].to_vec();
    assert_eq!(
        error_of(open(hello_archive(), vec![logo_companion(), broken])),
        MDictError::Io
    );
}

#[test]
fn record_that_crosses_a_block_boundary_is_corrupt() {
    // Three records of 5, 3 and 1 bytes in two blocks of 6 and 3 bytes: the
    // second record would run over the end of the first block.
    let honest = build(&layout(V2_UTF8, true, 1, 3), &utf8_entries(&[("a", "12345"), ("b", "678"), ("c", "9")]));
    assert!(open(honest.bytes, vec![]).is_ok());
    let keys = build(&layout(V2_UTF8, true, 1, 3), &utf8_entries(&[("a", "12345"), ("b", "678"), ("c", "9")]));
    let mut shape = layout(V2_UTF8, true, 1, 2);
    shape.record_blocks = vec![1, 1];
    let blocks = build(&shape, &utf8_entries(&[("x", "123456"), ("y", "789")]));
    // Splice: the keyword section of the first archive, the record section of the second.
    let keyword_end: usize = keys.record_blocks[0].0 - 32 - 16;
    let record_start: usize = blocks.record_blocks[0].0 - 32 - 32;
    let mut bytes = keys.bytes[..keyword_end].to_vec();
    bytes.extend_from_slice(&blocks.bytes[record_start..]);
    // The record counters must announce three records.
    bytes[keyword_end + 15] = 3;
    assert_eq!(error_of(open(bytes, vec![])), MDictError::Corrupt);
}

#[test]
fn records_may_not_start_after_the_stream_start() {
    let built = build(&layout(V2_UTF8, true, 1, 1), &utf8_entries(&[("a", "12345")]));
    let parsed = parse_archive(&ByteSource::new(built.bytes.clone()), MDictMode::Mdx).unwrap();
    assert_eq!(parsed.locators, vec![MDictRecordIndex { block: 0, offset: 0, length: 5 }]);
    // The keyword block is raw: its record offset is the size-word after tag and checksum.
    let key_block: usize = built.keyword_table.0 + built.keyword_table.1;
    let mut bytes = built.bytes;
    bytes[key_block + 8 + 7] = 1;
    let payload = bytes[key_block + 8..key_block + 8 + 10].to_vec();
    bytes[key_block + 4..key_block + 8].copy_from_slice(&adler32(&payload).to_be_bytes());
    assert_eq!(error_of(open(bytes, vec![])), MDictError::Corrupt);
}

#[test]
fn counts_and_sizes_agree_across_the_archive() {
    let built = two_block_archive(2);
    let parsed = parse_archive(&ByteSource::new(built.bytes), MDictMode::Mdx).unwrap();
    let announced: u64 = parsed.keyword_blocks.iter().map(|b| b.num_entries).sum();
    assert_eq!(announced, 4);
    assert_eq!(parsed.counters.n_entries, 4);
    assert_eq!(parsed.keys.len(), 4);
    assert_eq!(parsed.locators.len(), 4);
    let blocks = parsed.records.entries();
    assert_eq!(blocks.len(), 2);
    let mut held: usize = 0;
    for b in 0..blocks.len() {
        let inside: Vec<&MDictRecordIndex> =
            parsed.locators.iter().filter(|l| l.block as usize == b).collect();
        held += inside.len();
        let filled: u64 = inside.iter().map(|l| l.length as u64).sum();
        assert_eq!(filled, blocks[b].decompressed_size);
        for pair in inside.windows(2) {
            assert!(pair[0].offset + pair[0].length <= pair[1].offset);
            assert!(pair[0].offset < pair[1].offset);
        }
    }
    assert_eq!(held, 4);
    assert_eq!(parsed.keyword_blocks[0].first_key, b"alpha".to_vec());
    assert_eq!(parsed.keyword_blocks[0].last_key, b"gamma".to_vec());
    assert_eq!(parsed.keyword_blocks[1].num_entries, 1);
    assert_eq!(parsed.records.stream_size(), 24 + 25 + 25 + 26);
    assert_eq!(parsed.records.find_block(49), Some(1));
    assert_eq!(parsed.records.find_block(48), Some(0));
    assert_eq!(parsed.records.find_block(100), None);
}

#[test]
fn mismatched_counts_are_invalid_format() {
    let built = build(&layout(V2_UTF8, true, 1, 2), &utf8_entries(&[("a", "1"), ("b", "2")]));
    // The number of entries stands in the second size-word of the counters.
    let mut bytes = built.bytes.clone();
    bytes[built.counters + 15] = 3;
    let sum = adler32(&bytes[built.counters..built.counters + 40]);
    bytes[built.counters + 40..built.counters + 44].copy_from_slice(&sum.to_be_bytes());
    assert_eq!(error_of(open(bytes, vec![])), MDictError::InvalidFormat);
}

#[test]
fn empty_archive_opens_without_keys() {
    let built = build(&layout(V2_UTF8, true, 1, 0), &[]);
    let index = open(built.bytes, vec![]).unwrap();
    assert!(index.keyword_iter().is_empty());
    assert_eq!(index.lookup_word("a"), Err(MDictError::NotFound));
}

#[test]
fn header_attributes_are_carried_through() {
    let declaration = "<Dictionary GeneratedByEngineVersion=\"2.0\" Title=\"A &amp; B &lt;i&gt;\" StripKey=\"Yes\" Mystery=\"&unknown; &quot;x&apos;\"/>";
    let built = build(&layout(declaration, true, 1, 1), &utf8_entries(&[("a", "b")]));
    let index = open(built.bytes, vec![]).unwrap();
    assert_eq!(index.header_attribute("Title").map(|s| s.as_str()), Some("A & B <i>"));
    assert_eq!(index.header_attribute("StripKey").map(|s| s.as_str()), Some("Yes"));
    assert_eq!(index.header_attribute("Mystery").map(|s| s.as_str()), Some("&unknown; \"x'"));
    assert_eq!(index.header_attribute("Dictionary"), None);
    assert_eq!(index.header().title().map(|s| s.as_str()), Some("A & B <i>"));
    assert_eq!(index.header().encrypted, 0);
}
