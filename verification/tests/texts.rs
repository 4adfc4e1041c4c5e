use mdict_index::archive::{decode_key, decode_resource_key};
use mdict_index::error::MDictError;
use mdict_index::header::{
    decode_declaration, eq_ignoring_case, find_attribute, leading_decimal, lower_char,
    parse_attributes, parse_encoding, parse_flags, parse_header, parse_version, read_entity,
    scan_name, scan_quote, unescape, MDictMode,
};
use mdict_index::keys::{locate_records, parse_pair, parse_pairs, scan_terminator, KeyEntry};
use mdict_index::paths::{companion, decimal_string, has_mdx_extension, MAX_COMPANIONS};
use mdict_index::records::{parse_record_index, MDictRecordIndex, RecordCounters};
use mdict_index::source::ByteSource;
use mdict_index::store::{MDictRecordIndices, PrefixIndex};
use mdict_index::table::{parse_counters, parse_key_field, parse_keyword_block, KeywordCounters};
use mdict_index::text::{units_from_le, TextEncoding};
use mdict_index::wire::Version;

fn units(s: &str) -> Vec<u16> {
    s.encode_utf16().collect()
}

fn utf16le(s: &str) -> Vec<u8> {
    let mut out: Vec<u8> = Vec::new();
    for u in s.encode_utf16() {
        out.extend_from_slice(&u.to_le_bytes());
    }
    out
}

#[test]
fn every_encoding_decodes_its_bytes() {
    assert_eq!(TextEncoding::Utf8.decode("\u{4e2d}\u{6587}".as_bytes()), Some("\u{4e2d}\u{6587}".to_string()));
    assert_eq!(TextEncoding::Utf16Le.decode(&[0x2D, 0x4E, 0x41, 0x00]), Some("\u{4e2d}A".to_string()));
    assert_eq!(TextEncoding::Utf16Le.decode(&[61, 216, 0, 222]), Some("\u{1f600}".to_string()));
    assert_eq!(TextEncoding::Gbk.decode(&[214, 208, 206, 196]), Some("\u{4e2d}\u{6587}".to_string()));
    assert_eq!(TextEncoding::Big5.decode(&[164, 164, 164, 229]), Some("\u{4e2d}\u{6587}".to_string()));
    assert_eq!(TextEncoding::Gb18030.decode(&[214, 208, 206, 196]), Some("\u{4e2d}\u{6587}".to_string()));
    assert_eq!(TextEncoding::Gb18030.decode(&[148, 57, 252, 54]), Some("\u{1f600}".to_string()));
    assert_eq!(TextEncoding::Gb18030.decode(&[162, 227]), Some("\u{20ac}".to_string()));
    for encoding in [
        TextEncoding::Utf8,
        TextEncoding::Utf16Le,
        TextEncoding::Gbk,
        TextEncoding::Big5,
        TextEncoding::Gb18030,
    ] {
        assert_eq!(encoding.decode(&[]), Some(String::new()));
    }
    assert_eq!(TextEncoding::Gbk.decode(b"plain"), Some("plain".to_string()));
}

#[test]
fn malformed_text_does_not_decode() {
    assert_eq!(TextEncoding::Utf8.decode(&[0xC3]), None);
    assert_eq!(TextEncoding::Utf8.decode(&[0xED, 0xA0, 0x80]), None);
    assert_eq!(TextEncoding::Utf16Le.decode(&[0x41]), None);
    assert_eq!(TextEncoding::Utf16Le.decode(&[0x00, 0xD8, 0x41, 0x00]), None);
    assert_eq!(TextEncoding::Utf16Le.decode(&[0x00, 0xDC]), None);
    assert_eq!(TextEncoding::Gbk.decode(&[0xD6]), None);
    assert_eq!(TextEncoding::Big5.decode(&[0xA4]), None);
    assert_eq!(TextEncoding::Gb18030.decode(&[0x81, 0x30]), None);
    assert_eq!(TextEncoding::Gbk.decode(&[0xFF]), None);
}

#[test]
fn terminator_is_two_bytes_only_in_utf16() {
    assert_eq!(TextEncoding::Utf16Le.terminator_width(), 2);
    assert_eq!(TextEncoding::Utf8.terminator_width(), 1);
    assert_eq!(TextEncoding::Gbk.terminator_width(), 1);
    assert_eq!(TextEncoding::Big5.terminator_width(), 1);
    assert_eq!(TextEncoding::Gb18030.terminator_width(), 1);
}

#[test]
fn bytes_pair_into_units_low_byte_first() {
    assert_eq!(units_from_le(&[0x34, 0x12, 0xFF, 0xFF, 0x07]), vec![0x1234, 0xFFFF]);
    assert_eq!(units_from_le(&[]), Vec::<u16>::new());
    assert_eq!(units_from_le(&[9]), Vec::<u16>::new());
}

#[test]
fn entities_are_resolved() {
    assert_eq!(unescape(&units("a &lt; b &gt; c &amp;&amp; &quot;d&quot; &apos;")), units("a < b > c && \"d\" '"));
    assert_eq!(unescape(&units("&amp;lt;")), units("&lt;"));
    assert_eq!(unescape(&units("&nbsp; & &lt &")), units("&nbsp; & &lt &"));
    assert_eq!(unescape(&units("&#38;")), units("&#38;"));
    assert_eq!(unescape(&[]), Vec::<u16>::new());
    assert_eq!(read_entity(&units("x&gt;"), 1), Some((0x3E, 4)));
    assert_eq!(read_entity(&units("&quot;"), 0), Some((0x22, 6)));
    assert_eq!(read_entity(&units("&quot"), 0), None);
    assert_eq!(read_entity(&units("&"), 0), None);
}

#[test]
fn names_and_quotes_are_scanned() {
    let s = units("ab_9=\"x y\" z");
    assert_eq!(scan_name(&s, 0), 4);
    assert_eq!(scan_name(&s, 4), 4);
    assert_eq!(scan_name(&s, 12), 12);
    assert_eq!(scan_name(&s, 40), 40);
    assert_eq!(scan_quote(&s, 40), 40);
    assert_eq!(read_entity(&s, 40), None);
    assert_eq!(scan_quote(&s, 0), 5);
    assert_eq!(scan_quote(&s, 6), 9);
    assert_eq!(scan_quote(&s, 10), 12);
}

fn pairs(declaration: &str) -> Option<Vec<(String, String)>> {
    parse_attributes(&units(declaration)).map(|v| v.into_iter().map(|a| (a.name, a.value)).collect())
}

#[test]
fn declaration_splits_into_attributes() {
    assert_eq!(
        pairs("<Dictionary A=\"1\" Bee_2=\"two words\"\r\n C=\"\" D=\"&lt;x&gt;\"/>"),
        Some(vec![
            ("A".to_string(), "1".to_string()),
            ("Bee_2".to_string(), "two words".to_string()),
            ("C".to_string(), String::new()),
            ("D".to_string(), "<x>".to_string()),
        ])
    );
    assert_eq!(pairs(""), Some(vec![]));
    assert_eq!(pairs("<Dictionary/>"), Some(vec![]));
    assert_eq!(pairs("x = \"1\" y=1 z='2'"), Some(vec![]));
    assert_eq!(pairs("A=\"b=\"c\""), Some(vec![("A".to_string(), "b=".to_string())]));
    assert_eq!(pairs("A=\"unterminated"), None);
    assert_eq!(pairs("A=\"1\" B=\""), None);
    assert_eq!(pairs("T=\"\u{4e2d}\u{1f600}\""), Some(vec![("T".to_string(), "\u{4e2d}\u{1f600}".to_string())]));
    let mut broken = units("A=\"");
    broken.push(0xD800);
    broken.push(0x22);
    assert!(parse_attributes(&broken).is_none());
}

#[test]
fn first_attribute_of_a_name_wins() {
    let attrs = parse_attributes(&units("A=\"1\" B=\"2\" A=\"3\"")).unwrap();
    assert_eq!(find_attribute(&attrs, "A").map(|s| s.as_str()), Some("1"));
    assert_eq!(find_attribute(&attrs, "B").map(|s| s.as_str()), Some("2"));
    assert_eq!(find_attribute(&attrs, "a"), None);
    assert_eq!(find_attribute(&attrs, ""), None);
}

#[test]
fn engine_version_selects_the_layout() {
    assert_eq!(parse_version("1.2"), Some(Version::V1));
    assert_eq!(parse_version("2.0"), Some(Version::V2));
    assert_eq!(parse_version("2"), Some(Version::V2));
    assert_eq!(parse_version("1.9"), Some(Version::V1));
    assert_eq!(parse_version("0.5"), Some(Version::V1));
    assert_eq!(parse_version("01"), Some(Version::V1));
    assert_eq!(parse_version("3.0"), Some(Version::V2));
    assert_eq!(parse_version("10"), Some(Version::V2));
    assert_eq!(parse_version("99999999999999999999999999"), Some(Version::V2));
    assert_eq!(parse_version(""), None);
    assert_eq!(parse_version(".5"), None);
    assert_eq!(parse_version("v2"), None);
    assert_eq!(parse_version(" 2.0"), None);
}

#[test]
fn leading_digits_are_read_and_capped() {
    assert_eq!(leading_decimal("123abc", 1000), (3, 123));
    assert_eq!(leading_decimal("123abc", 100), (3, 100));
    assert_eq!(leading_decimal("abc", 100), (0, 0));
    assert_eq!(leading_decimal("007", 100), (3, 7));
    assert_eq!(leading_decimal("", 5), (0, 0));
}

#[test]
fn encryption_flags_are_read() {
    let text = |s: &str| s.to_string();
    assert_eq!(parse_flags(None), Some(0));
    assert_eq!(parse_flags(Some(&text(""))), Some(0));
    assert_eq!(parse_flags(Some(&text("No"))), Some(0));
    assert_eq!(parse_flags(Some(&text("Yes"))), Some(1));
    assert_eq!(parse_flags(Some(&text("0"))), Some(0));
    assert_eq!(parse_flags(Some(&text("3"))), Some(3));
    assert_eq!(parse_flags(Some(&text("255"))), Some(255));
    assert_eq!(parse_flags(Some(&text("256"))), None);
    assert_eq!(parse_flags(Some(&text("1x"))), None);
    assert_eq!(parse_flags(Some(&text("yes"))), None);
}

#[test]
fn encoding_names_ignore_case() {
    let text = |s: &str| s.to_string();
    assert_eq!(parse_encoding(None), Some(TextEncoding::Utf8));
    assert_eq!(parse_encoding(Some(&text(""))), Some(TextEncoding::Utf8));
    assert_eq!(parse_encoding(Some(&text("UTF-8"))), Some(TextEncoding::Utf8));
    assert_eq!(parse_encoding(Some(&text("utf-8"))), Some(TextEncoding::Utf8));
    assert_eq!(parse_encoding(Some(&text("UTF-16"))), Some(TextEncoding::Utf16Le));
    assert_eq!(parse_encoding(Some(&text("gbk"))), Some(TextEncoding::Gbk));
    assert_eq!(parse_encoding(Some(&text("Big5"))), Some(TextEncoding::Big5));
    assert_eq!(parse_encoding(Some(&text("GB18030"))), Some(TextEncoding::Gb18030));
    assert_eq!(parse_encoding(Some(&text("UTF8"))), None);
    assert_eq!(parse_encoding(Some(&text("latin1"))), None);
    assert!(eq_ignoring_case("MiXeD-1", "mixed-1"));
    assert!(!eq_ignoring_case("abc", "abd"));
    assert!(!eq_ignoring_case("abc", "abcd"));
    assert!(!eq_ignoring_case("[", "{"));
    assert_eq!(lower_char('Q'), 'q');
    assert_eq!(lower_char('q'), 'q');
    assert_eq!(lower_char('@'), '@');
    assert_eq!(lower_char('\u{c9}'), '\u{c9}');
}

fn declaration_bytes(s: &str) -> Vec<u8> {
    let mut out = utf16le(s);
    out.extend_from_slice(&[0, 0]);
    out
}

#[test]
fn declaration_becomes_a_header() {
    let h = decode_declaration(
        &declaration_bytes("<D GeneratedByEngineVersion=\"1.2\" Encrypted=\"1\" Encoding=\"Big5\" Title=\"T\"/>"),
        MDictMode::Mdx,
    )
    .ok()
    .unwrap();
    assert_eq!(h.version, Version::V1);
    assert_eq!(h.encoding, TextEncoding::Big5);
    assert_eq!(h.encrypted, 1);
    assert!(h.index_encrypted());
    assert_eq!(h.attrs.len(), 4);
    assert_eq!(h.attribute("Encoding").map(|s| s.as_str()), Some("Big5"));
    let m = decode_declaration(
        &declaration_bytes("<D GeneratedByEngineVersion=\"2.0\" Encoding=\"GBK\"/>"),
        MDictMode::Mdd,
    )
    .ok()
    .unwrap();
    assert_eq!(m.encoding, TextEncoding::Utf16Le);
    assert_eq!(m.version, Version::V2);
    assert!(!m.index_encrypted());
    assert_eq!(m.title(), None);
}

fn declaration_error(bytes: &[u8]) -> Option<MDictError> {
    decode_declaration(bytes, MDictMode::Mdx).err()
}

#[test]
fn declaration_must_be_terminated_utf16() {
    let good = declaration_bytes("<D GeneratedByEngineVersion=\"2.0\"/>");
    assert_eq!(declaration_error(&good), None);
    assert_eq!(declaration_error(&good[..good.len() - 2]), Some(MDictError::InvalidFormat));
    assert_eq!(declaration_error(&good[..good.len() - 1]), Some(MDictError::InvalidFormat));
    assert_eq!(declaration_error(&[]), Some(MDictError::InvalidFormat));
    assert_eq!(declaration_error(&[0, 0]), Some(MDictError::InvalidFormat));
    assert_eq!(
        declaration_error(&declaration_bytes("<D GeneratedByEngineVersion=\"2.0\" Encrypted=\"3\"/>")),
        Some(MDictError::Unsupported)
    );
}

#[test]
fn header_ends_after_its_checksum() {
    let text = declaration_bytes("<D GeneratedByEngineVersion=\"2.0\"/>");
    let mut bytes = (text.len() as u32).to_be_bytes().to_vec();
    bytes.extend_from_slice(&text);
    bytes.extend_from_slice(&mdict_index::checksum::adler32(&text).to_le_bytes());
    bytes.extend_from_slice(&[1, 2, 3]);
    let end = (text.len() + 8) as u64;
    let (header, offset) = parse_header(&ByteSource::new(bytes.clone()), MDictMode::Mdx).ok().unwrap();
    assert_eq!(offset, end);
    assert_eq!(header.version, Version::V2);
    assert_eq!(header.encoding, TextEncoding::Utf8);
    // The checksum is stored least significant byte first.
    let at: usize = text.len() + 4;
    bytes[at..at + 4].reverse();
    assert_eq!(
        parse_header(&ByteSource::new(bytes), MDictMode::Mdx).err(),
        Some(MDictError::InvalidFormat)
    );
}

#[test]
fn keyword_counters_follow_the_version() {
    let mut v1: Vec<u8> = Vec::new();
    for v in [1u32, 2, 3, 4] {
        v1.extend_from_slice(&v.to_be_bytes());
    }
    assert_eq!(
        parse_counters(&ByteSource::new(v1.clone()), 0, Version::V1),
        Ok(KeywordCounters {
            n_blocks: 1,
            n_entries: 2,
            index_decompressed_size: 0,
            index_compressed_size: 3,
            blocks_total_size: 4,
        })
    );
    assert_eq!(parse_counters(&ByteSource::new(v1), 1, Version::V1), Err(MDictError::Io));
    let mut v2: Vec<u8> = Vec::new();
    for v in [1u64, 2, 3, 4, 5] {
        v2.extend_from_slice(&v.to_be_bytes());
    }
    let sum = mdict_index::checksum::adler32(&v2);
    v2.extend_from_slice(&sum.to_be_bytes());
    assert_eq!(
        parse_counters(&ByteSource::new(v2.clone()), 0, Version::V2),
        Ok(KeywordCounters {
            n_blocks: 1,
            n_entries: 2,
            index_decompressed_size: 3,
            index_compressed_size: 4,
            blocks_total_size: 5,
        })
    );
    v2[43] ^= 1;
    assert_eq!(parse_counters(&ByteSource::new(v2.clone()), 0, Version::V2), Err(MDictError::Corrupt));
    assert_eq!(parse_counters(&ByteSource::new(v2[..43].to_vec()), 0, Version::V2), Err(MDictError::Io));
}

#[test]
fn key_fields_drop_their_terminator() {
    let bytes: Vec<u8> = vec![0, 0, 0, 3, b'h', b'i', 0, 0xAA];
    assert_eq!(parse_key_field(&bytes, 0, Version::V1, TextEncoding::Utf8), Some((b"hi".to_vec(), 7)));
    assert_eq!(parse_key_field(&bytes, 0, Version::V1, TextEncoding::Utf16Le), Some((b"h".to_vec(), 7)));
    assert_eq!(parse_key_field(&bytes, 1, Version::V1, TextEncoding::Utf8), None);
    assert_eq!(parse_key_field(&bytes, 5, Version::V1, TextEncoding::Utf8), None);
    assert_eq!(parse_key_field(&[0, 0, 0, 0], 0, Version::V1, TextEncoding::Utf8), None);
    assert_eq!(parse_key_field(&[0, 0, 0, 1, 0], 0, Version::V1, TextEncoding::Utf8), Some((Vec::new(), 5)));
    assert_eq!(parse_key_field(&[0, 0, 0, 9, 0], 0, Version::V1, TextEncoding::Utf8), None);
}

#[test]
fn keyword_block_entry_is_read_whole() {
    let mut bytes: Vec<u8> = Vec::new();
    bytes.extend_from_slice(&7u32.to_be_bytes());
    bytes.extend_from_slice(&2u32.to_be_bytes());
    bytes.extend_from_slice(b"a\0");
    bytes.extend_from_slice(&3u32.to_be_bytes());
    bytes.extend_from_slice(b"zz\0");
    bytes.extend_from_slice(&40u32.to_be_bytes());
    bytes.extend_from_slice(&90u32.to_be_bytes());
    let (info, next) = parse_keyword_block(&bytes, 0, Version::V1, TextEncoding::Utf8).unwrap();
    assert_eq!(next, bytes.len());
    assert_eq!(info.num_entries, 7);
    assert_eq!(info.first_key, b"a".to_vec());
    assert_eq!(info.last_key, b"zz".to_vec());
    assert_eq!(info.compressed_size, 40);
    assert_eq!(info.decompressed_size, 90);
    assert!(parse_keyword_block(&bytes[..bytes.len() - 1], 0, Version::V1, TextEncoding::Utf8).is_none());
}

#[test]
fn key_terminators_are_found_in_steps() {
    assert_eq!(scan_terminator(b"ab\0cd\0", 0, TextEncoding::Gbk), 2);
    assert_eq!(scan_terminator(b"ab\0cd\0", 3, TextEncoding::Gbk), 5);
    assert_eq!(scan_terminator(b"abc", 0, TextEncoding::Gbk), 3);
    // In UTF-16 a zero byte inside a unit does not end the key.
    assert_eq!(scan_terminator(&[0x00, 0x4E, 0x41, 0x00, 0x00, 0x00], 0, TextEncoding::Utf16Le), 4);
    assert_eq!(scan_terminator(&[0x41, 0x00, 0x00], 0, TextEncoding::Utf16Le), 2);
    assert_eq!(scan_terminator(b"ab", 7, TextEncoding::Utf8), 7);
}

#[test]
fn pairs_fill_their_block_exactly() {
    let mut bytes: Vec<u8> = Vec::new();
    bytes.extend_from_slice(&0u32.to_be_bytes());
    bytes.extend_from_slice(b"one\0");
    bytes.extend_from_slice(&5u32.to_be_bytes());
    bytes.extend_from_slice(b"two\0");
    let (first, next) = parse_pair(&bytes, 0, Version::V1, TextEncoding::Utf8).unwrap();
    assert_eq!((first.key, first.record_offset, next), (b"one".to_vec(), 0, 8));
    let all = parse_pairs(&bytes, 2, Version::V1, TextEncoding::Utf8, Vec::new()).unwrap();
    assert_eq!(all.len(), 2);
    assert_eq!(all[1].key, b"two".to_vec());
    assert_eq!(all[1].record_offset, 5);
    assert!(parse_pairs(&bytes, 1, Version::V1, TextEncoding::Utf8, Vec::new()).is_none());
    assert!(parse_pairs(&bytes, 3, Version::V1, TextEncoding::Utf8, Vec::new()).is_none());
    assert!(parse_pairs(&bytes[..15], 2, Version::V1, TextEncoding::Utf8, Vec::new()).is_none());
    assert!(parse_pair(&bytes, 14, Version::V1, TextEncoding::Utf8).is_none());
}

fn table_of(sizes: &[u64]) -> mdict_index::records::RecordBlockTable {
    let mut bytes: Vec<u8> = Vec::new();
    for d in sizes {
        bytes.extend_from_slice(&1u64.to_be_bytes());
        bytes.extend_from_slice(&d.to_be_bytes());
    }
    let counters = RecordCounters {
        n_blocks: sizes.len() as u64,
        n_records: 0,
        index_size: bytes.len() as u64,
        blocks_total_size: sizes.len() as u64,
    };
    parse_record_index(&ByteSource::new(bytes), 0, &counters, Version::V2, 0).unwrap()
}

fn entries_at(offsets: &[u64]) -> Vec<KeyEntry> {
    offsets.iter().map(|o| KeyEntry { key: Vec::new(), record_offset: *o }).collect()
}

#[test]
fn record_offsets_become_locators() {
    let table = table_of(&[10, 0, 5]);
    assert_eq!(
        locate_records(&entries_at(&[0, 4, 4, 10, 12]), &table),
        Ok(vec![
            MDictRecordIndex { block: 0, offset: 0, length: 4 },
            MDictRecordIndex { block: 0, offset: 4, length: 0 },
            MDictRecordIndex { block: 0, offset: 4, length: 6 },
            MDictRecordIndex { block: 2, offset: 0, length: 2 },
            MDictRecordIndex { block: 2, offset: 2, length: 3 },
        ])
    );
    assert_eq!(locate_records(&entries_at(&[0, 4, 11]), &table), Err(MDictError::Corrupt));
    assert_eq!(locate_records(&entries_at(&[0, 10, 9]), &table), Err(MDictError::Corrupt));
    assert_eq!(locate_records(&entries_at(&[1, 10]), &table), Err(MDictError::Corrupt));
    assert_eq!(locate_records(&entries_at(&[0, 15]), &table), Err(MDictError::Corrupt));
    assert_eq!(locate_records(&entries_at(&[0]), &table), Err(MDictError::Corrupt));
    assert_eq!(locate_records(&entries_at(&[]), &table), Err(MDictError::Corrupt));
    assert_eq!(locate_records(&entries_at(&[]), &table_of(&[])), Ok(vec![]));
    assert_eq!(locate_records(&entries_at(&[]), &table_of(&[0, 0])), Ok(vec![]));
    assert_eq!(locate_records(&entries_at(&[0]), &table_of(&[])), Err(MDictError::Corrupt));
}

#[test]
fn keys_are_decoded_by_mode() {
    assert_eq!(decode_key(b"caf\xC3\xA9", MDictMode::Mdx, TextEncoding::Utf8), Ok("caf\u{e9}".to_string()));
    assert_eq!(decode_key(&[0xC3], MDictMode::Mdx, TextEncoding::Utf8), Err(MDictError::Corrupt));
    assert_eq!(
        decode_key(&utf16le("\\a\\b\\c.png"), MDictMode::Mdd, TextEncoding::Utf8),
        Ok("a/b/c.png".to_string())
    );
    assert_eq!(decode_resource_key(&utf16le("\\")), Ok(String::new()));
    assert_eq!(decode_resource_key(&utf16le("\\\\x")), Ok("/x".to_string()));
    assert_eq!(decode_resource_key(&utf16le("a\\b")), Err(MDictError::InvalidFormat));
    assert_eq!(decode_resource_key(&[]), Err(MDictError::InvalidFormat));
    assert_eq!(decode_resource_key(&[0x5C]), Err(MDictError::Corrupt));
    assert_eq!(decode_resource_key(&[0x5C, 0x00, 0x00, 0xD8]), Err(MDictError::Corrupt));
}

#[test]
fn mdx_extension_is_recognised() {
    assert!(has_mdx_extension("a.mdx"));
    assert!(has_mdx_extension("/x/y/Dict.MdX"));
    assert!(has_mdx_extension("..mdx"));
    assert!(has_mdx_extension("\u{4e2d}.mdx"));
    assert!(!has_mdx_extension(".mdx"));
    assert!(!has_mdx_extension("a/.mdx"));
    assert!(!has_mdx_extension("a.mdd"));
    assert!(!has_mdx_extension("amdx"));
    assert!(!has_mdx_extension("a.mdx "));
    assert!(!has_mdx_extension(""));
}

#[test]
fn companions_are_named_after_the_main_file() {
    assert_eq!(companion("/d/x.mdx", 0), Some("/d/x.mdd".to_string()));
    assert_eq!(companion("/d/x.mdx", 1), Some("/d/x.1.mdd".to_string()));
    assert_eq!(companion("/d/x.mdx", 2), Some("/d/x.2.mdd".to_string()));
    assert_eq!(companion("/d/x.MDX", 10), Some("/d/x.10.mdd".to_string()));
    assert_eq!(companion("\u{4e2d}.mdx", 255), Some("\u{4e2d}.255.mdd".to_string()));
    assert_eq!(companion("/d/x.mdd", 0), None);
    assert_eq!(decimal_string(0), "0");
    assert_eq!(decimal_string(9), "9");
    assert_eq!(decimal_string(100), "100");
    assert_eq!(decimal_string(209), "209");
    assert_eq!(MAX_COMPANIONS, 256);
}

fn locator(n: u32) -> MDictRecordIndex {
    MDictRecordIndex { block: n, offset: n, length: n }
}

#[test]
fn single_locator_is_promoted_to_a_list() {
    let one = MDictRecordIndices::Index(locator(1));
    assert_eq!(one.len(), 1);
    assert_eq!(one.get(0), Some(locator(1)));
    assert_eq!(one.get(1), None);
    let two = one.with(locator(2));
    assert!(matches!(two, MDictRecordIndices::IndexVec(_)));
    assert_eq!((two.len(), two.get(0), two.get(1)), (2, Some(locator(1)), Some(locator(2))));
    let three = two.with(locator(3));
    assert_eq!((three.len(), three.get(2), three.get(3)), (3, Some(locator(3)), None));
    assert_eq!(MDictRecordIndices::IndexVec(Vec::new()).len(), 0);
}

#[test]
fn cursors_hand_out_each_locator_once() {
    let list = MDictRecordIndices::IndexVec(vec![locator(1), locator(2)]);
    let mut borrowed = list.iter();
    assert_eq!(borrowed.next(), Some(locator(1)));
    assert_eq!(borrowed.next(), Some(locator(2)));
    assert_eq!(borrowed.next(), None);
    assert_eq!(borrowed.next(), None);
    let mut owned = list.into_iter();
    assert_eq!(owned.next(), Some(locator(1)));
    assert_eq!(owned.next(), Some(locator(2)));
    assert_eq!(owned.next(), None);
    let mut single = MDictRecordIndices::Index(locator(7)).into_iter();
    assert_eq!(single.next(), Some(locator(7)));
    assert_eq!(single.next(), None);
    assert_eq!(single.next(), None);
}

#[test]
fn prefix_index_binds_and_replaces() {
    let index: PrefixIndex<u32> = PrefixIndex::new();
    assert_eq!(index.get(b"a"), None);
    assert!(index.keys().is_empty());
    let index = index.insert(b"apple", 1).insert(b"app", 2).insert(b"", 3).insert(b"b", 4);
    assert_eq!(index.get(b"apple"), Some(&1));
    assert_eq!(index.get(b"app"), Some(&2));
    assert_eq!(index.get(b""), Some(&3));
    assert_eq!(index.get(b"ap"), None);
    assert_eq!(index.get(b"apples"), None);
    let index = index.insert(b"app", 20);
    assert_eq!(index.get(b"app"), Some(&20));
    assert_eq!(index.get(b"apple"), Some(&1));
    assert_eq!(index.keys(), vec![b"".to_vec(), b"app".to_vec(), b"apple".to_vec(), b"b".to_vec()]);
}

#[test]
fn prefix_index_keys_ascend_by_bytes() {
    let mut index: PrefixIndex<u32> = PrefixIndex::new();
    let long = vec![b'k'; 600];
    for key in [&b"\xff"[..], b"z", b"a\xff", b"ab", b"a", b"A", &long, b"\x00"] {
        index = index.insert(key, 0);
    }
    let keys = index.keys();
    assert_eq!(keys.len(), 8);
    for pair in keys.windows(2) {
        assert!(pair[0] < pair[1]);
    }
    assert_eq!(index.get(&long), Some(&0));
    assert_eq!(index.get(&long[..599]), None);
}

#[test]
fn adding_locators_keeps_other_keys() {
    let index: PrefixIndex<MDictRecordIndices> = PrefixIndex::new();
    let index = index.add(b"cat", locator(1)).add(b"dog", locator(2)).add(b"emu", locator(3));
    let index = index.add(b"cat", locator(4)).add(b"emu", locator(5)).add(b"cat", locator(6));
    let cat = index.get(b"cat").unwrap();
    assert_eq!((cat.len(), cat.get(0), cat.get(1), cat.get(2)), (3, Some(locator(1)), Some(locator(4)), Some(locator(6))));
    let dog = index.get(b"dog").unwrap();
    assert_eq!((dog.len(), dog.get(0)), (1, Some(locator(2))));
    let emu = index.get(b"emu").unwrap();
    assert_eq!((emu.len(), emu.get(0), emu.get(1)), (2, Some(locator(3)), Some(locator(5))));
    assert_eq!(index.keys().len(), 3);
}
