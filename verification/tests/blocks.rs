use mdict_index::block::{decode_block, expand_block, read_compression, Compression};
use mdict_index::checksum::adler32;
use mdict_index::cipher::{decrypt_table, derive_table_key, unscramble_byte};
use mdict_index::error::MDictError;
use mdict_index::records::{
    fetch, parse_record_counters, parse_record_index, record_from_block, slice_record,
    MDictRecordBlockIndex,
    MDictRecordIndex, RecordBlockTable, RecordCounters,
};
use mdict_index::source::ByteSource;
use mdict_index::wire::{le_bytes, read_be_u32, read_be_u64, read_le_u32, read_size_word, Version};
use ripemd::Digest;

const HELLOS: &[u8] = b"hello hello hello hello";
const HELLOS_ZLIB: [u8; 16] = [120, 218, 203, 72, 205, 201, 201, 87, 200, 64, 39, 1, 104, 3, 8, 177];

fn framed(tag: [u8; 4], checksum: u32, payload: &[u8]) -> Vec<u8> {
    let mut out = tag.to_vec();
    out.extend_from_slice(&checksum.to_be_bytes());
    out.extend_from_slice(payload);
    out
}

#[test]
fn big_endian_words_are_read_in_place() {
    let data: [u8; 9] = [0x01, 0x02, 0x03, 0x04, 0x05, 0x06, 0x07, 0x08, 0x09];
    assert_eq!(read_be_u32(&data, 0), Some(0x01020304));
    assert_eq!(read_be_u32(&data, 5), Some(0x06070809));
    assert_eq!(read_be_u32(&data, 6), None);
    assert_eq!(read_le_u32(&data, 1), Some(0x05040302));
    assert_eq!(read_le_u32(&data, usize::MAX), None);
    assert_eq!(read_be_u64(&data, 1), Some(0x0203040506070809));
    assert_eq!(read_be_u64(&data, 2), None);
    assert_eq!(read_be_u32(&[1, 2, 3], 0), None);
}

#[test]
fn size_word_width_follows_the_version() {
    let data: [u8; 8] = [0, 0, 1, 0, 0, 0, 0, 2];
    assert_eq!(Version::V1.width(), 4);
    assert_eq!(Version::V2.width(), 8);
    assert_eq!(read_size_word(&data, 0, Version::V1), Some(256));
    assert_eq!(read_size_word(&data, 4, Version::V1), Some(2));
    assert_eq!(read_size_word(&data, 0, Version::V2), Some(0x0000_0100_0000_0002));
    assert_eq!(read_size_word(&data, 1, Version::V2), None);
    assert_eq!(read_size_word(&[0xFF; 8], 0, Version::V2), Some(u64::MAX));
}

#[test]
fn little_endian_bytes_keep_the_low_32_bits() {
    assert_eq!(le_bytes(0x0102_0304), vec![4, 3, 2, 1]);
    assert_eq!(le_bytes(0xAA_0000_0001), vec![1, 0, 0, 0]);
}

#[test]
fn compression_tags_are_told_apart() {
    assert_eq!(read_compression(&[0, 0, 0, 0]), Some(Compression::Raw));
    assert_eq!(read_compression(&[1, 0, 0, 0, 9]), Some(Compression::Lzo));
    assert_eq!(read_compression(&[2, 0, 0, 0]), Some(Compression::Zlib));
    assert_eq!(read_compression(&[3, 0, 0, 0]), None);
    assert_eq!(read_compression(&[2, 0, 0, 1]), None);
    assert_eq!(read_compression(&[2, 0, 0]), None);
}

#[test]
fn raw_block_is_copied_and_checked() {
    let block = framed([0, 0, 0, 0], 0x680308B1, HELLOS);
    assert_eq!(decode_block(&block, None), Ok(HELLOS.to_vec()));
    assert_eq!(decode_block(&block, Some(1)), Ok(HELLOS.to_vec()));
    let empty = framed([0, 0, 0, 0], 1, &[]);
    assert_eq!(decode_block(&empty, None), Ok(Vec::new()));
}

#[test]
fn zlib_block_is_inflated() {
    let block = framed([2, 0, 0, 0], 0x680308B1, &HELLOS_ZLIB);
    assert_eq!(decode_block(&block, None), Ok(HELLOS.to_vec()));
    assert_eq!(expand_block(&block, None), Some(HELLOS.to_vec()));
}

#[test]
fn lzo_block_needs_the_exact_size() {
    // One literal run of 23 bytes, then the end marker.
    let mut literal: Vec<u8> = vec![17 + 23];
    literal.extend_from_slice(HELLOS);
    literal.extend_from_slice(&[0x11, 0, 0]);
    assert_eq!(decode_block(&framed([1, 0, 0, 0], 0x680308B1, &literal), Some(23)), Ok(HELLOS.to_vec()));
    let packed = lzo1x::compress(HELLOS, lzo1x::CompressLevel::new(9));
    assert!(packed.len() < HELLOS.len());
    let block = framed([1, 0, 0, 0], 0x680308B1, &packed);
    assert_eq!(decode_block(&block, Some(23)), Ok(HELLOS.to_vec()));
    assert_eq!(decode_block(&block, Some(22)), Err(MDictError::Corrupt));
    assert_eq!(decode_block(&block, Some(24)), Err(MDictError::Corrupt));
    assert_eq!(decode_block(&block, None), Err(MDictError::Corrupt));
    assert_eq!(decode_block(&block, Some(u64::MAX)), Err(MDictError::Corrupt));
}

#[test]
fn decompressed_checksum_equals_the_stored_one() {
    for block in [
        framed([0, 0, 0, 0], 0x680308B1, HELLOS),
        framed([2, 0, 0, 0], 0x680308B1, &HELLOS_ZLIB),
    ] {
        let bytes = decode_block(&block, Some(23)).unwrap();
        assert_eq!(adler32(&bytes), read_be_u32(&block, 4).unwrap());
    }
}

#[test]
fn broken_blocks_are_corrupt() {
    assert_eq!(decode_block(&[], None), Err(MDictError::Corrupt));
    assert_eq!(decode_block(&[0, 0, 0, 0, 0, 0, 0], None), Err(MDictError::Corrupt));
    assert_eq!(decode_block(&framed([0, 0, 0, 0], 0x680308B2, HELLOS), None), Err(MDictError::Corrupt));
    assert_eq!(decode_block(&framed([7, 0, 0, 0], 0x680308B1, HELLOS), None), Err(MDictError::Corrupt));
    assert_eq!(decode_block(&framed([2, 0, 0, 0], 0x680308B1, HELLOS), None), Err(MDictError::Corrupt));
    assert_eq!(
        decode_block(&framed([2, 0, 0, 0], 0x680308B1, &HELLOS_ZLIB[..10]), None),
        Err(MDictError::Corrupt)
    );
    assert_eq!(decode_block(&framed([1, 0, 0, 0], 0x680308B1, HELLOS), Some(23)), Err(MDictError::Corrupt));
    assert_eq!(expand_block(&framed([2, 0, 0, 0], 0, &[1, 2, 3]), None), None);
}

#[test]
fn one_byte_is_descrambled() {
    assert_eq!(unscramble_byte(0x12, 0x34, 5), 0x64);
    assert_eq!(unscramble_byte(0, 0, 0), 0);
    assert_eq!(unscramble_byte(0xFF, 0, 256), 0xFF);
    assert_eq!(unscramble_byte(0x01, 0, 0), 0x20);
    assert_eq!(unscramble_byte(0, 0, 257), 0x20);
}

#[test]
fn table_key_is_the_digest_of_size_and_salt() {
    let expected = ripemd::Ripemd128::digest([0x78, 0x56, 0x34, 0x12, 0x95, 0x36, 0, 0]).to_vec();
    assert_eq!(derive_table_key(0x12345678), expected);
    assert_eq!(derive_table_key(0x9_12345678), expected);
    assert_eq!(expected.len(), 16);
    assert_ne!(derive_table_key(1), derive_table_key(2));
}

#[test]
fn digest_matches_the_published_vector() {
    // RIPEMD-128 of the empty message.
    assert_eq!(
        ripemd::Ripemd128::digest([]).to_vec(),
        vec![0xcd, 0xf2, 0x62, 0x13, 0xa1, 0x50, 0xdc, 0x3e, 0xcb, 0x61, 0x0f, 0x18, 0xf6, 0xb3, 0x8b, 0x46]
    );
}

#[test]
fn decrypting_keeps_the_first_eight_bytes() {
    let table: Vec<u8> = (0..40u8).collect();
    let clear = decrypt_table(&table, 40);
    let key = derive_table_key(40);
    assert_eq!(clear.len(), 40);
    assert_eq!(&clear[..8], &table[..8]);
    for i in 8..40usize {
        let position: usize = i - 8;
        let mixed: u8 = table[i] ^ key[position % 16] ^ (position as u8);
        assert_eq!(clear[i], mixed.rotate_right(3));
    }
    assert_eq!(decrypt_table(&[1, 2, 3], 3), vec![1, 2, 3]);
    assert_eq!(decrypt_table(&[], 0), Vec::<u8>::new());
}

#[test]
fn source_reads_exact_ranges() {
    let source = ByteSource::new(vec![10, 11, 12, 13]);
    assert_eq!(source.len(), 4);
    assert_eq!(source.as_slice(), &[10, 11, 12, 13]);
    assert_eq!(source.read_exact_at(1, 2), Ok(&[11u8, 12][..]));
    assert_eq!(source.read_exact_at(4, 0), Ok(&[][..]));
    assert_eq!(source.read_exact_at(0, 4), Ok(&[10u8, 11, 12, 13][..]));
    assert_eq!(source.read_exact_at(3, 2), Err(MDictError::Io));
    assert_eq!(source.read_exact_at(5, 0), Err(MDictError::Io));
    assert_eq!(source.read_exact_at(u64::MAX, u64::MAX), Err(MDictError::Io));
}

#[test]
fn record_is_cut_out_of_its_block() {
    let block: Vec<u8> = (0..10u8).collect();
    let inside = MDictRecordIndex { block: 0, offset: 3, length: 4 };
    assert_eq!(slice_record(&block, &inside), Ok(vec![3, 4, 5, 6]));
    let whole = MDictRecordIndex { block: 0, offset: 0, length: 10 };
    assert_eq!(slice_record(&block, &whole), Ok(block.clone()));
    let empty = MDictRecordIndex { block: 0, offset: 10, length: 0 };
    assert_eq!(slice_record(&block, &empty), Ok(Vec::new()));
    let beyond = MDictRecordIndex { block: 0, offset: 7, length: 4 };
    assert_eq!(slice_record(&block, &beyond), Err(MDictError::OutOfRange));
    let far = MDictRecordIndex { block: 0, offset: u32::MAX, length: u32::MAX };
    assert_eq!(slice_record(&block, &far), Err(MDictError::OutOfRange));
}

#[test]
fn fetch_reads_decodes_and_slices() {
    let mut archive = vec![0xEE; 5];
    archive.extend_from_slice(&framed([2, 0, 0, 0], 0x680308B1, &HELLOS_ZLIB));
    let source = ByteSource::new(archive);
    let entry = MDictRecordBlockIndex {
        compressed_offset: 5,
        compressed_size: 24,
        decompressed_offset: 0,
        decompressed_size: 23,
    };
    let second = MDictRecordIndex { block: 0, offset: 6, length: 5 };
    assert_eq!(fetch(&source, &second, &entry), Ok(b"hello".to_vec()));
    let beyond = MDictRecordIndex { block: 0, offset: 20, length: 4 };
    assert_eq!(fetch(&source, &beyond, &entry), Err(MDictError::OutOfRange));
    let outside = MDictRecordBlockIndex { compressed_size: 25, ..entry };
    assert_eq!(fetch(&source, &second, &outside), Err(MDictError::Io));
    let shifted = MDictRecordBlockIndex { compressed_offset: 4, ..entry };
    assert_eq!(fetch(&source, &second, &shifted), Err(MDictError::Corrupt));
    // One ranged read gives the same record.
    let block = source.read_exact_at(5, 24).unwrap();
    assert_eq!(record_from_block(block, &second, &entry), Ok(b"hello".to_vec()));
    assert_eq!(record_from_block(block, &beyond, &entry), Err(MDictError::OutOfRange));
    assert_eq!(record_from_block(&block[1..], &second, &entry), Err(MDictError::Corrupt));
    assert_eq!(source.into_bytes().len(), 29);
}

#[test]
fn record_index_gives_running_offsets() {
    let mut bytes: Vec<u8> = vec![0xAA; 3];
    for v in [2u32, 3, 16, 30] {
        bytes.extend_from_slice(&v.to_be_bytes());
    }
    for v in [10u32, 100, 20, 200] {
        bytes.extend_from_slice(&v.to_be_bytes());
    }
    let source = ByteSource::new(bytes);
    let counters = parse_record_counters(&source, 3, Version::V1).unwrap();
    assert_eq!(
        counters,
        RecordCounters { n_blocks: 2, n_records: 3, index_size: 16, blocks_total_size: 30 }
    );
    let table = parse_record_index(&source, 19, &counters, Version::V1, 3).unwrap();
    assert_eq!(table.len(), 2);
    assert_eq!(
        table.get(0),
        Some(MDictRecordBlockIndex {
            compressed_offset: 35,
            compressed_size: 10,
            decompressed_offset: 0,
            decompressed_size: 100,
        })
    );
    assert_eq!(
        table.get(1),
        Some(MDictRecordBlockIndex {
            compressed_offset: 45,
            compressed_size: 20,
            decompressed_offset: 100,
            decompressed_size: 200,
        })
    );
    assert_eq!(table.get(2), None);
    assert_eq!(table.stream_size(), 300);
    assert_eq!(table.first_offset(), 35);
    assert_eq!(table.find_block(0), Some(0));
    assert_eq!(table.find_block(99), Some(0));
    assert_eq!(table.find_block(100), Some(1));
    assert_eq!(table.find_block(299), Some(1));
    assert_eq!(table.find_block(300), None);
    assert!(parse_record_index(&source, 19, &counters, Version::V1, 4).is_err());
    assert_eq!(parse_record_counters(&source, 30, Version::V1), Err(MDictError::Io));
    let wrong_total = RecordCounters { blocks_total_size: 31, ..counters };
    assert!(matches!(
        parse_record_index(&source, 19, &wrong_total, Version::V1, 3),
        Err(MDictError::InvalidFormat)
    ));
    let wrong_size = RecordCounters { index_size: 15, ..counters };
    assert!(matches!(
        parse_record_index(&source, 19, &wrong_size, Version::V1, 3),
        Err(MDictError::InvalidFormat)
    ));
    let none = RecordCounters { n_blocks: 0, n_records: 0, index_size: 0, blocks_total_size: 0 };
    let empty: RecordBlockTable = parse_record_index(&source, 7, &none, Version::V1, 0).unwrap();
    assert_eq!(empty.len(), 0);
    assert_eq!(empty.find_block(0), None);
    assert_eq!(empty.stream_size(), 0);
}

#[test]
fn empty_blocks_cover_nothing() {
    let mut bytes: Vec<u8> = Vec::new();
    for v in [4u64, 5, 0, 0, 5, 0, 0, 0] {
        bytes.extend_from_slice(&v.to_be_bytes());
    }
    let source = ByteSource::new(bytes);
    let counters = RecordCounters { n_blocks: 4, n_records: 0, index_size: 64, blocks_total_size: 9 };
    let table = parse_record_index(&source, 0, &counters, Version::V2, 0).unwrap();
    assert_eq!(table.find_block(0), Some(0));
    assert_eq!(table.find_block(4), Some(0));
    assert_eq!(table.find_block(5), None);
    assert_eq!(table.stream_size(), 5);
    assert_eq!(table.entries()[3].decompressed_offset, 5);
    assert_eq!(table.entries()[2].compressed_offset, 68);
}

#[test]
fn error_messages_name_the_kind() {
    assert_eq!(MDictError::NotFound.message(), "Not found in index");
    assert_eq!(MDictError::InvalidInput.message(), "Expect a mdx file");
    assert!(MDictError::Corrupt.is_corruption());
    assert!(MDictError::OutOfRange.is_corruption());
    assert!(!MDictError::Io.is_corruption());
    assert!(!MDictError::Unsupported.is_corruption());
    assert!(!MDictError::InvalidFormat.message().is_empty());
}
