//! Sorted tables: what a flush writes and what a table gives back.

use sediment::error::Error;
use sediment::lookup::EntryState;
use sediment::memtable::skiplist::SkipListMemtable;
use sediment::memtable::Memtable;
use sediment::reader::Reader;
use sediment::record::DecodeError;
use sediment::sstable::{SsTable, TableFile};

const MAGIC: u64 = 0x5345_4449_4D45_4E54;

const PATH: &[u8] = b"db/sstable.sst";

/// Read a `u32` little-endian from `bytes` at `pos`; return (value, new pos).
fn read_u32_le(bytes: &[u8], pos: usize) -> (u32, usize) {
    let arr: [u8; 4] = bytes[pos..pos + 4].try_into().unwrap();
    (u32::from_le_bytes(arr), pos + 4)
}

/// The bytes that a flush of `mt` writes.
fn flushed(mt: &SkipListMemtable) -> Vec<u8> {
    SsTable::flush(PATH, mt).bytes
}

/// What the table with the file content `bytes` holds of `key`.
fn get(table: &SsTable, bytes: &[u8], key: &[u8]) -> Result<EntryState, Error> {
    let from = match table.block_start(key) {
        Some(start) => &bytes[(start as usize).min(bytes.len())..],
        None => &[],
    };
    table.get(key, Ok(Reader::new(from)))
}

fn detail_of(error: Error) -> String {
    match error {
        Error::CorruptSsTable { path, detail } => {
            assert_eq!(path, PATH.to_vec());
            detail
        }
        other => panic!("expected corruption, got {other:?}"),
    }
}

fn open_error(file: TableFile) -> Error {
    match SsTable::open(PATH, file) {
        Ok(_) => panic!("the file is not a valid table"),
        Err(error) => error,
    }
}

#[test]
fn flush_writes_valid_footer() {
    let mt = SkipListMemtable::default();
    let bytes = flushed(&mt);
    assert!(bytes.len() >= 8, "file must be at least 8 bytes (footer)");

    let footer_start = bytes.len() - 8;
    let magic = u64::from_le_bytes(bytes[footer_start..].try_into().unwrap());
    assert_eq!(magic, MAGIC, "footer magic mismatch");
}

#[test]
fn flush_empty_memtable_produces_footer_only() {
    let mt = SkipListMemtable::default();
    let bytes = flushed(&mt);
    assert_eq!(bytes.len(), 8, "empty flush should produce exactly 8 bytes");
}

#[test]
fn live_entry_encoded_correctly() {
    let mut mt = SkipListMemtable::default();
    mt.put(b"key", b"value");
    let bytes = flushed(&mt);

    let mut pos = 0;
    let (key_len, new_pos) = read_u32_le(&bytes, pos);
    pos = new_pos;
    assert_eq!(key_len, 3, "key_len should be 3");
    assert_eq!(&bytes[pos..pos + 3], b"key");
    pos += 3;
    assert_eq!(bytes[pos], 0, "tag should be 0 for a live entry");
    pos += 1;
    let (value_len, new_pos) = read_u32_le(&bytes, pos);
    pos = new_pos;
    assert_eq!(value_len, 5, "value_len should be 5");
    assert_eq!(&bytes[pos..pos + 5], b"value");
    pos += 5;
    assert_eq!(bytes.len() - pos, 8, "only footer should remain");
}

#[test]
fn tombstone_encoded_correctly_and_not_omitted() {
    let mut mt = SkipListMemtable::default();
    mt.put(b"k", b"v");
    mt.delete(b"k"); // k is now a tombstone
    let bytes = flushed(&mt);

    let mut pos = 0;
    let (key_len, new_pos) = read_u32_le(&bytes, pos);
    pos = new_pos;
    assert_eq!(key_len, 1);
    assert_eq!(&bytes[pos..pos + 1], b"k");
    pos += 1;
    assert_eq!(bytes[pos], 1, "tag should be 1 for a tombstone");
    pos += 1;
    let (value_len, new_pos) = read_u32_le(&bytes, pos);
    pos = new_pos;
    assert_eq!(value_len, 0, "tombstone value_len must be 0");
    assert_eq!(
        bytes.len() - pos,
        8,
        "only footer should remain after tombstone"
    );
}

#[test]
fn entries_are_sorted_by_key() {
    let mut mt = SkipListMemtable::default();
    // Insert deliberately out of order.
    mt.put(b"cherry", b"3");
    mt.put(b"apple", b"1");
    mt.put(b"banana", b"2");
    let bytes = flushed(&mt);

    let mut keys: Vec<Vec<u8>> = Vec::new();
    let mut pos = 0;
    let data_end = bytes.len() - 8; // exclude footer
    while pos < data_end {
        let (key_len, new_pos) = read_u32_le(&bytes, pos);
        pos = new_pos;
        let key = bytes[pos..pos + key_len as usize].to_vec();
        pos += key_len as usize;
        pos += 1;
        let (value_len, new_pos) = read_u32_le(&bytes, pos);
        pos = new_pos;
        pos += value_len as usize;
        keys.push(key);
    }

    let mut sorted = keys.clone();
    sorted.sort();
    assert_eq!(keys, sorted, "entries must be in ascending key order");
}

#[test]
fn mixed_live_and_tombstone_all_entries_written() {
    let mut mt = SkipListMemtable::default();
    mt.put(b"a", b"1");
    mt.put(b"b", b"2");
    mt.delete(b"a"); // a is now a tombstone
    mt.put(b"c", b"3");
    let bytes = flushed(&mt);

    let mut entry_count = 0;
    let mut tombstone_count = 0;
    let mut pos = 0;
    let data_end = bytes.len() - 8;
    while pos < data_end {
        let (key_len, new_pos) = read_u32_le(&bytes, pos);
        pos = new_pos;
        pos += key_len as usize;
        let tag = bytes[pos];
        pos += 1;
        let (value_len, new_pos) = read_u32_le(&bytes, pos);
        pos = new_pos;
        pos += value_len as usize;
        entry_count += 1;
        if tag == 1 {
            tombstone_count += 1;
        }
    }

    assert_eq!(
        entry_count, 3,
        "all 3 entries (live + tombstone) must be written"
    );
    assert_eq!(tombstone_count, 1, "exactly one tombstone");
}

#[test]
fn arbitrary_bytes_encoded_correctly() {
    let mut mt = SkipListMemtable::default();
    let weird_k: &[u8] = &[0x00, 0xFF, 0xFE];
    let weird_v: &[u8] = &[0xDE, 0xAD, 0xBE, 0xEF];
    mt.put(weird_k, weird_v);
    mt.put(b"empty-val", b"");

    let file_bytes = flushed(&mt);
    let data = &file_bytes[..file_bytes.len() - 8];

    let mut entries: Vec<(Vec<u8>, u8, Vec<u8>)> = Vec::new();
    let mut pos = 0;
    while pos < data.len() {
        let (kl, p) = read_u32_le(data, pos);
        pos = p;
        let k = data[pos..pos + kl as usize].to_vec();
        pos += kl as usize;
        let tag = data[pos];
        pos += 1;
        let (vl, p) = read_u32_le(data, pos);
        pos = p;
        let v = data[pos..pos + vl as usize].to_vec();
        pos += vl as usize;
        entries.push((k, tag, v));
    }

    assert_eq!(entries.len(), 2);
    assert_eq!(entries[0].0, weird_k);
    assert_eq!(entries[0].1, 0); // Live
    assert_eq!(entries[0].2, weird_v);
    assert_eq!(entries[1].0, b"empty-val");
    assert_eq!(entries[1].1, 0); // Live
    assert_eq!(entries[1].2, b""); // empty value, but tag=0 not 1
}

/// A file with a valid footer whose one record claims a value longer than the
/// bytes that exist: that is corruption, not a failure of the system.
#[test]
fn truncated_mid_record_is_corruption_not_io() {
    let mut bytes = Vec::new();
    bytes.extend_from_slice(&5u32.to_le_bytes());
    bytes.extend_from_slice(b"hello");
    bytes.push(0); // tag: Live
    bytes.extend_from_slice(&1000u32.to_le_bytes()); // claims 1000 bytes...
    bytes.extend_from_slice(&[0xAB; 10]); // ...but only 10 exist
    bytes.extend_from_slice(&MAGIC.to_le_bytes());

    let Err(err) = SsTable::open(PATH, TableFile::whole(&bytes)) else {
        panic!("open must fail on a file whose record overruns the data");
    };
    assert!(
        matches!(err, Error::CorruptSsTable { .. }),
        "running out of bytes mid-record is corruption evidence and must \
         surface as CorruptSsTable so the caller does not blindly retry; \
         got instead: {err:?}"
    );
    assert_eq!(
        detail_of(err),
        "record ends mid-stream, wanted 1000 more bytes"
    );
}

#[test]
fn flush_names_both_paths() {
    let mt = SkipListMemtable::default();
    let write = SsTable::flush(PATH, &mt);
    assert_eq!(write.path, b"db/sstable.sst".to_vec());
    assert_eq!(write.tmp_path, b"db/sstable.sst.tmp".to_vec());
}

#[test]
fn short_file_is_corrupt() {
    assert_eq!(
        detail_of(open_error(TableFile::whole(&[1, 2, 3]))),
        "file is 3 bytes, shorter than the 8-byte footer"
    );
    assert_eq!(
        detail_of(open_error(TableFile::whole(&[]))),
        "file is 0 bytes, shorter than the 8-byte footer"
    );
}

#[test]
fn wrong_magic_is_corrupt() {
    let bytes = 0xABCDu64.to_le_bytes();
    assert_eq!(
        detail_of(open_error(TableFile::whole(&bytes))),
        "footer magic is 0x000000000000abcd, expected 0x534544494d454e54"
    );
}

#[test]
fn unknown_tag_is_corrupt() {
    let mut mt = SkipListMemtable::default();
    mt.put(b"key", b"value");
    let mut bytes = flushed(&mt);
    bytes[4 + 3] = 7;
    assert_eq!(
        detail_of(open_error(TableFile::whole(&bytes))),
        "Invalid tag 7 in record for [107, 101, 121]"
    );
}

/// A last record that reaches into the footer does not end where it should.
#[test]
fn record_that_overlaps_the_footer_is_corrupt() {
    let mut bytes = Vec::new();
    bytes.extend_from_slice(&1u32.to_le_bytes());
    bytes.extend_from_slice(b"k");
    bytes.push(0);
    bytes.extend_from_slice(&3u32.to_le_bytes());
    bytes.extend_from_slice(&MAGIC.to_le_bytes());
    assert_eq!(
        detail_of(open_error(TableFile::whole(&bytes))),
        "data region ends at 13, expected 10"
    );
}

/// A tombstone has no value bytes, whether those that it claims are there or reach
/// into the footer.
#[test]
fn tombstone_with_a_value_is_corrupt() {
    let mut bytes = Vec::new();
    bytes.extend_from_slice(&1u32.to_le_bytes());
    bytes.extend_from_slice(b"k");
    bytes.push(1);
    bytes.extend_from_slice(&2u32.to_le_bytes());
    bytes.extend_from_slice(b"vv");
    bytes.extend_from_slice(&MAGIC.to_le_bytes());
    assert_eq!(
        detail_of(open_error(TableFile::whole(&bytes))),
        "tombstone with 2 value bytes in record for [107]"
    );

    let mut overrun = vec![1, 0, 0, 0, 107, 1, 3, 0, 0, 0];
    overrun.extend_from_slice(&MAGIC.to_le_bytes());
    assert_eq!(overrun.len(), 18);
    assert_eq!(
        detail_of(open_error(TableFile::whole(&overrun))),
        "tombstone with 3 value bytes in record for [107]"
    );
}

/// A failure to read the footer or the records is passed on as it is.
#[test]
fn failures_to_read_are_passed_on() {
    let mut mt = SkipListMemtable::default();
    mt.put(b"key", b"value");
    let bytes = flushed(&mt);

    let unreadable_footer = TableFile {
        len: bytes.len() as u64,
        footer: Err(std::io::Error::other("bad sector")),
        data: Reader::new(&bytes),
    };
    match open_error(unreadable_footer) {
        Error::Io(error) => assert_eq!(error.to_string(), "bad sector"),
        other => panic!("expected an I/O error, got {other:?}"),
    }

    let unreadable_data = TableFile {
        len: bytes.len() as u64,
        footer: Ok(MAGIC.to_le_bytes()),
        data: Reader::failing(&bytes[..5], std::io::Error::other("worse sector")),
    };
    match open_error(unreadable_data) {
        Error::Io(error) => assert_eq!(error.to_string(), "worse sector"),
        other => panic!("expected an I/O error, got {other:?}"),
    }
}

/// A table of several blocks finds every key, whichever block it is in, and
/// misses those before, between and behind them.
#[test]
fn table_of_many_blocks_gives_everything_back() {
    let mut mt = SkipListMemtable::default();
    for i in 0..500u32 {
        let key = format!("key{i:04}").into_bytes();
        if i % 7 == 0 {
            mt.delete(&key);
        } else {
            mt.put(&key, &vec![(i % 251) as u8; (i % 100) as usize]);
        }
    }
    let bytes = flushed(&mt);
    assert!(bytes.len() > 4 * 4096);
    let table = SsTable::open(PATH, TableFile::whole(&bytes)).expect("a flushed table opens");

    for i in 0..500u32 {
        let key = format!("key{i:04}").into_bytes();
        match get(&table, &bytes, &key).expect("the file is intact") {
            EntryState::Live(value) => {
                assert_ne!(i % 7, 0);
                assert_eq!(value, vec![(i % 251) as u8; (i % 100) as usize]);
            }
            EntryState::Tombstone => assert_eq!(i % 7, 0),
            EntryState::Absent => panic!("{key:?} was flushed"),
        }
        let between = format!("key{i:04}x").into_bytes();
        assert!(matches!(
            get(&table, &bytes, &between),
            Ok(EntryState::Absent)
        ));
    }
    assert!(matches!(get(&table, &bytes, b"a"), Ok(EntryState::Absent)));
    assert!(matches!(get(&table, &bytes, b"z"), Ok(EntryState::Absent)));
    assert_eq!(table.block_start(b"a"), None);
    assert_eq!(table.block_start(b"key0000"), Some(0));
    assert!(table.block_start(b"z").unwrap() > 4096);
    assert_eq!(table.path(), PATH);
}

/// The index has an entry for the first record and for each that fills a block.
#[test]
fn index_grows_by_one_entry_per_block() {
    let mut mt = SkipListMemtable::default();
    // Each record takes up 9 + 1 + 1014 = 1024 bytes.
    for key in [b"a", b"b", b"c", b"d", b"e"] {
        mt.put(key, &[0; 1014]);
    }
    let bytes = flushed(&mt);
    let table = SsTable::open(PATH, TableFile::whole(&bytes)).expect("a flushed table opens");
    assert_eq!(table.block_start(b"a"), Some(0));
    assert_eq!(table.block_start(b"c"), Some(0));
    assert_eq!(table.block_start(b"d"), Some(3072));
    assert_eq!(table.block_start(b"e"), Some(3072));
}

/// An index that belongs to another file leads to corruption or absence, not to
/// a crash.
#[test]
fn stale_index_is_noticed() {
    let mut mt = SkipListMemtable::default();
    mt.put(b"a", &[1; 5000]);
    mt.put(b"b", b"2");
    mt.put(b"c", &[3; 5000]);
    let bytes = flushed(&mt);
    let table = SsTable::open(PATH, TableFile::whole(&bytes)).expect("a flushed table opens");

    let other = 7u64.to_le_bytes();
    let error = get(&table, &other, b"c").expect_err("the file is too short");
    assert_eq!(detail_of(error), "record ends mid-stream, wanted 4 more bytes");

    match table.get(b"c", Err(std::io::Error::other("gone"))) {
        Err(Error::Io(error)) => assert_eq!(error.to_string(), "gone"),
        other => panic!("expected an I/O error, got {other:?}"),
    }
    // No block can hold this key, so that the file does not matter.
    assert!(matches!(
        table.get(b"A", Err(std::io::Error::other("gone"))),
        Ok(EntryState::Absent)
    ));
}

#[test]
fn decode_errors_become_errors_of_the_table() {
    let incomplete = DecodeError::Incomplete {
        detail: "short".to_string(),
    };
    assert_eq!(
        detail_of(SsTable::convert_decode_error(incomplete, PATH)),
        "short"
    );
    let invalid = DecodeError::InvalidTag {
        key: vec![],
        tag: 255,
    };
    assert_eq!(
        detail_of(SsTable::convert_decode_error(invalid, PATH)),
        "Invalid tag 255 in record for []"
    );
    let failed = DecodeError::Io(std::io::Error::other("bad sector"));
    assert!(matches!(
        SsTable::convert_decode_error(failed, PATH),
        Error::Io(_)
    ));
}

/// The table does not depend on the order in which its entries were written.
#[test]
fn table_depends_on_the_entries_alone() {
    let mut first = SkipListMemtable::default();
    let mut second = SkipListMemtable::default();
    for i in 0..100u8 {
        first.put(&[i], &[i, i]);
        second.put(&[99 - i], b"overwritten");
    }
    for i in 0..100u8 {
        second.put(&[i], &[i, i]);
    }
    first.delete(&[7]);
    second.delete(&[7]);
    assert_eq!(flushed(&first), flushed(&second));
}

/// Bytes with the footer behind them open exactly if they are those of whole
/// records; every other file is corrupt, with its path.
#[test]
fn file_opens_exactly_if_it_is_a_table() {
    let mut mt = SkipListMemtable::default();
    mt.put(b"a", b"1");
    mt.delete(b"b");
    mt.put(b"c", b"");
    let bytes = flushed(&mt);
    let data = &bytes[..bytes.len() - 8];
    let boundaries = [0, 11, 21, 31];
    assert_eq!(data.len(), 31);
    for end in 0..=data.len() {
        let mut cut = data[..end].to_vec();
        cut.extend_from_slice(&MAGIC.to_le_bytes());
        match SsTable::open(PATH, TableFile::whole(&cut)) {
            Ok(_) => assert!(boundaries.contains(&end)),
            Err(Error::CorruptSsTable { path, .. }) => {
                assert!(!boundaries.contains(&end));
                assert_eq!(path, PATH.to_vec());
            }
            Err(other) => panic!("expected corruption, got {other:?}"),
        }
        if end < data.len() {
            let unmarked = TableFile::whole(&data[..end]);
            assert!(matches!(
                SsTable::open(PATH, unmarked),
                Err(Error::CorruptSsTable { .. })
            ));
        }
    }
}
