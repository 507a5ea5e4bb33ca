//! The parts of which the store is made.

use sediment::error::Error;
use sediment::index::BlockIndex;
use sediment::order::{compare_keys, KeyOrder};
use sediment::paths::{find_extension, join};
use sediment::reader::Reader;
use sediment::record::{DecodeError, Record};
use sediment::sstable::SsTable;
use sediment::text::{append_byte_list, append_decimal, append_hex_word};
use sediment::wal::Wal;

fn encoded(key: &[u8], val: Option<&[u8]>) -> Vec<u8> {
    let mut out = Vec::new();
    Record::encode(&mut out, key, val);
    out
}

fn detail(error: DecodeError) -> String {
    match error {
        DecodeError::Incomplete { detail } => detail,
        other => panic!("expected an incomplete record, got {other:?}"),
    }
}

#[test]
fn keys_are_ordered_as_slices_are() {
    let keys: [&[u8]; 7] = [b"", b"\x00", b"a", b"a\x00", b"ab", b"b", b"\xff"];
    for (i, a) in keys.iter().enumerate() {
        for (j, b) in keys.iter().enumerate() {
            let expected = if i < j {
                KeyOrder::Before
            } else if i == j {
                KeyOrder::Same
            } else {
                KeyOrder::After
            };
            assert_eq!(compare_keys(a, b), expected);
            assert_eq!(a < b, expected == KeyOrder::Before);
        }
    }
}

#[test]
fn record_has_this_encoding() {
    assert_eq!(
        encoded(b"key", Some(b"v")),
        b"\x03\x00\x00\x00key\x00\x01\x00\x00\x00v".to_vec()
    );
    assert_eq!(
        encoded(b"k", None),
        b"\x01\x00\x00\x00k\x01\x00\x00\x00\x00".to_vec()
    );
    assert_eq!(encoded(b"", Some(b"")), vec![0; 9]);
    assert_eq!(encoded(&[7; 300], None)[..4], [44, 1, 0, 0]);
}

#[test]
fn decode_reads_back_what_encode_wrote() {
    let mut bytes = encoded(b"key", Some(b"value"));
    bytes.extend_from_slice(&encoded(b"gone", None));
    bytes.extend_from_slice(&encoded(b"", Some(b"")));
    let mut reader = Reader::new(&bytes);
    for (key, val) in [
        (b"key".to_vec(), Some(b"value".to_vec())),
        (b"gone".to_vec(), None),
        (vec![], Some(vec![])),
    ] {
        let record = Record::decode(&mut reader).expect("a record");
        assert_eq!(record.encoded_len() as usize, encoded(&key, val.as_deref()).len());
        assert_eq!(record.key, key);
        assert_eq!(record.val, val);
    }
    assert_eq!(
        detail(Record::decode(&mut reader).unwrap_err()),
        "record ends mid-stream, wanted 4 more bytes"
    );
}

#[test]
fn every_part_of_a_record_is_incomplete() {
    let whole = encoded(b"key", Some(b"value"));
    for written in 0..whole.len() {
        let wanted = match written {
            0..=3 => 4,
            4..=6 => 3,
            7 => 1,
            8..=11 => 4,
            _ => 5,
        };
        assert_eq!(
            detail(Record::decode(&mut Reader::new(&whole[..written])).unwrap_err()),
            format!("record ends mid-stream, wanted {wanted} more bytes")
        );
    }
}

#[test]
fn unknown_tag_is_reported_once_the_record_is_complete() {
    let mut bytes = encoded(b"ab", Some(b"xyz"));
    bytes[6] = 2;
    match Record::decode(&mut Reader::new(&bytes)) {
        Err(DecodeError::InvalidTag { key, tag }) => {
            assert_eq!(key, b"ab".to_vec());
            assert_eq!(tag, 2);
        }
        other => panic!("expected an unknown tag, got {other:?}"),
    }
    bytes.pop();
    assert!(matches!(
        Record::decode(&mut Reader::new(&bytes)),
        Err(DecodeError::Incomplete { .. })
    ));
}

/// The bytes that a tombstone should not have are skipped.
#[test]
fn value_of_a_tombstone_is_skipped() {
    let mut bytes = encoded(b"k", Some(b"value"));
    bytes[5] = 1;
    let tombstone_len = bytes.len();
    bytes.extend_from_slice(&encoded(b"l", None));
    let mut reader = Reader::new(&bytes);
    let record = Record::decode(&mut reader).expect("a tombstone");
    assert_eq!(record.val, None);
    assert_eq!(record.encoded_len() as usize, tombstone_len - 5);
    assert_eq!(Record::decode(&mut reader).expect("another").key, b"l".to_vec());
}

#[test]
fn failing_source_yields_what_it_has() {
    let bytes = encoded(b"key", Some(b"value"));
    let mut reader = Reader::failing(&bytes, std::io::Error::other("bad sector"));
    assert!(Record::decode(&mut reader).is_ok());
    match Record::decode(&mut reader) {
        Err(DecodeError::Io(error)) => assert_eq!(error.to_string(), "bad sector"),
        other => panic!("expected an I/O error, got {other:?}"),
    }
}

#[test]
fn read_exact_takes_fields_in_turn() {
    let mut reader = Reader::new(b"abcde");
    assert_eq!(Record::read_exact(&mut reader, 2).unwrap(), b"ab".to_vec());
    assert_eq!(Record::read_exact(&mut reader, 0).unwrap(), b"".to_vec());
    assert_eq!(Record::read_exact(&mut reader, 3).unwrap(), b"cde".to_vec());
    assert_eq!(Record::read_exact(&mut reader, 0).unwrap(), b"".to_vec());
    assert_eq!(
        detail(Record::read_exact(&mut reader, 12).unwrap_err()),
        "record ends mid-stream, wanted 12 more bytes"
    );
}

#[test]
fn log_in_a_directory_has_this_path() {
    assert_eq!(Wal::open(b"db").path(), b"db/wal");
    assert_eq!(Wal::open(b"db/").path(), b"db/wal");
    assert_eq!(Wal::open(b"").path(), b"wal");
    assert_eq!(Wal::open(b"/").path(), b"/wal");
}

#[test]
fn replay_gives_records_in_their_order() {
    let mut log = Wal::append(b"a", Some(b"1"));
    log.extend_from_slice(&Wal::append(b"b", None));
    log.extend_from_slice(&Wal::append(b"a", Some(b"2")));
    let wal = Wal::open(b"db");
    let replay = wal
        .replay(log.len() as u64, Reader::new(&log))
        .expect("an intact log");
    assert_eq!(replay.truncate_to, None);
    let records: Vec<(Vec<u8>, Option<Vec<u8>>)> =
        replay.records.into_iter().map(|r| (r.key, r.val)).collect();
    assert_eq!(
        records,
        vec![
            (b"a".to_vec(), Some(b"1".to_vec())),
            (b"b".to_vec(), None),
            (b"a".to_vec(), Some(b"2".to_vec())),
        ]
    );
    let empty = wal.replay(0, Reader::new(&[])).expect("an empty log");
    assert!(empty.records.is_empty());
    assert_eq!(empty.truncate_to, None);
}

/// Wherever the last record ends early, the log is cut off before it, and then
/// replays the same without being cut again.
#[test]
fn torn_log_is_cut_off_behind_its_last_record() {
    let first = Wal::append(b"first", Some(b"1"));
    let second = Wal::append(b"second", Some(b"2"));
    let wal = Wal::open(b"db");
    for written in 1..second.len() {
        let log = [first.as_slice(), &second[..written]].concat();
        let replay = wal
            .replay(log.len() as u64, Reader::new(&log))
            .expect("a torn log");
        assert_eq!(replay.records.len(), 1);
        assert_eq!(replay.truncate_to, Some(first.len() as u64));

        let cut = &log[..first.len()];
        let again = wal
            .replay(cut.len() as u64, Reader::new(cut))
            .expect("an intact log");
        assert_eq!(again.records.len(), 1);
        assert_eq!(again.truncate_to, None);
    }
}

/// A log that cannot be read is not cut off.
#[test]
fn unreadable_log_is_io() {
    let log = Wal::append(b"first", Some(b"1"));
    let reader = Reader::failing(&log, std::io::Error::other("bad sector"));
    match Wal::open(b"db").replay(log.len() as u64 + 10, reader) {
        Err(Error::Io(error)) => assert_eq!(error.to_string(), "bad sector"),
        _ => panic!("expected an I/O error"),
    }
}

#[test]
fn index_finds_the_nearest_key_below() {
    let mut index = BlockIndex::new();
    assert_eq!(index.floor(b"a"), None);
    index.insert(b"m".to_vec(), 3);
    index.insert(b"c".to_vec(), 1);
    index.insert(b"t".to_vec(), 5);
    assert_eq!(index.floor(b"a"), None);
    assert_eq!(index.floor(b"c"), Some(1));
    assert_eq!(index.floor(b"l"), Some(1));
    assert_eq!(index.floor(b"m"), Some(3));
    assert_eq!(index.floor(b"mm"), Some(3));
    assert_eq!(index.floor(b"z"), Some(5));
    index.insert(b"m".to_vec(), 4);
    assert_eq!(index.floor(b"n"), Some(4));
}

#[test]
fn tmp_paths_are_told_from_others() {
    let tmp: [&[u8]; 8] = [
        b"a.tmp",
        b"db/a.tmp",
        b"db/sstable.sst.tmp",
        b"..tmp",
        b"a.tmp/",
        b"a.tmp/.",
        b"/a.b.tmp//./",
        b"\xff.tmp",
    ];
    for path in tmp {
        assert!(SsTable::is_tmp_path(path), "{path:?}");
    }
    let others: [&[u8]; 11] = [
        b"",
        b"/",
        b".tmp",
        b"db/.tmp",
        b"tmp",
        b"a.tmpx",
        b"a.TMP",
        b"a.tmp/b",
        b"a.tmp/..",
        b"a.tmp.",
        b"db/wal",
    ];
    for path in others {
        assert!(!SsTable::is_tmp_path(path), "{path:?}");
    }
}

/// The rules for extensions are those of the standard library.
#[test]
fn tmp_paths_agree_with_std() {
    let parts = ["", ".", "..", "a", "tmp", ".tmp", "a.tmp", "a.tmp.b", "..tmp"];
    for first in parts {
        for second in parts {
            for third in parts {
                let path = format!("{first}/{second}/{third}");
                let extension = std::path::Path::new(&path).extension();
                let expected = extension.and_then(|s| s.to_str()) == Some("tmp");
                assert_eq!(SsTable::is_tmp_path(path.as_bytes()), expected, "{path}");
            }
        }
    }
}

#[test]
fn tmp_path_adds_an_extension() {
    assert_eq!(SsTable::tmp_path(b"db/a.sst"), b"db/a.sst.tmp".to_vec());
    assert!(SsTable::is_tmp_path(&SsTable::tmp_path(b"db/a.sst")));
    assert!(SsTable::is_tmp_path(&SsTable::tmp_path(b"..")));
    // Without a file name there is nothing that could have an extension.
    assert!(!SsTable::is_tmp_path(&SsTable::tmp_path(b"db/")));
    assert!(!SsTable::is_tmp_path(&SsTable::tmp_path(b"")));
}

#[test]
fn numbers_and_bytes_are_rendered() {
    let mut text = String::new();
    append_decimal(&mut text, 0);
    text.push(' ');
    append_decimal(&mut text, u64::MAX);
    text.push(' ');
    append_hex_word(&mut text, 0xABC);
    text.push(' ');
    append_byte_list(&mut text, &[]);
    append_byte_list(&mut text, &[7]);
    append_byte_list(&mut text, &[0, 10, 255]);
    assert_eq!(
        text,
        "0 18446744073709551615 0x0000000000000abc [][7][0, 10, 255]"
    );
}

/// A record that was read has the bytes that it was read from.
#[test]
fn encode_writes_what_decode_read() {
    let bytes = b"\x02\x00\x00\x00ab\x00\x03\x00\x00\x00xyz\x01\x00\x00\x00c\x01\x00\x00\x00\x00";
    let mut reader = Reader::new(bytes);
    let mut again = Vec::new();
    for _ in 0..2 {
        let record = Record::decode(&mut reader).expect("a record");
        Record::encode(&mut again, &record.key, record.val.as_deref());
    }
    assert_eq!(again, bytes.to_vec());
}

#[test]
fn file_in_a_directory_keeps_its_extension() {
    let dirs: [&[u8]; 5] = [b"", b"/", b"db", b"db/", b"a.b/c.d"];
    for dir in dirs {
        assert_eq!(find_extension(&join(dir, b"x.sst")), Some(b"sst".as_slice()));
        assert_eq!(find_extension(&join(dir, b"wal")), None);
    }
}
