//! Sorted tables: the files that memtables are flushed to.
//!
//! A table is written once from a memtable and never changed. Its bytes are
//!
//! ```text
//! [record 0][record 1]...[record N]   sorted by key, tombstones included
//! [footer: 8-byte magic]              marks a valid table
//! ```
//!
//! A tombstone has no value bytes: a file with one that claims some is no table.

use vstd::prelude::*;

use crate::bytes::{append_le, le_bytes, le_value, read_u64};
use crate::error::{Error, ErrorView, Result};
use crate::index::{floor_offset, BlockIndex};
use crate::lookup::EntryState;
use crate::memtable::{
    entries_encodable, law_listing_is_unique, listing, listing_view, lists, Memtable,
};
use crate::order::{compare_keys, key_lt, KeyOrder};
use crate::paths::{ascii_bytes, find_extension, names_tmp, tmp_path_of, DOT};
use crate::reader::{Reader, ReaderView};
use crate::record::{
    decoded, entry_view, invalid_tag_detail, invalid_tag_message, leftover, lemma_decoded_bounds,
    DecodeError, DecodeErrorView, Record, RecordView,
};
use crate::run::{encodings, lemma_total_len_push, run_of, total_len};
use crate::text::{
    append_byte_list, append_decimal, append_hex_word, byte_list, decimal, hex_word,
};

verus! {

/// The number that the last bytes of a table hold.
pub const MAGIC: u64 = 0x5345_4449_4D45_4E54;

/// The number of bytes of the footer.
pub const FOOTER_LEN: u64 = 8;

/// The number of bytes after which the index gets another entry.
pub const BLOCK_SIZE: u64 = 4096;

/// The bytes of a table that holds `records`.
pub open spec fn table_bytes(records: Seq<RecordView>) -> Seq<u8> {
    encodings(records) + le_bytes(MAGIC as nat, 8)
}

/// The number of bytes behind the last full block of `records`.
pub open spec fn open_block_len(records: Seq<RecordView>) -> nat
    decreases records.len(),
{
    if records.len() == 0 {
        0
    } else {
        let len = open_block_len(records.drop_last()) + records.last().encoded_len();
        if len >= BLOCK_SIZE {
            0
        } else {
            len
        }
    }
}

/// Whether the index has an entry for `record`, which stands behind `earlier`:
/// for the first record, and for each that fills a block.
pub open spec fn is_indexed(earlier: Seq<RecordView>, record: RecordView) -> bool {
    earlier.len() == 0 || open_block_len(earlier) + record.encoded_len() >= BLOCK_SIZE
}

/// The index of a table that holds `records`: where the indexed ones begin.
pub open spec fn index_of(records: Seq<RecordView>) -> Map<Seq<u8>, u64>
    decreases records.len(),
{
    if records.len() == 0 {
        Map::empty()
    } else {
        let earlier = records.drop_last();
        if is_indexed(earlier, records.last()) {
            index_of(earlier).insert(records.last().key, total_len(earlier) as u64)
        } else {
            index_of(earlier)
        }
    }
}

/// What a read of a table file gave: its length, its last bytes where it is long
/// enough to have a footer, and its bytes from the front.
pub struct TableFile<'a> {
    pub len: u64,
    pub footer: std::result::Result<[u8; 8], std::io::Error>,
    pub data: Reader<'a>,
}

/// A `TableFile` as a value.
pub struct TableFileView {
    pub len: nat,
    pub footer: std::result::Result<Seq<u8>, std::io::Error>,
    pub data: ReaderView,
}

impl<'a> View for TableFile<'a> {
    type V = TableFileView;

    open spec fn view(&self) -> TableFileView {
        TableFileView {
            len: self.len as nat,
            footer: match self.footer {
                Ok(bytes) => Ok(bytes@),
                Err(error) => Err(error),
            },
            data: self.data@,
        }
    }
}

/// What a file that holds `bytes` and can be read throughout looks like.
pub open spec fn whole_file(bytes: Seq<u8>) -> TableFileView {
    TableFileView {
        len: bytes.len(),
        footer: if bytes.len() < FOOTER_LEN {
            Ok(le_bytes(0, 8))
        } else {
            Ok(bytes.skip(bytes.len() - FOOTER_LEN))
        },
        data: ReaderView { rest: bytes, fault: None },
    }
}

impl<'a> TableFile<'a> {
    /// A file that holds `bytes` and can be read throughout.
    pub fn whole(bytes: &'a [u8]) -> (file: Self)
        ensures
            file@ == whole_file(bytes@),
    {
        let mut footer: [u8; 8] = [0; 8];
        if bytes.len() >= 8 {
            let start: usize = bytes.len() - 8;
            let mut i: usize = 0;
            while i < 8
                invariant
                    i <= 8,
                    start + 8 == bytes.len(),
                    forall|j: int| 0 <= j < i ==> footer@[j] == bytes@[start + j],
                decreases 8 - i,
            {
                footer[i] = bytes[start + i];
                i += 1;
            }
            assert(footer@ =~= bytes@.skip(start as int));
        } else {
            proof {
                reveal_with_fuel(le_bytes, 9);
            }
            assert(footer@ =~= le_bytes(0, 8));
        }
        TableFile { len: bytes.len() as u64, footer: Ok(footer), data: Reader::new(bytes) }
    }
}

/// A table as a value.
#[verifier::ext_equal]
pub struct SsTableView {
    pub path: Seq<u8>,
    pub index: Map<Seq<u8>, u64>,
    pub footer_start: nat,
}

/// What a file that is shorter than the footer is reported as.
pub open spec fn too_short_detail(len: nat) -> Seq<char> {
    "file is "@ + decimal(len) + " bytes, shorter than the "@ + decimal(FOOTER_LEN as nat)
        + "-byte footer"@
}

/// What a footer without the magic number is reported as.
pub open spec fn bad_magic_detail(footer: u64) -> Seq<char> {
    "footer magic is "@ + hex_word(footer) + ", expected "@ + hex_word(MAGIC)
}

/// What records that do not end at the footer are reported as.
pub open spec fn misaligned_detail(end: nat, expected: nat) -> Seq<char> {
    "data region ends at "@ + decimal(end) + ", expected "@ + decimal(expected)
}

/// What a tombstone with `val_len` value bytes is reported as.
pub open spec fn stray_value_detail(key: Seq<u8>, val_len: nat) -> Seq<char> {
    "tombstone with "@ + decimal(val_len) + " value bytes in record for "@ + byte_list(key)
}

/// What a record that cannot be read means for the table at `path`.
pub open spec fn converted(error: DecodeErrorView, path: Seq<u8>) -> ErrorView {
    match error {
        DecodeErrorView::Incomplete { detail } => ErrorView::CorruptSsTable { path, detail },
        DecodeErrorView::InvalidTag { key, tag } => ErrorView::CorruptSsTable {
            path,
            detail: invalid_tag_detail(key, tag),
        },
        DecodeErrorView::Io(error) => ErrorView::Io(error),
    }
}

/// The records at the front of `source`, up to the first one at which they take
/// up `budget` bytes or more, or what the first one that does not belong in the
/// table at `path` is reported as.
///
/// A record that takes up more bytes than its encoding has is a tombstone with
/// value bytes.
pub open spec fn scanned(path: Seq<u8>, source: ReaderView, budget: int) -> std::result::Result<
    Seq<RecordView>,
    ErrorView,
>
    decreases source.rest.len(),
{
    if budget <= 0 {
        Ok(Seq::empty())
    } else {
        match decoded(source) {
            Err(error) => Err(converted(error, path)),
            Ok((record, len)) => {
                proof {
                    lemma_decoded_bounds(source);
                }
                if len > record.encoded_len() {
                    Err(
                        ErrorView::CorruptSsTable {
                            path,
                            detail: stray_value_detail(
                                record.key,
                                (len - record.encoded_len()) as nat,
                            ),
                        },
                    )
                } else {
                    match scanned(path, leftover(source), budget - len) {
                        Err(error) => Err(error),
                        Ok(others) => Ok(seq![record] + others),
                    }
                }
            },
        }
    }
}

/// The table in the file at `path`, or why there is none.
pub open spec fn opened(path: Seq<u8>, file: TableFileView) -> std::result::Result<
    SsTableView,
    ErrorView,
> {
    if file.len < FOOTER_LEN {
        Err(ErrorView::CorruptSsTable { path, detail: too_short_detail(file.len) })
    } else {
        let footer_start = (file.len - FOOTER_LEN) as nat;
        match file.footer {
            Err(error) => Err(ErrorView::Io(error)),
            Ok(footer) => if le_value(footer) != MAGIC {
                Err(
                    ErrorView::CorruptSsTable {
                        path,
                        detail: bad_magic_detail(le_value(footer) as u64),
                    },
                )
            } else {
                match scanned(path, file.data, footer_start as int) {
                    Err(error) => Err(error),
                    Ok(records) => table_of(path, records, footer_start),
                }
            },
        }
    }
}

/// The table at `path` whose data is `records`, which have to end at the footer.
pub open spec fn table_of(
    path: Seq<u8>,
    records: Seq<RecordView>,
    footer_start: nat,
) -> std::result::Result<SsTableView, ErrorView> {
    if total_len(records) != footer_start {
        Err(
            ErrorView::CorruptSsTable {
                path,
                detail: misaligned_detail(total_len(records), footer_start),
            },
        )
    } else {
        Ok(SsTableView { path, index: index_of(records), footer_start })
    }
}

/// What a run of records in ascending order holds of `key`. Records behind the
/// first one that is not before `key` do not matter.
pub open spec fn state_in_run(
    records: Seq<RecordView>,
    failure: Option<DecodeErrorView>,
    key: Seq<u8>,
) -> std::result::Result<Option<Option<Seq<u8>>>, DecodeErrorView>
    decreases records.len(),
{
    if records.len() == 0 {
        match failure {
            Some(error) => Err(error),
            None => Ok(None),
        }
    } else if key_lt(records[0].key, key) {
        state_in_run(records.drop_first(), failure, key)
    } else if records[0].key == key {
        Ok(Some(records[0].val))
    } else {
        Ok(None)
    }
}

/// What the table holds of `key`. `read` is what its file reads as from the
/// offset on that the index gives for `key`; it matters only if there is one.
pub open spec fn looked_up(
    table: SsTableView,
    key: Seq<u8>,
    read: std::result::Result<ReaderView, std::io::Error>,
) -> std::result::Result<Option<Option<Seq<u8>>>, ErrorView> {
    match floor_offset(table.index, key) {
        None => Ok(None),
        Some(start) => match read {
            Err(error) => Err(ErrorView::Io(error)),
            Ok(source) => {
                let run = run_of(source, table.footer_start - start);
                match state_in_run(run.records, run.failure, key) {
                    Ok(state) => Ok(state),
                    Err(error) => Err(converted(error, table.path)),
                }
            },
        },
    }
}

/// A sorted table in a file.
pub struct SsTable {
    path: Vec<u8>,
    index: BlockIndex,
    footer_start: u64,
}

/// The files that a flush writes: `bytes` to `tmp_path`, which then becomes `path`.
pub struct TableWrite {
    pub tmp_path: Vec<u8>,
    pub path: Vec<u8>,
    pub bytes: Vec<u8>,
}

impl View for SsTable {
    type V = SsTableView;

    closed spec fn view(&self) -> SsTableView {
        SsTableView {
            path: self.path@,
            index: self.index@,
            footer_start: self.footer_start as nat,
        }
    }
}

impl SsTable {
    /// Whether the index is in order and leads into the file.
    pub closed spec fn wf(&self) -> bool {
        &&& self.index.wf()
        &&& forall|key: Seq<u8>| #[trigger]
            self.index@.contains_key(key) ==> self.index@[key] < self.footer_start
    }

    /// The table of the entries of `memtable`, to be written at `path`.
    pub fn flush<M: Memtable>(path: &[u8], memtable: &M) -> (write: TableWrite)
        requires
            memtable.wf(),
            entries_encodable(memtable.entries()),
        ensures
            write.path@ == path@,
            write.tmp_path@ == tmp_path_of(path@),
            write.bytes@ == table_bytes(listing(memtable.entries())),
    {
        let listed = memtable.iter();
        let ghost records = listing_view(listed@);
        proof {
            law_listing_is_unique(records, records, memtable.entries());
        }
        let mut writer: Vec<u8> = Vec::new();
        let mut i: usize = 0;
        assert(encodings(records.take(0)) =~= Seq::<u8>::empty());
        while i < listed.len()
            invariant
                i <= listed@.len(),
                records == listing_view(listed@),
                lists(records, memtable.entries()),
                entries_encodable(memtable.entries()),
                writer@ == encodings(records.take(i as int)),
            decreases listed@.len() - i,
        {
            let (key, val) = listed[i];
            proof {
                assert(memtable.entries().contains_key(records[i as int].key));
                assert(records[i as int] == entry_view(listed@[i as int]));
                assert((RecordView {
                    key: records[i as int].key,
                    val: memtable.entries()[records[i as int].key],
                }).encodable());
                assert(records.take(i + 1) =~= records.take(i as int).push(records[i as int]));
                lemma_total_len_push(records.take(i as int), records[i as int]);
            }
            Record::encode(&mut writer, key, val);
            i += 1;
        }
        assert(records.take(i as int) =~= records);
        append_le(&mut writer, MAGIC, 8);
        TableWrite {
            tmp_path: Self::tmp_path(path),
            path: vstd::slice::slice_to_vec(path),
            bytes: writer,
        }
    }

    /// Whether the path names a file that is still being written: one with the
    /// extension `tmp`.
    pub fn is_tmp_path(path: &[u8]) -> (tmp: bool)
        ensures
            tmp == names_tmp(path@),
    {
        proof {
            reveal_strlit("tmp");
        }
        let wanted = ascii_bytes("tmp");
        match find_extension(path) {
            Some(found) => compare_keys(found, wanted.as_slice()) == KeyOrder::Same,
            None => false,
        }
    }

    /// The path under which the file at `path` is written before it is complete.
    pub fn tmp_path(path: &[u8]) -> (tmp: Vec<u8>)
        ensures
            tmp@ == tmp_path_of(path@),
    {
        let mut tmp = vstd::slice::slice_to_vec(path);
        tmp.push(DOT);
        proof {
            reveal_strlit("tmp");
        }
        let ending = ascii_bytes("tmp");
        tmp.extend_from_slice(ending.as_slice());
        assert(tmp@ =~= tmp_path_of(path@));
        tmp
    }

    /// What a record that cannot be read means for the table at `path`.
    pub fn convert_decode_error(err: DecodeError, path: &[u8]) -> (error: Error)
        ensures
            error@ == converted(err@, path@),
    {
        match err {
            DecodeError::Incomplete { detail } => Error::CorruptSsTable {
                path: vstd::slice::slice_to_vec(path),
                detail,
            },
            DecodeError::Io(error) => Error::Io(error),
            DecodeError::InvalidTag { key, tag } => Error::CorruptSsTable {
                path: vstd::slice::slice_to_vec(path),
                detail: invalid_tag_message(key.as_slice(), tag),
            },
        }
    }

    /// The path of the file.
    pub fn path(&self) -> (path: &[u8])
        ensures
            path@ == self@.path,
    {
        self.path.as_slice()
    }

    /// Checks the file at `path` and builds the index of its table.
    pub fn open(path: &[u8], file: TableFile<'_>) -> (table: Result<SsTable>)
        ensures
            match (table, opened(path@, file@)) {
                (Ok(table), Ok(view)) => table@ == view && table.wf(),
                (Err(error), Err(view)) => error@ == view,
                _ => false,
            },
    {
        let file_len: u64 = file.len;
        if file_len < FOOTER_LEN {
            let mut detail = String::new();
            detail.append("file is ");
            append_decimal(&mut detail, file_len);
            detail.append(" bytes, shorter than the ");
            append_decimal(&mut detail, FOOTER_LEN);
            detail.append("-byte footer");
            assert(detail@ =~= too_short_detail(file_len as nat));
            return Err(Error::CorruptSsTable { path: vstd::slice::slice_to_vec(path), detail });
        }
        let footer_start: u64 = file_len - FOOTER_LEN;
        let footer: u64 = match file.footer {
            Ok(buffer) => read_u64(buffer.as_slice()),
            Err(error) => return Err(Error::Io(error)),
        };
        if footer != MAGIC {
            let mut detail = String::new();
            detail.append("footer magic is ");
            append_hex_word(&mut detail, footer);
            detail.append(", expected ");
            append_hex_word(&mut detail, MAGIC);
            assert(detail@ =~= bad_magic_detail(footer));
            return Err(Error::CorruptSsTable { path: vstd::slice::slice_to_vec(path), detail });
        }
        let mut reader = file.data;
        let mut index = BlockIndex::new();
        let mut total_bytes_read: u64 = 0;
        let mut bytes_counter: u64 = 0;
        let ghost scan = scanned(path@, file.data@, footer_start as int);
        let ghost mut done: Seq<RecordView> = Seq::empty();
        proof {
            file.data.lemma_fits_in_memory();
            assert(scan is Ok ==> done + scan->Ok_0 =~= scan->Ok_0);
        }
        while total_bytes_read < footer_start
            invariant
                total_bytes_read == total_len(done),
                bytes_counter == open_block_len(done),
                bytes_counter <= total_bytes_read,
                total_bytes_read + reader@.rest.len() <= usize::MAX,
                total_bytes_read == 0 <==> done.len() == 0,
                index.wf(),
                index@ == index_of(done),
                forall|key: Seq<u8>| #[trigger]
                    index@.contains_key(key) ==> index@[key] < footer_start,
                scan == (match scanned(path@, reader@, footer_start - total_bytes_read) {
                    Err(error) => Err(error),
                    Ok(others) => Ok(done + others),
                }),
                opened(path@, file@) == (match scan {
                    Err(error) => Err(error),
                    Ok(records) => table_of(path@, records, footer_start as nat),
                }),
            decreases reader@.rest.len(),
        {
            let ghost before = reader@;
            let unread: usize = reader.remaining();
            let record = match Record::decode(&mut reader) {
                Ok(record) => record,
                Err(error) => return Err(Self::convert_decode_error(error, path)),
            };
            let ghost later = done.push(record@);
            proof {
                lemma_decoded_bounds(before);
                lemma_total_len_push(done, record@);
                assert(later.drop_last() =~= done);
            }
            let record_bytes: u64 = record.encoded_len();
            let bytes_taken: u64 = (unread - reader.remaining()) as u64;
            if bytes_taken > record_bytes {
                let mut detail = String::new();
                detail.append("tombstone with ");
                append_decimal(&mut detail, bytes_taken - record_bytes);
                detail.append(" value bytes in record for ");
                append_byte_list(&mut detail, record.key.as_slice());
                assert(detail@ =~= stray_value_detail(
                    record@.key,
                    (bytes_taken - record_bytes) as nat,
                ));
                return Err(Error::CorruptSsTable { path: vstd::slice::slice_to_vec(path), detail });
            }
            proof {
                let others = scanned(path@, reader@, footer_start - total_len(later));
                assert(others is Ok ==> done + (seq![record@] + others->Ok_0) =~= later
                    + others->Ok_0);
            }
            bytes_counter += record_bytes;
            if total_bytes_read == 0 || bytes_counter >= BLOCK_SIZE {
                index.insert(record.key, total_bytes_read);
            }
            total_bytes_read += record_bytes;
            if bytes_counter >= BLOCK_SIZE {
                bytes_counter = 0;
            }
            proof {
                done = later;
            }
        }
        assert(scan is Ok && done =~= scan->Ok_0);
        if total_bytes_read != footer_start {
            let mut detail = String::new();
            detail.append("data region ends at ");
            append_decimal(&mut detail, total_bytes_read);
            detail.append(", expected ");
            append_decimal(&mut detail, footer_start);
            assert(detail@ =~= misaligned_detail(total_bytes_read as nat, footer_start as nat));
            return Err(Error::CorruptSsTable { path: vstd::slice::slice_to_vec(path), detail });
        }
        Ok(SsTable { path: vstd::slice::slice_to_vec(path), index, footer_start })
    }

    /// Where in the file the search for `key` begins; `None` where the table
    /// cannot hold it.
    pub fn block_start(&self, key: &[u8]) -> (start: Option<u64>)
        requires
            self.wf(),
        ensures
            start == floor_offset(self@.index, key@),
    {
        self.index.floor(key)
    }

    /// What the table holds of `key`. `read` is the file from `block_start` on;
    /// it is looked at only if there is such a place.
    pub fn get(
        &self,
        key: &[u8],
        read: std::result::Result<Reader<'_>, std::io::Error>,
    ) -> (state: Result<EntryState>)
        requires
            self.wf(),
        ensures
            match (
                state,
                looked_up(
                    self@,
                    key@,
                    match read {
                        Ok(reader) => Ok(reader@),
                        Err(error) => Err(error),
                    },
                ),
            ) {
                (Ok(state), Ok(view)) => state@ == view,
                (Err(error), Err(view)) => error@ == view,
                _ => false,
            },
    {
        let start: u64 = match self.block_start(key) {
            Some(start) => start,
            None => return Ok(EntryState::Absent),
        };
        let source = match read {
            Ok(reader) => reader,
            Err(error) => return Err(Error::Io(error)),
        };
        let mut reader = source;
        proof {
            source.lemma_fits_in_memory();
            crate::index::lemma_floor_is_in_index(self.index@, key@);
        }
        let span: u64 = self.footer_start - start;
        let mut offset: u64 = 0;
        let ghost run = run_of(source@, span as int);
        while offset < span
            invariant
                run == run_of(source@, span as int),
                offset + reader@.rest.len() <= usize::MAX,
                state_in_run(run.records, run.failure, key@) == state_in_run(
                    run_of(reader@, span - offset).records,
                    run_of(reader@, span - offset).failure,
                    key@,
                ),
                looked_up(
                    self@,
                    key@,
                    match read {
                        Ok(reader) => Ok(reader@),
                        Err(error) => Err(error),
                    },
                ) == (match state_in_run(run.records, run.failure, key@) {
                    Ok(state) => Ok(state),
                    Err(error) => Err(converted(error, self@.path)),
                }),
            decreases reader@.rest.len(),
        {
            let ghost before = reader@;
            let ghost rest = run_of(reader@, span - offset);
            let unread: usize = reader.remaining();
            let record = match Record::decode(&mut reader) {
                Ok(record) => record,
                Err(error) => return Err(
                    Self::convert_decode_error(error, self.path.as_slice()),
                ),
            };
            proof {
                lemma_decoded_bounds(before);
            }
            offset += (unread - reader.remaining()) as u64;
            proof {
                assert(rest.records[0] == record@);
                assert(rest.records.drop_first() =~= run_of(reader@, span - offset).records);
                crate::order::lemma_key_order();
            }
            match compare_keys(record.key.as_slice(), key) {
                KeyOrder::Before => {},
                KeyOrder::Same => {
                    return Ok(
                        match record.val {
                            Some(val) => EntryState::Live(val),
                            None => EntryState::Tombstone,
                        },
                    );
                },
                KeyOrder::After => {
                    return Ok(EntryState::Absent);
                },
            }
        }
        Ok(EntryState::Absent)
    }
}

} // verus!
