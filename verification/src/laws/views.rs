//! What the values that go in and out stand for: their bytes, and nothing less.

use vstd::prelude::*;

use crate::db::{paths_view, read_view, value_view};
use crate::error::{Error, ErrorView};
use crate::lookup::{state_of, EntryState};
use crate::memtable::listing_view;
use crate::reader::{Reader, ReaderView};
use crate::record::{entry_view, DecodeError, DecodeErrorView, Record, RecordView};
use crate::sstable::{converted, TableFile};
use crate::wal::{records_view, Replay};

verus! {

/// A value is its bytes, and an empty one is not the lack of one.
pub proof fn law_value_is_its_bytes(value: Vec<u8>)
    ensures
        value_view(Some(value)) == Some(value@),
        value_view(None) is None,
{
}

/// A live value, a tombstone and an absent key are three different things.
pub proof fn law_states_are_told_apart(
    value: Vec<u8>,
    entries: Map<Seq<u8>, Option<Seq<u8>>>,
    key: Seq<u8>,
)
    ensures
        EntryState::Live(value)@ == Some(Some(value@)),
        EntryState::Tombstone@ == Some(None::<Seq<u8>>),
        EntryState::Absent@ is None,
        entries.contains_key(key) ==> state_of(entries, key) == Some(entries[key]),
        !entries.contains_key(key) ==> state_of(entries, key) is None,
{
}

/// A record is the bytes of its key and value.
pub proof fn law_record_is_its_bytes(key: Vec<u8>, val: Vec<u8>)
    ensures
        (Record { key, val: Some(val) })@ == (RecordView { key: key@, val: Some(val@) }),
        (Record { key, val: None })@ == (RecordView { key: key@, val: None }),
{
}

/// A borrowed entry is the bytes of its key and value.
pub proof fn law_entry_is_its_bytes(key: &[u8], val: &[u8])
    ensures
        entry_view((key, Some(val))) == (RecordView { key: key@, val: Some(val@) }),
        entry_view((key, None)) == (RecordView { key: key@, val: None }),
{
}

/// A list is its items, in their order.
pub proof fn law_lists_are_their_items(
    paths: Seq<Vec<u8>>,
    records: Seq<Record>,
    listed: Seq<(&[u8], Option<&[u8]>)>,
)
    ensures
        paths_view(paths).len() == paths.len(),
        forall|i: int| 0 <= i < paths.len() ==> #[trigger] paths_view(paths)[i] == paths[i]@,
        records_view(records).len() == records.len(),
        forall|i: int|
            0 <= i < records.len() ==> #[trigger] records_view(records)[i] == records[i]@,
        listing_view(listed).len() == listed.len(),
        forall|i: int|
            0 <= i < listed.len() ==> #[trigger] listing_view(listed)[i] == entry_view(listed[i]),
{
}

/// A replay is its records and the place of its cut.
pub proof fn law_replay_is_its_records_and_cut(replay: Replay)
    ensures
        replay@.records == records_view(replay.records@),
        match (replay.truncate_to, replay@.truncate_to) {
            (Some(len), Some(view)) => len == view,
            (None, None) => true,
            _ => false,
        },
{
}

/// A file that was read is what was read of it.
pub proof fn law_file_is_what_was_read(file: TableFile<'_>, read: Reader<'_>)
    ensures
        file@.len == file.len,
        file@.data == file.data@,
        match (file.footer, file@.footer) {
            (Ok(bytes), Ok(view)) => bytes@ == view,
            (Err(error), Err(view)) => error == view,
            _ => false,
        },
        read_view(Ok(read)) == Ok::<ReaderView, std::io::Error>(read@),
{
}

/// A failure to read is passed on as it is.
pub proof fn law_failure_to_read_is_kept(error: std::io::Error)
    ensures
        read_view(Err(error)) == Err::<ReaderView, std::io::Error>(error),
        Error::Io(error)@ == ErrorView::Io(error),
        DecodeError::Io(error)@ == DecodeErrorView::Io(error),
{
}

/// An error is its kind, with its path and text or its length.
pub proof fn law_error_is_its_kind(path: Vec<u8>, detail: String, len: usize)
    ensures
        (Error::CorruptSsTable { path, detail })@ == (ErrorView::CorruptSsTable {
            path: path@,
            detail: detail@,
        }),
        (Error::CorruptWal { path, detail })@ == (ErrorView::CorruptWal {
            path: path@,
            detail: detail@,
        }),
        (Error::DatabaseDirectoryAlreadyInUse { path })@ == (
        ErrorView::DatabaseDirectoryAlreadyInUse { path: path@ }),
        (Error::KeyTooLong { len })@ == (ErrorView::KeyTooLong { len: len as nat }),
        (Error::ValueTooLong { len })@ == (ErrorView::ValueTooLong { len: len as nat }),
{
}

/// A record that cannot be read is its kind of failure.
pub proof fn law_decode_error_is_its_kind(key: Vec<u8>, tag: u8, detail: String)
    ensures
        (DecodeError::Incomplete { detail })@ == (DecodeErrorView::Incomplete { detail: detail@ }),
        (DecodeError::InvalidTag { key, tag })@ == (DecodeErrorView::InvalidTag { key: key@, tag }),
{
}

/// What a record that cannot be read means for a table: a failure of the operating
/// system is passed on, and everything else is corruption of the table, with its path.
pub proof fn law_unreadable_record_is_corruption_or_the_failure(
    error: DecodeErrorView,
    path: Seq<u8>,
)
    ensures
        match error {
            DecodeErrorView::Io(failure) => converted(error, path) == ErrorView::Io(failure),
            DecodeErrorView::Incomplete { detail } => converted(error, path)
                == (ErrorView::CorruptSsTable { path, detail }),
            DecodeErrorView::InvalidTag { key, tag } => converted(error, path)
                == (ErrorView::CorruptSsTable {
                path,
                detail: "Invalid tag "@ + crate::text::decimal(tag as nat) + " in record for "@
                    + crate::text::byte_list(key),
            }),
        },
{
}

} // verus!
