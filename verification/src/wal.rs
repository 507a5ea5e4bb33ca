//! The write-ahead log: every write since the last flush, one record each.

use vstd::prelude::*;

use crate::error::{Error, ErrorView, Result};
use crate::paths::{ascii, ascii_bytes, join, joined};
use crate::reader::{Reader, ReaderView};
use crate::record::{
    entry_view, invalid_tag_detail, invalid_tag_message, lemma_decoded_bounds,
    DecodeError, DecodeErrorView, Record, RecordView,
};
use crate::run::run_of;

verus! {

/// The name of the log in the directory of the store.
pub open spec fn wal_file_name() -> Seq<u8> {
    ascii("wal"@)
}

/// Records as values.
pub open spec fn records_view(records: Seq<Record>) -> Seq<RecordView> {
    Seq::new(records.len(), |i: int| records[i]@)
}

/// The log of a store.
pub struct Wal {
    path: Vec<u8>,
}

/// What a log yields at startup.
pub struct Replay {
    /// The records, in the order in which they were written.
    pub records: Vec<Record>,
    /// Where the log has to be cut off: behind its last complete record, if it
    /// ends within another.
    pub truncate_to: Option<u64>,
}

/// A `Replay` as a value.
#[verifier::ext_equal]
pub struct ReplayView {
    pub records: Seq<RecordView>,
    pub truncate_to: Option<nat>,
}

impl View for Replay {
    type V = ReplayView;

    open spec fn view(&self) -> ReplayView {
        ReplayView {
            records: records_view(self.records@),
            truncate_to: match self.truncate_to {
                Some(len) => Some(len as nat),
                None => None,
            },
        }
    }
}

/// What the log at `path` yields, which is `file_len` bytes long and reads as `source`.
///
/// A last record that ends early was never acknowledged: it is cut off. A
/// complete record with an unknown tag means that the log is damaged.
pub open spec fn replayed(path: Seq<u8>, file_len: nat, source: ReaderView) -> std::result::Result<
    ReplayView,
    ErrorView,
> {
    let run = run_of(source, file_len as int);
    match run.failure {
        None => Ok(ReplayView { records: run.records, truncate_to: None }),
        Some(DecodeErrorView::Incomplete { .. }) => Ok(
            ReplayView { records: run.records, truncate_to: Some(run.len) },
        ),
        Some(DecodeErrorView::InvalidTag { key, tag }) => Err(
            ErrorView::CorruptWal { path, detail: invalid_tag_detail(key, tag) },
        ),
        Some(DecodeErrorView::Io(error)) => Err(ErrorView::Io(error)),
    }
}

impl Wal {
    /// The path of the log.
    pub closed spec fn location(&self) -> Seq<u8> {
        self.path@
    }

    /// The log of the store in the directory `dir`.
    pub fn open(dir: &[u8]) -> (wal: Self)
        ensures
            wal.location() == joined(dir@, wal_file_name()),
    {
        proof {
            reveal_strlit("wal");
        }
        let name = ascii_bytes("wal");
        Wal { path: join(dir, name.as_slice()) }
    }

    /// The path of the log.
    pub fn path(&self) -> (path: &[u8])
        ensures
            path@ == self.location(),
    {
        self.path.as_slice()
    }

    /// The bytes by which a write grows the log.
    pub fn append(key: &[u8], value: Option<&[u8]>) -> (bytes: Vec<u8>)
        requires
            key@.len() <= u32::MAX,
            value matches Some(value) ==> value@.len() <= u32::MAX,
        ensures
            bytes@ == entry_view((key, value)).encoding(),
    {
        let mut buf: Vec<u8> = Vec::new();
        Record::encode(&mut buf, key, value);
        assert(buf@ =~= entry_view((key, value)).encoding());
        buf
    }

    /// Reads the records of the log, which is `file_len` bytes long.
    pub fn replay(&self, file_len: u64, reader: Reader<'_>) -> (replay: Result<Replay>)
        ensures
            match (replay, replayed(self.location(), file_len as nat, reader@)) {
                (Ok(replay), Ok(view)) => replay@ == view,
                (Err(error), Err(view)) => error@ == view,
                _ => false,
            },
    {
        let mut source = reader;
        let mut bytes_read: u64 = 0;
        let mut records: Vec<Record> = Vec::new();
        let ghost run = run_of(reader@, file_len as int);
        assert(records_view(records@) =~= Seq::<RecordView>::empty());
        assert(run.records =~= records_view(records@) + run.records);
        proof {
            reader.lemma_fits_in_memory();
        }
        while bytes_read < file_len
            invariant
                run == run_of(reader@, file_len as int),
                bytes_read + source@.rest.len() == reader@.rest.len() <= usize::MAX,
                run.records == records_view(records@) + run_of(
                    source@,
                    file_len - bytes_read,
                ).records,
                run.len == bytes_read + run_of(source@, file_len - bytes_read).len,
                run.failure == run_of(source@, file_len - bytes_read).failure,
            decreases source@.rest.len(),
        {
            let ghost before = source@;
            let ghost done = records_view(records@);
            let ghost rest = run_of(source@, file_len - bytes_read);
            let unread: usize = source.remaining();
            match Record::decode(&mut source) {
                Ok(record) => {
                    proof {
                        lemma_decoded_bounds(before);
                    }
                    bytes_read += (unread - source.remaining()) as u64;
                    records.push(record);
                    assert(records_view(records@) =~= done.push(record@));
                    assert(done + rest.records =~= done.push(record@) + run_of(
                        source@,
                        file_len - bytes_read,
                    ).records);
                },
                Err(DecodeError::Incomplete { .. }) => {
                    assert(done + rest.records =~= done);
                    return Ok(Replay { records, truncate_to: Some(bytes_read) });
                },
                Err(DecodeError::Io(error)) => {
                    return Err(Error::Io(error));
                },
                Err(DecodeError::InvalidTag { key, tag }) => {
                    return Err(
                        Error::CorruptWal {
                            path: vstd::slice::slice_to_vec(self.path.as_slice()),
                            detail: invalid_tag_message(key.as_slice(), tag),
                        },
                    );
                },
            }
        }
        assert(run.records =~= records_view(records@));
        Ok(Replay { records, truncate_to: None })
    }
}

} // verus!
