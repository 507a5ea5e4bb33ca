//! The store: a memtable over sorted tables, with a write-ahead log.
//!
//! The store itself touches no file. An operation that needs one says what has
//! to be read or written, and a second call takes up what came of it:
//!
//! - `put` and `delete` give the bytes to append to the log, and `acknowledge`
//!   applies the write once they are there;
//! - `get` and `resume_get` name the table to read next, until the search is done;
//! - `flush` gives the table to write, `adopt_table` takes it up in place of an
//!   earlier one of its path, and `finish_flush` empties the memtable once the
//!   log was reset;
//! - `open` and `open_with` take the log as it was read, and say where to cut it off.

use vstd::prelude::*;

use crate::error::{Error, ErrorView, Result};
use crate::index::floor_offset;
use crate::lookup::{state_of, EntryState};
use crate::memtable::skiplist::SkipListMemtable;
use crate::memtable::{entries_encodable, listing, Memtable};
use crate::order::{compare_keys, KeyOrder};
use crate::paths::{ascii, ascii_bytes, join, joined, names_tmp, tmp_path_of};
use crate::reader::{Reader, ReaderView};
use crate::record::{entry_view, Record, RecordView};
use crate::sstable::{
    looked_up, opened, table_bytes, SsTable, SsTableView, TableFile, TableWrite,
};
use crate::wal::{records_view, replayed, wal_file_name, Wal};

verus! {

/// The name of the table that a flush writes.
pub open spec fn table_file_name() -> Seq<u8> {
    ascii("sstable.sst"@)
}

/// A store as a value.
#[verifier::ext_equal]
pub struct DbView {
    /// The entries in memory.
    pub memtable: Map<Seq<u8>, Option<Seq<u8>>>,
    /// The directory.
    pub path: Seq<u8>,
    /// The tables, the oldest first.
    pub sstables: Seq<SsTableView>,
}

impl DbView {
    /// The path of the table that a flush writes.
    pub open spec fn table_path(self) -> Seq<u8> {
        joined(self.path, table_file_name())
    }

    /// The path of the log.
    pub open spec fn wal_path(self) -> Seq<u8> {
        joined(self.path, wal_file_name())
    }

    /// The tables whose files a flush leaves as they are: those of other paths.
    pub open spec fn other_tables(self) -> Seq<SsTableView> {
        self.sstables.filter(|table: SsTableView| table.path != self.table_path())
    }

    /// The store after `record` was written.
    pub open spec fn with_record(self, record: RecordView) -> DbView {
        DbView { memtable: self.memtable.insert(record.key, record.val), ..self }
    }
}

/// `entries` after the records were written, one after the other.
pub open spec fn with_records(
    entries: Map<Seq<u8>, Option<Seq<u8>>>,
    records: Seq<RecordView>,
) -> Map<Seq<u8>, Option<Seq<u8>>>
    decreases records.len(),
{
    if records.len() == 0 {
        entries
    } else {
        with_records(entries, records.drop_last()).insert(records.last().key, records.last().val)
    }
}

/// What the file of each table reads as.
pub type Reads = spec_fn(int) -> std::result::Result<ReaderView, std::io::Error>;

/// What a search for `key` through the `count` oldest tables yields, the newest
/// of them first. `reads` is what each table's file reads as from the place on
/// where the search in it begins.
///
/// The first table that knows the key decides, and a tombstone there means that
/// the key is gone.
pub open spec fn searched(
    tables: Seq<SsTableView>,
    count: nat,
    key: Seq<u8>,
    reads: Reads,
) -> std::result::Result<Option<Seq<u8>>, ErrorView>
    decreases count,
{
    if count == 0 {
        Ok(None)
    } else {
        match looked_up(tables[count - 1], key, reads(count - 1)) {
            Err(error) => Err(error),
            Ok(Some(val)) => Ok(val),
            Ok(None) => searched(tables, (count - 1) as nat, key, reads),
        }
    }
}

/// The value that the store has for `key`: what the memtable knows of it
/// decides before all tables.
pub open spec fn value_of(
    db: DbView,
    key: Seq<u8>,
    reads: Reads,
) -> std::result::Result<Option<Seq<u8>>, ErrorView> {
    match state_of(db.memtable, key) {
        Some(val) => Ok(val),
        None => searched(db.sstables, db.sstables.len(), key, reads),
    }
}

/// An optional value as a value.
pub open spec fn value_view(value: Option<Vec<u8>>) -> Option<Seq<u8>> {
    match value {
        Some(bytes) => Some(bytes@),
        None => None,
    }
}

/// What a read of a file gave, as a value.
pub open spec fn read_view(
    read: std::result::Result<Reader<'_>, std::io::Error>,
) -> std::result::Result<ReaderView, std::io::Error> {
    match read {
        Ok(reader) => Ok(reader@),
        Err(error) => Err(error),
    }
}

/// Paths as values.
pub open spec fn paths_view(paths: Seq<Vec<u8>>) -> Seq<Seq<u8>> {
    Seq::new(paths.len(), |i: int| paths[i]@)
}

/// A write that the log has yet to hold.
pub struct PendingWrite {
    /// The write.
    pub record: Record,
    /// The bytes by which it grows the log.
    pub log: Vec<u8>,
}

/// How far a search has come.
pub enum Lookup {
    /// The value of the key, or that it has none.
    Done(Option<Vec<u8>>),
    /// The file of table `table` has to be read from `start` on.
    Read { table: usize, start: u64 },
}

/// A store that was opened.
pub struct Opening<M: Memtable> {
    /// The store.
    pub db: Db<M>,
    /// Where the log has to be cut off before the store is used.
    pub truncate_wal: Option<u64>,
}

/// What the operating system answered to a request for the directory's lock.
pub enum LockAttempt {
    /// The lock is held.
    Acquired,
    /// It was refused with this error, which has this number.
    Refused { os_error: Option<i32>, error: std::io::Error },
}

/// What the operating system answered to the removal of a file.
pub enum Removal {
    /// The file is gone.
    Removed,
    /// There was no such file.
    NotFound,
    /// The file could not be removed.
    Failed(std::io::Error),
}

/// A store of keys and values.
///
/// The memtable can be any; a skip list is the default.
pub struct Db<M: Memtable = SkipListMemtable> {
    memtable: M,
    path: Vec<u8>,
    sstables: Vec<SsTable>,
    wal: Wal,
}

impl<M: Memtable> View for Db<M> {
    type V = DbView;

    closed spec fn view(&self) -> DbView {
        DbView {
            memtable: self.memtable.entries(),
            path: self.path@,
            sstables: Seq::new(self.sstables@.len(), |i: int| self.sstables@[i]@),
        }
    }
}

impl Db<SkipListMemtable> {
    /// Opens the store in the directory `path` with a skip list as its memtable.
    /// See `open_with`.
    pub fn open(path: &[u8], wal_len: u64, wal: Reader<'_>) -> (opening: Result<
        Opening<SkipListMemtable>,
    >)
        ensures
            match (opening, replayed(joined(path@, wal_file_name()), wal_len as nat, wal@)) {
                (Ok(opening), Ok(replay)) => {
                    &&& opening.db.wf()
                    &&& opening.db@ == (DbView {
                        memtable: with_records(Map::empty(), replay.records),
                        path: path@,
                        sstables: Seq::empty(),
                    })
                    &&& match (opening.truncate_wal, replay.truncate_to) {
                        (Some(len), Some(view)) => len == view,
                        (None, None) => true,
                        _ => false,
                    }
                },
                (Err(error), Err(view)) => error@ == view,
                _ => false,
            },
    {
        Self::open_with(SkipListMemtable::default(), path, wal_len, wal)
    }
}

impl<M: Memtable> Db<M> {
    /// Whether memtable and tables are intact.
    pub closed spec fn wf(&self) -> bool {
        &&& self.memtable.wf()
        &&& forall|i: int| 0 <= i < self.sstables@.len() ==> (#[trigger] self.sstables@[i]).wf()
        &&& self.wal.location() == joined(self.path@, wal_file_name())
    }

    /// Opens the store in the directory `path`, whose log is `wal_len` bytes long
    /// and reads as `wal`: every write in the log is made again in `memtable`.
    pub fn open_with(memtable: M, path: &[u8], wal_len: u64, wal: Reader<'_>) -> (opening: Result<
        Opening<M>,
    >)
        requires
            memtable.wf(),
        ensures
            match (opening, replayed(joined(path@, wal_file_name()), wal_len as nat, wal@)) {
                (Ok(opening), Ok(replay)) => {
                    &&& opening.db.wf()
                    &&& opening.db@ == (DbView {
                        memtable: with_records(memtable.entries(), replay.records),
                        path: path@,
                        sstables: Seq::empty(),
                    })
                    &&& match (opening.truncate_wal, replay.truncate_to) {
                        (Some(len), Some(view)) => len == view,
                        (None, None) => true,
                        _ => false,
                    }
                },
                (Err(error), Err(view)) => error@ == view,
                _ => false,
            },
    {
        let log = Wal::open(path);
        let replay = match log.replay(wal_len, wal) {
            Ok(replay) => replay,
            Err(error) => return Err(error),
        };
        let mut table = memtable;
        let records = replay.records;
        let ghost views = records_view(records@);
        let mut i: usize = 0;
        while i < records.len()
            invariant
                i <= records@.len(),
                views == records_view(records@),
                table.wf(),
                table.entries() == with_records(memtable.entries(), views.take(i as int)),
            decreases records@.len() - i,
        {
            let record = &records[i];
            proof {
                assert(views.take(i + 1).drop_last() =~= views.take(i as int));
                assert(views.take(i + 1).last() == record@);
            }
            match &record.val {
                Some(val) => table.put(record.key.as_slice(), val.as_slice()),
                None => table.delete(record.key.as_slice()),
            }
            i += 1;
        }
        assert(views.take(i as int) =~= views);
        let db = Db {
            memtable: table,
            path: vstd::slice::slice_to_vec(path),
            sstables: Vec::new(),
            wal: log,
        };
        assert(db@.sstables =~= Seq::<SsTableView>::empty());
        Ok(Opening { db, truncate_wal: replay.truncate_to })
    }

    /// The memtable.
    pub fn memtable(&self) -> (memtable: &M)
        requires
            self.wf(),
        ensures
            memtable.wf(),
            memtable.entries() == self@.memtable,
    {
        &self.memtable
    }

    /// The path of the log.
    pub fn wal_path(&self) -> (path: &[u8])
        requires
            self.wf(),
        ensures
            path@ == self@.wal_path(),
    {
        self.wal.path()
    }

    /// The path of the file of a table.
    pub fn table_path(&self, table: usize) -> (path: &[u8])
        requires
            table < self@.sstables.len(),
        ensures
            path@ == self@.sstables[table as int].path,
    {
        self.sstables[table].path()
    }

    /// Checks that the lengths of a key and its value fit in 32 bits.
    pub fn check_lengths(key_len: usize, value_len: usize) -> (checked: Result<()>)
        ensures
            match checked {
                Ok(_) => key_len <= u32::MAX && value_len <= u32::MAX,
                Err(Error::KeyTooLong { len }) => key_len > u32::MAX && len == key_len,
                Err(Error::ValueTooLong { len }) => {
                    &&& key_len <= u32::MAX
                    &&& value_len > u32::MAX
                    &&& len == value_len
                },
                Err(_) => false,
            },
    {
        if key_len > u32::MAX as usize {
            return Err(Error::KeyTooLong { len: key_len });
        }
        if value_len > u32::MAX as usize {
            return Err(Error::ValueTooLong { len: value_len });
        }
        Ok(())
    }

    /// Begins to give `key` the value `value`, in place of any that it has.
    pub fn put(&self, key: &[u8], value: &[u8]) -> (write: Result<PendingWrite>)
        ensures
            match write {
                Ok(write) => {
                    &&& key@.len() <= u32::MAX && value@.len() <= u32::MAX
                    &&& write.record@ == (RecordView { key: key@, val: Some(value@) })
                    &&& write.log@ == write.record@.encoding()
                },
                Err(Error::KeyTooLong { len }) => key@.len() > u32::MAX && len == key@.len(),
                Err(Error::ValueTooLong { len }) => {
                    &&& key@.len() <= u32::MAX
                    &&& value@.len() > u32::MAX
                    &&& len == value@.len()
                },
                Err(_) => false,
            },
    {
        match Self::check_lengths(key.len(), value.len()) {
            Ok(_) => {},
            Err(error) => return Err(error),
        }
        let record = Record {
            key: vstd::slice::slice_to_vec(key),
            val: Some(vstd::slice::slice_to_vec(value)),
        };
        let log = Wal::append(key, Some(value));
        assert(record@ == entry_view((key, Some(value))));
        Ok(PendingWrite { record, log })
    }

    /// Begins to delete `key`, whether or not the store has a value for it.
    ///
    /// No value can be put under a key whose length does not fit in 32 bits, so
    /// that for such a key there is nothing to write.
    pub fn delete(&self, key: &[u8]) -> (write: Option<PendingWrite>)
        ensures
            match write {
                Some(write) => {
                    &&& key@.len() <= u32::MAX
                    &&& write.record@ == (RecordView { key: key@, val: None })
                    &&& write.log@ == write.record@.encoding()
                },
                None => key@.len() > u32::MAX,
            },
    {
        match Self::check_lengths(key.len(), 0) {
            Ok(_) => {},
            Err(_) => return None,
        }
        let record = Record { key: vstd::slice::slice_to_vec(key), val: None };
        let log = Wal::append(key, None);
        assert(record@ == entry_view((key, None)));
        Some(PendingWrite { record, log })
    }

    /// Makes a write, once it was appended to the log. If that failed nothing changes.
    pub fn acknowledge(
        &mut self,
        write: PendingWrite,
        appended: std::result::Result<(), std::io::Error>,
    ) -> (done: Result<()>)
        requires
            old(self).wf(),
        ensures
            final(self).wf(),
            match appended {
                Ok(_) => done is Ok && final(self)@ == old(self)@.with_record(write.record@),
                Err(error) => done == Err::<(), Error>(Error::Io(error)) && final(self)@ == old(
                    self,
                )@,
            },
    {
        match appended {
            Ok(_) => {
                match &write.record.val {
                    Some(val) => self.memtable.put(write.record.key.as_slice(), val.as_slice()),
                    None => self.memtable.delete(write.record.key.as_slice()),
                }
                assert(self@.sstables =~= old(self)@.sstables);
                Ok(())
            },
            Err(error) => Err(Error::Io(error)),
        }
    }

    /// Begins to look up the value of `key`.
    pub fn get(&self, key: &[u8]) -> (step: Lookup)
        requires
            self.wf(),
        ensures
            match step {
                Lookup::Done(value) => forall|reads: Reads| #[trigger]
                    value_of(self@, key@, reads) == Ok::<Option<Seq<u8>>, ErrorView>(
                        value_view(value),
                    ),
                Lookup::Read { table, start } => {
                    &&& table < self@.sstables.len()
                    &&& floor_offset(self@.sstables[table as int].index, key@) == Some(start)
                    &&& forall|reads: Reads| #[trigger]
                        value_of(self@, key@, reads) == searched(
                            self@.sstables,
                            table as nat + 1,
                            key@,
                            reads,
                        )
                },
            },
    {
        match self.memtable.lookup(key) {
            EntryState::Live(value) => Lookup::Done(Some(value)),
            EntryState::Tombstone => Lookup::Done(None),
            EntryState::Absent => self.next_table(key, self.sstables.len()),
        }
    }

    /// Takes up a search with what the file of table `table` read as.
    pub fn resume_get(
        &self,
        key: &[u8],
        table: usize,
        read: std::result::Result<Reader<'_>, std::io::Error>,
    ) -> (step: Result<Lookup>)
        requires
            self.wf(),
            table < self@.sstables.len(),
        ensures
            match step {
                Ok(Lookup::Done(value)) => forall|reads: Reads|
                    reads(table as int) == read_view(read) ==> #[trigger] searched(
                        self@.sstables,
                        table as nat + 1,
                        key@,
                        reads,
                    ) == Ok::<Option<Seq<u8>>, ErrorView>(value_view(value)),
                Ok(Lookup::Read { table: older, start }) => {
                    &&& older < table
                    &&& floor_offset(self@.sstables[older as int].index, key@) == Some(start)
                    &&& forall|reads: Reads|
                        reads(table as int) == read_view(read) ==> #[trigger] searched(
                            self@.sstables,
                            table as nat + 1,
                            key@,
                            reads,
                        ) == searched(self@.sstables, older as nat + 1, key@, reads)
                },
                Err(error) => forall|reads: Reads|
                    reads(table as int) == read_view(read) ==> #[trigger] searched(
                        self@.sstables,
                        table as nat + 1,
                        key@,
                        reads,
                    ) == Err::<Option<Seq<u8>>, ErrorView>(error@),
            },
    {
        let ghost answer = looked_up(self@.sstables[table as int], key@, read_view(read));
        let state = self.sstables[table].get(key, read);
        assert forall|reads: Reads|
            reads(table as int) == read_view(read) implies #[trigger] searched(
            self@.sstables,
            table as nat + 1,
            key@,
            reads,
        ) == (match answer {
            Err(error) => Err(error),
            Ok(Some(val)) => Ok(val),
            Ok(None) => searched(self@.sstables, table as nat, key@, reads),
        }) by {}
        match state {
            Ok(EntryState::Live(value)) => Ok(Lookup::Done(Some(value))),
            Ok(EntryState::Tombstone) => Ok(Lookup::Done(None)),
            Ok(EntryState::Absent) => Ok(self.next_table(key, table)),
            Err(error) => Err(error),
        }
    }

    /// The newest of the `count` oldest tables that may hold `key`.
    fn next_table(&self, key: &[u8], count: usize) -> (step: Lookup)
        requires
            self.wf(),
            count <= self@.sstables.len(),
        ensures
            match step {
                Lookup::Done(value) => value is None && forall|reads: Reads| #[trigger]
                    searched(self@.sstables, count as nat, key@, reads) == Ok::<
                        Option<Seq<u8>>,
                        ErrorView,
                    >(None),
                Lookup::Read { table, start } => {
                    &&& table < count
                    &&& floor_offset(self@.sstables[table as int].index, key@) == Some(start)
                    &&& forall|reads: Reads| #[trigger]
                        searched(self@.sstables, count as nat, key@, reads) == searched(
                            self@.sstables,
                            table as nat + 1,
                            key@,
                            reads,
                        )
                },
            },
    {
        let mut left: usize = count;
        while left > 0
            invariant
                self.wf(),
                left <= count <= self@.sstables.len(),
                forall|reads: Reads| #[trigger]
                    searched(self@.sstables, count as nat, key@, reads) == searched(
                        self@.sstables,
                        left as nat,
                        key@,
                        reads,
                    ),
            decreases left,
        {
            match self.sstables[left - 1].block_start(key) {
                Some(start) => {
                    return Lookup::Read { table: left - 1, start };
                },
                None => {},
            }
            left -= 1;
        }
        Lookup::Done(None)
    }

    /// Begins a flush: the table of all entries in memory, and where to write it.
    ///
    /// Before `adopt_table` its bytes have to be written to `tmp_path`, brought to
    /// the disk and moved to `path`, and the directory brought to the disk too.
    /// Until then the log still holds every write.
    pub fn flush(&self) -> (write: TableWrite)
        requires
            self.wf(),
            entries_encodable(self@.memtable),
        ensures
            write.path@ == self@.table_path(),
            write.tmp_path@ == tmp_path_of(self@.table_path()),
            write.bytes@ == table_bytes(listing(self@.memtable)),
    {
        let path = self.new_table_path();
        SsTable::flush(path.as_slice(), &self.memtable)
    }

    /// The path of the table that a flush writes.
    fn new_table_path(&self) -> (path: Vec<u8>)
        ensures
            path@ == self@.table_path(),
    {
        proof {
            reveal_strlit("sstable.sst");
        }
        let name = ascii_bytes("sstable.sst");
        join(self.path.as_slice(), name.as_slice())
    }

    /// Forgets the tables at `path`, whose file was replaced.
    fn drop_tables_at(&mut self, path: &[u8])
        requires
            old(self).wf(),
            path@ == old(self)@.table_path(),
        ensures
            final(self).wf(),
            final(self)@ == (DbView { sstables: old(self)@.other_tables(), ..old(self)@ }),
    {
        let ghost tables = self@.sstables;
        let ghost is_other = |table: SsTableView| table.path != old(self)@.table_path();
        let ghost mut seen: int = 0;
        let mut kept: usize = 0;
        proof {
            reveal(Seq::filter);
            assert(tables.take(0).filter(is_other) =~= Seq::<SsTableView>::empty());
        }
        while kept < self.sstables.len()
            invariant
                self.wf(),
                self.memtable == old(self).memtable,
                self.path == old(self).path,
                self.wal == old(self).wal,
                path@ == old(self)@.table_path(),
                is_other == (|table: SsTableView| table.path != old(self)@.table_path()),
                0 <= kept <= seen <= tables.len(),
                self@.sstables.len() == kept + (tables.len() - seen),
                self@.sstables.take(kept as int) == tables.take(seen).filter(is_other),
                self@.sstables.skip(kept as int) == tables.skip(seen),
            decreases self.sstables@.len() - kept,
        {
            let ghost before = self@.sstables;
            proof {
                reveal(Seq::filter);
                assert(before[kept as int] == before.skip(kept as int)[0]);
                assert(tables.skip(seen)[0] == tables[seen]);
                assert(tables.take(seen + 1).drop_last() =~= tables.take(seen));
                assert(tables.skip(seen).skip(1) =~= tables.skip(seen + 1));
            }
            if compare_keys(self.sstables[kept].path(), path) == KeyOrder::Same {
                self.sstables.remove(kept);
                assert(self@.sstables.take(kept as int) =~= before.take(kept as int));
                assert(self@.sstables.skip(kept as int) =~= before.skip(kept as int).skip(1));
            } else {
                kept += 1;
                assert(self@.sstables.take(kept as int) =~= before.take(kept - 1).push(
                    tables[seen],
                ));
                assert(self@.sstables.skip(kept as int) =~= before.skip(kept - 1).skip(1));
            }
            proof {
                seen = seen + 1;
            }
        }
        assert(self@.sstables.take(kept as int) =~= self@.sstables);
        assert(tables.take(seen) =~= tables);
    }

    /// Goes on with a flush: `file` is what the table that was written reads as,
    /// or what failed since it was moved to its path. If it is a valid table, it
    /// becomes the newest one, and the log can be emptied before `finish_flush`.
    ///
    /// The file of an earlier table of that path is gone, so that in every case
    /// the store forgets such a table. Where the new one cannot be taken up, its
    /// entries are still in memory and in the log.
    pub fn adopt_table(
        &mut self,
        file: std::result::Result<TableFile<'_>, std::io::Error>,
    ) -> (done: Result<()>)
        requires
            old(self).wf(),
        ensures
            final(self).wf(),
            match file {
                Ok(file) => match opened(old(self)@.table_path(), file@) {
                    Ok(table) => done is Ok && final(self)@ == (DbView {
                        sstables: old(self)@.other_tables().push(table),
                        ..old(self)@
                    }),
                    Err(view) => {
                        &&& done matches Err(error) && error@ == view
                        &&& final(self)@ == (DbView {
                            sstables: old(self)@.other_tables(),
                            ..old(self)@
                        })
                    },
                },
                Err(error) => {
                    &&& done == Err::<(), Error>(Error::Io(error))
                    &&& final(self)@ == (DbView {
                        sstables: old(self)@.other_tables(),
                        ..old(self)@
                    })
                },
            },
    {
        let path = self.new_table_path();
        self.drop_tables_at(path.as_slice());
        let ghost others = self@.sstables;
        let table_file = match file {
            Ok(file) => file,
            Err(error) => return Err(Error::Io(error)),
        };
        match SsTable::open(path.as_slice(), table_file) {
            Ok(table) => {
                self.sstables.push(table);
                assert(self@.sstables =~= others.push(table@));
                Ok(())
            },
            Err(error) => Err(error),
        }
    }

    /// Ends a flush, once the log was reset: the memtable forgets its entries.
    pub fn finish_flush(
        &mut self,
        reset: std::result::Result<(), std::io::Error>,
    ) -> (done: Result<()>)
        requires
            old(self).wf(),
        ensures
            final(self).wf(),
            match reset {
                Ok(_) => done is Ok && final(self)@ == (DbView {
                    memtable: Map::empty(),
                    ..old(self)@
                }),
                Err(error) => done == Err::<(), Error>(Error::Io(error)) && final(self)@ == old(
                    self,
                )@,
            },
    {
        match reset {
            Ok(_) => {
                self.memtable.clear();
                assert(self@.sstables =~= old(self)@.sstables);
                Ok(())
            },
            Err(error) => Err(Error::Io(error)),
        }
    }

    /// What became of the request for the lock of the directory. `would_block` is
    /// the number of the error that says that another process holds it.
    pub fn acquire_dir_lock(
        dir_path: &[u8],
        attempt: LockAttempt,
        would_block: i32,
    ) -> (lock: Result<()>)
        ensures
            match attempt {
                LockAttempt::Acquired => lock is Ok,
                LockAttempt::Refused { os_error, error } => lock matches Err(failure) && failure@
                    == (if os_error == Some(would_block) {
                    ErrorView::DatabaseDirectoryAlreadyInUse { path: dir_path@ }
                } else {
                    ErrorView::Io(error)
                }),
            },
    {
        match attempt {
            LockAttempt::Acquired => Ok(()),
            LockAttempt::Refused { os_error: Some(code), error: _ } if code == would_block => Err(
                Error::DatabaseDirectoryAlreadyInUse { path: vstd::slice::slice_to_vec(dir_path) },
            ),
            LockAttempt::Refused { os_error: _, error } => Err(Error::Io(error)),
        }
    }

    /// The files of a directory that an interrupted flush left behind, of all its `entries`.
    pub fn sweep_stale_tmp_files(entries: &Vec<Vec<u8>>) -> (stale: Vec<Vec<u8>>)
        ensures
            paths_view(stale@) == paths_view(entries@).filter(|path: Seq<u8>| names_tmp(path)),
    {
        let mut stale: Vec<Vec<u8>> = Vec::new();
        let mut i: usize = 0;
        let ghost views = paths_view(entries@);
        let ghost is_stale = |path: Seq<u8>| names_tmp(path);
        proof {
            reveal(Seq::filter);
            assert(views.take(0) =~= Seq::<Seq<u8>>::empty());
            assert(paths_view(stale@) =~= views.take(0).filter(is_stale));
        }
        while i < entries.len()
            invariant
                i <= entries@.len(),
                views == paths_view(entries@),
                is_stale == (|path: Seq<u8>| names_tmp(path)),
                paths_view(stale@) == views.take(i as int).filter(is_stale),
            decreases entries@.len() - i,
        {
            let path = entries[i].as_slice();
            let ghost before = paths_view(stale@);
            proof {
                reveal(Seq::filter);
                assert(views.take(i + 1).drop_last() =~= views.take(i as int));
                assert(views.take(i + 1).last() == path@);
            }
            if SsTable::is_tmp_path(path) {
                stale.push(vstd::slice::slice_to_vec(path));
                assert(paths_view(stale@) =~= before.push(path@));
            }
            i += 1;
        }
        assert(views.take(i as int) =~= views);
        stale
    }

    /// What became of the removal of a stale file: one that is already gone is as good.
    pub fn swept(removal: Removal) -> (done: Result<()>)
        ensures
            match removal {
                Removal::Removed => done is Ok,
                Removal::NotFound => done is Ok,
                Removal::Failed(error) => done == Err::<(), Error>(Error::Io(error)),
            },
    {
        match removal {
            Removal::Removed => Ok(()),
            Removal::NotFound => Ok(()),
            Removal::Failed(error) => Err(Error::Io(error)),
        }
    }
}

} // verus!
