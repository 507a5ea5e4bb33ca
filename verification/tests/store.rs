//! The store as its users see it, over a directory that is kept in memory.

use std::cell::RefCell;
use std::collections::BTreeMap;
use std::rc::Rc;

use sediment::db::{LockAttempt, Lookup, Removal};
use sediment::lookup::EntryState;
use sediment::memtable::skiplist::SkipListMemtable;
use sediment::memtable::Memtable;
use sediment::reader::Reader;
use sediment::sstable::TableFile;
use sediment::{Db, Error, Result};

/// The number of the error by which a held lock is refused.
const WOULD_BLOCK: i32 = 11;

/// A directory: its lock, its log, and its other files by name.
#[derive(Default)]
struct Directory {
    locked: bool,
    wal: Vec<u8>,
    files: BTreeMap<Vec<u8>, Vec<u8>>,
    /// The next operation of this kind fails.
    broken: Option<Operation>,
}

#[derive(Clone, Copy, PartialEq)]
enum Operation {
    Append,
    Read,
    Reset,
}

impl Directory {
    fn attempt(&mut self, operation: Operation) -> std::io::Result<()> {
        if self.broken == Some(operation) {
            self.broken = None;
            Err(std::io::Error::other("broken"))
        } else {
            Ok(())
        }
    }
}

/// A store that keeps its files in a `Directory`.
struct Store<M: Memtable = SkipListMemtable> {
    db: Db<M>,
    dir: Rc<RefCell<Directory>>,
}

fn new_dir() -> Rc<RefCell<Directory>> {
    Rc::new(RefCell::new(Directory::default()))
}

/// The file that a path in the directory names.
fn name_of(path: &[u8]) -> Vec<u8> {
    path.strip_prefix(b"db/").expect("a path in the directory").to_vec()
}

impl Store<SkipListMemtable> {
    fn open(dir: &Rc<RefCell<Directory>>) -> Result<Self> {
        Self::open_with(SkipListMemtable::default(), dir)
    }
}

impl<M: Memtable> Store<M> {
    fn open_with(memtable: M, dir: &Rc<RefCell<Directory>>) -> Result<Self> {
        let attempt = if dir.borrow().locked {
            LockAttempt::Refused {
                os_error: Some(WOULD_BLOCK),
                error: std::io::Error::from_raw_os_error(WOULD_BLOCK),
            }
        } else {
            LockAttempt::Acquired
        };
        Db::<M>::acquire_dir_lock(b"db", attempt, WOULD_BLOCK)?;

        let entries: Vec<Vec<u8>> = dir
            .borrow()
            .files
            .keys()
            .map(|name| [b"db/".as_slice(), name].concat())
            .collect();
        for stale in Db::<M>::sweep_stale_tmp_files(&entries) {
            let removal = match dir.borrow_mut().files.remove(&name_of(&stale)) {
                Some(_) => Removal::Removed,
                None => Removal::NotFound,
            };
            Db::<M>::swept(removal)?;
        }

        let log = dir.borrow().wal.clone();
        let opening = Db::open_with(memtable, b"db", log.len() as u64, Reader::new(&log))?;
        if let Some(len) = opening.truncate_wal {
            dir.borrow_mut().wal.truncate(len as usize);
        }
        assert_eq!(opening.db.wal_path(), b"db/wal");
        dir.borrow_mut().locked = true;
        Ok(Store {
            db: opening.db,
            dir: dir.clone(),
        })
    }

    fn put(&mut self, key: &[u8], value: &[u8]) -> Result<()> {
        let write = self.db.put(key, value)?;
        let appended = self.append(&write.log);
        self.db.acknowledge(write, appended)
    }

    fn delete(&mut self, key: &[u8]) -> Result<()> {
        let Some(write) = self.db.delete(key) else {
            return Ok(());
        };
        let appended = self.append(&write.log);
        self.db.acknowledge(write, appended)
    }

    fn append(&self, log: &[u8]) -> std::io::Result<()> {
        let mut dir = self.dir.borrow_mut();
        dir.attempt(Operation::Append)?;
        dir.wal.extend_from_slice(log);
        Ok(())
    }

    fn get(&self, key: &[u8]) -> Result<Option<Vec<u8>>> {
        let mut step = self.db.get(key);
        loop {
            match step {
                Lookup::Done(value) => return Ok(value),
                Lookup::Read { table, start } => {
                    let mut dir = self.dir.borrow_mut();
                    let read = dir.attempt(Operation::Read);
                    let file = &dir.files[&name_of(self.db.table_path(table))];
                    let from = &file[(start as usize).min(file.len())..];
                    step = self
                        .db
                        .resume_get(key, table, read.map(|()| Reader::new(from)))?;
                }
            }
        }
    }

    fn flush(&mut self) -> Result<()> {
        let write = self.db.flush();
        let mut dir = self.dir.borrow_mut();
        dir.files.insert(name_of(&write.tmp_path), write.bytes);
        let bytes = dir.files.remove(&name_of(&write.tmp_path)).unwrap();
        dir.files.insert(name_of(&write.path), bytes);

        let read = dir.attempt(Operation::Read);
        let file = &dir.files[&name_of(&write.path)];
        self.db.adopt_table(read.map(|()| TableFile::whole(file)))?;
        let reset = dir.attempt(Operation::Reset);
        if reset.is_ok() {
            dir.wal.clear();
        }
        self.db.finish_flush(reset)
    }
}

impl<M: Memtable> Drop for Store<M> {
    fn drop(&mut self) {
        self.dir.borrow_mut().locked = false;
    }
}

/// Every file name in the directory, the log aside.
fn file_names(dir: &Rc<RefCell<Directory>>) -> Vec<String> {
    dir.borrow()
        .files
        .keys()
        .map(|name| String::from_utf8(name.clone()).unwrap())
        .collect()
}

/// The bytes of a record, written out by hand. `None` is a tombstone.
fn encode_record(key: &[u8], val: Option<&[u8]>) -> Vec<u8> {
    let mut out = Vec::new();
    out.extend_from_slice(&u32::try_from(key.len()).unwrap().to_le_bytes());
    out.extend_from_slice(key);
    match val {
        Some(v) => {
            out.push(0);
            out.extend_from_slice(&u32::try_from(v.len()).unwrap().to_le_bytes());
            out.extend_from_slice(v);
        }
        None => {
            out.push(1);
            out.extend_from_slice(&0u32.to_le_bytes());
        }
    }
    out
}

// ---------------------------------------------------------------------------
// The shape of the operations
// ---------------------------------------------------------------------------

#[test]
fn open_returns_a_db() {
    let _db: Store = Store::open(&new_dir()).expect("open should succeed");
}

#[test]
fn put_returns_unit_on_success() {
    let mut db = Store::open(&new_dir()).unwrap();
    let _: () = db.put(b"key", b"value").unwrap();
}

#[test]
fn get_returns_optional_owned_bytes() {
    let db = Store::open(&new_dir()).unwrap();
    let _: Option<Vec<u8>> = db.get(b"missing").unwrap();
}

#[test]
fn delete_returns_unit_on_success() {
    let mut db = Store::open(&new_dir()).unwrap();
    let _: () = db.delete(b"key").unwrap();
}

#[test]
fn get_takes_immutable_borrow() {
    let db = Store::open(&new_dir()).unwrap();
    let _ = db.get(b"a").unwrap();
    let _ = db.get(b"b").unwrap();
}

#[test]
fn put_and_delete_take_mutable_borrow() {
    let mut db = Store::open(&new_dir()).unwrap();
    db.put(b"k", b"v").unwrap();
    db.delete(b"k").unwrap();
}

#[test]
fn result_alias_works() {
    let mut db = Store::open(&new_dir()).unwrap();
    let r: Result<()> = db.put(b"k", b"v");
    r.unwrap();
}

// ---------------------------------------------------------------------------
// Flush
// ---------------------------------------------------------------------------

/// A successful flush empties the memtable: the entries now live in a table.
#[test]
fn flush_empties_the_memtable() {
    let mut db = Store::open(&new_dir()).expect("open");

    db.put(b"k", b"v").expect("put");
    assert!(
        matches!(db.db.memtable().lookup(b"k"), EntryState::Live(_)),
        "precondition: the key is live in the memtable before the flush"
    );

    db.flush().expect("flush");

    assert!(
        matches!(db.db.memtable().lookup(b"k"), EntryState::Absent),
        "flush must clear the memtable, leaving the key absent from memory"
    );
    assert_eq!(
        db.get(b"k").expect("get"),
        Some(b"v".to_vec()),
        "and the value must still be readable, now from the SSTable"
    );
}

#[test]
fn flush_writes_sstable_into_the_db_directory() {
    let dir = new_dir();
    let mut db = Store::open(&dir).expect("open");

    db.put(b"k", b"v").expect("put");
    db.flush().expect("flush");

    assert!(
        dir.borrow().files.contains_key(b"sstable.sst".as_slice()),
        "expected an SSTable, found files: {:?}",
        file_names(&dir)
    );
    assert!(
        dir.borrow().files[b"sstable.sst".as_slice()].len() > 8,
        "file should hold at least one entry plus the 8-byte footer"
    );
}

#[test]
fn flush_writes_exactly_one_file() {
    let dir = new_dir();
    let mut db = Store::open(&dir).expect("open");

    db.put(b"a", b"1").expect("put");
    db.put(b"b", b"2").expect("put");
    db.flush().expect("flush");

    assert_eq!(
        file_names(&dir),
        vec!["sstable.sst".to_string()],
        "flush should leave exactly one file in the db directory"
    );
}

#[test]
fn successful_flush_leaves_no_tmp_file() {
    let dir = new_dir();
    let mut db = Store::open(&dir).expect("open");

    db.put(b"k", b"v").expect("put");
    db.flush().expect("flush");

    let names = file_names(&dir);
    let leftovers: Vec<&String> = names.iter().filter(|n| n.ends_with(".tmp")).collect();
    assert!(
        leftovers.is_empty(),
        "no .tmp files should remain after a successful flush, found: {leftovers:?}"
    );
    assert!(
        !dir.borrow().files.contains_key(b"sstable.sst.tmp".as_slice()),
        "the specific temp path must not exist"
    );
}

#[test]
fn db_is_usable_after_flush() {
    let mut db = Store::open(&new_dir()).expect("open");

    db.put(b"before", b"1").expect("put");
    db.flush().expect("flush");

    db.put(b"after", b"2").expect("put");
    assert_eq!(db.get(b"after").expect("get"), Some(b"2".to_vec()));

    db.delete(b"after").expect("delete");
    assert_eq!(db.get(b"after").expect("get"), None);

    // And a second flush still succeeds.
    db.put(b"another", b"3").expect("put");
    db.flush().expect("second flush");
}

#[test]
fn flushing_an_empty_memtable_is_harmless() {
    let dir = new_dir();
    let mut db = Store::open(&dir).expect("open");

    db.flush()
        .expect("flushing an empty memtable should succeed");

    assert!(
        dir.borrow().files.contains_key(b"sstable.sst".as_slice()),
        "an empty flush still produces a file"
    );
    assert_eq!(
        dir.borrow().files[b"sstable.sst".as_slice()].len(),
        8,
        "an empty SSTable is just the 8-byte magic footer"
    );
    assert!(file_names(&dir).iter().all(|n| !n.ends_with(".tmp")));
}

/// The second flush overwrites the table of the first, because the file name is
/// fixed: what only the first table held is gone.
#[test]
fn second_flush_replaces_the_first_file() {
    let dir = new_dir();
    let mut db = Store::open(&dir).expect("open");

    db.put(b"first", b"1").expect("put");
    db.flush().expect("first flush");
    let after_first = dir.borrow().files[b"sstable.sst".as_slice()].clone();

    db.put(b"second", b"2").expect("put");
    db.flush().expect("second flush");
    let after_second = dir.borrow().files[b"sstable.sst".as_slice()].clone();

    assert_ne!(
        after_first, after_second,
        "the second flush must have rewritten the file"
    );
    assert!(
        after_second.windows(6).any(|w| w == b"second"),
        "the surviving file holds the second flush's key"
    );
    assert!(
        !after_second.windows(5).any(|w| w == b"first"),
        "the first flush's key is GONE — the fixed file name loses data"
    );
    assert_eq!(file_names(&dir), vec!["sstable.sst".to_string()]);

    assert_eq!(db.get(b"first").expect("get"), None);
    assert_eq!(db.get(b"second").expect("get"), Some(b"2".to_vec()));
}

/// Where a step of a flush fails, what was there before it still is.
#[test]
fn failed_flush_keeps_the_memtable() {
    let dir = new_dir();
    let mut db = Store::open(&dir).expect("open");
    db.put(b"k", b"v").expect("put");

    dir.borrow_mut().broken = Some(Operation::Read);
    assert!(matches!(db.flush(), Err(Error::Io(_))));
    assert!(matches!(db.db.memtable().lookup(b"k"), EntryState::Live(_)));
    assert_eq!(dir.borrow().wal, encode_record(b"k", Some(b"v")));

    dir.borrow_mut().broken = Some(Operation::Reset);
    assert!(matches!(db.flush(), Err(Error::Io(_))));
    assert!(matches!(db.db.memtable().lookup(b"k"), EntryState::Live(_)));
    assert_eq!(dir.borrow().wal, encode_record(b"k", Some(b"v")));
    assert_eq!(db.get(b"k").expect("get"), Some(b"v".to_vec()));
}

/// A table that reads back damaged is not adopted.
#[test]
fn damaged_table_is_not_adopted() {
    let dir = new_dir();
    let mut db = Store::open(&dir).expect("open");
    db.put(b"k", b"v").expect("put");
    match db.db.adopt_table(Ok(TableFile::whole(b"trash"))) {
        Err(Error::CorruptSsTable { path, detail }) => {
            assert_eq!(path, b"db/sstable.sst".to_vec());
            assert_eq!(detail, "file is 5 bytes, shorter than the 8-byte footer");
        }
        other => panic!("expected corruption, got {other:?}"),
    }
    assert_eq!(db.get(b"k").expect("get"), Some(b"v".to_vec()));
}

// ---------------------------------------------------------------------------
// Startup
// ---------------------------------------------------------------------------

#[test]
fn open_is_idempotent_on_existing_directory() {
    let dir = new_dir();
    let db1 = Store::open(&dir).expect("first open should succeed");
    drop(db1); // release the directory lock
    let _db2 = Store::open(&dir).expect("reopen on existing dir should succeed");
}

#[test]
fn put_survives_reopen_without_flush() {
    let dir = new_dir();
    let mut db = Store::open(&dir).expect("first open");
    db.put(b"k", b"v").expect("put");
    drop(db); // no flush — the WAL is the only durable copy

    let db = Store::open(&dir).expect("reopen");
    assert_eq!(
        db.get(b"k").expect("get"),
        Some(b"v".to_vec()),
        "an acknowledged put must be recovered from the WAL at reopen"
    );
}

#[test]
fn delete_survives_reopen_without_flush() {
    let dir = new_dir();
    let mut db = Store::open(&dir).expect("first open");
    db.put(b"k", b"v").expect("put");
    db.put(b"witness", b"w").expect("put witness");
    db.delete(b"k").expect("delete");
    drop(db);

    let db = Store::open(&dir).expect("reopen");
    assert_eq!(
        db.get(b"witness").expect("get"),
        Some(b"w".to_vec()),
        "witness key must be recovered — otherwise replay never ran and the \
         deleted key's absence below proves nothing"
    );
    assert_eq!(
        db.get(b"k").expect("get"),
        None,
        "a logged tombstone must shadow the logged put after replay"
    );
}

#[test]
fn recovery_survives_a_second_reopen_without_flush() {
    let dir = new_dir();
    let mut db = Store::open(&dir).expect("first open");
    db.put(b"k", b"v").expect("put");
    drop(db);

    let db = Store::open(&dir).expect("second open");
    drop(db); // crash again, still before any flush

    let db = Store::open(&dir).expect("third open");
    assert_eq!(
        db.get(b"k").expect("get"),
        Some(b"v".to_vec()),
        "an acknowledged put must survive every crash until it is flushed; \
         recovery must not consume the log it replays"
    );
}

#[test]
fn torn_tail_is_truncated_and_open_succeeds() {
    let dir = new_dir();
    let rec_a = encode_record(b"alpha", Some(b"1"));
    let rec_b = encode_record(b"beta", Some(b"2"));
    let rec_c = encode_record(b"gamma", Some(b"3"));

    let mut wal = Vec::new();
    wal.extend_from_slice(&rec_a);
    wal.extend_from_slice(&rec_b);
    wal.extend_from_slice(&rec_c[..rec_c.len() / 2]); // the torn tail
    dir.borrow_mut().wal = wal;

    let db = Store::open(&dir).expect("open must tolerate a torn tail");
    assert_eq!(db.get(b"alpha").expect("get"), Some(b"1".to_vec()));
    assert_eq!(db.get(b"beta").expect("get"), Some(b"2".to_vec()));
    assert_eq!(
        db.get(b"gamma").expect("get"),
        None,
        "the torn record was never acknowledged; it must not be recovered"
    );

    assert_eq!(
        dir.borrow().wal.len(),
        rec_a.len() + rec_b.len(),
        "recovery must truncate the torn tail off the log"
    );
}

#[test]
fn mid_log_damage_fails_open_as_corruption() {
    let dir = new_dir();
    let rec_a = encode_record(b"alpha", Some(b"1"));
    let mut rec_bad = encode_record(b"beta", Some(b"2"));
    rec_bad[4 + 4] = 7; // key_len(4) + "beta"(4) → the tag byte: 7 is no tag
    let rec_c = encode_record(b"gamma", Some(b"3"));

    let mut wal = Vec::new();
    wal.extend_from_slice(&rec_a);
    wal.extend_from_slice(&rec_bad);
    wal.extend_from_slice(&rec_c);
    dir.borrow_mut().wal = wal;

    let Err(err) = Store::open(&dir) else {
        panic!("open must fail: acknowledged data is damaged mid-log");
    };
    assert!(
        !matches!(err, Error::Io(_)),
        "mid-log damage is corruption, not an environmental I/O failure; got: {err:?}"
    );
    match err {
        Error::CorruptWal { path, detail } => {
            assert_eq!(path, b"db/wal".to_vec());
            assert_eq!(detail, "Invalid tag 7 in record for [98, 101, 116, 97]");
        }
        other => panic!("expected a corrupt log, got {other:?}"),
    }
}

#[test]
fn second_open_fails_while_first_is_alive() {
    let dir = new_dir();
    let db = Store::open(&dir).expect("first open");

    let Err(err) = Store::open(&dir) else {
        panic!("second open on a locked directory must fail");
    };
    assert!(
        matches!(err, Error::DatabaseDirectoryAlreadyInUse { .. }),
        "a locked directory must surface as its own variant so the caller \
         knows to wait or exit, not retry blindly; got: {err:?}"
    );

    drop(db);
    Store::open(&dir).expect("open must succeed once the lock holder is gone");
}

/// A lock that is refused for another reason is a failure of the system.
#[test]
fn lock_refused_for_another_reason_is_io() {
    for os_error in [Some(9), None] {
        let attempt = LockAttempt::Refused {
            os_error,
            error: std::io::Error::other("no locks here"),
        };
        match Db::<SkipListMemtable>::acquire_dir_lock(b"db", attempt, WOULD_BLOCK) {
            Err(Error::Io(error)) => assert_eq!(error.to_string(), "no locks here"),
            other => panic!("expected an I/O error, got {other:?}"),
        }
    }
}

#[test]
fn stale_tmp_is_swept_at_open() {
    let dir = new_dir();
    dir.borrow_mut().files.insert(
        b"sstable.sst.tmp".to_vec(),
        b"debris from a dead process".to_vec(),
    );

    let _db = Store::open(&dir).expect("open");
    assert!(
        !dir.borrow().files.contains_key(b"sstable.sst.tmp".as_slice()),
        "open must sweep stale .tmp files; a crashed flush's debris survived"
    );
}

/// The sweep leaves the table, the log and everything else in place.
#[test]
fn sweep_takes_nothing_else() {
    let entries: Vec<Vec<u8>> = [
        "db/sstable.sst",
        "db/a.tmp",
        "db/wal",
        "db/.tmp",
        "db/b.tmp.txt",
        "db/c.d.tmp",
    ]
    .iter()
    .map(|path| path.as_bytes().to_vec())
    .collect();
    assert_eq!(
        Db::<SkipListMemtable>::sweep_stale_tmp_files(&entries),
        vec![b"db/a.tmp".to_vec(), b"db/c.d.tmp".to_vec()]
    );
    assert!(Db::<SkipListMemtable>::swept(Removal::NotFound).is_ok());
    assert!(matches!(
        Db::<SkipListMemtable>::swept(Removal::Failed(std::io::Error::other("no"))),
        Err(Error::Io(_))
    ));
}

#[test]
fn wal_is_reset_after_successful_flush() {
    let dir = new_dir();
    let mut db = Store::open(&dir).expect("open");
    db.put(b"k", b"v").expect("put");
    db.flush().expect("flush");

    assert_eq!(
        dir.borrow().wal.len(),
        0,
        "a successful flush must reset the WAL; its records are now durable \
         in the SSTable and would otherwise be replayed forever"
    );
}

/// The log holds one record per write, in their order.
#[test]
fn log_holds_every_write() {
    let dir = new_dir();
    let mut db = Store::open(&dir).expect("open");
    db.put(b"a", b"1").expect("put");
    db.delete(b"b").expect("delete");
    db.put(b"a", b"").expect("put");
    let expected = [
        encode_record(b"a", Some(b"1")),
        encode_record(b"b", None),
        encode_record(b"a", Some(b"")),
    ]
    .concat();
    assert_eq!(dir.borrow().wal, expected);
}

/// A write that the log does not hold is not made.
#[test]
fn failed_append_changes_nothing() {
    let dir = new_dir();
    let mut db = Store::open(&dir).expect("open");
    db.put(b"k", b"v").expect("put");

    dir.borrow_mut().broken = Some(Operation::Append);
    match db.put(b"k", b"w") {
        Err(Error::Io(error)) => assert_eq!(error.to_string(), "broken"),
        other => panic!("expected an I/O error, got {other:?}"),
    }
    assert_eq!(db.get(b"k").expect("get"), Some(b"v".to_vec()));

    dir.borrow_mut().broken = Some(Operation::Append);
    assert!(db.delete(b"k").is_err());
    assert_eq!(db.get(b"k").expect("get"), Some(b"v".to_vec()));
}

/// A memtable that is handed in keeps its entries, and the log is replayed over them.
#[test]
fn log_is_replayed_over_a_given_memtable() {
    let dir = new_dir();
    dir.borrow_mut().wal = [
        encode_record(b"b", Some(b"new")),
        encode_record(b"c", None),
    ]
    .concat();
    let mut memtable = SkipListMemtable::default();
    memtable.put(b"a", b"old");
    memtable.put(b"b", b"old");
    memtable.put(b"c", b"old");
    let db = Store::open_with(memtable, &dir).expect("open");
    assert_eq!(db.get(b"a").expect("get"), Some(b"old".to_vec()));
    assert_eq!(db.get(b"b").expect("get"), Some(b"new".to_vec()));
    assert_eq!(db.get(b"c").expect("get"), None);
}

// ---------------------------------------------------------------------------
// Reads and writes in memory
// ---------------------------------------------------------------------------

#[test]
fn put_then_get_returns_the_value() {
    let mut db = Store::open(&new_dir()).unwrap();
    db.put(b"key", b"value").unwrap();
    let got = db.get(b"key").unwrap();
    assert_eq!(got, Some(b"value".to_vec()));
}

#[test]
fn get_on_missing_key_returns_none() {
    let db = Store::open(&new_dir()).unwrap();
    let got = db.get(b"never-inserted").unwrap();
    assert_eq!(got, None);
}

#[test]
fn multiple_keys_are_independent() {
    let mut db = Store::open(&new_dir()).unwrap();
    db.put(b"a", b"1").unwrap();
    db.put(b"b", b"2").unwrap();
    db.put(b"c", b"3").unwrap();

    assert_eq!(db.get(b"a").unwrap(), Some(b"1".to_vec()));
    assert_eq!(db.get(b"b").unwrap(), Some(b"2".to_vec()));
    assert_eq!(db.get(b"c").unwrap(), Some(b"3".to_vec()));
    assert_eq!(db.get(b"d").unwrap(), None);
}

#[test]
fn put_same_key_overwrites() {
    let mut db = Store::open(&new_dir()).unwrap();
    db.put(b"key", b"first").unwrap();
    db.put(b"key", b"second").unwrap();
    assert_eq!(db.get(b"key").unwrap(), Some(b"second".to_vec()));
}

#[test]
fn delete_then_get_returns_none() {
    let mut db = Store::open(&new_dir()).unwrap();
    db.put(b"key", b"value").unwrap();
    db.delete(b"key").unwrap();
    assert_eq!(db.get(b"key").unwrap(), None);
}

#[test]
fn delete_missing_key_is_ok() {
    let mut db = Store::open(&new_dir()).unwrap();
    // Should not panic or error.
    db.delete(b"never-existed").unwrap();
    assert_eq!(db.get(b"never-existed").unwrap(), None);
}

#[test]
fn delete_then_put_revives_the_key() {
    let mut db = Store::open(&new_dir()).unwrap();
    db.put(b"key", b"v1").unwrap();
    db.delete(b"key").unwrap();
    assert_eq!(db.get(b"key").unwrap(), None);

    db.put(b"key", b"v2").unwrap();
    assert_eq!(db.get(b"key").unwrap(), Some(b"v2".to_vec()));
}

#[test]
fn handles_arbitrary_bytes_including_empty_and_non_utf8() {
    let mut db = Store::open(&new_dir()).unwrap();

    // Empty value is a legitimate value, distinct from "absent".
    db.put(b"empty-val", b"").unwrap();
    assert_eq!(db.get(b"empty-val").unwrap(), Some(Vec::new()));

    // Non-UTF-8 bytes round-trip fine (0xFF, 0xFE are invalid UTF-8 starts).
    let weird_key: &[u8] = &[0x00, 0xFF, 0xFE, 0x42];
    let weird_val: &[u8] = &[0xDE, 0xAD, 0xBE, 0xEF];
    db.put(weird_key, weird_val).unwrap();
    assert_eq!(db.get(weird_key).unwrap(), Some(weird_val.to_vec()));
}

// ---------------------------------------------------------------------------
// Reads through memory and tables
// ---------------------------------------------------------------------------

#[test]
fn get_returns_flushed_value() {
    let mut db = Store::open(&new_dir()).expect("open");
    db.put(b"key", b"value").expect("put");
    db.flush().expect("flush");
    assert_eq!(
        db.get(b"key").expect("get"),
        Some(b"value".to_vec()),
        "a flushed key must be readable from the SSTable"
    );
}

#[test]
fn multiple_keys_survive_flush() {
    let mut db = Store::open(&new_dir()).expect("open");
    db.put(b"apple", b"1").expect("put");
    db.put(b"banana", b"2").expect("put");
    db.put(b"cherry", b"3").expect("put");
    db.flush().expect("flush");

    assert_eq!(db.get(b"apple").expect("get"), Some(b"1".to_vec()));
    assert_eq!(db.get(b"banana").expect("get"), Some(b"2".to_vec()));
    assert_eq!(db.get(b"cherry").expect("get"), Some(b"3".to_vec()));
    assert_eq!(db.get(b"date").expect("get"), None, "absent key still None");
}

#[test]
fn memtable_shadows_sstable() {
    let mut db = Store::open(&new_dir()).expect("open");
    db.put(b"k", b"old").expect("put");
    db.flush().expect("flush");

    // Write a newer value — now only in the memtable.
    db.put(b"k", b"new").expect("put");
    assert_eq!(
        db.get(b"k").expect("get"),
        Some(b"new".to_vec()),
        "the memtable value must shadow the flushed value"
    );
}

#[test]
fn tombstone_in_sstable_returns_none() {
    let mut db = Store::open(&new_dir()).expect("open");
    db.put(b"k", b"v").expect("put");
    db.delete(b"k").expect("delete"); // tombstone in memtable
    db.flush().expect("flush"); // tombstone now in SSTable
    assert_eq!(
        db.get(b"k").expect("get"),
        None,
        "a tombstone in the SSTable means the key is absent"
    );
}

#[test]
fn memtable_tombstone_shadows_sstable_live_value() {
    let mut db = Store::open(&new_dir()).expect("open");
    db.put(b"k", b"v").expect("put");
    db.flush().expect("flush"); // live value now in SSTable
    db.delete(b"k").expect("delete"); // tombstone now in memtable
    assert_eq!(
        db.get(b"k").expect("get"),
        None,
        "a memtable tombstone must shadow the flushed live value"
    );
}

#[test]
fn absent_key_returns_none_after_flush() {
    let mut db = Store::open(&new_dir()).expect("open");
    db.put(b"k", b"v").expect("put");
    db.flush().expect("flush");
    assert_eq!(db.get(b"never").expect("get"), None);
}

#[test]
fn get_works_before_any_flush() {
    let mut db = Store::open(&new_dir()).expect("open");
    assert_eq!(db.get(b"k").expect("get"), None, "absent key before flush");

    db.put(b"k", b"v").expect("put");
    assert_eq!(
        db.get(b"k").expect("get"),
        Some(b"v".to_vec()),
        "memtable read before flush"
    );
}

#[test]
fn post_flush_write_is_readable() {
    let mut db = Store::open(&new_dir()).expect("open");
    db.put(b"a", b"1").expect("put");
    db.flush().expect("flush");

    // New write not yet flushed.
    db.put(b"b", b"2").expect("put");
    assert_eq!(
        db.get(b"a").expect("get"),
        Some(b"1".to_vec()),
        "from SSTable"
    );
    assert_eq!(
        db.get(b"b").expect("get"),
        Some(b"2".to_vec()),
        "from memtable"
    );
}

#[test]
fn overwrite_after_flush() {
    let mut db = Store::open(&new_dir()).expect("open");
    db.put(b"k", b"old").expect("put");
    db.flush().expect("flush");
    db.put(b"k", b"new").expect("put");
    assert_eq!(
        db.get(b"k").expect("get"),
        Some(b"new".to_vec()),
        "newer memtable value must win over flushed value"
    );
}

/// A table that cannot be read fails the search, unless memory decides it.
#[test]
fn unreadable_table_fails_the_search() {
    let dir = new_dir();
    let mut db = Store::open(&dir).expect("open");
    db.put(b"k", b"v").expect("put");
    db.flush().expect("flush");
    db.put(b"m", b"w").expect("put");

    dir.borrow_mut().broken = Some(Operation::Read);
    assert_eq!(db.get(b"m").expect("get"), Some(b"w".to_vec()));
    // No block can hold this key, so that the file is not read.
    assert_eq!(db.get(b"a").expect("get"), None);
    assert!(matches!(db.get(b"k"), Err(Error::Io(_))));
    assert_eq!(db.get(b"k").expect("get"), Some(b"v".to_vec()));
}

/// A flush takes the place of the earlier table: the store has one table again,
/// and its tombstone counts.
#[test]
fn flushed_tombstone_takes_the_place_of_the_value() {
    let mut db = Store::open(&new_dir()).expect("open");
    db.put(b"k", b"v").expect("put");
    db.flush().expect("flush");
    db.delete(b"k").expect("delete");
    db.flush().expect("flush");
    match db.db.get(b"k") {
        Lookup::Read { table, start } => assert_eq!((table, start), (0, 0)),
        Lookup::Done(_) => panic!("the table has to be read"),
    }
    assert_eq!(db.get(b"k").expect("get"), None);
}

/// A key that only a replaced table held is missing, which is not an error, though
/// the replaced table was longer than the new one.
#[test]
fn key_of_a_replaced_table_is_missing() {
    let mut db = Store::open(&new_dir()).expect("open");
    db.put(b"zzzz", b"1111").expect("put");
    db.flush().expect("first flush");
    db.put(b"a", b"2").expect("put");
    db.flush().expect("second flush");
    assert_eq!(db.get(b"zzzz").expect("get"), None);
    assert_eq!(db.get(b"a").expect("get"), Some(b"2".to_vec()));
    assert_eq!(db.get(b"b").expect("get"), None);
}

/// The same holds where the replaced table had several blocks, whose offsets lead
/// into the middle of a record of the new one.
#[test]
fn blocks_of_a_replaced_table_are_forgotten() {
    let mut db = Store::open(&new_dir()).expect("open");
    for i in 0..300u32 {
        db.put(&i.to_be_bytes(), &[7; 100]).expect("put");
    }
    db.flush().expect("first flush");
    db.put(b"\x00", &[9; 20_000]).expect("put");
    db.flush().expect("second flush");
    for i in 0..300u32 {
        assert_eq!(db.get(&i.to_be_bytes()).expect("get"), None);
    }
    assert_eq!(db.get(b"\x00").expect("get"), Some(vec![9; 20_000]));
}

/// Where a table was replaced and the new one cannot be taken up, the replaced one
/// is forgotten all the same, and memory and log keep their entries.
#[test]
fn replaced_table_is_forgotten_where_the_new_one_fails() {
    let dir = new_dir();
    let mut db = Store::open(&dir).expect("open");
    db.put(b"zzzz", b"1111").expect("put");
    db.flush().expect("first flush");
    db.put(b"a", b"2").expect("put");
    dir.borrow_mut().broken = Some(Operation::Read);
    assert!(matches!(db.flush(), Err(Error::Io(_))));
    assert_eq!(db.get(b"zzzz").expect("get"), None);
    assert_eq!(db.get(b"a").expect("get"), Some(b"2".to_vec()));
    assert_eq!(dir.borrow().wal, encode_record(b"a", Some(b"2")));

    assert!(matches!(
        db.db.adopt_table(Ok(TableFile::whole(b"trash"))),
        Err(Error::CorruptSsTable { .. })
    ));
    assert_eq!(db.get(b"zzzz").expect("get"), None);
    assert_eq!(db.get(b"a").expect("get"), Some(b"2".to_vec()));
}

/// A tombstone in the log that claims value bytes takes them up too: the log is
/// cut off behind the last complete record, and nothing before that is lost.
#[test]
fn tombstone_with_a_value_in_the_log_is_counted_in_full() {
    let dir = new_dir();
    let mut log = encode_record(b"k", Some(b"value"));
    log[5] = 1;
    log.extend_from_slice(&encode_record(b"l", Some(b"kept")));
    let complete = log.clone();
    log.extend_from_slice(&encode_record(b"m", Some(b"torn"))[..7]);
    dir.borrow_mut().wal = log;

    let db = Store::open(&dir).expect("open");
    assert_eq!(dir.borrow().wal, complete);
    assert_eq!(db.get(b"k").expect("get"), None);
    assert_eq!(db.get(b"l").expect("get"), Some(b"kept".to_vec()));
    assert_eq!(db.get(b"m").expect("get"), None);
    drop(db);

    let db = Store::open(&dir).expect("reopen");
    assert_eq!(dir.borrow().wal, complete);
    assert_eq!(db.get(b"l").expect("get"), Some(b"kept".to_vec()));
}

/// Lengths that do not fit in 32 bits are refused, that of the key first.
#[test]
fn oversized_keys_and_values_are_refused() {
    let max = u32::MAX as usize;
    assert!(Db::<SkipListMemtable>::check_lengths(max, max).is_ok());
    let Some(over) = max.checked_add(1) else {
        return; // no length is too great here
    };
    match Db::<SkipListMemtable>::check_lengths(over, 1) {
        Err(Error::KeyTooLong { len }) => assert_eq!(len, over),
        other => panic!("expected a refusal, got {other:?}"),
    }
    match Db::<SkipListMemtable>::check_lengths(1, over) {
        Err(Error::ValueTooLong { len }) => assert_eq!(len, over),
        other => panic!("expected a refusal, got {other:?}"),
    }
    assert!(Db::<SkipListMemtable>::check_lengths(over, 0).is_err());
    assert!(matches!(
        Db::<SkipListMemtable>::check_lengths(over, over),
        Err(Error::KeyTooLong { .. })
    ));
}

/// Deleting a key without a value changes no read, before and after a flush.
#[test]
fn deleting_an_absent_key_changes_no_read() {
    let mut db = Store::open(&new_dir()).expect("open");
    db.put(b"a", b"1").expect("put");
    db.flush().expect("flush");
    db.put(b"c", b"3").expect("put");
    db.delete(b"b").expect("delete");
    assert_eq!(db.get(b"a").expect("get"), Some(b"1".to_vec()));
    assert_eq!(db.get(b"b").expect("get"), None);
    assert_eq!(db.get(b"c").expect("get"), Some(b"3".to_vec()));
}

/// Of several writes in the log the last one counts, and what is recovered can
/// be flushed.
#[test]
fn recovered_entries_can_be_flushed() {
    let dir = new_dir();
    let mut db = Store::open(&dir).expect("open");
    db.put(b"a", b"1").expect("put");
    db.put(b"b", b"2").expect("put");
    db.delete(b"a").expect("delete");
    db.put(b"b", b"3").expect("put");
    db.put(b"a", b"4").expect("put");
    db.delete(b"b").expect("delete");
    drop(db);

    let mut db = Store::open(&dir).expect("reopen");
    assert_eq!(db.get(b"a").expect("get"), Some(b"4".to_vec()));
    assert_eq!(db.get(b"b").expect("get"), None);
    db.flush().expect("flush");
    assert_eq!(db.get(b"a").expect("get"), Some(b"4".to_vec()));
    assert_eq!(db.get(b"b").expect("get"), None);
}

/// A flush that was interrupted before the log was emptied loses nothing.
#[test]
fn crash_during_a_flush_loses_nothing() {
    let dir = new_dir();
    let mut db = Store::open(&dir).expect("open");
    db.put(b"k", b"v").expect("put");
    dir.borrow_mut().broken = Some(Operation::Reset);
    assert!(db.flush().is_err());
    drop(db);

    let db = Store::open(&dir).expect("reopen");
    assert_eq!(db.get(b"k").expect("get"), Some(b"v".to_vec()));
}
