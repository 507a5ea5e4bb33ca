//! What a read of the store gives back of its writes.

use vstd::prelude::*;

use crate::db::{searched, table_file_name, value_of, DbView, Reads};
use crate::error::ErrorView;
use crate::index::floor_offset;
use crate::laws::log::{
    law_reopening_recovers_every_write, law_torn_write_is_cut_off, mirrors, recovered_entries,
    recovery,
};
use crate::laws::table::{
    flushed_table, law_flushed_table_answers_as_memtable, law_flushed_table_opens, read_from,
    table_answer,
};
use crate::memtable::{entries_encodable, law_listing_is_unique, listing, lists};
use crate::paths::{
    joined, law_file_name_of_joined, law_tmp_path_names_tmp, lemma_after_last_is, names_tmp,
    tmp_extension, tmp_path_of, DOT, SEPARATOR,
};
use crate::reader::ReaderView;
use crate::record::RecordView;
use crate::sstable::{looked_up, opened, table_bytes, whole_file, SsTableView};
use crate::wal::wal_file_name;

verus! {

/// What the files of the tables read as for a search for `key`, where each path
/// holds the bytes that `files` gives and can be read.
pub open spec fn intact_reads(
    tables: Seq<SsTableView>,
    files: Map<Seq<u8>, Seq<u8>>,
    key: Seq<u8>,
) -> Reads {
    |i: int|
        Ok::<ReaderView, std::io::Error>(
            match floor_offset(tables[i].index, key) {
                Some(start) => read_from(files[tables[i].path], start as nat),
                None => read_from(files[tables[i].path], 0),
            },
        )
}

/// The value that the store has for `key` where its tables are as `files` gives them.
pub open spec fn value_with_files(
    db: DbView,
    files: Map<Seq<u8>, Seq<u8>>,
    key: Seq<u8>,
) -> Result<Option<Seq<u8>>, ErrorView> {
    value_of(db, key, intact_reads(db.sstables, files, key))
}

/// The files after a flush: the table was written, in place of an earlier one.
pub open spec fn files_after_flush(db: DbView, files: Map<Seq<u8>, Seq<u8>>) -> Map<
    Seq<u8>,
    Seq<u8>,
> {
    files.insert(db.table_path(), table_bytes(listing(db.memtable)))
}

/// The store after a flush: it has the table that was written as its newest, in
/// place of earlier ones of that path, and no entries in memory.
pub open spec fn after_flush(db: DbView) -> DbView {
    DbView {
        memtable: Map::empty(),
        sstables: db.other_tables().push(
            opened(db.table_path(), whole_file(table_bytes(listing(db.memtable))))->Ok_0,
        ),
        ..db
    }
}

/// A store that was just created has no value for any key.
pub proof fn law_new_store_has_no_values(path: Seq<u8>, key: Seq<u8>, reads: Reads)
    ensures
        value_of(reopened(path, Map::empty()), key, reads) == Ok::<Option<Seq<u8>>, ErrorView>(
            None,
        ),
{
}

/// A value that was put is read back, whatever the store and its files hold.
pub proof fn law_put_is_read_back(db: DbView, key: Seq<u8>, value: Seq<u8>, reads: Reads)
    ensures
        value_of(db.with_record(RecordView { key, val: Some(value) }), key, reads) == Ok::<
            Option<Seq<u8>>,
            ErrorView,
        >(Some(value)),
{
}

/// A key that was deleted has no value, even where a table still holds one.
pub proof fn law_deleted_key_has_no_value(db: DbView, key: Seq<u8>, reads: Reads)
    ensures
        value_of(db.with_record(RecordView { key, val: None }), key, reads) == Ok::<
            Option<Seq<u8>>,
            ErrorView,
        >(None),
{
}

/// A write does not change what is read of other keys.
pub proof fn law_write_leaves_other_keys(
    db: DbView,
    record: RecordView,
    other: Seq<u8>,
    reads: Reads,
)
    requires
        other != record.key,
    ensures
        value_of(db.with_record(record), other, reads) == value_of(db, other, reads),
{
}

/// Deleting a key that has no value changes no read.
pub proof fn law_deleting_absent_key_changes_no_read(
    db: DbView,
    key: Seq<u8>,
    other: Seq<u8>,
    reads: Reads,
)
    requires
        value_of(db, key, reads) == Ok::<Option<Seq<u8>>, ErrorView>(None),
    ensures
        value_of(db.with_record(RecordView { key, val: None }), other, reads) == (if other == key {
            Ok(None)
        } else {
            value_of(db, other, reads)
        }),
{
}

/// What memory knows of a key, live or tombstone, decides before every table.
pub proof fn law_memtable_shadows_tables(db: DbView, key: Seq<u8>, reads: Reads)
    requires
        db.memtable.contains_key(key),
    ensures
        value_of(db, key, reads) == Ok::<Option<Seq<u8>>, ErrorView>(db.memtable[key]),
{
}

/// A newer table that knows a key decides before all older ones: a tombstone
/// there does not let an older value come back.
pub proof fn law_newer_table_shadows_older(
    tables: Seq<SsTableView>,
    older: nat,
    key: Seq<u8>,
    reads: Reads,
    val: Option<Seq<u8>>,
)
    requires
        older < tables.len(),
        looked_up(tables[older as int], key, reads(older as int)) == Ok::<
            Option<Option<Seq<u8>>>,
            ErrorView,
        >(Some(val)),
        forall|i: int|
            older < i < tables.len() ==> #[trigger] looked_up(tables[i], key, reads(i)) == Ok::<
                Option<Option<Seq<u8>>>,
                ErrorView,
            >(None),
    ensures
        searched(tables, tables.len(), key, reads) == Ok::<Option<Seq<u8>>, ErrorView>(val),
{
    lemma_newer_tables_pass_on(tables, older, tables.len(), key, reads);
}

proof fn lemma_newer_tables_pass_on(
    tables: Seq<SsTableView>,
    older: nat,
    count: nat,
    key: Seq<u8>,
    reads: Reads,
)
    requires
        older < count <= tables.len(),
        forall|i: int|
            older < i < tables.len() ==> #[trigger] looked_up(tables[i], key, reads(i)) == Ok::<
                Option<Option<Seq<u8>>>,
                ErrorView,
            >(None),
    ensures
        searched(tables, count, key, reads) == searched(tables, older + 1, key, reads),
    decreases count,
{
    if count > older + 1 {
        assert(looked_up(tables[count - 1], key, reads(count - 1)) == Ok::<
            Option<Option<Seq<u8>>>,
            ErrorView,
        >(None));
        lemma_newer_tables_pass_on(tables, older, (count - 1) as nat, key, reads);
    }
}

/// The table that a flush writes is valid, and is the one of the memtable's entries.
pub proof fn law_flushed_store_has_table_of_memtable(db: DbView, records: Seq<RecordView>)
    requires
        lists(records, db.memtable),
        entries_encodable(db.memtable),
    ensures
        opened(db.table_path(), whole_file(table_bytes(listing(db.memtable)))) == Ok::<
            SsTableView,
            ErrorView,
        >(flushed_table(db.table_path(), records)),
        after_flush(db).sstables == db.other_tables().push(
            flushed_table(db.table_path(), records),
        ),
{
    law_listing_is_unique(records, records, db.memtable);
    assert forall|i: int| 0 <= i < records.len() implies (#[trigger] records[i]).encodable() by {
        assert(db.memtable.contains_key(records[i].key));
        assert(records[i] == (RecordView {
            key: records[i].key,
            val: db.memtable[records[i].key],
        }));
    }
    law_flushed_table_opens(db.table_path(), records);
}

/// A table that a flush leaves as it is answers as before.
proof fn lemma_other_tables_answer_as_before(
    db: DbView,
    files: Map<Seq<u8>, Seq<u8>>,
    key: Seq<u8>,
    count: nat,
)
    requires
        count <= db.other_tables().len(),
    ensures
        searched(
            after_flush(db).sstables,
            count,
            key,
            intact_reads(after_flush(db).sstables, files_after_flush(db, files), key),
        ) == searched(db.other_tables(), count, key, intact_reads(db.other_tables(), files, key)),
    decreases count,
{
    if count > 0 {
        let others = db.other_tables();
        assert(after_flush(db).sstables[count - 1] == others[count - 1]);
        lemma_other_tables_have_other_paths(db, count - 1);
        lemma_other_tables_answer_as_before(db, files, key, (count - 1) as nat);
    }
}

proof fn lemma_other_tables_have_other_paths(db: DbView, i: int)
    requires
        0 <= i < db.other_tables().len(),
    ensures
        db.other_tables()[i].path != db.table_path(),
{
    broadcast use vstd::seq_lib::group_filter_ensures;

    let is_other = |table: SsTableView| table.path != db.table_path();
    assert(is_other(db.sstables.filter(is_other)[i]));
}

/// What a flush makes of the reads, for every key: one that memory knew, live or
/// tombstone, reads as before, and any other one as the tables of other paths
/// have it. A key that they do not know has no value, which is not an error.
///
/// A table replaces an earlier one of the same path, and the keys that only the
/// earlier one knew are gone.
pub proof fn law_reads_after_flush(
    db: DbView,
    files: Map<Seq<u8>, Seq<u8>>,
    records: Seq<RecordView>,
    key: Seq<u8>,
)
    requires
        lists(records, db.memtable),
        entries_encodable(db.memtable),
        table_bytes(records).len() <= u64::MAX,
    ensures
        value_with_files(after_flush(db), files_after_flush(db, files), key) == value_with_files(
            DbView { sstables: db.other_tables(), ..db },
            files,
            key,
        ),
        db.memtable.contains_key(key) ==> value_with_files(
            after_flush(db),
            files_after_flush(db, files),
            key,
        ) == value_with_files(db, files, key),
{
    law_listing_is_unique(records, records, db.memtable);
    law_flushed_store_has_table_of_memtable(db, records);
    assert forall|i: int| 0 <= i < records.len() implies (#[trigger] records[i]).encodable() by {
        assert(db.memtable.contains_key(records[i].key));
        assert(records[i] == (RecordView {
            key: records[i].key,
            val: db.memtable[records[i].key],
        }));
    }
    let table = flushed_table(db.table_path(), records);
    let after = after_flush(db);
    let new_files = files_after_flush(db, files);
    let reads = intact_reads(after.sstables, new_files, key);
    let newest = db.other_tables().len() as int;
    law_flushed_table_answers_as_memtable(db.table_path(), records, db.memtable, key);
    assert(after.sstables[newest] == table);
    assert(looked_up(table, key, reads(newest)) == table_answer(table, table_bytes(records), key));
    assert(value_of(after, key, reads) == searched(
        after.sstables,
        after.sstables.len(),
        key,
        reads,
    ));
    if !db.memtable.contains_key(key) {
        lemma_other_tables_answer_as_before(db, files, key, db.other_tables().len());
    }
}

/// A store whose tables all have the path that a flush writes has one table
/// after a flush, of that path: so it is for every store that began without
/// tables.
pub proof fn law_flush_leaves_one_table(db: DbView, records: Seq<RecordView>)
    requires
        lists(records, db.memtable),
        entries_encodable(db.memtable),
        forall|i: int|
            0 <= i < db.sstables.len() ==> (#[trigger] db.sstables[i]).path == db.table_path(),
    ensures
        db.other_tables().len() == 0,
        after_flush(db).sstables == seq![flushed_table(db.table_path(), records)],
{
    law_flushed_store_has_table_of_memtable(db, records);
    lemma_filter_keeps_nothing(
        db.sstables,
        |table: SsTableView| table.path != db.table_path(),
    );
}

proof fn lemma_filter_keeps_nothing(
    tables: Seq<SsTableView>,
    kept: spec_fn(SsTableView) -> bool,
)
    requires
        forall|i: int| 0 <= i < tables.len() ==> !kept(#[trigger] tables[i]),
    ensures
        tables.filter(kept).len() == 0,
    decreases tables.len(),
{
    reveal(Seq::filter);
    if tables.len() > 0 {
        assert forall|i: int| 0 <= i < tables.drop_last().len() implies !kept(
            #[trigger] tables.drop_last()[i],
        ) by {
            assert(!kept(tables[i]));
        }
        lemma_filter_keeps_nothing(tables.drop_last(), kept);
        assert(!kept(tables[tables.len() - 1]));
    }
}

/// Once every entry in memory was flushed, a key that was not among them has no
/// value, whatever an earlier flush had written: a missing key is not an error.
pub proof fn law_missing_key_is_no_error(
    db: DbView,
    files: Map<Seq<u8>, Seq<u8>>,
    records: Seq<RecordView>,
    key: Seq<u8>,
)
    requires
        lists(records, db.memtable),
        entries_encodable(db.memtable),
        table_bytes(records).len() <= u64::MAX,
        forall|i: int|
            0 <= i < db.sstables.len() ==> (#[trigger] db.sstables[i]).path == db.table_path(),
        !db.memtable.contains_key(key),
    ensures
        value_with_files(after_flush(db), files_after_flush(db, files), key) == Ok::<
            Option<Seq<u8>>,
            ErrorView,
        >(None),
{
    law_reads_after_flush(db, files, records, key);
    law_flush_leaves_one_table(db, records);
}

/// The store that opening a directory with such a log yields.
pub open spec fn reopened(path: Seq<u8>, entries: Map<Seq<u8>, Option<Seq<u8>>>) -> DbView {
    DbView { memtable: entries, path, sstables: Seq::empty() }
}

/// What was acknowledged survives the loss of the process: after a reopening
/// each key that memory knew reads as before, and so does each that had no value.
/// A write that was under way, of which only a part reached the log, makes no
/// difference.
///
/// Opening a directory takes up no table, so that a key whose value only a table
/// held has none afterwards.
pub proof fn law_acknowledged_writes_survive_a_crash(
    db: DbView,
    log: Seq<u8>,
    under_way: RecordView,
    written: nat,
    key: Seq<u8>,
    reads: Reads,
)
    requires
        mirrors(log, db.memtable),
        under_way.encodable(),
        written < under_way.encoded_len(),
        db.memtable.contains_key(key) || value_of(db, key, reads) == Ok::<
            Option<Seq<u8>>,
            ErrorView,
        >(None),
    ensures
        recovery(db.wal_path(), log + under_way.encoding().take(written as int)) matches Ok(replay)
            && value_of(reopened(db.path, recovered_entries(replay)), key, reads) == value_of(
            db,
            key,
            reads,
        ),
{
    if written == 0 {
        assert(log + under_way.encoding().take(0) =~= log);
        law_reopening_recovers_every_write(db.wal_path(), log, db.memtable);
    } else {
        law_torn_write_is_cut_off(db.wal_path(), log, db.memtable, under_way, written);
    }
}

/// The sweep at startup takes the remains of an interrupted flush, and neither
/// the log nor the table.
pub proof fn law_sweep_takes_only_remains(dir: Seq<u8>)
    ensures
        names_tmp(tmp_path_of(joined(dir, table_file_name()))),
        !names_tmp(joined(dir, table_file_name())),
        !names_tmp(joined(dir, wal_file_name())),
{
    reveal_strlit("tmp");
    reveal_strlit("wal");
    reveal_strlit("sstable.sst");
    let table = table_file_name();
    let log = wal_file_name();
    assert(table.len() == 11);
    assert(log.len() == 3);
    law_file_name_of_joined(dir, table);
    law_file_name_of_joined(dir, log);
    lemma_after_last_is(table, DOT, 8);
    assert(table.skip(8)[0] != tmp_extension()[0]);
    lemma_after_last_is(log, DOT, 0);
    assert(log.skip(0) =~= log);
    let path = joined(dir, table);
    let start = path.len() - table.len();
    assert forall|i: int| start <= i < path.len() implies path[i] != SEPARATOR by {
        assert(path[i] == table[i - start]);
    }
    lemma_after_last_is(path, SEPARATOR, start);
    law_tmp_path_names_tmp(path);
}

/// What a search yields is what the newest table yields that does not answer that
/// the key is absent: a value, a tombstone, or a failure of any kind.
pub proof fn law_first_answer_decides_the_search(
    tables: Seq<SsTableView>,
    at: nat,
    key: Seq<u8>,
    reads: Reads,
)
    requires
        at < tables.len(),
        looked_up(tables[at as int], key, reads(at as int)) != Ok::<
            Option<Option<Seq<u8>>>,
            ErrorView,
        >(None),
        forall|i: int|
            at < i < tables.len() ==> #[trigger] looked_up(tables[i], key, reads(i)) == Ok::<
                Option<Option<Seq<u8>>>,
                ErrorView,
            >(None),
    ensures
        match looked_up(tables[at as int], key, reads(at as int)) {
            Err(error) => searched(tables, tables.len(), key, reads) == Err::<
                Option<Seq<u8>>,
                ErrorView,
            >(error),
            Ok(state) => searched(tables, tables.len(), key, reads) == Ok::<
                Option<Seq<u8>>,
                ErrorView,
            >(state->0),
        },
{
    lemma_newer_tables_pass_on(tables, at, tables.len(), key, reads);
}

/// A failure of the newest table that does not answer that the key is absent fails
/// the read of a key that memory does not know, with that same failure, be it
/// corruption or a failure of the operating system.
pub proof fn law_failure_of_a_table_fails_the_read(
    db: DbView,
    at: nat,
    key: Seq<u8>,
    reads: Reads,
    error: ErrorView,
)
    requires
        !db.memtable.contains_key(key),
        at < db.sstables.len(),
        looked_up(db.sstables[at as int], key, reads(at as int)) == Err::<
            Option<Option<Seq<u8>>>,
            ErrorView,
        >(error),
        forall|i: int|
            at < i < db.sstables.len() ==> #[trigger] looked_up(db.sstables[i], key, reads(i))
                == Ok::<Option<Option<Seq<u8>>>, ErrorView>(None),
    ensures
        value_of(db, key, reads) == Err::<Option<Seq<u8>>, ErrorView>(error),
{
    law_first_answer_decides_the_search(db.sstables, at, key, reads);
}

/// The newest table that knows a key which memory does not know decides the read,
/// with its value, or with none where it holds a tombstone.
pub proof fn law_newest_table_that_knows_decides_the_read(
    db: DbView,
    at: nat,
    key: Seq<u8>,
    reads: Reads,
    val: Option<Seq<u8>>,
)
    requires
        !db.memtable.contains_key(key),
        at < db.sstables.len(),
        looked_up(db.sstables[at as int], key, reads(at as int)) == Ok::<
            Option<Option<Seq<u8>>>,
            ErrorView,
        >(Some(val)),
        forall|i: int|
            at < i < db.sstables.len() ==> #[trigger] looked_up(db.sstables[i], key, reads(i))
                == Ok::<Option<Option<Seq<u8>>>, ErrorView>(None),
    ensures
        value_of(db, key, reads) == Ok::<Option<Seq<u8>>, ErrorView>(val),
{
    law_first_answer_decides_the_search(db.sstables, at, key, reads);
}

/// A key that neither memory nor a table knows has no value, which is no failure.
pub proof fn law_key_that_no_layer_knows_has_no_value(db: DbView, key: Seq<u8>, reads: Reads)
    requires
        !db.memtable.contains_key(key),
        forall|i: int|
            0 <= i < db.sstables.len() ==> #[trigger] looked_up(db.sstables[i], key, reads(i))
                == Ok::<Option<Option<Seq<u8>>>, ErrorView>(None),
    ensures
        value_of(db, key, reads) == Ok::<Option<Seq<u8>>, ErrorView>(None),
{
    if db.sstables.len() > 0 {
        lemma_newer_tables_pass_on(db.sstables, 0, db.sstables.len(), key, reads);
        assert(looked_up(db.sstables[0], key, reads(0)) == Ok::<
            Option<Option<Seq<u8>>>,
            ErrorView,
        >(None));
        assert(searched(db.sstables, 0, key, reads) == Ok::<Option<Seq<u8>>, ErrorView>(None));
    }
}

/// A store with one table, whose file was damaged or cannot be read: a key that
/// memory does not know, and at which the search comes to the damage, reads as that
/// failure and not as a missing key.
pub proof fn law_failure_of_the_only_table_fails_the_read(
    db: DbView,
    key: Seq<u8>,
    reads: Reads,
)
    requires
        !db.memtable.contains_key(key),
        db.sstables.len() == 1,
        looked_up(db.sstables[0], key, reads(0)) is Err,
    ensures
        value_of(db, key, reads) == Err::<Option<Seq<u8>>, ErrorView>(
            looked_up(db.sstables[0], key, reads(0))->Err_0,
        ),
{
    law_failure_of_a_table_fails_the_read(
        db,
        0,
        key,
        reads,
        looked_up(db.sstables[0], key, reads(0))->Err_0,
    );
}

/// A write changes the entry of its key in memory, and nothing else of the store.
pub proof fn law_write_changes_one_entry(db: DbView, record: RecordView, key: Seq<u8>)
    ensures
        db.with_record(record).memtable.contains_key(key) <==> key == record.key
            || db.memtable.contains_key(key),
        db.with_record(record).memtable[record.key] == record.val,
        key != record.key ==> db.with_record(record).memtable[key] == db.memtable[key],
        db.with_record(record).path == db.path,
        db.with_record(record).sstables == db.sstables,
{
}

/// A flush leaves alone exactly the tables of other paths.
pub proof fn law_flush_leaves_tables_of_other_paths(db: DbView, table: SsTableView)
    ensures
        db.other_tables().contains(table) <==> db.sstables.contains(table) && table.path
            != db.table_path(),
{
    let is_other = |table: SsTableView| table.path != db.table_path();
    lemma_filter_keeps_exactly(db.sstables, is_other, table);
}

proof fn lemma_filter_keeps_exactly(
    tables: Seq<SsTableView>,
    kept: spec_fn(SsTableView) -> bool,
    table: SsTableView,
)
    ensures
        tables.filter(kept).contains(table) <==> tables.contains(table) && kept(table),
    decreases tables.len(),
{
    reveal(Seq::filter);
    if tables.len() > 0 {
        let front = tables.drop_last();
        let last = tables.last();
        lemma_filter_keeps_exactly(front, kept, table);
        assert(tables =~= front.push(last));
        assert(tables.contains(table) <==> front.contains(table) || table == last) by {
            if front.contains(table) {
                let i = choose|i: int| 0 <= i < front.len() && front[i] == table;
                assert(tables[i] == table);
            }
            if table == last {
                assert(tables[tables.len() - 1] == table);
            }
            if tables.contains(table) && table != last {
                let i = choose|i: int| 0 <= i < tables.len() && tables[i] == table;
                assert(front[i] == table);
            }
        }
        let shorter = front.filter(kept);
        if kept(last) {
            let longer = shorter.push(last);
            assert(longer.contains(table) <==> shorter.contains(table) || table == last) by {
                if shorter.contains(table) {
                    let i = choose|i: int| 0 <= i < shorter.len() && shorter[i] == table;
                    assert(longer[i] == table);
                }
                if table == last {
                    assert(longer[longer.len() - 1] == table);
                }
                if longer.contains(table) && table != last {
                    let i = choose|i: int| 0 <= i < longer.len() && longer[i] == table;
                    assert(shorter[i] == table);
                }
            }
        }
    }
}

/// The tables that a flush leaves alone keep their order.
pub proof fn law_tables_of_other_paths_keep_their_order(db: DbView, newest: SsTableView)
    ensures
        (DbView { sstables: Seq::empty(), ..db }).other_tables() == Seq::<SsTableView>::empty(),
        (DbView { sstables: db.sstables.push(newest), ..db }).other_tables() == (if newest.path
            == db.table_path() {
            db.other_tables()
        } else {
            db.other_tables().push(newest)
        }),
{
    reveal(Seq::filter);
    let more = DbView { sstables: db.sstables.push(newest), ..db };
    assert(more.table_path() == db.table_path());
    assert(more.sstables.drop_last() =~= db.sstables);
}

} // verus!
