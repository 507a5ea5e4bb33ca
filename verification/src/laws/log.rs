//! What the write-ahead log gives back at startup.

use vstd::prelude::*;

use crate::bytes::{le_bytes, lemma_le_value_of_le_bytes, lemma_u32_fits};
use crate::db::with_records;
use crate::error::ErrorView;
use crate::laws::format::{frame, law_cut_record_is_reported, law_record_reads_by_its_tag};
use crate::lookup::state_of;
use crate::memtable::entries_encodable;
use crate::reader::ReaderView;
use crate::record::{
    decoded, invalid_tag_detail, law_encoded_len_is_length_of_encoding,
    law_torn_record_is_incomplete, DecodeErrorView, RecordView, LIVE_TAG, TOMBSTONE_TAG,
};
use crate::run::{
    all_encodable, encodings, law_run_reads_back_what_was_written, lemma_encodings_len,
    lemma_run_bounds, lemma_run_of_cut_input, lemma_total_len_push, run_of, total_len,
};
use crate::text::{byte_list, decimal};
use crate::wal::{replayed, ReplayView};

verus! {

/// What a log that holds `log` and can be read yields.
pub open spec fn recovery(path: Seq<u8>, log: Seq<u8>) -> Result<ReplayView, ErrorView> {
    replayed(path, log.len(), ReaderView { rest: log, fault: None })
}

/// Whether `log` holds the records of writes that lead to `entries`.
pub open spec fn mirrors(log: Seq<u8>, entries: Map<Seq<u8>, Option<Seq<u8>>>) -> bool {
    exists|records: Seq<RecordView>|
        all_encodable(records) && log == #[trigger] encodings(records) && entries == with_records(
            Map::empty(),
            records,
        )
}

/// The entries to which a replay leads.
pub open spec fn recovered_entries(replay: ReplayView) -> Map<Seq<u8>, Option<Seq<u8>>> {
    with_records(Map::empty(), replay.records)
}

/// An empty log mirrors a store without entries in memory: so it is for a new
/// store, and again after a flush.
pub proof fn law_empty_log_mirrors_empty_memtable()
    ensures
        mirrors(Seq::empty(), Map::empty()),
{
    let records = Seq::<RecordView>::empty();
    assert(all_encodable(records));
    assert(encodings(records) =~= Seq::<u8>::empty());
}

/// A write that is appended to the log and made in memory leaves the log a
/// mirror of the memory.
pub proof fn law_write_keeps_log_a_mirror(
    log: Seq<u8>,
    entries: Map<Seq<u8>, Option<Seq<u8>>>,
    record: RecordView,
)
    requires
        mirrors(log, entries),
        record.encodable(),
    ensures
        mirrors(log + record.encoding(), entries.insert(record.key, record.val)),
{
    let records = choose|records: Seq<RecordView>|
        all_encodable(records) && log == #[trigger] encodings(records) && entries == with_records(
            Map::empty(),
            records,
        );
    let more = records.push(record);
    lemma_total_len_push(records, record);
    assert(more.drop_last() =~= records);
    assert(all_encodable(more));
    assert(encodings(more) == log + record.encoding());
}

/// Every acknowledged write is recovered: reopening a store whose log mirrors
/// its memory leads to the same memory, and leaves the log as it is, so that
/// it can be recovered again.
pub proof fn law_reopening_recovers_every_write(
    path: Seq<u8>,
    log: Seq<u8>,
    entries: Map<Seq<u8>, Option<Seq<u8>>>,
)
    requires
        mirrors(log, entries),
    ensures
        recovery(path, log) matches Ok(replay) && replay.truncate_to is None && recovered_entries(
            replay,
        ) == entries,
{
    let records = choose|records: Seq<RecordView>|
        all_encodable(records) && log == #[trigger] encodings(records) && entries == with_records(
            Map::empty(),
            records,
        );
    let nothing = Seq::<u8>::empty();
    lemma_encodings_len(records);
    law_run_reads_back_what_was_written(records, nothing, None, log.len() as int);
    assert(log + nothing =~= log);
    assert(run_of(ReaderView { rest: log, fault: None }, log.len() as int).records =~= records);
}

/// A write of which only a part reached the log was never acknowledged: it is
/// not recovered, all earlier ones are, and the log is cut off behind them,
/// which makes it a mirror again.
pub proof fn law_torn_write_is_cut_off(
    path: Seq<u8>,
    log: Seq<u8>,
    entries: Map<Seq<u8>, Option<Seq<u8>>>,
    record: RecordView,
    written: nat,
)
    requires
        mirrors(log, entries),
        record.encodable(),
        0 < written < record.encoded_len(),
    ensures
        recovery(path, log + record.encoding().take(written as int)) matches Ok(replay)
            && replay.truncate_to == Some(log.len()) && recovered_entries(replay) == entries,
        mirrors(
            (log + record.encoding().take(written as int)).take(log.len() as int),
            entries,
        ),
{
    let records = choose|records: Seq<RecordView>|
        all_encodable(records) && log == #[trigger] encodings(records) && entries == with_records(
            Map::empty(),
            records,
        );
    let torn = record.encoding().take(written as int);
    let whole = log + torn;
    law_encoded_len_is_length_of_encoding(record);
    lemma_encodings_len(records);
    law_torn_record_is_incomplete(record, written);
    law_run_reads_back_what_was_written(records, torn, None, whole.len() as int);
    let run = run_of(ReaderView { rest: whole, fault: None }, whole.len() as int);
    assert(run.records =~= records);
    assert(whole.take(log.len() as int) =~= log);
}

/// Where a log is cut off, it becomes shorter.
pub proof fn law_cutting_off_shortens_the_log(path: Seq<u8>, file_len: nat, source: ReaderView)
    requires
        replayed(path, file_len, source) matches Ok(replay) && replay.truncate_to is Some,
    ensures
        replayed(path, file_len, source)->Ok_0.truncate_to->0 < file_len,
{
    lemma_run_bounds(source, file_len as int);
}

/// What is left of a log once it was cut off where a replay says.
pub open spec fn cut_log(log: Seq<u8>, replay: ReplayView) -> Seq<u8> {
    match replay.truncate_to {
        Some(len) => log.take(len as int),
        None => log,
    }
}

/// A recovery can be repeated: once a log was cut off behind the records that
/// were recovered from it, it yields the same records and is not cut again.
pub proof fn law_recovery_can_be_repeated(path: Seq<u8>, log: Seq<u8>)
    requires
        recovery(path, log) is Ok,
    ensures
        recovery(path, cut_log(log, recovery(path, log)->Ok_0)) == Ok::<ReplayView, ErrorView>(
            ReplayView { truncate_to: None, ..recovery(path, log)->Ok_0 },
        ),
{
    let source = ReaderView { rest: log, fault: None };
    lemma_run_bounds(source, log.len() as int);
    lemma_run_of_cut_input(source, log.len() as int);
}

/// The bytes of a complete record with a tag of any kind.
pub open spec fn tagged_frame(key: Seq<u8>, tag: u8, val: Seq<u8>) -> Seq<u8> {
    le_bytes(key.len(), 4) + key + seq![tag] + le_bytes(val.len(), 4) + val
}

/// Damage before the last complete record is reported, not passed over: a
/// complete record with an unknown tag fails the recovery as corruption,
/// whatever stands before and behind it.
pub proof fn law_damaged_log_is_corrupt(
    path: Seq<u8>,
    records: Seq<RecordView>,
    key: Seq<u8>,
    tag: u8,
    val: Seq<u8>,
    following: Seq<u8>,
)
    requires
        all_encodable(records),
        key.len() <= u32::MAX,
        val.len() <= u32::MAX,
        tag != LIVE_TAG,
        tag != TOMBSTONE_TAG,
    ensures
        recovery(path, encodings(records) + tagged_frame(key, tag, val) + following) == Err::<
            ReplayView,
            ErrorView,
        >(ErrorView::CorruptWal { path, detail: invalid_tag_detail(key, tag) }),
{
    let frame = tagged_frame(key, tag, val);
    let rest = frame + following;
    let whole = encodings(records) + frame + following;
    lemma_encodings_len(records);
    lemma_u32_fits(key.len());
    lemma_u32_fits(val.len());
    lemma_le_value_of_le_bytes(key.len(), 4);
    lemma_le_value_of_le_bytes(val.len(), 4);
    assert(whole =~= encodings(records) + rest);
    assert(rest.take(4) =~= le_bytes(key.len(), 4));
    assert(rest.subrange(4, 4 + key.len() as int) =~= key);
    assert(rest[4 + key.len() as int] == tag);
    assert(rest.subrange(5 + key.len() as int, 9 + key.len() as int) =~= le_bytes(val.len(), 4));
    assert(decoded(ReaderView { rest, fault: None }) == Err::<
        (RecordView, nat),
        DecodeErrorView,
    >(DecodeErrorView::InvalidTag { key, tag }));
    law_run_reads_back_what_was_written(records, rest, None, whole.len() as int);
}

/// Of several writes of one key the last one counts, and writes of other keys
/// do not matter.
pub proof fn law_last_write_of_a_key_wins(
    entries: Map<Seq<u8>, Option<Seq<u8>>>,
    records: Seq<RecordView>,
    key: Seq<u8>,
)
    ensures
        forall|last: int|
            0 <= last < records.len() && #[trigger] records[last].key == key && (forall|later: int|
                last < later < records.len() ==> #[trigger] records[later].key != key) ==> state_of(
                with_records(entries, records),
                key,
            ) == Some(records[last].val),
        (forall|i: int| 0 <= i < records.len() ==> #[trigger] records[i].key != key) ==> state_of(
            with_records(entries, records),
            key,
        ) == state_of(entries, key),
    decreases records.len(),
{
    if records.len() > 0 {
        let earlier = records.drop_last();
        let end = records.len() - 1;
        law_last_write_of_a_key_wins(entries, earlier, key);
        assert forall|last: int|
            0 <= last < records.len() && #[trigger] records[last].key == key && (forall|later: int|
                last < later < records.len() ==> #[trigger] records[later].key
                    != key) implies state_of(with_records(entries, records), key) == Some(
            records[last].val,
        ) by {
            if last < end {
                assert(earlier[last].key == key);
                assert(records[end].key != key);
                assert forall|later: int|
                    last < later < earlier.len() implies #[trigger] earlier[later].key != key by {
                    assert(records[later].key != key);
                }
            }
        }
        if forall|i: int| 0 <= i < records.len() ==> #[trigger] records[i].key != key {
            assert(records[end].key != key);
            assert forall|i: int| 0 <= i < earlier.len() implies #[trigger] earlier[i].key
                != key by {
                assert(records[i].key != key);
            }
        }
    }
}

/// Writes whose lengths fit in their fields leave entries of which the same holds.
pub proof fn law_writes_keep_entries_encodable(
    entries: Map<Seq<u8>, Option<Seq<u8>>>,
    records: Seq<RecordView>,
)
    requires
        entries_encodable(entries),
        all_encodable(records),
    ensures
        entries_encodable(with_records(entries, records)),
    decreases records.len(),
{
    if records.len() > 0 {
        let earlier = records.drop_last();
        assert forall|i: int| 0 <= i < earlier.len() implies (
        #[trigger] earlier[i]).encodable() by {
            assert(records[i].encodable());
        }
        law_writes_keep_entries_encodable(entries, earlier);
        assert(records.last() == records[records.len() - 1]);
        let last = records.last();
        assert(last =~= (RecordView { key: last.key, val: last.val }));
        assert(last.encodable());
    }
}

/// Whatever a log holds, what is recovered from it can be flushed.
pub proof fn law_recovered_entries_can_be_flushed(
    path: Seq<u8>,
    file_len: nat,
    source: ReaderView,
)
    requires
        replayed(path, file_len, source) is Ok,
    ensures
        entries_encodable(recovered_entries(replayed(path, file_len, source)->Ok_0)),
{
    lemma_run_bounds(source, file_len as int);
    law_writes_keep_entries_encodable(Map::empty(), run_of(source, file_len as int).records);
}

/// A log of no bytes yields nothing, and is not cut off.
pub proof fn law_empty_log_yields_nothing(path: Seq<u8>, source: ReaderView)
    ensures
        replayed(path, 0, source) == Ok::<ReplayView, ErrorView>(
            ReplayView { records: Seq::empty(), truncate_to: None },
        ),
{
}

/// What a replay yields where one more record stands in front of the log.
pub open spec fn behind_record(
    record: RecordView,
    len: nat,
    rest: Result<ReplayView, ErrorView>,
) -> Result<ReplayView, ErrorView> {
    match rest {
        Err(error) => Err(error),
        Ok(replay) => Ok(
            ReplayView {
                records: seq![record] + replay.records,
                truncate_to: match replay.truncate_to {
                    Some(at) => Some(at + len),
                    None => None,
                },
            },
        ),
    }
}

/// A record in front of a log is recovered first, and all that is recovered from
/// what follows comes behind it, with a cut or failure as it would be without the
/// record: a live value where the tag is 0, a tombstone where it is 1.
pub proof fn law_record_in_front_is_recovered_first(
    path: Seq<u8>,
    key: Seq<u8>,
    tag: u8,
    val: Seq<u8>,
    following: Seq<u8>,
    fault: Option<std::io::Error>,
    file_len: nat,
)
    requires
        key.len() < 0x1_0000_0000,
        val.len() < 0x1_0000_0000,
        tag == 0 || tag == 1,
        file_len > 0,
    ensures
        replayed(
            path,
            file_len,
            ReaderView { rest: frame(key, tag, val) + following, fault },
        ) == behind_record(
            RecordView {
                key,
                val: if tag == 0 {
                    Some(val)
                } else {
                    None
                },
            },
            9 + key.len() + val.len(),
            replayed(
                path,
                if file_len >= 9 + key.len() + val.len() {
                    (file_len - (9 + key.len() + val.len())) as nat
                } else {
                    0
                },
                ReaderView { rest: following, fault },
            ),
        ),
{
    let len = 9 + key.len() + val.len();
    let rest = ReaderView { rest: following, fault };
    law_record_reads_by_its_tag(key, tag, val, following, fault);
    if file_len < len {
        assert(run_of(rest, file_len - len) == run_of(rest, 0));
    }
}

/// A record with an unknown tag fails the recovery, with the path of the log, the
/// tag and the key in the report, whatever follows.
pub proof fn law_unknown_tag_fails_the_recovery(
    path: Seq<u8>,
    key: Seq<u8>,
    tag: u8,
    val: Seq<u8>,
    following: Seq<u8>,
    fault: Option<std::io::Error>,
    file_len: nat,
)
    requires
        key.len() < 0x1_0000_0000,
        val.len() < 0x1_0000_0000,
        tag > 1,
        file_len > 0,
    ensures
        replayed(
            path,
            file_len,
            ReaderView { rest: frame(key, tag, val) + following, fault },
        ) == Err::<ReplayView, ErrorView>(
            ErrorView::CorruptWal {
                path,
                detail: "Invalid tag "@ + decimal(tag as nat) + " in record for "@ + byte_list(key),
            },
        ),
{
    law_record_reads_by_its_tag(key, tag, val, following, fault);
}

/// A log that ends within a record is cut off in front of it. Where the rest of the
/// record could not be read, the failure is passed on, and nothing is cut off.
pub proof fn law_cut_record_ends_the_recovery(
    path: Seq<u8>,
    key: Seq<u8>,
    tag: u8,
    val: Seq<u8>,
    n: nat,
    fault: Option<std::io::Error>,
    file_len: nat,
)
    requires
        key.len() < 0x1_0000_0000,
        val.len() < 0x1_0000_0000,
        n < 9 + key.len() + val.len(),
        file_len > 0,
    ensures
        replayed(
            path,
            file_len,
            ReaderView { rest: frame(key, tag, val).take(n as int), fault },
        ) == (match fault {
            Some(error) => Err(ErrorView::Io(error)),
            None => Ok(ReplayView { records: Seq::empty(), truncate_to: Some(0) }),
        }),
{
    law_cut_record_is_reported(key, tag, val, n, fault);
}

/// A failure to read the log is passed on, however many records were read before
/// it: the recovery does not take it for the end of the log.
pub proof fn law_failure_to_read_the_log_is_passed_on(
    path: Seq<u8>,
    records: Seq<RecordView>,
    under_way: RecordView,
    written: nat,
    error: std::io::Error,
    file_len: nat,
)
    requires
        all_encodable(records),
        under_way.encodable(),
        written < under_way.encoded_len(),
        total_len(records) < file_len,
    ensures
        replayed(
            path,
            file_len,
            ReaderView {
                rest: encodings(records) + under_way.encoding().take(written as int),
                fault: Some(error),
            },
        ) == Err::<ReplayView, ErrorView>(ErrorView::Io(error)),
{
    let torn = under_way.encoding().take(written as int);
    law_cut_record_is_reported(
        under_way.key,
        under_way.tag(),
        under_way.val_bytes(),
        written,
        Some(error),
    );
    law_run_reads_back_what_was_written(records, torn, Some(error), file_len as int);
}

} // verus!
