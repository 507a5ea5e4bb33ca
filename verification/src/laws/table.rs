//! What a table that was flushed gives back.

use vstd::prelude::*;

use crate::bytes::{
    fits_in, le_bytes, le_value, lemma_le_bytes_of_le_value, lemma_le_value_of_le_bytes,
};
use crate::error::ErrorView;
use crate::index::{floor_offset, is_floor, lemma_floor_is_in_index};
use crate::laws::format::{
    field_cut_at, frame, law_cut_record_is_reported, law_layout_of_a_record,
    law_record_reads_by_its_tag, law_records_stand_one_after_the_other,
};
use crate::lookup::state_of;
use crate::memtable::{ascending, law_listing_is_unique, listing, lists};
use crate::order::{key_le, key_lt, lemma_key_order};
use crate::reader::ReaderView;
use crate::record::{
    decoded, law_decode_inverts_encode, law_encode_inverts_decode, leftover, lemma_decoded_bounds,
    DecodeErrorView, RecordView,
};
use crate::run::{
    all_encodable, encodings, law_run_reads_back_what_was_written, lemma_append,
    lemma_encodings_len, lemma_first, run_of, total_len,
};
use crate::sstable::{
    converted, index_of, is_indexed, looked_up, open_block_len, opened, scanned, state_in_run,
    table_bytes, table_of, whole_file, SsTableView, TableFileView, FOOTER_LEN, MAGIC,
};
use crate::text::{byte_list, decimal, hex_word};

verus! {

/// What a file that holds `bytes` reads as from `start` on.
pub open spec fn read_from(bytes: Seq<u8>, start: nat) -> ReaderView {
    ReaderView {
        rest: if start <= bytes.len() {
            bytes.skip(start as int)
        } else {
            Seq::empty()
        },
        fault: None,
    }
}

/// What `table` holds of `key`, where its file holds `bytes` and can be read.
pub open spec fn table_answer(table: SsTableView, bytes: Seq<u8>, key: Seq<u8>) -> Result<
    Option<Option<Seq<u8>>>,
    ErrorView,
> {
    looked_up(
        table,
        key,
        Ok(
            match floor_offset(table.index, key) {
                Some(start) => read_from(bytes, start as nat),
                None => read_from(bytes, 0),
            },
        ),
    )
}

/// The table that a flush of `records` to `path` yields.
pub open spec fn flushed_table(path: Seq<u8>, records: Seq<RecordView>) -> SsTableView {
    SsTableView { path, index: index_of(records), footer_start: total_len(records) }
}

/// A table that was flushed can be opened.
pub proof fn law_flushed_table_opens(path: Seq<u8>, records: Seq<RecordView>)
    requires
        all_encodable(records),
    ensures
        opened(path, whole_file(table_bytes(records))) == Ok::<SsTableView, ErrorView>(
            flushed_table(path, records),
        ),
{
    let bytes = table_bytes(records);
    let footer = le_bytes(MAGIC as nat, 8);
    lemma_encodings_len(records);
    lemma_le_value_of_le_bytes(MAGIC as nat, 8);
    assert(fits_in(MAGIC as nat, 8)) by {
        reveal_with_fuel(fits_in, 9);
    }
    assert(bytes.skip(bytes.len() - 8) =~= footer);
    lemma_scan_reads_back_what_was_written(path, records, footer, None, total_len(records) as int);
    assert(records + Seq::<RecordView>::empty() =~= records);
}

proof fn lemma_scan_of_record(
    path: Seq<u8>,
    record: RecordView,
    following: Seq<u8>,
    fault: Option<std::io::Error>,
    budget: int,
)
    requires
        record.encodable(),
        budget > 0,
    ensures
        scanned(path, ReaderView { rest: record.encoding() + following, fault }, budget) == (
        match scanned(path, ReaderView { rest: following, fault }, budget - record.encoded_len()) {
            Err(error) => Err(error),
            Ok(others) => Ok(seq![record] + others),
        }),
{
    law_decode_inverts_encode(record, following, fault);
}

/// A scan of records that were written one after the other yields them in their
/// order, and goes on with what follows.
proof fn lemma_scan_reads_back_what_was_written(
    path: Seq<u8>,
    records: Seq<RecordView>,
    following: Seq<u8>,
    fault: Option<std::io::Error>,
    budget: int,
)
    requires
        all_encodable(records),
        total_len(records) <= budget,
    ensures
        scanned(path, ReaderView { rest: encodings(records) + following, fault }, budget) == (
        match scanned(path, ReaderView { rest: following, fault }, budget - total_len(records)) {
            Err(error) => Err(error),
            Ok(others) => Ok(records + others),
        }),
    decreases records.len(),
{
    let behind = scanned(
        path,
        ReaderView { rest: following, fault },
        budget - total_len(records),
    );
    if records.len() == 0 {
        assert(encodings(records) + following =~= following);
        assert(behind is Ok ==> records + behind->Ok_0 =~= behind->Ok_0);
    } else {
        lemma_first(records);
        let first = records[0];
        let others = records.drop_first();
        let rest = encodings(others) + following;
        let left = budget - first.encoded_len();
        assert(encodings(records) + following =~= first.encoding() + rest);
        lemma_scan_of_record(path, first, rest, fault, budget);
        assert forall|i: int| 0 <= i < others.len() implies (#[trigger] others[i]).encodable() by {
            assert(records[i + 1].encodable());
        }
        lemma_scan_reads_back_what_was_written(path, others, following, fault, left);
        assert(left - total_len(others) == budget - total_len(records));
        lemma_scan_in_two_steps(
            first,
            records,
            scanned(path, ReaderView { rest: first.encoding() + rest, fault }, budget),
            scanned(path, ReaderView { rest, fault }, left),
            behind,
        );
    }
}

/// What is put in front of a scan in two steps is put there as a whole.
proof fn lemma_scan_in_two_steps(
    first: RecordView,
    records: Seq<RecordView>,
    whole: Result<Seq<RecordView>, ErrorView>,
    rest: Result<Seq<RecordView>, ErrorView>,
    behind: Result<Seq<RecordView>, ErrorView>,
)
    requires
        records.len() > 0,
        records[0] == first,
        whole == (match rest {
            Err(error) => Err(error),
            Ok(others) => Ok(seq![first] + others),
        }),
        rest == (match behind {
            Err(error) => Err(error),
            Ok(others) => Ok(records.drop_first() + others),
        }),
    ensures
        whole == (match behind {
            Err(error) => Err(error),
            Ok(others) => Ok(records + others),
        }),
{
    if behind is Ok {
        assert(seq![first] + (records.drop_first() + behind->Ok_0) =~= records + behind->Ok_0);
    }
}

/// A scan of a source without faults either yields records whose encodings the
/// source begins with, or reports corruption of the table at `path`.
proof fn lemma_scan_yields_encodings(path: Seq<u8>, source: ReaderView, budget: int)
    requires
        source.fault is None,
    ensures
        match scanned(path, source, budget) {
            Ok(records) => {
                &&& all_encodable(records)
                &&& total_len(records) <= source.rest.len()
                &&& source.rest.take(total_len(records) as int) == encodings(records)
            },
            Err(error) => error matches ErrorView::CorruptSsTable { path: reported, .. }
                && reported == path,
        },
    decreases source.rest.len(),
{
    if budget <= 0 {
        assert(source.rest.take(0) =~= Seq::<u8>::empty());
    } else if decoded(source) is Ok {
        lemma_decoded_bounds(source);
        let (record, len) = decoded(source)->Ok_0;
        if len == record.encoded_len() {
            let rest = leftover(source);
            lemma_scan_yields_encodings(path, rest, budget - len);
            law_encode_inverts_decode(source);
            if scanned(path, rest, budget - len) is Ok {
                let others = scanned(path, rest, budget - len)->Ok_0;
                let records = seq![record] + others;
                lemma_first(records);
                assert(records.drop_first() =~= others);
                assert(source.rest.take(total_len(records) as int) =~= source.rest.take(len as int)
                    + rest.rest.take(total_len(others) as int));
                assert forall|i: int| 0 <= i < records.len() implies (
                #[trigger] records[i]).encodable() by {
                    if i > 0 {
                        assert(others[i - 1].encodable());
                    }
                }
            }
        }
    }
}

/// A file that can be read opens exactly if it is a table: if its bytes are those
/// of some records, each of which can be written, and the footer. Every other
/// file is reported as corrupt, with its path.
pub proof fn law_file_opens_exactly_if_it_is_a_table(path: Seq<u8>, bytes: Seq<u8>)
    ensures
        opened(path, whole_file(bytes)) is Ok <==> exists|records: Seq<RecordView>|
            all_encodable(records) && bytes == #[trigger] table_bytes(records),
        opened(path, whole_file(bytes)) is Err ==> (opened(path, whole_file(bytes)) matches Err(
            ErrorView::CorruptSsTable { path: reported, .. },
        ) && reported == path),
{
    assert forall|records: Seq<RecordView>|
        all_encodable(records) && bytes == #[trigger] table_bytes(records) implies opened(
        path,
        whole_file(bytes),
    ) is Ok by {
        law_flushed_table_opens(path, records);
    }
    if bytes.len() >= FOOTER_LEN {
        let footer_start = bytes.len() - FOOTER_LEN;
        let source = ReaderView { rest: bytes, fault: None };
        let footer = bytes.skip(footer_start);
        lemma_scan_yields_encodings(path, source, footer_start);
        lemma_le_bytes_of_le_value(footer);
        if opened(path, whole_file(bytes)) is Ok {
            let records = scanned(path, source, footer_start)->Ok_0;
            assert(bytes =~= bytes.take(footer_start) + footer);
            assert(all_encodable(records) && bytes == table_bytes(records));
        }
    }
}

/// A tombstone has no value bytes: a file in which a record of the data takes up
/// more bytes than its encoding is corrupt, whatever stands before and behind it,
/// and wherever those bytes end.
pub proof fn law_tombstone_with_value_bytes_is_corrupt(
    path: Seq<u8>,
    file: TableFileView,
    records: Seq<RecordView>,
    rest: Seq<u8>,
)
    requires
        file.len >= FOOTER_LEN,
        file.footer == Ok::<Seq<u8>, std::io::Error>(le_bytes(MAGIC as nat, 8)),
        file.data.rest == encodings(records) + rest,
        all_encodable(records),
        total_len(records) < file.len - FOOTER_LEN,
        decoded(ReaderView { rest, fault: file.data.fault }) matches Ok((record, len)) && len
            > record.encoded_len(),
    ensures
        opened(path, file) matches Err(ErrorView::CorruptSsTable { path: reported, .. })
            && reported == path,
{
    lemma_le_value_of_le_bytes(MAGIC as nat, 8);
    assert(fits_in(MAGIC as nat, 8)) by {
        reveal_with_fuel(fits_in, 9);
    }
    lemma_scan_reads_back_what_was_written(
        path,
        records,
        rest,
        file.data.fault,
        file.len - FOOTER_LEN,
    );
    assert(file.data == (ReaderView { rest: encodings(records) + rest, fault: file.data.fault }));
}

/// The index of records in ascending order leads to the indexed ones among them.
proof fn lemma_index_of(records: Seq<RecordView>)
    requires
        ascending(records),
    ensures
        forall|key: Seq<u8>| #[trigger]
            index_of(records).contains_key(key) ==> exists|i: int|
                0 <= i < records.len() && #[trigger] records[i].key == key && index_of(records)[key]
                    == total_len(records.take(i)) as u64,
        records.len() > 0 ==> index_of(records).contains_key(records[0].key),
    decreases records.len(),
{
    lemma_key_order();
    if records.len() > 0 {
        let earlier = records.drop_last();
        assert forall|i: int, j: int| 0 <= i < j < earlier.len() implies key_lt(
            #[trigger] earlier[i].key,
            #[trigger] earlier[j].key,
        ) by {
            assert(key_lt(records[i].key, records[j].key));
        }
        lemma_index_of(earlier);
        assert forall|key: Seq<u8>| #[trigger]
            index_of(records).contains_key(key) implies exists|i: int|
            0 <= i < records.len() && #[trigger] records[i].key == key && index_of(records)[key]
                == total_len(records.take(i)) as u64 by {
            if key == records.last().key && is_indexed(earlier, records.last()) {
                let last = records.len() - 1;
                assert(records.take(last) =~= earlier);
                assert(records[last].key == key);
            } else {
                assert(index_of(earlier).contains_key(key));
                let i = choose|i: int|
                    0 <= i < earlier.len() && #[trigger] earlier[i].key == key && index_of(
                        earlier,
                    )[key] == total_len(earlier.take(i)) as u64;
                assert(records.take(i) =~= earlier.take(i));
                assert(records[i].key == key);
            }
        }
        if earlier.len() > 0 {
            assert(earlier[0].key == records[0].key);
        }
    }
}

/// A search through records in ascending order finds what they hold.
proof fn lemma_state_in_ascending(records: Seq<RecordView>, key: Seq<u8>)
    requires
        ascending(records),
    ensures
        forall|i: int|
            0 <= i < records.len() && #[trigger] records[i].key == key ==> state_in_run(
                records,
                None,
                key,
            ) == Ok::<Option<Option<Seq<u8>>>, DecodeErrorView>(Some(records[i].val)),
        (forall|i: int| 0 <= i < records.len() ==> #[trigger] records[i].key != key)
            ==> state_in_run(records, None, key) == Ok::<
            Option<Option<Seq<u8>>>,
            DecodeErrorView,
        >(None),
    decreases records.len(),
{
    lemma_key_order();
    if records.len() > 0 {
        let others = records.drop_first();
        assert forall|i: int, j: int| 0 <= i < j < others.len() implies key_lt(
            #[trigger] others[i].key,
            #[trigger] others[j].key,
        ) by {
            assert(key_lt(records[i + 1].key, records[j + 1].key));
        }
        lemma_state_in_ascending(others, key);
        assert forall|i: int|
            0 <= i < records.len() && #[trigger] records[i].key == key implies state_in_run(
            records,
            None,
            key,
        ) == Ok::<Option<Option<Seq<u8>>>, DecodeErrorView>(Some(records[i].val)) by {
            if i > 0 {
                assert(key_lt(records[0].key, records[i].key));
                assert(others[i - 1].key == key);
            }
        }
        if forall|i: int| 0 <= i < records.len() ==> #[trigger] records[i].key != key {
            assert forall|i: int| 0 <= i < others.len() implies #[trigger] others[i].key
                != key by {
                assert(records[i + 1].key != key);
            }
            assert(records[0].key != key);
        }
    }
}

/// A search that begins at a record not after `key` finds what all records hold.
proof fn lemma_answer_from(
    records: Seq<RecordView>,
    entries: Map<Seq<u8>, Option<Seq<u8>>>,
    at: int,
    key: Seq<u8>,
)
    requires
        lists(records, entries),
        0 <= at < records.len(),
        key_le(records[at].key, key),
    ensures
        state_in_run(records.skip(at), None, key) == Ok::<
            Option<Option<Seq<u8>>>,
            DecodeErrorView,
        >(state_of(entries, key)),
{
    let rest = records.skip(at);
    assert forall|i: int, j: int| 0 <= i < j < rest.len() implies key_lt(
        #[trigger] rest[i].key,
        #[trigger] rest[j].key,
    ) by {
        assert(key_lt(records[at + i].key, records[at + j].key));
    }
    lemma_state_in_ascending(rest, key);
    if entries.contains_key(key) {
        let i = choose|i: int| 0 <= i < records.len() && #[trigger] records[i].key == key;
        if i < at {
            assert(key_lt(records[i].key, records[at].key));
            lemma_key_order();
        }
        assert(rest[i - at].key == key);
    } else {
        assert forall|i: int| 0 <= i < rest.len() implies #[trigger] rest[i].key != key by {
            assert(entries.contains_key(records[at + i].key));
        }
    }
}

/// From where a record begins on, the records of a table read as that record and
/// those behind it.
proof fn lemma_run_from(records: Seq<RecordView>, at: int)
    requires
        all_encodable(records),
        0 <= at <= records.len(),
    ensures
        total_len(records.take(at)) <= total_len(records) <= table_bytes(records).len(),
        run_of(
            read_from(table_bytes(records), total_len(records.take(at))),
            total_len(records) - total_len(records.take(at)),
        ).records == records.skip(at),
        run_of(
            read_from(table_bytes(records), total_len(records.take(at))),
            total_len(records) - total_len(records.take(at)),
        ).failure is None,
{
    let earlier = records.take(at);
    let rest = records.skip(at);
    let footer = le_bytes(MAGIC as nat, 8);
    let bytes = table_bytes(records);
    assert(records =~= earlier + rest);
    lemma_append(earlier, rest);
    lemma_encodings_len(earlier);
    lemma_encodings_len(rest);
    lemma_encodings_len(records);
    let start = total_len(earlier) as int;
    assert(bytes.skip(start) =~= encodings(rest) + footer);
    assert forall|i: int| 0 <= i < rest.len() implies (#[trigger] rest[i]).encodable() by {
        assert(records[at + i].encodable());
    }
    law_run_reads_back_what_was_written(rest, footer, None, total_len(rest) as int);
    assert(rest + run_of(ReaderView { rest: footer, fault: None }, 0).records =~= rest);
}

/// A table that was flushed gives back every entry of the memtable, live or
/// tombstone, and no other.
pub proof fn law_flushed_table_answers_as_memtable(
    path: Seq<u8>,
    records: Seq<RecordView>,
    entries: Map<Seq<u8>, Option<Seq<u8>>>,
    key: Seq<u8>,
)
    requires
        lists(records, entries),
        all_encodable(records),
        table_bytes(records).len() <= u64::MAX,
    ensures
        table_answer(flushed_table(path, records), table_bytes(records), key) == Ok::<
            Option<Option<Seq<u8>>>,
            ErrorView,
        >(state_of(entries, key)),
{
    let index = index_of(records);
    if floor_offset(index, key) is None {
        if entries.contains_key(key) {
            let i = choose|i: int| 0 <= i < records.len() && #[trigger] records[i].key == key;
            if i > 0 {
                assert(key_lt(records[0].key, records[i].key));
            }
            lemma_nonempty_below(records, key);
            lemma_key_order();
        }
    } else {
        lemma_index_of(records);
        lemma_floor_is_in_index(index, key);
        let floor = choose|floor: Seq<u8>|
            is_floor(index, key, floor) && floor_offset(index, key) == Some(index[floor]);
        assert(index.contains_key(floor));
        let at = choose|i: int|
            0 <= i < records.len() && #[trigger] records[i].key == floor && index[floor]
                == total_len(records.take(i)) as u64;
        lemma_run_from(records, at);
        lemma_answer_from(records, entries, at, key);
    }
}

/// Where the index has no key up to `key`, `key` is before all records.
proof fn lemma_nonempty_below(records: Seq<RecordView>, key: Seq<u8>)
    requires
        ascending(records),
        records.len() > 0,
        floor_offset(index_of(records), key) is None,
    ensures
        key_lt(key, records[0].key),
{
    lemma_key_order();
    lemma_index_of(records);
    if !key_lt(key, records[0].key) {
        lemma_floor_exists(records, key);
    }
}

/// Among the indexed records that are not after `key` there is a last one.
proof fn lemma_floor_exists(records: Seq<RecordView>, key: Seq<u8>)
    requires
        ascending(records),
        records.len() > 0,
        key_le(records[0].key, key),
    ensures
        exists|floor: Seq<u8>| is_floor(index_of(records), key, floor),
    decreases records.len(),
{
    lemma_key_order();
    lemma_index_of(records);
    let earlier = records.drop_last();
    let last = records.last();
    if earlier.len() == 0 {
        assert(index_of(earlier) =~= Map::<Seq<u8>, u64>::empty());
        assert(is_floor(index_of(records), key, last.key));
    } else {
        assert forall|i: int, j: int| 0 <= i < j < earlier.len() implies key_lt(
            #[trigger] earlier[i].key,
            #[trigger] earlier[j].key,
        ) by {
            assert(key_lt(records[i].key, records[j].key));
        }
        lemma_floor_exists(earlier, key);
        lemma_index_of(earlier);
        let floor = choose|floor: Seq<u8>| is_floor(index_of(earlier), key, floor);
        if is_indexed(earlier, last) && key_le(last.key, key) {
            assert forall|other: Seq<u8>| #[trigger]
                index_of(records).contains_key(other) && key_le(other, key) implies key_le(
                other,
                last.key,
            ) by {
                let i = choose|i: int| 0 <= i < records.len() && #[trigger] records[i].key == other;
                if i < records.len() - 1 {
                    assert(key_lt(records[i].key, records[records.len() - 1].key));
                }
            }
            assert(is_floor(index_of(records), key, last.key));
        } else {
            assert(is_floor(index_of(records), key, floor));
        }
    }
}

/// The bytes of the footer.
pub open spec fn footer_bytes() -> Seq<u8> {
    seq![84u8, 78, 69, 77, 73, 68, 69, 83]
}

/// The bytes of a table are those of its records, and the footer's eight behind them.
pub proof fn law_layout_of_a_table(records: Seq<RecordView>)
    ensures
        table_bytes(records) == encodings(records) + footer_bytes(),
        table_bytes(records).len() == total_len(records) + 8,
{
    reveal_with_fuel(le_bytes, 9);
    lemma_encodings_len(records);
    assert(le_bytes(MAGIC as nat, 8) =~= footer_bytes());
}

/// A file that can be read throughout is seen as it is: its length, its last eight
/// bytes where there are so many, and all its bytes.
pub proof fn law_whole_file_is_seen_as_it_is(bytes: Seq<u8>)
    ensures
        whole_file(bytes).len == bytes.len(),
        whole_file(bytes).data.rest == bytes,
        whole_file(bytes).data.fault is None,
        bytes.len() >= 8 ==> whole_file(bytes).footer == Ok::<Seq<u8>, std::io::Error>(
            bytes.skip(bytes.len() - 8),
        ),
{
}

/// A file without room for the footer is corrupt, whatever can be read of it.
pub proof fn law_file_without_room_for_the_footer_is_corrupt(path: Seq<u8>, file: TableFileView)
    requires
        file.len < 8,
    ensures
        opened(path, file) == Err::<SsTableView, ErrorView>(
            ErrorView::CorruptSsTable {
                path,
                detail: "file is "@ + decimal(file.len) + " bytes, shorter than the "@ + decimal(8)
                    + "-byte footer"@,
            },
        ),
{
}

/// A footer that cannot be read is that failure, and one of other bytes than a
/// table's is corruption, whatever the data is.
pub proof fn law_footer_marks_a_table(path: Seq<u8>, file: TableFileView)
    requires
        file.len >= 8,
        file.footer matches Ok(bytes) ==> bytes.len() == 8 && bytes != footer_bytes(),
    ensures
        opened(path, file) == Err::<SsTableView, ErrorView>(
            match file.footer {
                Err(error) => ErrorView::Io(error),
                Ok(bytes) => ErrorView::CorruptSsTable {
                    path,
                    detail: "footer magic is "@ + hex_word(le_value(bytes) as u64)
                        + ", expected "@ + hex_word(0x5345_4449_4D45_4E54),
                },
            },
        ),
{
    reveal_with_fuel(le_bytes, 9);
    assert(le_bytes(MAGIC as nat, 8) =~= footer_bytes());
    if file.footer is Ok {
        lemma_le_bytes_of_le_value(file.footer->Ok_0);
    }
}

/// Whether the file has room for a footer, and a table's footer.
pub open spec fn is_marked(file: TableFileView) -> bool {
    file.len >= 8 && file.footer == Ok::<Seq<u8>, std::io::Error>(footer_bytes())
}

proof fn lemma_marked(path: Seq<u8>, file: TableFileView)
    requires
        is_marked(file),
    ensures
        le_value(footer_bytes()) == MAGIC,
        opened(path, file) == (match scanned(path, file.data, file.len - 8) {
            Err(error) => Err(error),
            Ok(records) => table_of(path, records, (file.len - 8) as nat),
        }),
{
    lemma_le_value_of_le_bytes(MAGIC as nat, 8);
    assert(fits_in(MAGIC as nat, 8)) by {
        reveal_with_fuel(fits_in, 9);
    }
    reveal_with_fuel(le_bytes, 9);
    assert(le_bytes(MAGIC as nat, 8) =~= footer_bytes());
}

/// A marked file whose data are records up to the footer opens as their table,
/// whatever can be read behind them.
pub proof fn law_records_up_to_the_footer_are_a_table(
    path: Seq<u8>,
    file: TableFileView,
    records: Seq<RecordView>,
    following: Seq<u8>,
)
    requires
        is_marked(file),
        all_encodable(records),
        file.data.rest == encodings(records) + following,
        file.len == total_len(records) + 8,
    ensures
        opened(path, file) == Ok::<SsTableView, ErrorView>(
            SsTableView { path, index: index_of(records), footer_start: total_len(records) },
        ),
{
    lemma_marked(path, file);
    lemma_scan_reads_back_what_was_written(
        path,
        records,
        following,
        file.data.fault,
        total_len(records) as int,
    );
    assert(file.data == (ReaderView {
        rest: encodings(records) + following,
        fault: file.data.fault,
    }));
    assert(records + Seq::<RecordView>::empty() =~= records);
}

/// A last record that reaches into the footer makes a marked file corrupt.
pub proof fn law_record_that_reaches_into_the_footer_is_corrupt(
    path: Seq<u8>,
    file: TableFileView,
    records: Seq<RecordView>,
    last: RecordView,
    following: Seq<u8>,
)
    requires
        is_marked(file),
        all_encodable(records),
        last.encodable(),
        file.data.rest == encodings(records) + (last.encoding() + following),
        total_len(records) < file.len - 8 < total_len(records) + last.encoded_len(),
    ensures
        opened(path, file) == Err::<SsTableView, ErrorView>(
            ErrorView::CorruptSsTable {
                path,
                detail: "data region ends at "@ + decimal(total_len(records) + last.encoded_len())
                    + ", expected "@ + decimal((file.len - 8) as nat),
            },
        ),
{
    let rest = last.encoding() + following;
    lemma_marked(path, file);
    lemma_scan_reads_back_what_was_written(path, records, rest, file.data.fault, file.len - 8);
    lemma_scan_of_record(
        path,
        last,
        following,
        file.data.fault,
        file.len - 8 - total_len(records),
    );
    assert(file.data == (ReaderView { rest: encodings(records) + rest, fault: file.data.fault }));
    assert(seq![last] + Seq::<RecordView>::empty() =~= seq![last]);
    assert(records + seq![last] =~= records.push(last));
    crate::run::lemma_total_len_push(records, last);
}

/// What a record that does not belong in the data makes of a marked file, whatever
/// stands before and behind it: one with an unknown tag, and a tombstone with
/// value bytes, are corruption, and are reported with the key.
pub proof fn law_wrong_record_is_corrupt(
    path: Seq<u8>,
    file: TableFileView,
    records: Seq<RecordView>,
    key: Seq<u8>,
    tag: u8,
    val: Seq<u8>,
    following: Seq<u8>,
)
    requires
        is_marked(file),
        all_encodable(records),
        key.len() < 0x1_0000_0000,
        val.len() < 0x1_0000_0000,
        tag > 1 || tag == 1 && val.len() > 0,
        file.data.rest == encodings(records) + (frame(key, tag, val) + following),
        total_len(records) < file.len - 8,
    ensures
        opened(path, file) == Err::<SsTableView, ErrorView>(
            ErrorView::CorruptSsTable {
                path,
                detail: if tag > 1 {
                    "Invalid tag "@ + decimal(tag as nat) + " in record for "@ + byte_list(key)
                } else {
                    "tombstone with "@ + decimal(val.len()) + " value bytes in record for "@
                        + byte_list(key)
                },
            },
        ),
{
    let rest = frame(key, tag, val) + following;
    lemma_marked(path, file);
    lemma_scan_reads_back_what_was_written(path, records, rest, file.data.fault, file.len - 8);
    law_record_reads_by_its_tag(key, tag, val, following, file.data.fault);
    assert(file.data == (ReaderView { rest: encodings(records) + rest, fault: file.data.fault }));
}

/// Data that end within a record make a marked file corrupt. Where the rest of the
/// record could not be read, the failure is passed on.
pub proof fn law_cut_data_are_reported(
    path: Seq<u8>,
    file: TableFileView,
    records: Seq<RecordView>,
    key: Seq<u8>,
    tag: u8,
    val: Seq<u8>,
    n: nat,
)
    requires
        is_marked(file),
        all_encodable(records),
        key.len() < 0x1_0000_0000,
        val.len() < 0x1_0000_0000,
        n < 9 + key.len() + val.len(),
        file.data.rest == encodings(records) + frame(key, tag, val).take(n as int),
        total_len(records) < file.len - 8,
    ensures
        opened(path, file) == Err::<SsTableView, ErrorView>(
            match file.data.fault {
                Some(error) => ErrorView::Io(error),
                None => ErrorView::CorruptSsTable {
                    path,
                    detail: "record ends mid-stream, wanted "@ + decimal(
                        field_cut_at(n, key.len(), val.len()),
                    ) + " more bytes"@,
                },
            },
        ),
{
    let rest = frame(key, tag, val).take(n as int);
    lemma_marked(path, file);
    lemma_scan_reads_back_what_was_written(path, records, rest, file.data.fault, file.len - 8);
    law_cut_record_is_reported(key, tag, val, n, file.data.fault);
    assert(file.data == (ReaderView { rest: encodings(records) + rest, fault: file.data.fault }));
}

/// A search begins at the greatest key of the index that is not after the key.
pub proof fn law_search_begins_at_the_greatest_key_up_to_the_key(
    index: Map<Seq<u8>, u64>,
    key: Seq<u8>,
    floor: Seq<u8>,
)
    requires
        index.contains_key(floor),
        !key_lt(key, floor),
        forall|other: Seq<u8>| #[trigger]
            index.contains_key(other) ==> !key_lt(floor, other) || key_lt(key, other),
    ensures
        floor_offset(index, key) == Some(index[floor]),
{
    lemma_key_order();
    assert(is_floor(index, key, floor));
    crate::index::lemma_floor_offset(index, key, floor);
}

/// A table all of whose indexed keys are after the key does not know it, and its
/// file does not matter.
pub proof fn law_key_in_front_of_the_table_is_absent(
    table: SsTableView,
    key: Seq<u8>,
    read: Result<ReaderView, std::io::Error>,
)
    requires
        forall|other: Seq<u8>| #[trigger] table.index.contains_key(other) ==> key_lt(key, other),
    ensures
        floor_offset(table.index, key) is None,
        looked_up(table, key, read) == Ok::<Option<Option<Seq<u8>>>, ErrorView>(None),
{
    lemma_key_order();
    if floor_offset(table.index, key) is Some {
        lemma_floor_is_in_index(table.index, key);
    }
}

/// A table file that cannot be read fails the search with that failure.
pub proof fn law_unreadable_table_fails_the_search(
    table: SsTableView,
    key: Seq<u8>,
    start: u64,
    error: std::io::Error,
)
    requires
        floor_offset(table.index, key) == Some(start),
    ensures
        looked_up(table, key, Err(error)) == Err::<Option<Option<Seq<u8>>>, ErrorView>(
            ErrorView::Io(error),
        ),
{
}

proof fn lemma_smaller_records_are_passed_over(
    records: Seq<RecordView>,
    others: Seq<RecordView>,
    failure: Option<DecodeErrorView>,
    key: Seq<u8>,
)
    requires
        forall|i: int| 0 <= i < records.len() ==> key_lt(#[trigger] records[i].key, key),
    ensures
        state_in_run(records + others, failure, key) == state_in_run(others, failure, key),
    decreases records.len(),
{
    if records.len() == 0 {
        assert(records + others =~= others);
    } else {
        let fewer = records.drop_first();
        assert((records + others).drop_first() =~= fewer + others);
        assert(key_lt(records[0].key, key));
        assert forall|i: int| 0 <= i < fewer.len() implies key_lt(
            #[trigger] fewer[i].key,
            key,
        ) by {
            assert(key_lt(records[i + 1].key, key));
        }
        lemma_smaller_records_are_passed_over(fewer, others, failure, key);
    }
}

proof fn lemma_search_from(
    table: SsTableView,
    key: Seq<u8>,
    start: u64,
    records: Seq<RecordView>,
    rest: Seq<u8>,
    fault: Option<std::io::Error>,
)
    requires
        floor_offset(table.index, key) == Some(start),
        all_encodable(records),
        forall|i: int| 0 <= i < records.len() ==> key_lt(#[trigger] records[i].key, key),
        start + total_len(records) <= table.footer_start,
    ensures
        looked_up(table, key, Ok(ReaderView { rest: encodings(records) + rest, fault })) == ({
            let run = run_of(
                ReaderView { rest, fault },
                table.footer_start - start - total_len(records),
            );
            match state_in_run(run.records, run.failure, key) {
                Ok(state) => Ok(state),
                Err(error) => Err(converted(error, table.path)),
            }
        }),
{
    let span = table.footer_start - start;
    let run = run_of(ReaderView { rest, fault }, span - total_len(records));
    law_run_reads_back_what_was_written(records, rest, fault, span);
    lemma_smaller_records_are_passed_over(records, run.records, run.failure, key);
}

/// A search passes over the records of smaller keys. Where they end at the footer,
/// the table does not know the key.
pub proof fn law_search_ends_at_the_footer(
    table: SsTableView,
    key: Seq<u8>,
    start: u64,
    records: Seq<RecordView>,
    rest: Seq<u8>,
    fault: Option<std::io::Error>,
)
    requires
        floor_offset(table.index, key) == Some(start),
        all_encodable(records),
        forall|i: int| 0 <= i < records.len() ==> key_lt(#[trigger] records[i].key, key),
        start + total_len(records) == table.footer_start,
    ensures
        looked_up(table, key, Ok(ReaderView { rest: encodings(records) + rest, fault })) == Ok::<
            Option<Option<Seq<u8>>>,
            ErrorView,
        >(None),
{
    lemma_search_from(table, key, start, records, rest, fault);
}

/// The first record that is not of a smaller key decides the search, whatever stands
/// behind it: it has the key's value or tombstone, or shows that the table does not
/// know the key. One with an unknown tag is reported as corruption of the table.
pub proof fn law_first_record_not_before_the_key_decides(
    table: SsTableView,
    key: Seq<u8>,
    start: u64,
    records: Seq<RecordView>,
    found: Seq<u8>,
    tag: u8,
    val: Seq<u8>,
    following: Seq<u8>,
    fault: Option<std::io::Error>,
)
    requires
        floor_offset(table.index, key) == Some(start),
        all_encodable(records),
        forall|i: int| 0 <= i < records.len() ==> key_lt(#[trigger] records[i].key, key),
        start + total_len(records) < table.footer_start,
        found.len() < 0x1_0000_0000,
        val.len() < 0x1_0000_0000,
        tag > 1 || !key_lt(found, key),
    ensures
        looked_up(
            table,
            key,
            Ok(
                ReaderView {
                    rest: encodings(records) + (frame(found, tag, val) + following),
                    fault,
                },
            ),
        ) == (if tag > 1 {
            Err(
                ErrorView::CorruptSsTable {
                    path: table.path,
                    detail: "Invalid tag "@ + decimal(tag as nat) + " in record for "@ + byte_list(
                        found,
                    ),
                },
            )
        } else if found != key {
            Ok(None)
        } else if tag == 0 {
            Ok(Some(Some(val)))
        } else {
            Ok(Some(None))
        }),
{
    lemma_search_from(table, key, start, records, frame(found, tag, val) + following, fault);
    law_record_reads_by_its_tag(found, tag, val, following, fault);
}

/// A search that comes to the end of the file within a record reports corruption of
/// the table. Where the rest of the record could not be read, the failure is passed
/// on. In neither case does the key read as absent.
pub proof fn law_cut_table_fails_the_search(
    table: SsTableView,
    key: Seq<u8>,
    start: u64,
    records: Seq<RecordView>,
    found: Seq<u8>,
    tag: u8,
    val: Seq<u8>,
    n: nat,
    fault: Option<std::io::Error>,
)
    requires
        floor_offset(table.index, key) == Some(start),
        all_encodable(records),
        forall|i: int| 0 <= i < records.len() ==> key_lt(#[trigger] records[i].key, key),
        start + total_len(records) < table.footer_start,
        found.len() < 0x1_0000_0000,
        val.len() < 0x1_0000_0000,
        n < 9 + found.len() + val.len(),
    ensures
        looked_up(
            table,
            key,
            Ok(
                ReaderView {
                    rest: encodings(records) + frame(found, tag, val).take(n as int),
                    fault,
                },
            ),
        ) == Err::<Option<Option<Seq<u8>>>, ErrorView>(
            match fault {
                Some(error) => ErrorView::Io(error),
                None => ErrorView::CorruptSsTable {
                    path: table.path,
                    detail: "record ends mid-stream, wanted "@ + decimal(
                        field_cut_at(n, found.len(), val.len()),
                    ) + " more bytes"@,
                },
            },
        ),
{
    lemma_search_from(table, key, start, records, frame(found, tag, val).take(n as int), fault);
    law_cut_record_is_reported(found, tag, val, n, fault);
}

/// The index of a table leads to its records: every key of the index is the key of
/// a record, at the offset at which that record begins, and the first record is
/// indexed.
pub proof fn law_index_leads_to_records(records: Seq<RecordView>)
    requires
        ascending(records),
        total_len(records) <= u64::MAX,
    ensures
        forall|key: Seq<u8>| #[trigger]
            index_of(records).contains_key(key) ==> exists|i: int|
                0 <= i < records.len() && #[trigger] records[i].key == key && index_of(records)[key]
                    == total_len(records.take(i)),
        records.len() > 0 ==> index_of(records).contains_key(records[0].key),
{
    lemma_index_of(records);
    assert forall|key: Seq<u8>| #[trigger]
        index_of(records).contains_key(key) implies exists|i: int|
        0 <= i < records.len() && #[trigger] records[i].key == key && index_of(records)[key]
            == total_len(records.take(i)) by {
        let i = choose|i: int|
            0 <= i < records.len() && #[trigger] records[i].key == key && index_of(records)[key]
                == total_len(records.take(i)) as u64;
        assert(records =~= records.take(i) + records.skip(i));
        lemma_append(records.take(i), records.skip(i));
        assert(records[i].key == key);
    }
}

/// What an index has of a record does not depend on the records behind it.
proof fn lemma_index_of_front(records: Seq<RecordView>, len: int, i: int)
    requires
        ascending(records),
        0 <= i < len <= records.len(),
    ensures
        index_of(records).contains_key(records[i].key) == index_of(
            records.take(len),
        ).contains_key(records[i].key),
    decreases records.len(),
{
    if len == records.len() {
        assert(records.take(len) =~= records);
    } else {
        let earlier = records.drop_last();
        assert forall|j: int, k: int| 0 <= j < k < earlier.len() implies key_lt(
            #[trigger] earlier[j].key,
            #[trigger] earlier[k].key,
        ) by {
            assert(key_lt(records[j].key, records[k].key));
        }
        lemma_key_order();
        assert(key_lt(records[i].key, records[records.len() - 1].key));
        assert(earlier[i] == records[i]);
        assert(earlier.take(len) =~= records.take(len));
        lemma_index_of_front(earlier, len, i);
    }
}

/// The number of bytes of the records from `from` up to, but not with, `to`.
pub open spec fn bytes_between(records: Seq<RecordView>, from: int, to: int) -> int {
    total_len(records.take(to)) - total_len(records.take(from))
}

/// Whether a block of the table begins at record `at`: at the first one, and behind
/// each indexed one, but not behind the first one for being the first.
pub open spec fn begins_block(records: Seq<RecordView>, at: int) -> bool {
    ||| at == 0
    ||| {
        &&& 0 < at <= records.len()
        &&& index_of(records).contains_key(records[at - 1].key)
        &&& at > 1 || bytes_between(records, 0, 1) >= 4096
    }
}

/// The last block of some records that stand in front of others.
proof fn lemma_last_block(records: Seq<RecordView>, len: int) -> (at: int)
    requires
        ascending(records),
        0 <= len <= records.len(),
    ensures
        0 <= at <= len,
        begins_block(records, at),
        open_block_len(records.take(len)) == bytes_between(records, at, len),
        forall|i: int| at < i <= len ==> !#[trigger] begins_block(records, i),
    decreases len,
{
    if len == 0 {
        assert(records.take(0) =~= Seq::<RecordView>::empty());
        0
    } else {
        let at = lemma_last_block(records, len - 1);
        let front = records.take(len);
        assert(front.drop_last() =~= records.take(len - 1));
        assert(front.last() == records[len - 1]);
        lemma_index_of_front(records, len, len - 1);
        lemma_own_key_is_new(front);
        assert(records.take(0) =~= Seq::<RecordView>::empty());
        assert(records.take(1).drop_last() =~= Seq::<RecordView>::empty());
        if open_block_len(records.take(len - 1)) + records[len - 1].encoded_len() >= 4096 {
            assert(begins_block(records, len));
            len
        } else {
            assert(!begins_block(records, len));
            at
        }
    }
}

/// The index has the last record exactly if it is indexed itself.
proof fn lemma_own_key_is_new(records: Seq<RecordView>)
    requires
        records.len() > 0,
        ascending(records),
    ensures
        index_of(records).contains_key(records.last().key) == is_indexed(
            records.drop_last(),
            records.last(),
        ),
{
    lemma_key_order();
    let earlier = records.drop_last();
    assert forall|j: int, k: int| 0 <= j < k < earlier.len() implies key_lt(
        #[trigger] earlier[j].key,
        #[trigger] earlier[k].key,
    ) by {
        assert(key_lt(records[j].key, records[k].key));
    }
    lemma_index_of(earlier);
    if index_of(earlier).contains_key(records.last().key) {
        let i = choose|i: int|
            0 <= i < earlier.len() && #[trigger] earlier[i].key == records.last().key;
        assert(key_lt(records[i].key, records[records.len() - 1].key));
    }
}

/// The index is sparse: behind the first record, one is indexed exactly if the
/// bytes from the last beginning of a block to its own end fill a block of 4096.
pub proof fn law_index_has_one_entry_per_block(records: Seq<RecordView>, i: int)
    requires
        ascending(records),
        0 < i < records.len(),
    ensures
        exists|at: int| #[trigger]
            begins_block(records, at) && at <= i && (forall|later: int|
                at < later <= i ==> !#[trigger] begins_block(records, later)) && (index_of(
                records,
            ).contains_key(records[i].key) <==> bytes_between(records, at, i + 1) >= 4096),
{
    let at = lemma_last_block(records, i);
    let front = records.take(i + 1);
    assert(front.drop_last() =~= records.take(i));
    assert(front.last() == records[i]);
    lemma_index_of_front(records, i + 1, i);
    lemma_own_key_is_new(front);
    assert(total_len(front) == total_len(records.take(i)) + records[i].encoded_len());
}

/// A search passes over a record of a smaller key, live or tombstone, and goes on
/// with what follows it. The record counts with all bytes that it takes up, and
/// where they reach the footer the table does not know the key.
pub proof fn law_search_passes_over_smaller_keys(
    table: SsTableView,
    key: Seq<u8>,
    start: u64,
    found: Seq<u8>,
    tag: u8,
    val: Seq<u8>,
    following: Seq<u8>,
    fault: Option<std::io::Error>,
)
    requires
        floor_offset(table.index, key) == Some(start),
        start < table.footer_start,
        found.len() < 0x1_0000_0000,
        val.len() < 0x1_0000_0000,
        tag <= 1,
        key_lt(found, key),
    ensures
        ({
            let len = 9 + found.len() + val.len();
            let answer = looked_up(
                table,
                key,
                Ok(ReaderView { rest: frame(found, tag, val) + following, fault }),
            );
            if start + len >= table.footer_start {
                answer == Ok::<Option<Option<Seq<u8>>>, ErrorView>(None)
            } else {
                answer == looked_up(
                    SsTableView { footer_start: (table.footer_start - len) as nat, ..table },
                    key,
                    Ok(ReaderView { rest: following, fault }),
                )
            }
        }),
{
    let len = 9 + found.len() + val.len();
    let span = table.footer_start - start;
    let source = ReaderView { rest: frame(found, tag, val) + following, fault };
    let rest = ReaderView { rest: following, fault };
    law_record_reads_by_its_tag(found, tag, val, following, fault);
    let run = run_of(source, span);
    let others = run_of(rest, span - len);
    assert(run.records.drop_first() =~= others.records);
    assert(run.failure == others.failure);
    assert(run.records[0].key == found);
    assert(state_in_run(run.records, run.failure, key) == state_in_run(
        others.records,
        others.failure,
        key,
    ));
}

/// A search that begins at the footer, or behind it, finds nothing.
pub proof fn law_search_of_no_data_finds_nothing(
    table: SsTableView,
    key: Seq<u8>,
    start: u64,
    source: ReaderView,
)
    requires
        floor_offset(table.index, key) == Some(start),
        start >= table.footer_start,
    ensures
        looked_up(table, key, Ok(source)) == Ok::<Option<Option<Seq<u8>>>, ErrorView>(None),
{
}

/// The file of a flush holds every entry, live or tombstone, as a record of its
/// own, and they stand in the order of their keys.
pub proof fn law_flushed_file_holds_every_entry(
    records: Seq<RecordView>,
    entries: Map<Seq<u8>, Option<Seq<u8>>>,
    key: Seq<u8>,
)
    requires
        lists(records, entries),
        entries.contains_key(key),
    ensures
        ({
            let bytes = table_bytes(listing(entries));
            exists|at: int, end: int|
                0 <= at <= end <= bytes.len() - 8 && #[trigger] bytes.subrange(at, end) == (
                match entries[key] {
                    Some(val) => frame(key, 0, val),
                    None => frame(key, 1, Seq::empty()),
                })
        }),
{
    law_listing_is_unique(records, records, entries);
    law_layout_of_a_table(records);
    let i = choose|i: int| 0 <= i < records.len() && #[trigger] records[i].key == key;
    law_records_stand_one_after_the_other(records, i);
    let at = total_len(records.take(i)) as int;
    let end = total_len(records.take(i + 1)) as int;
    assert(table_bytes(records).subrange(at, end) =~= encodings(records).subrange(at, end));
    assert(records[i].val == entries[key]);
    match entries[key] {
        Some(val) => law_layout_of_a_record(key, val),
        None => law_layout_of_a_record(key, Seq::empty()),
    }
}

/// The number of bytes behind the last record that fills a block of 4096.
pub open spec fn bytes_behind_last_block(records: Seq<RecordView>) -> nat
    decreases records.len(),
{
    if records.len() == 0 {
        0
    } else {
        let len = bytes_behind_last_block(records.drop_last()) + records.last().encoding().len();
        if len < 4096 {
            len
        } else {
            0
        }
    }
}

proof fn lemma_bytes_behind_last_block(records: Seq<RecordView>)
    ensures
        bytes_behind_last_block(records) == open_block_len(records),
    decreases records.len(),
{
    if records.len() > 0 {
        lemma_bytes_behind_last_block(records.drop_last());
        crate::record::law_encoded_len_is_length_of_encoding(records.last());
    }
}

/// The index of records in any order: one more record gives its key the offset at
/// which it begins, if it is the first one or fills a block, and else changes
/// nothing.
pub proof fn law_index_grows_by_the_records_that_fill_a_block(
    records: Seq<RecordView>,
    record: RecordView,
)
    ensures
        index_of(Seq::<RecordView>::empty()) == Map::<Seq<u8>, u64>::empty(),
        index_of(records.push(record)) == (if records.len() == 0 || bytes_behind_last_block(records)
            + record.encoding().len() >= 4096 {
            index_of(records).insert(record.key, encodings(records).len() as u64)
        } else {
            index_of(records)
        }),
{
    lemma_bytes_behind_last_block(records);
    lemma_encodings_len(records);
    crate::record::law_encoded_len_is_length_of_encoding(record);
    assert(records.push(record).drop_last() =~= records);
}

} // verus!
