//! Records that follow one another in a file.

use vstd::prelude::*;

use crate::reader::ReaderView;
use crate::record::{
    decoded, law_decode_inverts_encode, law_encoded_len_is_length_of_encoding, leftover,
    lemma_decoded_bounds, lemma_decoded_of_cut_input, DecodeErrorView, RecordView,
};

verus! {

/// The bytes of the records, one after the other.
pub open spec fn encodings(records: Seq<RecordView>) -> Seq<u8>
    decreases records.len(),
{
    if records.len() == 0 {
        Seq::empty()
    } else {
        encodings(records.drop_last()) + records.last().encoding()
    }
}

/// The number of bytes of the records.
pub open spec fn total_len(records: Seq<RecordView>) -> nat
    decreases records.len(),
{
    if records.len() == 0 {
        0
    } else {
        total_len(records.drop_last()) + records.last().encoded_len()
    }
}

/// Whether every record can be written.
pub open spec fn all_encodable(records: Seq<RecordView>) -> bool {
    forall|i: int| 0 <= i < records.len() ==> (#[trigger] records[i]).encodable()
}

/// Records as they were read one after the other.
pub struct Run {
    pub records: Seq<RecordView>,
    /// The number of bytes that the records take up in the input.
    pub len: nat,
    /// The failure that ended the reading; `None` where there were enough records.
    pub failure: Option<DecodeErrorView>,
}

/// The run of records at the front of the input that ends with the first one
/// at which they take up `budget` bytes or more.
pub open spec fn run_of(source: ReaderView, budget: int) -> Run
    decreases source.rest.len(),
{
    if budget <= 0 {
        Run { records: Seq::empty(), len: 0, failure: None }
    } else {
        match decoded(source) {
            Err(failure) => Run { records: Seq::empty(), len: 0, failure: Some(failure) },
            Ok((record, len)) => {
                proof {
                    lemma_decoded_bounds(source);
                }
                let rest = run_of(leftover(source), budget - len);
                Run {
                    records: seq![record] + rest.records,
                    len: len + rest.len,
                    failure: rest.failure,
                }
            },
        }
    }
}

/// The length of some records and one more.
pub proof fn lemma_total_len_push(records: Seq<RecordView>, record: RecordView)
    ensures
        total_len(records.push(record)) == total_len(records) + record.encoded_len(),
        encodings(records.push(record)) == encodings(records) + record.encoding(),
{
    assert(records.push(record).drop_last() =~= records);
}

/// The length and bytes of two groups of records in a row.
pub proof fn lemma_append(first: Seq<RecordView>, second: Seq<RecordView>)
    ensures
        total_len(first + second) == total_len(first) + total_len(second),
        encodings(first + second) == encodings(first) + encodings(second),
    decreases second.len(),
{
    if second.len() == 0 {
        assert(first + second =~= first);
        assert(encodings(first) + encodings(second) =~= encodings(first));
    } else {
        lemma_append(first, second.drop_last());
        assert((first + second).drop_last() =~= first + second.drop_last());
        assert(encodings(first) + (encodings(second.drop_last()) + second.last().encoding())
            =~= (encodings(first) + encodings(second.drop_last())) + second.last().encoding());
    }
}

/// The bytes of records are as many as their lengths add up to.
pub proof fn lemma_encodings_len(records: Seq<RecordView>)
    ensures
        encodings(records).len() == total_len(records),
    decreases records.len(),
{
    if records.len() > 0 {
        lemma_encodings_len(records.drop_last());
        law_encoded_len_is_length_of_encoding(records.last());
    }
}

/// The first of some records, apart from the others.
pub proof fn lemma_first(records: Seq<RecordView>)
    requires
        records.len() > 0,
    ensures
        total_len(records) == records[0].encoded_len() + total_len(records.drop_first()),
        encodings(records) == records[0].encoding() + encodings(records.drop_first()),
{
    let first = seq![records[0]];
    assert(records =~= first + records.drop_first());
    lemma_append(first, records.drop_first());
    assert(first.drop_last() =~= Seq::<RecordView>::empty());
    assert(encodings(first) =~= records[0].encoding()) by {
        assert(encodings(first.drop_last()) =~= Seq::<u8>::empty());
    }
    assert(total_len(first) == records[0].encoded_len()) by {
        assert(total_len(first.drop_last()) == 0);
    }
}

/// Records that were written one after the other are read back in their order,
/// whatever follows them.
pub proof fn law_run_reads_back_what_was_written(
    records: Seq<RecordView>,
    following: Seq<u8>,
    fault: Option<std::io::Error>,
    budget: int,
)
    requires
        all_encodable(records),
        total_len(records) <= budget,
    ensures
        run_of(ReaderView { rest: encodings(records) + following, fault }, budget).records
            == records + run_of(
            ReaderView { rest: following, fault },
            budget - total_len(records),
        ).records,
        run_of(ReaderView { rest: encodings(records) + following, fault }, budget).len
            == total_len(records) + run_of(
            ReaderView { rest: following, fault },
            budget - total_len(records),
        ).len,
        run_of(ReaderView { rest: encodings(records) + following, fault }, budget).failure
            == run_of(
            ReaderView { rest: following, fault },
            budget - total_len(records),
        ).failure,
    decreases records.len(),
{
    let rest_run = run_of(ReaderView { rest: following, fault }, budget - total_len(records));
    if records.len() == 0 {
        assert(encodings(records) + following =~= following);
        assert(records + rest_run.records =~= rest_run.records);
    } else {
        lemma_first(records);
        let others = records.drop_first();
        law_decode_inverts_encode(records[0], encodings(others) + following, fault);
        assert(encodings(records) + following =~= records[0].encoding() + (encodings(others)
            + following));
        assert forall|i: int| 0 <= i < others.len() implies (#[trigger] others[i]).encodable() by {
            assert(records[i + 1].encodable());
        }
        law_run_reads_back_what_was_written(
            others,
            following,
            fault,
            budget - records[0].encoded_len(),
        );
        assert(seq![records[0]] + (others + rest_run.records) =~= records + rest_run.records);
    }
}

/// The records of a run can be written again, in no more bytes than they take
/// up, and lie within the input. They reach the budget unless a failure ended
/// the run.
pub proof fn lemma_run_bounds(source: ReaderView, budget: int)
    ensures
        all_encodable(run_of(source, budget).records),
        total_len(run_of(source, budget).records) <= run_of(source, budget).len,
        run_of(source, budget).len <= source.rest.len(),
        run_of(source, budget).failure is None <==> run_of(source, budget).len >= budget,
    decreases source.rest.len(),
{
    if budget > 0 && decoded(source) is Ok {
        lemma_decoded_bounds(source);
        let (record, len) = decoded(source)->Ok_0;
        lemma_run_bounds(leftover(source), budget - len);
        let run = run_of(source, budget);
        lemma_first(run.records);
        let others = run_of(leftover(source), budget - len).records;
        assert(run.records.drop_first() =~= others);
        assert forall|i: int| 0 <= i < run.records.len() implies (
        #[trigger] run.records[i]).encodable() by {
            if i > 0 {
                assert(others[i - 1].encodable());
            }
        }
    }
}

/// A run depends on the bytes alone that its records take up: cut off behind
/// them, the input yields the same records and no failure.
pub proof fn lemma_run_of_cut_input(source: ReaderView, budget: int)
    ensures
        run_of(
            ReaderView { rest: source.rest.take(run_of(source, budget).len as int), fault: None },
            run_of(source, budget).len as int,
        ) == (Run { failure: None, ..run_of(source, budget) }),
    decreases source.rest.len(),
{
    let run = run_of(source, budget);
    if budget > 0 && decoded(source) is Ok {
        lemma_run_bounds(source, budget);
        lemma_decoded_bounds(source);
        let (record, len) = decoded(source)->Ok_0;
        let rest = leftover(source);
        let others = run_of(rest, budget - len);
        let cut = ReaderView { rest: source.rest.take(run.len as int), fault: None };
        lemma_run_bounds(rest, budget - len);
        lemma_decoded_of_cut_input(source, run.len);
        assert(leftover(cut).rest =~= rest.rest.take(others.len as int));
        lemma_run_of_cut_input(rest, budget - len);
    }
}

} // verus!
