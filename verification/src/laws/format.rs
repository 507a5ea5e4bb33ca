//! Numbers, texts and records, byte by byte.

use vstd::arithmetic::div_mod::lemma_div_denominator;
use vstd::arithmetic::power::{lemma_pow_positive, pow};
use vstd::prelude::*;

use crate::bytes::{
    le_bytes, le_value, lemma_le_value_of_four, lemma_le_value_of_le_bytes, lemma_u32_fits,
};
use crate::memtable::entries_encodable;
use crate::reader::ReaderView;
use crate::record::{
    decoded, invalid_tag_detail, leftover, DecodeErrorView, RecordView,
};
use crate::run::{all_encodable, encodings, lemma_append, lemma_encodings_len, total_len};
use crate::text::{byte_list, comma_separated, decimal, hex_digits, hex_word};

verus! {

/// Dividing by one power and then by the base is dividing by the next power.
proof fn lemma_next_digit(n: nat, base: nat, i: nat)
    requires
        base > 0,
    ensures
        pow(base as int, i) > 0,
        pow(base as int, i + 1) == base * pow(base as int, i),
        (n / base) as int / pow(base as int, i) == n as int / pow(base as int, i + 1),
        n as int / pow(base as int, 0) == n,
        pow(base as int, 0) == 1,
{
    reveal(pow);
    lemma_pow_positive(base as int, i);
    lemma_div_denominator(n as int, base as int, pow(base as int, i));
}

/// Byte `i` of a number is its digit of that place in base 256: the least
/// significant byte comes first.
pub proof fn law_bytes_are_the_digits_of_the_number(n: nat, width: nat)
    ensures
        le_bytes(n, width).len() == width,
        forall|i: int|
            0 <= i < width ==> #[trigger] le_bytes(n, width)[i] == (n as int / pow(256, i as nat))
                % 256,
    decreases width,
{
    if width > 0 {
        let rest = le_bytes(n / 256, (width - 1) as nat);
        law_bytes_are_the_digits_of_the_number(n / 256, (width - 1) as nat);
        assert forall|i: int| 0 <= i < width implies #[trigger] le_bytes(n, width)[i] == (n as int
            / pow(256, i as nat)) % 256 by {
            if i == 0 {
                lemma_next_digit(n, 256, 0);
            } else {
                lemma_next_digit(n, 256, (i - 1) as nat);
                assert(le_bytes(n, width)[i] == rest[i - 1]);
            }
        }
    }
}

/// Each byte adds its value at its place: one more byte behind the others counts
/// for as many times 256 as there are others.
pub proof fn law_value_of_bytes_counts_each_at_its_place(bytes: Seq<u8>, last: u8)
    ensures
        le_value(Seq::<u8>::empty()) == 0,
        le_value(bytes.push(last)) == le_value(bytes) + last * pow(256, bytes.len()),
    decreases bytes.len(),
{
    reveal(pow);
    reveal_with_fuel(le_value, 2);
    if bytes.len() == 0 {
        assert(bytes.push(last).drop_first() =~= Seq::<u8>::empty());
        assert(pow(256, 0) == 1);
    } else {
        let rest = bytes.drop_first();
        let place = pow(256, rest.len());
        law_value_of_bytes_counts_each_at_its_place(rest, last);
        assert(bytes.push(last).drop_first() =~= rest.push(last));
        assert(pow(256, bytes.len()) == 256 * place);
        assert(256 * (le_value(rest) + last * place) == 256 * le_value(rest) + last * (256
            * place)) by (nonlinear_arith);
    }
}

/// A number in base ten: digit `i` from the end is the one of that place, and there
/// are no more digits than it takes.
pub proof fn law_decimal_shows_the_digits(n: nat)
    ensures
        decimal(n).len() > 0,
        n < pow(10, decimal(n).len()),
        decimal(n).len() > 1 ==> n >= pow(10, (decimal(n).len() - 1) as nat),
        forall|i: int|
            0 <= i < decimal(n).len() ==> #[trigger] decimal(n)[decimal(n).len() - 1 - i] as int
                == 48 + (n as int / pow(10, i as nat)) % 10,
    decreases n,
{
    reveal(pow);
    let shown = decimal(n);
    if n < 10 {
        assert(pow(10, 1) == 10 * pow(10, 0));
        assert forall|i: int| 0 <= i < shown.len() implies #[trigger] shown[shown.len() - 1 - i]
            as int == 48 + (n as int / pow(10, i as nat)) % 10 by {
            lemma_next_digit(n, 10, 0);
            assert(i == 0);
        }
    } else {
        let front = decimal(n / 10);
        let len = front.len();
        law_decimal_shows_the_digits(n / 10);
        lemma_next_digit(n, 10, len);
        lemma_next_digit(n, 10, (len - 1) as nat);
        assert forall|i: int| 0 <= i < shown.len() implies #[trigger] shown[shown.len() - 1 - i]
            as int == 48 + (n as int / pow(10, i as nat)) % 10 by {
            if i == 0 {
                lemma_next_digit(n, 10, 0);
            } else {
                lemma_next_digit(n, 10, (i - 1) as nat);
                assert(shown[shown.len() - 1 - i] == front[front.len() - 1 - (i - 1)]);
            }
        }
    }
}

/// The code of the character that stands for `d` in base sixteen.
pub open spec fn hex_code(d: int) -> int {
    if d < 10 {
        48 + d
    } else {
        97 + (d - 10)
    }
}

proof fn lemma_hex_digits(n: nat, width: nat)
    ensures
        hex_digits(n, width).len() == width,
        forall|i: int|
            0 <= i < width ==> #[trigger] hex_digits(n, width)[width - 1 - i] as int == hex_code(
                (n as int / pow(16, i as nat)) % 16,
            ),
    decreases width,
{
    if width > 0 {
        let front = hex_digits(n / 16, (width - 1) as nat);
        let shown = hex_digits(n, width);
        lemma_hex_digits(n / 16, (width - 1) as nat);
        assert forall|i: int| 0 <= i < width implies #[trigger] shown[width - 1 - i] as int
            == hex_code((n as int / pow(16, i as nat)) % 16) by {
            if i == 0 {
                lemma_next_digit(n, 16, 0);
            } else {
                lemma_next_digit(n, 16, (i - 1) as nat);
                assert(shown[width - 1 - i] == front[(width - 1) - 1 - (i - 1)]);
            }
        }
    }
}

/// A 64-bit number in base sixteen: `0x`, then sixteen digits, leading zeros included.
pub proof fn law_hex_word_shows_sixteen_digits(n: u64)
    ensures
        hex_word(n).len() == 18,
        hex_word(n)[0] == '0',
        hex_word(n)[1] == 'x',
        forall|i: int|
            0 <= i < 16 ==> #[trigger] hex_word(n)[17 - i] as int == hex_code(
                (n as int / pow(16, i as nat)) % 16,
            ),
{
    reveal_strlit("0x");
    lemma_hex_digits(n as nat, 16);
    let digits = hex_digits(n as nat, 16);
    assert forall|i: int| 0 <= i < 16 implies #[trigger] hex_word(n)[17 - i] as int == hex_code(
        (n as int / pow(16, i as nat)) % 16,
    ) by {
        assert(hex_word(n)[17 - i] == digits[16 - 1 - i]);
    }
}

/// Bytes are shown in base ten, in brackets and with `, ` between them.
pub proof fn law_byte_list_shows_each_byte(bytes: Seq<u8>, last: u8)
    ensures
        byte_list(Seq::<u8>::empty()) == seq!['[', ']'],
        byte_list(seq![last]) == seq!['['] + decimal(last as nat) + seq![']'],
        bytes.len() > 0 ==> byte_list(bytes.push(last)) == byte_list(bytes).drop_last() + seq![
            ',',
            ' ',
        ] + decimal(last as nat) + seq![']'],
{
    reveal_strlit("[");
    reveal_strlit("]");
    reveal_strlit(", ");
    assert(byte_list(Seq::<u8>::empty()) =~= seq!['[', ']']);
    assert(byte_list(seq![last]) =~= seq!['['] + decimal(last as nat) + seq![']']);
    if bytes.len() > 0 {
        assert(bytes.push(last).drop_last() =~= bytes);
        assert(comma_separated(bytes.push(last)) == comma_separated(bytes) + ", "@ + decimal(
            last as nat,
        ));
        assert(byte_list(bytes).drop_last() =~= "["@ + comma_separated(bytes));
        assert(byte_list(bytes.push(last)) =~= byte_list(bytes).drop_last() + seq![',', ' ']
            + decimal(last as nat) + seq![']']);
    }
}

/// The fields of a record with a tag of any kind.
pub open spec fn frame(key: Seq<u8>, tag: u8, val: Seq<u8>) -> Seq<u8> {
    le_bytes(key.len(), 4) + key + seq![tag] + le_bytes(val.len(), 4) + val
}

/// The layout of a record: the length of its key in four bytes, the key, the tag 0,
/// the length of its value in four bytes, and the value. A tombstone has the tag
/// 1, and no value bytes.
pub proof fn law_layout_of_a_record(key: Seq<u8>, val: Seq<u8>)
    ensures
        (RecordView { key, val: Some(val) }).encoding() == frame(key, 0, val),
        (RecordView { key, val: Some(val) }).encoded_len() == 9 + key.len() + val.len(),
        (RecordView { key, val: None }).encoding() == frame(key, 1, Seq::empty()),
        (RecordView { key, val: None }).encoded_len() == 9 + key.len(),
{
}

/// A record can be written exactly if its key and value have fewer than 2^32 bytes.
pub proof fn law_records_of_any_32_bit_length_can_be_written(records: Seq<RecordView>)
    ensures
        all_encodable(records) <==> forall|i: int|
            0 <= i < records.len() ==> (#[trigger] records[i]).key.len() < 0x1_0000_0000 && (
            records[i].val matches Some(val) ==> val.len() < 0x1_0000_0000),
{
    if all_encodable(records) {
        assert forall|i: int| 0 <= i < records.len() implies (#[trigger] records[i]).key.len()
            < 0x1_0000_0000 && (records[i].val matches Some(val) ==> val.len()
            < 0x1_0000_0000) by {
            assert(records[i].encodable());
        }
    }
}

/// Records in a row are the bytes of each, in their order: record `i` stands where
/// the earlier ones end, and nothing stands between them or behind the last one.
pub proof fn law_records_stand_one_after_the_other(records: Seq<RecordView>, i: int)
    requires
        0 <= i < records.len(),
    ensures
        encodings(records).len() == total_len(records),
        total_len(Seq::<RecordView>::empty()) == 0,
        total_len(records.take(i + 1)) == total_len(records.take(i)) + records[i].encoding().len(),
        total_len(records.take(i + 1)) <= total_len(records),
        encodings(records).subrange(
            total_len(records.take(i)) as int,
            total_len(records.take(i + 1)) as int,
        ) == records[i].encoding(),
{
    let front = records.take(i);
    let with_it = records.take(i + 1);
    assert(with_it.drop_last() =~= front);
    assert(with_it.last() == records[i]);
    assert(records =~= with_it + records.skip(i + 1));
    lemma_append(with_it, records.skip(i + 1));
    lemma_encodings_len(front);
    lemma_encodings_len(with_it);
    lemma_encodings_len(records);
    crate::record::law_encoded_len_is_length_of_encoding(records[i]);
    assert(encodings(records).subrange(total_len(front) as int, total_len(with_it) as int)
        =~= records[i].encoding());
}

/// What the fields of a record hold where they stand in an input.
proof fn lemma_fields(key: Seq<u8>, tag: u8, val: Seq<u8>, following: Seq<u8>)
    requires
        key.len() < 0x1_0000_0000,
        val.len() < 0x1_0000_0000,
    ensures
        ({
            let input = frame(key, tag, val) + following;
            let k = key.len() as int;
            let v = val.len() as int;
            &&& frame(key, tag, val).len() == 9 + k + v
            &&& le_value(input.take(4)) == k
            &&& input.subrange(4, 4 + k) == key
            &&& input[4 + k] == tag
            &&& le_value(input.subrange(5 + k, 9 + k)) == v
            &&& input.subrange(9 + k, 9 + k + v) == val
            &&& input.skip(9 + k + v) == following
        }),
{
    let input = frame(key, tag, val) + following;
    let k = key.len() as int;
    let v = val.len() as int;
    lemma_u32_fits(key.len());
    lemma_u32_fits(val.len());
    lemma_le_value_of_le_bytes(key.len(), 4);
    lemma_le_value_of_le_bytes(val.len(), 4);
    assert(input.take(4) =~= le_bytes(key.len(), 4));
    assert(input.subrange(4, 4 + k) =~= key);
    assert(input.subrange(5 + k, 9 + k) =~= le_bytes(val.len(), 4));
    assert(input.subrange(9 + k, 9 + k + v) =~= val);
    assert(input.skip(9 + k + v) =~= following);
}

/// Whatever follows a record, and however the input ends, the record reads by its
/// tag: 0 as the live value, 1 as a tombstone, whose value bytes are passed over,
/// and any other as unknown. The record is taken off the input, in every case.
pub proof fn law_record_reads_by_its_tag(
    key: Seq<u8>,
    tag: u8,
    val: Seq<u8>,
    following: Seq<u8>,
    fault: Option<std::io::Error>,
)
    requires
        key.len() < 0x1_0000_0000,
        val.len() < 0x1_0000_0000,
    ensures
        decoded(ReaderView { rest: frame(key, tag, val) + following, fault }) == (if tag == 0 {
            Ok((RecordView { key, val: Some(val) }, 9 + key.len() + val.len()))
        } else if tag == 1 {
            Ok((RecordView { key, val: None }, 9 + key.len() + val.len()))
        } else {
            Err(DecodeErrorView::InvalidTag { key, tag })
        }),
        leftover(ReaderView { rest: frame(key, tag, val) + following, fault }) == (ReaderView {
            rest: following,
            fault,
        }),
        frame(key, tag, val).len() == 9 + key.len() + val.len(),
{
    lemma_fields(key, tag, val, following);
}

/// The number of bytes of the field within which a record ends after `n` bytes.
pub open spec fn field_cut_at(n: nat, key_len: nat, val_len: nat) -> nat {
    if n < 4 {
        4
    } else if n < 4 + key_len {
        key_len
    } else if n < 5 + key_len {
        1
    } else if n < 9 + key_len {
        4
    } else {
        val_len
    }
}

/// An input that ends within a record yields none: where the operating system
/// failed to deliver the rest, that failure is passed on; else the record is
/// reported as incomplete, with the number of bytes of the field that was cut.
pub proof fn law_cut_record_is_reported(
    key: Seq<u8>,
    tag: u8,
    val: Seq<u8>,
    n: nat,
    fault: Option<std::io::Error>,
)
    requires
        key.len() < 0x1_0000_0000,
        val.len() < 0x1_0000_0000,
        n < 9 + key.len() + val.len(),
    ensures
        decoded(ReaderView { rest: frame(key, tag, val).take(n as int), fault }) == Err::<
            (RecordView, nat),
            DecodeErrorView,
        >(
            match fault {
                Some(error) => DecodeErrorView::Io(error),
                None => DecodeErrorView::Incomplete {
                    detail: "record ends mid-stream, wanted "@ + decimal(
                        field_cut_at(n, key.len(), val.len()),
                    ) + " more bytes"@,
                },
            },
        ),
        leftover(ReaderView { rest: frame(key, tag, val).take(n as int), fault }) == (ReaderView {
            rest: Seq::empty(),
            fault: None,
        }),
{
    let whole = frame(key, tag, val);
    let cut = whole.take(n as int);
    let k = key.len() as int;
    lemma_fields(key, tag, val, Seq::empty());
    assert(whole + Seq::<u8>::empty() =~= whole);
    if n >= 4 {
        assert(cut.take(4) =~= whole.take(4));
    }
    if n >= 9 + k {
        assert(cut.subrange(5 + k, 9 + k) =~= whole.subrange(5 + k, 9 + k));
    }
}

/// Every input begins with a record or ends within one: these are all cases of
/// reading.
pub proof fn law_every_input_begins_with_a_record_or_ends_in_one(input: Seq<u8>)
    ensures
        exists|key: Seq<u8>, tag: u8, val: Seq<u8>| #![trigger frame(key, tag, val)]
            key.len() < 0x1_0000_0000 && val.len() < 0x1_0000_0000 && {
                ||| frame(key, tag, val).len() <= input.len() && input.take(
                    frame(key, tag, val).len() as int,
                ) == frame(key, tag, val)
                ||| input.len() < frame(key, tag, val).len() && input == frame(key, tag, val).take(
                    input.len() as int,
                )
            },
{
    let n = input.len() as int;
    let filler = Seq::new(0x2_0000_0010, |i: int| 0u8);
    let long = input + filler;
    let key_field = long.take(4);
    lemma_le_value_of_four(key_field);
    crate::bytes::lemma_le_bytes_of_le_value(key_field);
    let k = le_value(key_field) as int;
    let key = long.subrange(4, 4 + k);
    let tag = long[4 + k];
    let val_field = long.subrange(5 + k, 9 + k);
    lemma_le_value_of_four(val_field);
    crate::bytes::lemma_le_bytes_of_le_value(val_field);
    let v = le_value(val_field) as int;
    let val = long.subrange(9 + k, 9 + k + v);
    let whole = frame(key, tag, val);
    assert(whole =~= long.take(9 + k + v));
    if 9 + k + v <= n {
        assert(input.take(whole.len() as int) =~= whole);
    } else {
        assert(input =~= whole.take(n));
    }
}

/// What an unknown tag is reported as.
pub proof fn law_unknown_tag_is_reported_with_its_key(key: Seq<u8>, tag: u8)
    ensures
        invalid_tag_detail(key, tag) == "Invalid tag "@ + decimal(tag as nat)
            + " in record for "@ + byte_list(key),
{
}

/// Entries can be flushed exactly if their keys and values have fewer than 2^32 bytes.
pub proof fn law_entries_of_any_32_bit_length_can_be_flushed(
    entries: Map<Seq<u8>, Option<Seq<u8>>>,
)
    ensures
        entries_encodable(entries) <==> forall|key: Seq<u8>| #[trigger]
            entries.contains_key(key) ==> key.len() < 0x1_0000_0000 && (entries[key] matches Some(
                val,
            ) ==> val.len() < 0x1_0000_0000),
{
    assert forall|key: Seq<u8>| #[trigger] entries.contains_key(key) implies (RecordView {
        key,
        val: entries[key],
    }).encodable() == (key.len() < 0x1_0000_0000 && (entries[key] matches Some(val) ==> val.len()
        < 0x1_0000_0000)) by {}
}

} // verus!
