//! The encoding of one key with its value or tombstone.
//!
//! ```text
//! [key_len: u32 LE][key bytes][tag: u8][value_len: u32 LE][value bytes]
//! ```
//!
//! Tag 0 is a live value; tag 1 is a tombstone, written with no value bytes.

use vstd::prelude::*;

use crate::bytes::{
    append_le, le_bytes, le_value, lemma_le_bytes_of_le_value, lemma_le_value_of_four,
    lemma_le_value_of_le_bytes, lemma_u32_fits, read_u32,
};
use crate::reader::{Reader, ReaderView};
use crate::text::{append_byte_list, append_decimal, byte_list, decimal};

verus! {

/// The tag of a live value.
pub const LIVE_TAG: u8 = 0;

/// The tag of a tombstone.
pub const TOMBSTONE_TAG: u8 = 1;

/// A key with its value, or with `None` for a tombstone.
#[derive(Debug)]
pub struct Record {
    pub key: Vec<u8>,
    pub val: Option<Vec<u8>>,
}

/// A `Record` as a value.
#[verifier::ext_equal]
pub struct RecordView {
    pub key: Seq<u8>,
    pub val: Option<Seq<u8>>,
}

impl View for Record {
    type V = RecordView;

    open spec fn view(&self) -> RecordView {
        RecordView {
            key: self.key@,
            val: match self.val {
                Some(val) => Some(val@),
                None => None,
            },
        }
    }
}

/// Why no record could be read.
#[derive(Debug)]
pub enum DecodeError {
    /// The input ends within the record.
    Incomplete { detail: String },
    /// The record is complete, but its tag is none of the known ones.
    InvalidTag { key: Vec<u8>, tag: u8 },
    /// The operating system failed to deliver the record.
    Io(std::io::Error),
}

/// A `DecodeError` as a value.
pub enum DecodeErrorView {
    Incomplete { detail: Seq<char> },
    InvalidTag { key: Seq<u8>, tag: u8 },
    Io(std::io::Error),
}

impl View for DecodeError {
    type V = DecodeErrorView;

    open spec fn view(&self) -> DecodeErrorView {
        match self {
            DecodeError::Incomplete { detail } => DecodeErrorView::Incomplete { detail: detail@ },
            DecodeError::InvalidTag { key, tag } => DecodeErrorView::InvalidTag {
                key: key@,
                tag: *tag,
            },
            DecodeError::Io(error) => DecodeErrorView::Io(*error),
        }
    }
}

impl RecordView {
    /// The value bytes that the record is written with: none for a tombstone.
    pub open spec fn val_bytes(self) -> Seq<u8> {
        match self.val {
            Some(val) => val,
            None => Seq::empty(),
        }
    }

    /// The tag that the record is written with.
    pub open spec fn tag(self) -> u8 {
        match self.val {
            Some(_) => LIVE_TAG,
            None => TOMBSTONE_TAG,
        }
    }

    /// The bytes of the record.
    pub open spec fn encoding(self) -> Seq<u8> {
        le_bytes(self.key.len(), 4) + self.key + seq![self.tag()] + le_bytes(
            self.val_bytes().len(),
            4,
        ) + self.val_bytes()
    }

    /// The number of bytes of the record.
    pub open spec fn encoded_len(self) -> nat {
        9 + self.key.len() + self.val_bytes().len()
    }

    /// Whether the lengths of key and value fit in their fields.
    pub open spec fn encodable(self) -> bool {
        self.key.len() <= u32::MAX && self.val_bytes().len() <= u32::MAX
    }
}

/// A borrowed entry as a value.
pub open spec fn entry_view(entry: (&[u8], Option<&[u8]>)) -> RecordView {
    RecordView {
        key: entry.0@,
        val: match entry.1 {
            Some(val) => Some(val@),
            None => None,
        },
    }
}

/// What an input that ends within a field of `wanted` bytes is reported as.
pub open spec fn incomplete_detail(wanted: nat) -> Seq<char> {
    "record ends mid-stream, wanted "@ + decimal(wanted) + " more bytes"@
}

/// What an unknown tag is reported as.
pub open spec fn invalid_tag_detail(key: Seq<u8>, tag: u8) -> Seq<char> {
    "Invalid tag "@ + decimal(tag as nat) + " in record for "@ + byte_list(key)
}

/// What reading `wanted` bytes past the end of the input fails with.
pub open spec fn shortfall(source: ReaderView, wanted: nat) -> DecodeErrorView {
    match source.fault {
        Some(fault) => DecodeErrorView::Io(fault),
        None => DecodeErrorView::Incomplete { detail: incomplete_detail(wanted) },
    }
}

/// The record at the front of the input and the number of bytes that it takes
/// up there, or why there is none.
///
/// The value bytes of a tombstone are skipped.
pub open spec fn decoded(source: ReaderView) -> std::result::Result<
    (RecordView, nat),
    DecodeErrorView,
> {
    let input = source.rest;
    if input.len() < 4 {
        Err(shortfall(source, 4))
    } else {
        let key_len = le_value(input.take(4));
        if input.len() < 4 + key_len {
            Err(shortfall(source, key_len))
        } else if input.len() < 5 + key_len {
            Err(shortfall(source, 1))
        } else if input.len() < 9 + key_len {
            Err(shortfall(source, 4))
        } else {
            let key = input.subrange(4, 4 + key_len as int);
            let tag = input[4 + key_len as int];
            let val_len = le_value(input.subrange(5 + key_len as int, 9 + key_len as int));
            let end = 9 + key_len + val_len;
            if input.len() < end {
                Err(shortfall(source, val_len))
            } else if tag == LIVE_TAG {
                let val = input.subrange(9 + key_len as int, end as int);
                Ok((RecordView { key, val: Some(val) }, end))
            } else if tag == TOMBSTONE_TAG {
                Ok((RecordView { key, val: None }, end))
            } else {
                Err(DecodeErrorView::InvalidTag { key, tag })
            }
        }
    }
}

/// What is left of the input once a record was read, or was tried.
pub open spec fn leftover(source: ReaderView) -> ReaderView {
    let input = source.rest;
    match decoded(source) {
        Ok((_, len)) => ReaderView { rest: input.skip(len as int), fault: source.fault },
        Err(DecodeErrorView::InvalidTag { key, .. }) => {
            let val_at = 9 + key.len() as int;
            let val_len = le_value(input.subrange(val_at - 4, val_at)) as int;
            ReaderView { rest: input.skip(val_at + val_len), fault: source.fault }
        },
        Err(_) => ReaderView { rest: Seq::empty(), fault: None },
    }
}

impl Record {
    /// The number of bytes that `encode` writes for the record.
    pub fn encoded_len(&self) -> (len: u64)
        requires
            self@.encoded_len() <= u64::MAX,
        ensures
            len == self@.encoded_len(),
    {
        let val_len: u64 = match &self.val {
            Some(val) => val.len() as u64,
            None => 0,
        };
        4 + self.key.len() as u64 + 1 + 4 + val_len
    }

    /// Appends the bytes of the record of `key` and `val` to `writer`.
    pub fn encode(writer: &mut Vec<u8>, key: &[u8], val: Option<&[u8]>)
        requires
            key@.len() <= u32::MAX,
            val matches Some(val) ==> val@.len() <= u32::MAX,
        ensures
            final(writer)@ == old(writer)@ + entry_view((key, val)).encoding(),
    {
        append_le(writer, key.len() as u64, 4);
        writer.extend_from_slice(key);
        let ghost record = entry_view((key, val));
        match val {
            Some(val_bytes) => {
                writer.push(LIVE_TAG);
                append_le(writer, val_bytes.len() as u64, 4);
                writer.extend_from_slice(val_bytes);
            },
            None => {
                writer.push(TOMBSTONE_TAG);
                append_le(writer, 0, 4);
            },
        }
        assert(writer@ =~= old(writer)@ + record.encoding());
    }

    /// Reads one record off the front of the input.
    pub fn decode(reader: &mut Reader<'_>) -> (record: std::result::Result<Record, DecodeError>)
        ensures
            match (record, decoded(old(reader)@)) {
                (Ok(record), Ok((view, _))) => record@ == view,
                (Err(error), Err(view)) => error@ == view,
                _ => false,
            },
            final(reader)@ == leftover(old(reader)@),
    {
        let ghost input = reader@.rest;
        let key_len: u32 = match Self::read_exact(reader, 4) {
            Ok(buffer) => read_u32(buffer.as_slice()),
            Err(error) => return Err(error),
        };
        let key = match Self::read_exact(reader, key_len as usize) {
            Ok(key) => key,
            Err(error) => return Err(error),
        };
        assert(key@ =~= input.subrange(4, 4 + key_len));
        let tag: u8 = match Self::read_exact(reader, 1) {
            Ok(buffer) => buffer[0],
            Err(error) => return Err(error),
        };
        let val_len: u32 = match Self::read_exact(reader, 4) {
            Ok(buffer) => {
                assert(buffer@ =~= input.subrange(5 + key_len, 9 + key_len));
                read_u32(buffer.as_slice())
            },
            Err(error) => return Err(error),
        };
        let val = match Self::read_exact(reader, val_len as usize) {
            Ok(val) => val,
            Err(error) => return Err(error),
        };
        assert(val@ =~= input.subrange(9 + key_len, 9 + key_len + val_len));
        assert(reader@.rest =~= input.skip(9 + key_len + val_len));
        match tag {
            LIVE_TAG => Ok(Record { key, val: Some(val) }),
            TOMBSTONE_TAG => Ok(Record { key, val: None }),
            _ => Err(DecodeError::InvalidTag { key, tag }),
        }
    }

    /// Takes the next `len` bytes of the input, which hold a field of a record.
    pub fn read_exact(reader: &mut Reader<'_>, len: usize) -> (field: std::result::Result<
        Vec<u8>,
        DecodeError,
    >)
        ensures
            match field {
                Ok(bytes) => {
                    &&& len <= old(reader)@.rest.len()
                    &&& bytes@ == old(reader)@.rest.take(len as int)
                    &&& final(reader)@.rest == old(reader)@.rest.skip(len as int)
                    &&& final(reader)@.fault == old(reader)@.fault
                },
                Err(error) => {
                    &&& old(reader)@.rest.len() < len
                    &&& error@ == shortfall(old(reader)@, len as nat)
                    &&& final(reader)@.rest == Seq::<u8>::empty()
                    &&& final(reader)@.fault is None
                },
            },
    {
        match reader.take(len) {
            Ok(bytes) => Ok(bytes),
            Err(Some(fault)) => Err(DecodeError::Io(fault)),
            Err(None) => {
                let mut detail = String::new();
                detail.append("record ends mid-stream, wanted ");
                append_decimal(&mut detail, len as u64);
                detail.append(" more bytes");
                assert(detail@ =~= incomplete_detail(len as nat));
                Err(DecodeError::Incomplete { detail })
            },
        }
    }
}

/// The text that reports an unknown tag.
pub fn invalid_tag_message(key: &[u8], tag: u8) -> (detail: String)
    ensures
        detail@ == invalid_tag_detail(key@, tag),
{
    let mut detail = String::new();
    detail.append("Invalid tag ");
    append_decimal(&mut detail, tag as u64);
    detail.append(" in record for ");
    append_byte_list(&mut detail, key);
    assert(detail@ =~= invalid_tag_detail(key@, tag));
    detail
}

/// What `encode` writes, `decode` reads back, whatever follows it.
pub proof fn law_decode_inverts_encode(
    record: RecordView,
    following: Seq<u8>,
    fault: Option<std::io::Error>,
)
    requires
        record.encodable(),
    ensures
        decoded(ReaderView { rest: record.encoding() + following, fault }) == Ok::<
            (RecordView, nat),
            DecodeErrorView,
        >((record, record.encoded_len())),
        leftover(ReaderView { rest: record.encoding() + following, fault }) == (ReaderView {
            rest: following,
            fault,
        }),
{
    let input = record.encoding() + following;
    let key_len = record.key.len();
    let val_len = record.val_bytes().len();
    lemma_u32_fits(key_len);
    lemma_u32_fits(val_len);
    lemma_le_value_of_le_bytes(key_len, 4);
    lemma_le_value_of_le_bytes(val_len, 4);
    assert(input.take(4) =~= le_bytes(key_len, 4));
    assert(input.subrange(4, 4 + key_len as int) =~= record.key);
    assert(input[4 + key_len as int] == record.tag());
    assert(input.subrange(5 + key_len as int, 9 + key_len as int) =~= le_bytes(val_len, 4));
    assert(input.subrange(9 + key_len as int, 9 + key_len as int + val_len as int)
        =~= record.val_bytes());
    assert(input.skip(record.encoded_len() as int) =~= following);
}

/// What `decode` reads, `encode` writes again, byte for byte, unless it was a
/// tombstone with value bytes, which takes up more than its encoding.
pub proof fn law_encode_inverts_decode(source: ReaderView)
    requires
        decoded(source) matches Ok((record, len)) && len == record.encoded_len(),
    ensures
        decoded(source)->Ok_0.0.encoding() == source.rest.take(decoded(source)->Ok_0.1 as int),
{
    let input = source.rest;
    let (record, len) = decoded(source)->Ok_0;
    let key_len = record.key.len() as int;
    let key_field = input.take(4);
    let val_field = input.subrange(5 + key_len, 9 + key_len);
    lemma_le_bytes_of_le_value(key_field);
    lemma_le_bytes_of_le_value(val_field);
    lemma_le_value_of_four(key_field);
    lemma_le_value_of_four(val_field);
    assert(record.val_bytes().len() == le_value(val_field));
    assert(record.encoding() =~= input.take(len as int));
}

/// The encoding of a record takes up `encoded_len` bytes.
pub proof fn law_encoded_len_is_length_of_encoding(record: RecordView)
    ensures
        record.encoding().len() == record.encoded_len(),
{
    lemma_le_value_of_le_bytes(record.key.len(), 4);
    lemma_le_value_of_le_bytes(record.val_bytes().len(), 4);
}

/// A record that was written only in part reads as incomplete.
pub proof fn law_torn_record_is_incomplete(record: RecordView, written: nat)
    requires
        record.encodable(),
        written < record.encoded_len(),
    ensures
        decoded(
            ReaderView { rest: record.encoding().take(written as int), fault: None },
        ) matches Err(DecodeErrorView::Incomplete { .. }),
{
    let whole = record.encoding();
    let torn = whole.take(written as int);
    let key_len = record.key.len();
    law_encoded_len_is_length_of_encoding(record);
    lemma_u32_fits(key_len);
    lemma_u32_fits(record.val_bytes().len());
    lemma_le_value_of_le_bytes(key_len, 4);
    lemma_le_value_of_le_bytes(record.val_bytes().len(), 4);
    if written >= 4 {
        assert(torn.take(4) =~= le_bytes(key_len, 4));
    }
    if written >= 9 + key_len {
        assert(torn.subrange(5 + key_len as int, 9 + key_len as int) =~= le_bytes(
            record.val_bytes().len(),
            4,
        ));
    }
}

/// A record that was read lies within the input, and takes up no fewer bytes
/// there than its encoding has. Its lengths fit in their fields.
pub proof fn lemma_decoded_bounds(source: ReaderView)
    requires
        decoded(source) is Ok,
    ensures
        decoded(source)->Ok_0.0.encodable(),
        9 <= decoded(source)->Ok_0.0.encoded_len() <= decoded(source)->Ok_0.1,
        decoded(source)->Ok_0.1 <= source.rest.len(),
{
    let input = source.rest;
    lemma_le_value_of_four(input.take(4));
    let key_len = le_value(input.take(4)) as int;
    lemma_le_value_of_four(input.subrange(5 + key_len, 9 + key_len));
}

/// A record that was read is read again where the input is cut off behind it.
pub proof fn lemma_decoded_of_cut_input(source: ReaderView, len: nat)
    requires
        decoded(source) matches Ok((_, end)) && end <= len <= source.rest.len(),
    ensures
        decoded(ReaderView { rest: source.rest.take(len as int), fault: None }) == decoded(source),
{
    let input = source.rest;
    let cut = input.take(len as int);
    let (record, end) = decoded(source)->Ok_0;
    let key_len = record.key.len() as int;
    lemma_decoded_bounds(source);
    assert(cut.take(4) =~= input.take(4));
    assert(cut.subrange(4, 4 + key_len) =~= input.subrange(4, 4 + key_len));
    assert(cut.subrange(5 + key_len, 9 + key_len) =~= input.subrange(5 + key_len, 9 + key_len));
    assert(cut.subrange(9 + key_len, end as int) =~= input.subrange(9 + key_len, end as int));
}

} // verus!
