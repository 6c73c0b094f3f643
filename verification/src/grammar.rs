//! The bencode grammar, stated as mathematical functions on byte sequences.
//!
//! `spec_decode` says, for every buffer and offset, which value the bytes at
//! that offset encode, where the encoding ends and which span each nested
//! value occupies, or which error the first offending byte gives.

use vstd::prelude::*;
use crate::value::{Span, SpanTreeView, Value};

verus! {

/// Why a byte buffer is not bencode. Each variant carries the offset of the
/// token that could not be decoded.
#[derive(Debug, Clone, Copy, PartialEq, Eq, Structural)]
pub enum DecodeError {
    /// An integer literal is not `i`, an optional `-`, decimal digits without
    /// a leading zero, `e`; or it is `-0`; or it does not fit 64 signed bits.
    MalformedInteger(usize),
    /// A length prefix is not decimal digits without a leading zero, followed
    /// by `:`.
    MalformedStringLength(usize),
    /// A byte string announces more bytes than are left, or the buffer ends
    /// where a value must begin.
    TruncatedInput(usize),
    /// The buffer ends before the `e` of the list opened at the offset.
    UnterminatedList(usize),
    /// The buffer ends before the `e` of the dictionary opened at the offset.
    UnterminatedDict(usize),
    /// A dictionary key does not begin as a byte string does.
    NonStringDictKey(usize),
    /// A value begins with a byte that opens no kind of value.
    UnexpectedToken(u8, usize),
    /// A complete value ends at the offset, but the buffer goes on.
    TrailingData(usize),
}

/// What decoding one value yields: the value, the spans recorded for it, and
/// the offset just after its encoding.
pub struct Decoded {
    pub value: Value,
    pub spans: SpanTreeView,
    pub end: int,
}

/// What decoding the elements of a list yields, up to and including the
/// closing `e`.
pub struct DecodedItems {
    pub values: Seq<Value>,
    pub spans: Seq<SpanTreeView>,
    pub end: int,
}

/// What decoding the entries of a dictionary yields, up to and including the
/// closing `e`. `spans[i]` belongs to the value of `entries[i]`.
pub struct DecodedEntries {
    pub entries: Seq<(Seq<u8>, Value)>,
    pub spans: Seq<SpanTreeView>,
    pub end: int,
}

/// The byte `0`.
pub const DIGIT_ZERO: u8 = 48;

/// The byte `9`.
pub const DIGIT_NINE: u8 = 57;

/// The byte `-`, the sign of a negative integer.
pub const MINUS: u8 = 45;

/// The byte `:`, which ends a length prefix.
pub const COLON: u8 = 58;

/// The byte `i`, which opens an integer.
pub const INTEGER_START: u8 = 105;

/// The byte `l`, which opens a list.
pub const LIST_START: u8 = 108;

/// The byte `d`, which opens a dictionary.
pub const DICT_START: u8 = 100;

/// The byte `e`, which closes an integer, a list or a dictionary.
pub const END: u8 = 101;

/// Whether a byte is one of the decimal digits `0` to `9`.
pub open spec fn is_digit(b: u8) -> bool {
    DIGIT_ZERO <= b <= DIGIT_NINE
}

/// The number of decimal digits that `buf` holds from `pos` on, before the
/// first other byte or the end.
pub open spec fn digit_count(buf: Seq<u8>, pos: int) -> nat
    decreases buf.len() - pos,
{
    if 0 <= pos < buf.len() && is_digit(buf[pos]) {
        1 + digit_count(buf, pos + 1)
    } else {
        0
    }
}

/// The number that the decimal digits `buf[from..to]` write.
pub open spec fn decimal(buf: Seq<u8>, from: int, to: int) -> nat
    decreases to - from,
{
    if from >= to {
        0
    } else {
        decimal(buf, from, to - 1) * 10 + (buf[to - 1] - DIGIT_ZERO) as nat
    }
}

/// The spans of a value without nested values.
pub open spec fn leaf_spans(start: int, end: int) -> SpanTreeView {
    SpanTreeView { span: Span { start: start as usize, end: end as usize }, children: Seq::empty() }
}

/// The integer literal that begins with the `i` at `pos`: its number and the
/// offset after its `e`.
pub open spec fn spec_decode_integer(buf: Seq<u8>, pos: int) -> Result<(i64, int), DecodeError> {
    let negative = pos + 1 < buf.len() && buf[pos + 1] == MINUS;
    let first = if negative { pos + 2 } else { pos + 1 };
    let last = first + digit_count(buf, first);
    let magnitude = decimal(buf, first, last);
    let number = if negative { -magnitude } else { magnitude as int };
    if first < last
        && (buf[first] == DIGIT_ZERO ==> last == first + 1 && !negative)
        && last < buf.len() && buf[last] == END
        && i64::MIN <= number <= i64::MAX
    {
        Ok((number as i64, last + 1))
    } else {
        Err(DecodeError::MalformedInteger(pos as usize))
    }
}

/// The byte string whose length prefix begins at `pos`: its bytes and the
/// offset after them.
pub open spec fn spec_decode_bytes(buf: Seq<u8>, pos: int) -> Result<(Seq<u8>, int), DecodeError> {
    let last = pos + digit_count(buf, pos);
    let length = decimal(buf, pos, last);
    if !(pos < last
        && (buf[pos] == DIGIT_ZERO ==> last == pos + 1)
        && last < buf.len() && buf[last] == COLON)
    {
        Err(DecodeError::MalformedStringLength(pos as usize))
    } else if buf.len() - (last + 1) < length {
        Err(DecodeError::TruncatedInput(pos as usize))
    } else {
        Ok((buf.subrange(last + 1, last + 1 + length), last + 1 + length))
    }
}

/// `rest` with the elements `values` and their `spans` put in front.
pub open spec fn prepend_items(
    values: Seq<Value>,
    spans: Seq<SpanTreeView>,
    rest: Result<DecodedItems, DecodeError>,
) -> Result<DecodedItems, DecodeError> {
    match rest {
        Ok(tail) => Ok(
            DecodedItems { values: values + tail.values, spans: spans + tail.spans, end: tail.end },
        ),
        Err(e) => Err(e),
    }
}

/// `rest` with the `entries` and the `spans` of their values put in front.
pub open spec fn prepend_entries(
    entries: Seq<(Seq<u8>, Value)>,
    spans: Seq<SpanTreeView>,
    rest: Result<DecodedEntries, DecodeError>,
) -> Result<DecodedEntries, DecodeError> {
    match rest {
        Ok(tail) => Ok(
            DecodedEntries {
                entries: entries + tail.entries,
                spans: spans + tail.spans,
                end: tail.end,
            },
        ),
        Err(e) => Err(e),
    }
}

/// The value whose encoding begins at `pos`.
///
/// The first byte decides the kind: `i` an integer, a digit a byte string,
/// `l` a list, `d` a dictionary. Any other byte is an unexpected token, and
/// the end of the buffer is truncated input.
pub open spec fn spec_decode(buf: Seq<u8>, pos: int) -> Result<Decoded, DecodeError>
    decreases buf.len() - pos, 0int,
{
    if !(0 <= pos < buf.len()) {
        Err(DecodeError::TruncatedInput(pos as usize))
    } else if buf[pos] == INTEGER_START {
        match spec_decode_integer(buf, pos) {
            Ok((number, end)) => Ok(
                Decoded { value: Value::Integer(number), spans: leaf_spans(pos, end), end },
            ),
            Err(e) => Err(e),
        }
    } else if is_digit(buf[pos]) {
        match spec_decode_bytes(buf, pos) {
            Ok((bytes, end)) => Ok(
                Decoded { value: Value::ByteString(bytes), spans: leaf_spans(pos, end), end },
            ),
            Err(e) => Err(e),
        }
    } else if buf[pos] == LIST_START {
        match spec_decode_items(buf, pos + 1, pos) {
            Ok(items) => Ok(
                Decoded {
                    value: Value::List(items.values),
                    spans: SpanTreeView {
                        span: Span { start: pos as usize, end: items.end as usize },
                        children: items.spans,
                    },
                    end: items.end,
                },
            ),
            Err(e) => Err(e),
        }
    } else if buf[pos] == DICT_START {
        match spec_decode_entries(buf, pos + 1, pos) {
            Ok(dict) => Ok(
                Decoded {
                    value: Value::Dict(dict.entries),
                    spans: SpanTreeView {
                        span: Span { start: pos as usize, end: dict.end as usize },
                        children: dict.spans,
                    },
                    end: dict.end,
                },
            ),
            Err(e) => Err(e),
        }
    } else {
        Err(DecodeError::UnexpectedToken(buf[pos], pos as usize))
    }
}

/// The elements of the list opened at `opened`, from `pos` to its `e`.
///
/// A decoded value always ends after the offset at which it began and within
/// the buffer (`lemma_decode_spans`); the test on `head.end` only makes it
/// evident that the definition is well-founded.
pub open spec fn spec_decode_items(buf: Seq<u8>, pos: int, opened: int) -> Result<
    DecodedItems,
    DecodeError,
>
    decreases buf.len() - pos, 1int,
{
    if !(0 <= pos < buf.len()) {
        Err(DecodeError::UnterminatedList(opened as usize))
    } else if buf[pos] == END {
        Ok(DecodedItems { values: Seq::empty(), spans: Seq::empty(), end: pos + 1 })
    } else {
        match spec_decode(buf, pos) {
            Ok(head) => if pos < head.end <= buf.len() {
                prepend_items(
                    seq![head.value],
                    seq![head.spans],
                    spec_decode_items(buf, head.end, opened),
                )
            } else {
                Err(DecodeError::UnterminatedList(opened as usize))
            },
            Err(e) => Err(e),
        }
    }
}

/// The entries of the dictionary opened at `opened`, from `pos` to its `e`.
///
/// Each key must be a byte string. Keys are taken as they come: neither
/// their order nor a repeated key is an error. As in `spec_decode_items`,
/// the test on `head.end` is always met.
pub open spec fn spec_decode_entries(buf: Seq<u8>, pos: int, opened: int) -> Result<
    DecodedEntries,
    DecodeError,
>
    decreases buf.len() - pos, 1int,
{
    if !(0 <= pos < buf.len()) {
        Err(DecodeError::UnterminatedDict(opened as usize))
    } else if buf[pos] == END {
        Ok(DecodedEntries { entries: Seq::empty(), spans: Seq::empty(), end: pos + 1 })
    } else if !is_digit(buf[pos]) {
        Err(DecodeError::NonStringDictKey(pos as usize))
    } else {
        match spec_decode_bytes(buf, pos) {
            Ok((key, key_end)) => match spec_decode(buf, key_end) {
                Ok(head) => if key_end < head.end <= buf.len() {
                    prepend_entries(
                        seq![(key, head.value)],
                        seq![head.spans],
                        spec_decode_entries(buf, head.end, opened),
                    )
                } else {
                    Err(DecodeError::UnterminatedDict(opened as usize))
                },
                Err(e) => Err(e),
            },
            Err(e) => Err(e),
        }
    }
}

} // verus!
