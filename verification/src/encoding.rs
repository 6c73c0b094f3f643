//! The encoding of a value, and the proof that the span recorded for a
//! decoded value holds exactly that encoding.

use vstd::prelude::*;
use crate::grammar::{
    decimal, digit_count, is_digit, spec_decode, spec_decode_bytes, spec_decode_entries,
    spec_decode_integer, spec_decode_items, COLON, DICT_START, DIGIT_ZERO, END, INTEGER_START,
    LIST_START, MINUS,
};
use crate::value::{SpanTreeView, Value};

verus! {

/// The decimal digits that write `n`, without a leading zero.
pub open spec fn digits(n: nat) -> Seq<u8>
    decreases n,
{
    if n < 10 {
        seq![(DIGIT_ZERO + n) as u8]
    } else {
        digits(n / 10).push((DIGIT_ZERO + n % 10) as u8)
    }
}

/// The encoding of an integer: `i`, the number in decimal, `e`.
pub open spec fn encode_integer(number: int) -> Seq<u8> {
    if number < 0 {
        seq![INTEGER_START, MINUS] + digits((-number) as nat) + seq![END]
    } else {
        seq![INTEGER_START] + digits(number as nat) + seq![END]
    }
}

/// The encoding of a byte string: its length in decimal, `:`, its bytes.
pub open spec fn encode_bytes(bytes: Seq<u8>) -> Seq<u8> {
    digits(bytes.len()) + seq![COLON] + bytes
}

/// The encoding of a value. A dictionary is written entry by entry in the
/// order that it has, so that the encoding of a decoded value is the input.
pub open spec fn encode(value: Value) -> Seq<u8>
    decreases value,
{
    match value {
        Value::Integer(number) => encode_integer(number as int),
        Value::ByteString(bytes) => encode_bytes(bytes),
        Value::List(items) => seq![LIST_START] + encode_items(items) + seq![END],
        Value::Dict(entries) => seq![DICT_START] + encode_entries(entries) + seq![END],
    }
}

/// The encodings of the elements of a list, one after the other.
pub open spec fn encode_items(items: Seq<Value>) -> Seq<u8>
    decreases items,
{
    if items.len() == 0 {
        Seq::empty()
    } else {
        encode(items.first()) + encode_items(items.drop_first())
    }
}

/// The encodings of the entries of a dictionary, each a key and its value.
pub open spec fn encode_entries(entries: Seq<(Seq<u8>, Value)>) -> Seq<u8>
    decreases entries,
{
    if entries.len() == 0 {
        Seq::empty()
    } else {
        encode_bytes(entries.first().0) + encode(entries.first().1) + encode_entries(
            entries.drop_first(),
        )
    }
}

impl SpanTreeView {
    /// Whether each span of the tree marks, in `buf`, exactly the encoding
    /// of the value at its place in `value`.
    pub open spec fn exact(self, value: Value, buf: Seq<u8>) -> bool
        decreases self,
    {
        &&& self.span.start <= self.span.end <= buf.len()
        &&& buf.subrange(self.span.start as int, self.span.end as int) == encode(value)
        &&& match value {
            Value::List(items) => {
                &&& self.children.len() == items.len()
                &&& forall|i: int|
                    0 <= i < self.children.len() ==> (#[trigger] self.children[i]).exact(
                        items[i],
                        buf,
                    )
            },
            Value::Dict(entries) => {
                &&& self.children.len() == entries.len()
                &&& forall|i: int|
                    0 <= i < self.children.len() ==> (#[trigger] self.children[i]).exact(
                        entries[i].1,
                        buf,
                    )
            },
            _ => self.children.len() == 0,
        }
    }
}

/// From `pos` on, `digit_count` bytes are digits, and the byte after them,
/// if there is one, is none.
pub proof fn lemma_digit_run(buf: Seq<u8>, pos: int)
    requires
        0 <= pos,
    ensures
        pos + digit_count(buf, pos) <= buf.len() || digit_count(buf, pos) == 0,
        forall|k: int| pos <= k < pos + digit_count(buf, pos) ==> is_digit(#[trigger] buf[k]),
        pos + digit_count(buf, pos) < buf.len() ==> !is_digit(buf[pos + digit_count(buf, pos)]),
    decreases buf.len() - pos,
{
    if pos < buf.len() && is_digit(buf[pos]) {
        lemma_digit_run(buf, pos + 1);
    }
}

/// Digits that do not begin with `0` write a number that is not zero.
proof fn lemma_decimal_positive(buf: Seq<u8>, from: int, to: int)
    requires
        0 <= from < to <= buf.len(),
        forall|k: int| from <= k < to ==> is_digit(#[trigger] buf[k]),
        buf[from] != DIGIT_ZERO,
    ensures
        decimal(buf, from, to) >= 1,
    decreases to - from,
{
    if to > from + 1 {
        lemma_decimal_positive(buf, from, to - 1);
    } else {
        assert(decimal(buf, from, from) == 0);
    }
}

/// Digits without a leading zero are the digits of the number they write.
pub proof fn lemma_digits_of_decimal(buf: Seq<u8>, from: int, to: int)
    requires
        0 <= from < to <= buf.len(),
        forall|k: int| from <= k < to ==> is_digit(#[trigger] buf[k]),
        buf[from] == DIGIT_ZERO ==> to == from + 1,
    ensures
        buf.subrange(from, to) == digits(decimal(buf, from, to)),
    decreases to - from,
{
    if to == from + 1 {
        assert(decimal(buf, from, from) == 0);
        assert(is_digit(buf[from]));
        assert(buf.subrange(from, to) =~= seq![buf[from]]);
    } else {
        lemma_digits_of_decimal(buf, from, to - 1);
        lemma_decimal_positive(buf, from, to - 1);
        assert(is_digit(buf[to - 1]));
        let front = decimal(buf, from, to - 1);
        let last = (buf[to - 1] - DIGIT_ZERO) as nat;
        let n = decimal(buf, from, to);
        assert(n == front * 10 + last);
        assert(n / 10 == front && n % 10 == last);
        assert(buf.subrange(from, to) =~= buf.subrange(from, to - 1).push(buf[to - 1]));
    }
}

/// An integer literal that the grammar accepts is the encoding of its
/// number.
pub proof fn lemma_integer_is_encoding(buf: Seq<u8>, pos: int)
    requires
        0 <= pos < buf.len(),
        buf[pos] == INTEGER_START,
    ensures
        spec_decode_integer(buf, pos) matches Ok((number, end)) ==> {
            &&& pos < end <= buf.len()
            &&& buf.subrange(pos, end) == encode_integer(number as int)
        },
{
    if let Ok((number, end)) = spec_decode_integer(buf, pos) {
        let negative = pos + 1 < buf.len() && buf[pos + 1] == MINUS;
        let first = if negative { pos + 2 } else { pos + 1 };
        let last = first + digit_count(buf, first);
        lemma_digit_run(buf, first);
        lemma_digits_of_decimal(buf, first, last);
        if negative {
            lemma_decimal_positive(buf, first, last);
            assert(buf.subrange(pos, end) =~= seq![INTEGER_START, MINUS] + buf.subrange(
                first,
                last,
            ) + seq![END]);
        } else {
            assert(buf.subrange(pos, end) =~= seq![INTEGER_START] + buf.subrange(first, last)
                + seq![END]);
        }
    }
}

/// A byte string that the grammar accepts is the encoding of its bytes.
pub proof fn lemma_bytes_is_encoding(buf: Seq<u8>, pos: int)
    requires
        0 <= pos,
    ensures
        spec_decode_bytes(buf, pos) matches Ok((bytes, end)) ==> {
            &&& pos < end <= buf.len()
            &&& buf.subrange(pos, end) == encode_bytes(bytes)
        },
{
    if let Ok((bytes, end)) = spec_decode_bytes(buf, pos) {
        let last = pos + digit_count(buf, pos);
        lemma_digit_run(buf, pos);
        lemma_digits_of_decimal(buf, pos, last);
        assert(buf.subrange(pos, end) =~= buf.subrange(pos, last) + seq![COLON] + bytes);
    }
}

/// The span recorded for a decoded value, and for each value nested in it,
/// marks exactly the bytes of the buffer that are the encoding of that
/// value.
pub proof fn lemma_decode_exact(buf: Seq<u8>, pos: int)
    requires
        0 <= pos,
        buf.len() <= usize::MAX,
    ensures
        spec_decode(buf, pos) matches Ok(decoded) ==> {
            &&& pos < decoded.end <= buf.len()
            &&& decoded.spans.span.start == pos
            &&& decoded.spans.span.end == decoded.end
            &&& decoded.spans.exact(decoded.value, buf)
        },
    decreases buf.len() - pos, 0int,
{
    if 0 <= pos < buf.len() {
        if buf[pos] == INTEGER_START {
            lemma_integer_is_encoding(buf, pos);
        } else if is_digit(buf[pos]) {
            lemma_bytes_is_encoding(buf, pos);
        } else if buf[pos] == LIST_START {
            lemma_items_exact(buf, pos + 1, pos);
            if let Ok(items) = spec_decode_items(buf, pos + 1, pos) {
                assert(buf.subrange(pos, items.end) =~= seq![LIST_START] + buf.subrange(
                    pos + 1,
                    items.end,
                ));
                assert(seq![LIST_START] + (encode_items(items.values) + seq![END]) =~= seq![
                    LIST_START,
                ] + encode_items(items.values) + seq![END]);
            }
        } else if buf[pos] == DICT_START {
            lemma_entries_exact(buf, pos + 1, pos);
            if let Ok(dict) = spec_decode_entries(buf, pos + 1, pos) {
                assert(buf.subrange(pos, dict.end) =~= seq![DICT_START] + buf.subrange(
                    pos + 1,
                    dict.end,
                ));
                assert(seq![DICT_START] + (encode_entries(dict.entries) + seq![END]) =~= seq![
                    DICT_START,
                ] + encode_entries(dict.entries) + seq![END]);
            }
        }
    }
}

/// The same, of the elements of a list up to and including its `e`.
pub proof fn lemma_items_exact(buf: Seq<u8>, pos: int, opened: int)
    requires
        0 <= pos,
        buf.len() <= usize::MAX,
    ensures
        spec_decode_items(buf, pos, opened) matches Ok(items) ==> {
            &&& pos < items.end <= buf.len()
            &&& buf.subrange(pos, items.end) == encode_items(items.values) + seq![END]
            &&& items.spans.len() == items.values.len()
            &&& forall|i: int|
                0 <= i < items.spans.len() ==> (#[trigger] items.spans[i]).exact(
                    items.values[i],
                    buf,
                )
        },
    decreases buf.len() - pos, 1int,
{
    if 0 <= pos < buf.len() {
        if buf[pos] == END {
            assert(buf.subrange(pos, pos + 1) =~= Seq::<u8>::empty() + seq![END]);
        } else {
            lemma_decode_exact(buf, pos);
            if let Ok(head) = spec_decode(buf, pos) {
                lemma_items_exact(buf, head.end, opened);
                if let Ok(tail) = spec_decode_items(buf, head.end, opened) {
                    let values = seq![head.value] + tail.values;
                    assert(values.first() == head.value);
                    assert(values.drop_first() =~= tail.values);
                    assert(buf.subrange(pos, tail.end) =~= buf.subrange(pos, head.end)
                        + buf.subrange(head.end, tail.end));
                    assert(encode(head.value) + (encode_items(tail.values) + seq![END])
                        =~= encode(head.value) + encode_items(tail.values) + seq![END]);
                }
            }
        }
    }
}

/// The same, of the entries of a dictionary up to and including its `e`.
pub proof fn lemma_entries_exact(buf: Seq<u8>, pos: int, opened: int)
    requires
        0 <= pos,
        buf.len() <= usize::MAX,
    ensures
        spec_decode_entries(buf, pos, opened) matches Ok(dict) ==> {
            &&& pos < dict.end <= buf.len()
            &&& buf.subrange(pos, dict.end) == encode_entries(dict.entries) + seq![END]
            &&& dict.spans.len() == dict.entries.len()
            &&& forall|i: int|
                0 <= i < dict.spans.len() ==> (#[trigger] dict.spans[i]).exact(
                    dict.entries[i].1,
                    buf,
                )
        },
    decreases buf.len() - pos, 1int,
{
    if 0 <= pos < buf.len() {
        if buf[pos] == END {
            assert(buf.subrange(pos, pos + 1) =~= Seq::<u8>::empty() + seq![END]);
        } else if is_digit(buf[pos]) {
            lemma_bytes_is_encoding(buf, pos);
            if let Ok((key, key_end)) = spec_decode_bytes(buf, pos) {
                lemma_decode_exact(buf, key_end);
                if let Ok(head) = spec_decode(buf, key_end) {
                    lemma_entries_exact(buf, head.end, opened);
                    if let Ok(tail) = spec_decode_entries(buf, head.end, opened) {
                        let entries = seq![(key, head.value)] + tail.entries;
                        assert(entries.first() == (key, head.value));
                        assert(entries.drop_first() =~= tail.entries);
                        assert(buf.subrange(pos, tail.end) =~= buf.subrange(pos, key_end)
                            + buf.subrange(key_end, head.end) + buf.subrange(
                            head.end,
                            tail.end,
                        ));
                        assert(encode_bytes(key) + encode(head.value) + (encode_entries(
                            tail.entries,
                        ) + seq![END]) =~= encode_bytes(key) + encode(head.value)
                            + encode_entries(tail.entries) + seq![END]);
                    }
                }
            }
        }
    }
}

} // verus!
