//! The executable decoder, proved to compute what the grammar states.

use vstd::prelude::*;
use vstd::slice::{slice_subrange, slice_to_vec};
use crate::grammar::{
    decimal, digit_count, is_digit, prepend_entries, prepend_items, spec_decode,
    spec_decode_bytes, spec_decode_entries, spec_decode_integer, spec_decode_items, DecodeError,
    Decoded, DecodedEntries, DecodedItems, COLON, DICT_START, DIGIT_NINE, DIGIT_ZERO, END,
    INTEGER_START, LIST_START, MINUS,
};
use crate::value::{
    entries_view, lemma_dict_view, lemma_list_view, lemma_span_tree_view, spans_view, values_view,
    Bencode, Span, SpanTree, SpanTreeView, Value,
};

verus! {

/// The magnitude of the least 64-bit signed integer, the largest that an
/// integer literal may write.
const MAGNITUDE_LIMIT: u64 = 9223372036854775808;

/// Tests whether a byte is a decimal digit.
fn is_digit_byte(b: u8) -> (r: bool)
    ensures
        r == is_digit(b),
{
    DIGIT_ZERO <= b && b <= DIGIT_NINE
}

/// One more digit multiplies the number by ten and adds the digit.
proof fn lemma_decimal_step(buf: Seq<u8>, from: int, to: int)
    requires
        from <= to,
    ensures
        decimal(buf, from, to + 1) == decimal(buf, from, to) * 10 + (buf[to] - DIGIT_ZERO) as nat,
{
}

/// Decodes the integer literal that begins with the `i` at `pos`.
fn decode_integer(buf: &[u8], pos: usize) -> (r: Result<(i64, usize), DecodeError>)
    requires
        pos < buf@.len(),
    ensures
        match r {
            Ok((number, end)) => {
                &&& spec_decode_integer(buf@, pos as int) == Ok::<(i64, int), DecodeError>(
                    (number, end as int),
                )
                &&& pos < end <= buf@.len()
            },
            Err(e) => spec_decode_integer(buf@, pos as int) == Err::<(i64, int), DecodeError>(e),
        },
{
    let len = buf.len();
    let negative = pos + 1 < len && buf[pos + 1] == MINUS;
    let first: usize = if negative { pos + 2 } else { pos + 1 };
    let mut i: usize = first;
    let mut magnitude: u64 = 0;
    let mut fits = true;
    while i < len && is_digit_byte(buf[i])
        invariant
            len == buf@.len(),
            first <= i <= len,
            first + digit_count(buf@, first as int) == i + digit_count(buf@, i as int),
            fits ==> magnitude == decimal(buf@, first as int, i as int) && magnitude
                <= MAGNITUDE_LIMIT,
            !fits ==> decimal(buf@, first as int, i as int) > MAGNITUDE_LIMIT,
        decreases len - i,
    {
        let digit: u64 = (buf[i] - DIGIT_ZERO) as u64;
        proof {
            lemma_decimal_step(buf@, first as int, i as int);
        }
        if fits {
            let wider: u128 = (magnitude as u128) * 10 + (digit as u128);
            if wider > MAGNITUDE_LIMIT as u128 {
                fits = false;
            } else {
                magnitude = wider as u64;
            }
        }
        i = i + 1;
    }
    if i == first || i >= len || buf[i] != END || !fits {
        return Err(DecodeError::MalformedInteger(pos));
    }
    if buf[first] == DIGIT_ZERO && (i != first + 1 || negative) {
        return Err(DecodeError::MalformedInteger(pos));
    }
    if negative {
        if magnitude == MAGNITUDE_LIMIT {
            Ok((i64::MIN, i + 1))
        } else {
            Ok((-(magnitude as i64), i + 1))
        }
    } else if magnitude == MAGNITUDE_LIMIT {
        Err(DecodeError::MalformedInteger(pos))
    } else {
        Ok((magnitude as i64, i + 1))
    }
}

/// Decodes the byte string whose length prefix begins at `pos`.
///
/// The announced length is held against the bytes that are left before
/// anything is allocated, however many digits announce it.
fn decode_bytes(buf: &[u8], pos: usize) -> (r: Result<(Vec<u8>, usize), DecodeError>)
    requires
        pos <= buf@.len(),
    ensures
        match r {
            Ok((bytes, end)) => {
                &&& spec_decode_bytes(buf@, pos as int) == Ok::<(Seq<u8>, int), DecodeError>(
                    (bytes@, end as int),
                )
                &&& pos < end <= buf@.len()
            },
            Err(e) => spec_decode_bytes(buf@, pos as int) == Err::<(Seq<u8>, int), DecodeError>(e),
        },
{
    let len = buf.len();
    let mut i: usize = pos;
    let mut length: usize = 0;
    let mut fits = true;
    while i < len && is_digit_byte(buf[i])
        invariant
            len == buf@.len(),
            pos <= i <= len,
            pos + digit_count(buf@, pos as int) == i + digit_count(buf@, i as int),
            fits ==> length == decimal(buf@, pos as int, i as int) && length <= len,
            !fits ==> decimal(buf@, pos as int, i as int) > len,
        decreases len - i,
    {
        let digit: u8 = buf[i] - DIGIT_ZERO;
        proof {
            lemma_decimal_step(buf@, pos as int, i as int);
        }
        if fits {
            let wider: u128 = (length as u128) * 10 + (digit as u128);
            if wider > len as u128 {
                fits = false;
            } else {
                length = wider as usize;
            }
        }
        i = i + 1;
    }
    if i == pos || i >= len || buf[i] != COLON {
        return Err(DecodeError::MalformedStringLength(pos));
    }
    if buf[pos] == DIGIT_ZERO && i != pos + 1 {
        return Err(DecodeError::MalformedStringLength(pos));
    }
    let start: usize = i + 1;
    if !fits || length > len - start {
        return Err(DecodeError::TruncatedInput(pos));
    }
    let bytes = slice_to_vec(slice_subrange(buf, start, start + length));
    Ok((bytes, start + length))
}

/// Whether an executable result holds what the grammar gives.
pub open spec fn agrees(
    r: Result<(Bencode, SpanTree, usize), DecodeError>,
    stated: Result<Decoded, DecodeError>,
) -> bool {
    match r {
        Ok((value, spans, end)) => stated == Ok::<Decoded, DecodeError>(
            Decoded { value: value@, spans: spans@, end: end as int },
        ),
        Err(e) => stated == Err::<Decoded, DecodeError>(e),
    }
}

/// Nothing put in front changes nothing.
proof fn lemma_prepend_items_none(rest: Result<DecodedItems, DecodeError>)
    ensures
        prepend_items(Seq::empty(), Seq::empty(), rest) == rest,
{
    if let Ok(tail) = rest {
        assert(Seq::<Value>::empty() + tail.values =~= tail.values);
        assert(Seq::<SpanTreeView>::empty() + tail.spans =~= tail.spans);
    }
}

/// Putting one more element in front of the rest is appending it to what
/// stands in front already.
proof fn lemma_prepend_items_push(
    values: Seq<Value>,
    spans: Seq<SpanTreeView>,
    value: Value,
    tree: SpanTreeView,
    rest: Result<DecodedItems, DecodeError>,
)
    ensures
        prepend_items(values, spans, prepend_items(seq![value], seq![tree], rest))
            == prepend_items(values.push(value), spans.push(tree), rest),
{
    if let Ok(tail) = rest {
        assert(values + (seq![value] + tail.values) =~= values.push(value) + tail.values);
        assert(spans + (seq![tree] + tail.spans) =~= spans.push(tree) + tail.spans);
    }
}

/// In front of the end of a list stand all its elements.
proof fn lemma_prepend_items_last(values: Seq<Value>, spans: Seq<SpanTreeView>, end: int)
    ensures
        prepend_items(
            values,
            spans,
            Ok(DecodedItems { values: Seq::empty(), spans: Seq::empty(), end }),
        ) == Ok::<DecodedItems, DecodeError>(DecodedItems { values, spans, end }),
{
    assert(values + Seq::<Value>::empty() =~= values);
    assert(spans + Seq::<SpanTreeView>::empty() =~= spans);
}

/// Nothing put in front changes nothing.
proof fn lemma_prepend_entries_none(rest: Result<DecodedEntries, DecodeError>)
    ensures
        prepend_entries(Seq::empty(), Seq::empty(), rest) == rest,
{
    if let Ok(tail) = rest {
        assert(Seq::<(Seq<u8>, Value)>::empty() + tail.entries =~= tail.entries);
        assert(Seq::<SpanTreeView>::empty() + tail.spans =~= tail.spans);
    }
}

/// Putting one more entry in front of the rest is appending it to what
/// stands in front already.
proof fn lemma_prepend_entries_push(
    entries: Seq<(Seq<u8>, Value)>,
    spans: Seq<SpanTreeView>,
    entry: (Seq<u8>, Value),
    tree: SpanTreeView,
    rest: Result<DecodedEntries, DecodeError>,
)
    ensures
        prepend_entries(entries, spans, prepend_entries(seq![entry], seq![tree], rest))
            == prepend_entries(entries.push(entry), spans.push(tree), rest),
{
    if let Ok(tail) = rest {
        assert(entries + (seq![entry] + tail.entries) =~= entries.push(entry) + tail.entries);
        assert(spans + (seq![tree] + tail.spans) =~= spans.push(tree) + tail.spans);
    }
}

/// In front of the end of a dictionary stand all its entries.
proof fn lemma_prepend_entries_last(
    entries: Seq<(Seq<u8>, Value)>,
    spans: Seq<SpanTreeView>,
    end: int,
)
    ensures
        prepend_entries(
            entries,
            spans,
            Ok(DecodedEntries { entries: Seq::empty(), spans: Seq::empty(), end }),
        ) == Ok::<DecodedEntries, DecodeError>(DecodedEntries { entries, spans, end }),
{
    assert(entries + Seq::<(Seq<u8>, Value)>::empty() =~= entries);
    assert(spans + Seq::<SpanTreeView>::empty() =~= spans);
}

/// Decodes the value whose encoding begins at `pos`, and records the spans.
fn decode_at(buf: &[u8], pos: usize) -> (r: Result<(Bencode, SpanTree, usize), DecodeError>)
    requires
        pos <= buf@.len(),
    ensures
        agrees(r, spec_decode(buf@, pos as int)),
        r matches Ok((_, _, end)) ==> pos < end <= buf@.len(),
    decreases buf@.len() - pos, 1int,
{
    if pos >= buf.len() {
        return Err(DecodeError::TruncatedInput(pos));
    }
    let first = buf[pos];
    if first == INTEGER_START {
        match decode_integer(buf, pos) {
            Ok((number, end)) => {
                let spans = SpanTree { span: Span { start: pos, end }, children: Vec::new() };
                proof {
                    lemma_span_tree_view(spans);
                    assert(spans_view(spans.children@) =~= Seq::empty());
                }
                Ok((Bencode::Integer(number), spans, end))
            },
            Err(e) => Err(e),
        }
    } else if is_digit_byte(first) {
        match decode_bytes(buf, pos) {
            Ok((bytes, end)) => {
                let spans = SpanTree { span: Span { start: pos, end }, children: Vec::new() };
                proof {
                    lemma_span_tree_view(spans);
                    assert(spans_view(spans.children@) =~= Seq::empty());
                }
                Ok((Bencode::ByteString(bytes), spans, end))
            },
            Err(e) => Err(e),
        }
    } else if first == LIST_START {
        decode_list(buf, pos)
    } else if first == DICT_START {
        decode_dict(buf, pos)
    } else {
        Err(DecodeError::UnexpectedToken(first, pos))
    }
}

/// Decodes the list opened by the `l` at `pos`.
fn decode_list(buf: &[u8], pos: usize) -> (r: Result<(Bencode, SpanTree, usize), DecodeError>)
    requires
        pos < buf@.len(),
        buf@[pos as int] == LIST_START,
    ensures
        agrees(r, spec_decode(buf@, pos as int)),
        r matches Ok((_, _, end)) ==> pos < end <= buf@.len(),
    decreases buf@.len() - pos, 0int,
{
    let len = buf.len();
    let mut items: Vec<Bencode> = Vec::new();
    let mut spans: Vec<SpanTree> = Vec::new();
    let mut i: usize = pos + 1;
    proof {
        lemma_prepend_items_none(spec_decode_items(buf@, i as int, pos as int));
        assert(values_view(items@) =~= Seq::empty());
        assert(spans_view(spans@) =~= Seq::empty());
    }
    loop
        invariant
            len == buf@.len(),
            pos < i <= len,
            buf@[pos as int] == LIST_START,
            spec_decode_items(buf@, pos + 1, pos as int) == prepend_items(
                values_view(items@),
                spans_view(spans@),
                spec_decode_items(buf@, i as int, pos as int),
            ),
        decreases len - i,
    {
        if i >= len {
            return Err(DecodeError::UnterminatedList(pos));
        }
        if buf[i] == END {
            let tree = SpanTree { span: Span { start: pos, end: i + 1 }, children: spans };
            proof {
                lemma_prepend_items_last(values_view(items@), spans_view(spans@), i + 1);
                lemma_list_view(items);
                lemma_span_tree_view(tree);
            }
            return Ok((Bencode::List(items), tree, i + 1));
        }
        match decode_at(buf, i) {
            Ok((value, tree, end)) => {
                proof {
                    lemma_prepend_items_push(
                        values_view(items@),
                        spans_view(spans@),
                        value@,
                        tree@,
                        spec_decode_items(buf@, end as int, pos as int),
                    );
                    assert(values_view(items@.push(value)) =~= values_view(items@).push(value@));
                    assert(spans_view(spans@.push(tree)) =~= spans_view(spans@).push(tree@));
                }
                items.push(value);
                spans.push(tree);
                i = end;
            },
            Err(e) => {
                return Err(e);
            },
        }
    }
}

/// Decodes the dictionary opened by the `d` at `pos`.
fn decode_dict(buf: &[u8], pos: usize) -> (r: Result<(Bencode, SpanTree, usize), DecodeError>)
    requires
        pos < buf@.len(),
        buf@[pos as int] == DICT_START,
    ensures
        agrees(r, spec_decode(buf@, pos as int)),
        r matches Ok((_, _, end)) ==> pos < end <= buf@.len(),
    decreases buf@.len() - pos, 0int,
{
    let len = buf.len();
    let mut entries: Vec<(Vec<u8>, Bencode)> = Vec::new();
    let mut spans: Vec<SpanTree> = Vec::new();
    let mut i: usize = pos + 1;
    proof {
        lemma_prepend_entries_none(spec_decode_entries(buf@, i as int, pos as int));
        assert(entries_view(entries@) =~= Seq::empty());
        assert(spans_view(spans@) =~= Seq::empty());
    }
    loop
        invariant
            len == buf@.len(),
            pos < i <= len,
            buf@[pos as int] == DICT_START,
            spec_decode_entries(buf@, pos + 1, pos as int) == prepend_entries(
                entries_view(entries@),
                spans_view(spans@),
                spec_decode_entries(buf@, i as int, pos as int),
            ),
        decreases len - i,
    {
        if i >= len {
            return Err(DecodeError::UnterminatedDict(pos));
        }
        if buf[i] == END {
            let tree = SpanTree { span: Span { start: pos, end: i + 1 }, children: spans };
            proof {
                lemma_prepend_entries_last(entries_view(entries@), spans_view(spans@), i + 1);
                lemma_dict_view(entries);
                lemma_span_tree_view(tree);
            }
            return Ok((Bencode::Dict(entries), tree, i + 1));
        }
        if !is_digit_byte(buf[i]) {
            return Err(DecodeError::NonStringDictKey(i));
        }
        let (key, key_end) = match decode_bytes(buf, i) {
            Ok(decoded) => decoded,
            Err(e) => {
                return Err(e);
            },
        };
        match decode_at(buf, key_end) {
            Ok((value, tree, end)) => {
                proof {
                    lemma_prepend_entries_push(
                        entries_view(entries@),
                        spans_view(spans@),
                        (key@, value@),
                        tree@,
                        spec_decode_entries(buf@, end as int, pos as int),
                    );
                    assert(entries_view(entries@.push((key, value))) =~= entries_view(
                        entries@,
                    ).push((key@, value@)));
                    assert(spans_view(spans@.push(tree)) =~= spans_view(spans@).push(tree@));
                }
                entries.push((key, value));
                spans.push(tree);
                i = end;
            },
            Err(e) => {
                return Err(e);
            },
        }
    }
}

/// Decodes the value with which `buffer` begins, and records for it and for
/// every value nested in it the span of `buffer` that encodes it.
///
/// The third component is the number of bytes that the value occupies;
/// whatever follows them is left untouched.
pub fn decode_with_span(buffer: &[u8]) -> (r: Result<(Bencode, SpanTree, usize), DecodeError>)
    ensures
        match r {
            Ok((value, spans, consumed)) => {
                &&& spec_decode(buffer@, 0) == Ok::<Decoded, DecodeError>(
                    Decoded { value: value@, spans: spans@, end: consumed as int },
                )
                &&& 0 < consumed <= buffer@.len()
            },
            Err(e) => spec_decode(buffer@, 0) == Err::<Decoded, DecodeError>(e),
        },
{
    decode_at(buffer, 0)
}

/// Decodes the value with which `buffer` begins, and says how many bytes it
/// occupies.
pub fn decode(buffer: &[u8]) -> (r: Result<(Bencode, usize), DecodeError>)
    ensures
        match r {
            Ok((value, consumed)) => {
                &&& spec_decode(buffer@, 0) matches Ok(decoded)
                &&& decoded.value == value@
                &&& decoded.end == consumed
                &&& 0 < consumed <= buffer@.len()
            },
            Err(e) => spec_decode(buffer@, 0) == Err::<Decoded, DecodeError>(e),
        },
{
    match decode_at(buffer, 0) {
        Ok((value, _, consumed)) => Ok((value, consumed)),
        Err(e) => Err(e),
    }
}

} // verus!
