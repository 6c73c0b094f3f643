//! The proof that the decoder accepts every encoding: the bytes that encode
//! a value decode to that value, whatever follows them.

use vstd::prelude::*;
use crate::encoding::{
    digits, encode, encode_bytes, encode_entries, encode_integer, encode_items,
};
use crate::grammar::{
    decimal, digit_count, is_digit, spec_decode, spec_decode_bytes, spec_decode_entries,
    spec_decode_integer, spec_decode_items, DecodeError, COLON, DICT_START, DIGIT_ZERO, END,
    INTEGER_START, LIST_START, MINUS,
};
use crate::value::Value;

verus! {

/// Where a range of `buf` holds `a` followed by `b`, its front holds `a`
/// and the rest of it holds `b`.
proof fn lemma_split(buf: Seq<u8>, pos: int, a: Seq<u8>, b: Seq<u8>)
    requires
        0 <= pos,
        pos + a.len() + b.len() <= buf.len(),
        buf.subrange(pos, pos + a.len() + b.len()) == a + b,
    ensures
        buf.subrange(pos, pos + a.len()) == a,
        buf.subrange(pos + a.len(), pos + a.len() + b.len()) == b,
{
    let whole = buf.subrange(pos, pos + a.len() + b.len());
    assert forall|j: int| 0 <= j < a.len() implies buf[pos + j] == a[j] by {
        assert(whole[j] == (a + b)[j]);
    }
    assert forall|j: int| 0 <= j < b.len() implies buf[pos + a.len() + j] == b[j] by {
        assert(whole[a.len() + j] == (a + b)[a.len() + j]);
    }
    assert(buf.subrange(pos, pos + a.len()) =~= a);
    assert(buf.subrange(pos + a.len(), pos + a.len() + b.len()) =~= b);
}

/// The digits of a number are digits, at least one, and begin with `0` only
/// for the number zero.
pub proof fn lemma_digits_shape(n: nat)
    ensures
        digits(n).len() >= 1,
        forall|j: int| 0 <= j < digits(n).len() ==> is_digit(#[trigger] digits(n)[j]),
        digits(n)[0] == DIGIT_ZERO ==> n == 0,
        n == 0 ==> digits(n).len() == 1,
    decreases n,
{
    if n >= 10 {
        lemma_digits_shape(n / 10);
    }
}

/// Digits that stand in a buffer write the number whose digits they are.
proof fn lemma_decimal_of_digits(buf: Seq<u8>, pos: int, n: nat)
    requires
        0 <= pos,
        pos + digits(n).len() <= buf.len(),
        buf.subrange(pos, pos + digits(n).len()) == digits(n),
    ensures
        decimal(buf, pos, pos + digits(n).len()) == n,
    decreases n,
{
    let k = digits(n).len() as int;
    let whole = buf.subrange(pos, pos + k);
    if n < 10 {
        assert(whole[0] == buf[pos]);
        assert(decimal(buf, pos, pos) == 0);
    } else {
        let front = digits(n / 10);
        assert(k == front.len() + 1);
        assert forall|j: int| 0 <= j < front.len() implies buf[pos + j] == front[j] by {
            assert(whole[j] == digits(n)[j]);
        }
        assert(buf.subrange(pos, pos + front.len()) =~= front);
        lemma_decimal_of_digits(buf, pos, n / 10);
        assert(whole[k - 1] == buf[pos + k - 1]);
    }
}

/// A run of `k` digits that no digit follows is counted in full.
proof fn lemma_digit_count_of_run(buf: Seq<u8>, pos: int, k: nat)
    requires
        0 <= pos,
        pos + k <= buf.len(),
        forall|j: int| pos <= j < pos + k ==> is_digit(#[trigger] buf[j]),
        pos + k < buf.len() ==> !is_digit(buf[pos + k]),
    ensures
        digit_count(buf, pos) == k,
    decreases k,
{
    if k > 0 {
        lemma_digit_count_of_run(buf, pos + 1, (k - 1) as nat);
    }
}

/// Where the digits of `n` stand at `pos` and no digit follows them, the
/// grammar counts exactly them and reads `n`.
proof fn lemma_digits_are_read(buf: Seq<u8>, pos: int, n: nat)
    requires
        0 <= pos,
        pos + digits(n).len() <= buf.len(),
        buf.subrange(pos, pos + digits(n).len()) == digits(n),
        pos + digits(n).len() < buf.len() ==> !is_digit(buf[pos + digits(n).len()]),
    ensures
        digit_count(buf, pos) == digits(n).len(),
        decimal(buf, pos, pos + digits(n).len()) == n,
        buf[pos] == digits(n)[0],
{
    let k = digits(n).len();
    let whole = buf.subrange(pos, pos + k);
    lemma_digits_shape(n);
    assert forall|j: int| pos <= j < pos + k implies is_digit(#[trigger] buf[j]) by {
        assert(whole[j - pos] == buf[j]);
    }
    lemma_digit_count_of_run(buf, pos, k);
    lemma_decimal_of_digits(buf, pos, n);
    assert(whole[0] == buf[pos]);
}

/// The encoding of an integer is read back as that integer.
proof fn lemma_encoded_integer_decodes(buf: Seq<u8>, pos: int, number: i64)
    requires
        0 <= pos,
        pos + encode_integer(number as int).len() <= buf.len(),
        buf.subrange(pos, pos + encode_integer(number as int).len()) == encode_integer(
            number as int,
        ),
    ensures
        buf[pos] == INTEGER_START,
        spec_decode_integer(buf, pos) == Ok::<(i64, int), DecodeError>(
            (number, pos + encode_integer(number as int).len()),
        ),
{
    let magnitude: nat = if number < 0 { (-number) as nat } else { number as nat };
    let shown = digits(magnitude);
    lemma_digits_shape(magnitude);
    if number < 0 {
        assert(encode_integer(number as int) =~= seq![INTEGER_START, MINUS] + (shown + seq![
            END,
        ]));
        lemma_split(buf, pos, seq![INTEGER_START, MINUS], shown + seq![END]);
        lemma_split(buf, pos + 2, shown, seq![END]);
        assert(buf.subrange(pos, pos + 2)[0] == buf[pos]);
        assert(buf.subrange(pos, pos + 2)[1] == buf[pos + 1]);
        assert(buf.subrange(pos + 2 + shown.len(), pos + 2 + shown.len() + 1)[0] == buf[pos + 2
            + shown.len()]);
        lemma_digits_are_read(buf, pos + 2, magnitude);
    } else {
        assert(encode_integer(number as int) =~= seq![INTEGER_START] + (shown + seq![END]));
        lemma_split(buf, pos, seq![INTEGER_START], shown + seq![END]);
        lemma_split(buf, pos + 1, shown, seq![END]);
        assert(buf.subrange(pos, pos + 1)[0] == buf[pos]);
        assert(buf.subrange(pos + 1 + shown.len(), pos + 1 + shown.len() + 1)[0] == buf[pos + 1
            + shown.len()]);
        lemma_digits_are_read(buf, pos + 1, magnitude);
    }
}

/// The encoding of a byte string is read back as that byte string.
proof fn lemma_encoded_bytes_decodes(buf: Seq<u8>, pos: int, bytes: Seq<u8>)
    requires
        0 <= pos,
        pos + encode_bytes(bytes).len() <= buf.len(),
        buf.subrange(pos, pos + encode_bytes(bytes).len()) == encode_bytes(bytes),
    ensures
        is_digit(buf[pos]),
        spec_decode_bytes(buf, pos) == Ok::<(Seq<u8>, int), DecodeError>(
            (bytes, pos + encode_bytes(bytes).len()),
        ),
{
    let shown = digits(bytes.len());
    lemma_digits_shape(bytes.len());
    assert(encode_bytes(bytes) =~= shown + (seq![COLON] + bytes));
    lemma_split(buf, pos, shown, seq![COLON] + bytes);
    lemma_split(buf, pos + shown.len(), seq![COLON], bytes);
    assert(buf.subrange(pos + shown.len(), pos + shown.len() + 1)[0] == buf[pos + shown.len()]);
    lemma_digits_are_read(buf, pos, bytes.len());
}

/// The bytes that encode a value, wherever they stand in a buffer and
/// whatever follows them, decode to that value and to nothing longer or
/// shorter.
pub proof fn lemma_encoding_decodes(value: Value, buf: Seq<u8>, pos: int)
    requires
        0 <= pos,
        pos + encode(value).len() <= buf.len(),
        buf.subrange(pos, pos + encode(value).len()) == encode(value),
    ensures
        spec_decode(buf, pos) matches Ok(decoded) && decoded.value == value && decoded.end == pos
            + encode(value).len(),
        encode(value).len() >= 2,
        buf[pos] != END,
    decreases value,
{
    match value {
        Value::Integer(number) => {
            lemma_encoded_integer_decodes(buf, pos, number);
            lemma_digits_shape(if number < 0 { (-number) as nat } else { number as nat });
        },
        Value::ByteString(bytes) => {
            lemma_encoded_bytes_decodes(buf, pos, bytes);
            lemma_digits_shape(bytes.len());
        },
        Value::List(items) => {
            let inner = encode_items(items) + seq![END];
            assert(encode(value) =~= seq![LIST_START] + inner);
            lemma_split(buf, pos, seq![LIST_START], inner);
            assert(buf.subrange(pos, pos + 1)[0] == buf[pos]);
            lemma_encoded_items_decode(items, buf, pos + 1, pos);
        },
        Value::Dict(entries) => {
            let inner = encode_entries(entries) + seq![END];
            assert(encode(value) =~= seq![DICT_START] + inner);
            lemma_split(buf, pos, seq![DICT_START], inner);
            assert(buf.subrange(pos, pos + 1)[0] == buf[pos]);
            lemma_encoded_entries_decode(entries, buf, pos + 1, pos);
        },
    }
}

/// The same, of the elements of a list and the `e` that closes it.
pub proof fn lemma_encoded_items_decode(items: Seq<Value>, buf: Seq<u8>, pos: int, opened: int)
    requires
        0 <= pos,
        pos + encode_items(items).len() + 1 <= buf.len(),
        buf.subrange(pos, pos + encode_items(items).len() + 1) == encode_items(items) + seq![END],
    ensures
        spec_decode_items(buf, pos, opened) matches Ok(decoded) && decoded.values == items
            && decoded.end == pos + encode_items(items).len() + 1,
    decreases items,
{
    if items.len() == 0 {
        assert(buf.subrange(pos, pos + 1)[0] == buf[pos]);
        assert(spec_decode_items(buf, pos, opened)->Ok_0.values =~= items);
    } else {
        let head = encode(items.first());
        let tail = encode_items(items.drop_first()) + seq![END];
        assert(encode_items(items) + seq![END] =~= head + tail);
        lemma_split(buf, pos, head, tail);
        lemma_encoding_decodes(items.first(), buf, pos);
        lemma_encoded_items_decode(items.drop_first(), buf, pos + head.len(), opened);
        assert(seq![items.first()] + items.drop_first() =~= items);
    }
}

/// The same, of the entries of a dictionary and the `e` that closes it.
pub proof fn lemma_encoded_entries_decode(
    entries: Seq<(Seq<u8>, Value)>,
    buf: Seq<u8>,
    pos: int,
    opened: int,
)
    requires
        0 <= pos,
        pos + encode_entries(entries).len() + 1 <= buf.len(),
        buf.subrange(pos, pos + encode_entries(entries).len() + 1) == encode_entries(entries)
            + seq![END],
    ensures
        spec_decode_entries(buf, pos, opened) matches Ok(decoded) && decoded.entries == entries
            && decoded.end == pos + encode_entries(entries).len() + 1,
    decreases entries,
{
    if entries.len() == 0 {
        assert(buf.subrange(pos, pos + 1)[0] == buf[pos]);
        assert(spec_decode_entries(buf, pos, opened)->Ok_0.entries =~= entries);
    } else {
        let key = encode_bytes(entries.first().0);
        let head = encode(entries.first().1);
        let tail = encode_entries(entries.drop_first()) + seq![END];
        assert(encode_entries(entries) + seq![END] =~= key + (head + tail));
        lemma_split(buf, pos, key, head + tail);
        lemma_split(buf, pos + key.len(), head, tail);
        lemma_encoded_bytes_decodes(buf, pos, entries.first().0);
        lemma_encoding_decodes(entries.first().1, buf, pos + key.len());
        lemma_encoded_entries_decode(
            entries.drop_first(),
            buf,
            pos + key.len() + head.len(),
            opened,
        );
        assert(seq![entries.first()] + entries.drop_first() =~= entries);
    }
}

} // verus!
