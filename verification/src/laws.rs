//! What holds of every buffer and every decoded value, stated over the
//! functions by which the contracts of the library speak.

use vstd::prelude::*;
use vstd::string::{is_ascii, is_ascii_spec_bytes, StringSliceAdditionalSpecFns};
use crate::encoding::{encode, lemma_decode_exact};
use crate::grammar::spec_decode;
use crate::metainfo_files::{
    key_bytes, spec_entry, spec_info, spec_isize_entry, spec_metainfo, spec_string_entry, spec_torrent,
    InfoView, NumFromBencodeError, StringFromBencodeError, TorrentFromBencodeErrorView,
};
use crate::roundtrip::lemma_encoding_decodes;
use crate::value::{lemma_lookup, lookup, Value};

verus! {

/// Every value can be written and read back: its encoding, with whatever
/// bytes after it, decodes to that very value and ends where the encoding
/// ends.
pub proof fn law_decoding_inverts_encoding(value: Value, rest: Seq<u8>)
    ensures
        spec_decode(encode(value) + rest, 0) matches Ok(decoded) && decoded.value == value
            && decoded.end == encode(value).len(),
{
    let buf = encode(value) + rest;
    assert(buf.subrange(0, encode(value).len() as int) =~= encode(value));
    lemma_encoding_decodes(value, buf, 0);
}

/// What the decoder accepts is an encoding: the bytes from the offset at
/// which a value was decoded to the offset at which it ends are the encoding
/// of that value, so that no two different ranges of bytes decode alike.
pub proof fn law_decoded_bytes_are_the_encoding(buf: Seq<u8>, pos: int)
    requires
        0 <= pos,
        buf.len() <= usize::MAX,
    ensures
        spec_decode(buf, pos) matches Ok(decoded) ==> {
            &&& pos < decoded.end <= buf.len()
            &&& buf.subrange(pos, decoded.end) == encode(decoded.value)
        },
{
    lemma_decode_exact(buf, pos);
}

/// Where a buffer holds a metainfo document, the whole buffer is the
/// encoding of a dictionary, and the span whose bytes are handed to the
/// digest lies in the buffer and holds exactly the encoding of the value
/// that this dictionary gives for `info`.
pub proof fn law_digest_input_is_info_encoding(buf: Seq<u8>)
    requires
        buf.len() <= usize::MAX,
    ensures
        spec_metainfo(buf) matches Ok((_, _, span)) ==> {
            &&& spec_decode(buf, 0) matches Ok(decoded)
            &&& decoded.value matches Value::Dict(entries)
            &&& lookup(entries, key_bytes("info")) matches Some(i)
            &&& buf == encode(decoded.value)
            &&& span.start <= span.end <= buf.len()
            &&& buf.subrange(span.start as int, span.end as int) == encode(entries[i].1)
        },
{
    if let Ok((_, _, span)) = spec_metainfo(buf) {
        lemma_decode_exact(buf, 0);
        let decoded = spec_decode(buf, 0)->Ok_0;
        let entries = decoded.value->Dict_0;
        lemma_lookup(entries, key_bytes("info"));
        let i = lookup(entries, key_bytes("info"))->Some_0;
        assert(decoded.spans.children[i].exact(entries[i].1, buf));
        assert(buf.subrange(0, buf.len() as int) =~= buf);
    }
}

/// An `Info` is read from a dictionary key by key, in the order `name`,
/// `length`, `piece length`, `pieces`. Where a key is missing and the
/// entries before it in that order are sound, the error names exactly that
/// key, whatever else the dictionary holds.
pub proof fn law_info_names_the_missing_key(entries: Seq<(Seq<u8>, Value)>)
    ensures
        lookup(entries, key_bytes("name")) is None ==> spec_info(Value::Dict(entries)) == Err::<
            InfoView,
            TorrentFromBencodeErrorView,
        >(TorrentFromBencodeErrorView::KeyDoesNotExist("name"@)),
        ({
            &&& spec_string_entry(entries, "name") is Ok
            &&& lookup(entries, key_bytes("length")) is None
        }) ==> spec_info(Value::Dict(entries)) == Err::<InfoView, TorrentFromBencodeErrorView>(
            TorrentFromBencodeErrorView::KeyDoesNotExist("length"@),
        ),
        ({
            &&& spec_string_entry(entries, "name") is Ok
            &&& spec_isize_entry(entries, "length") matches Ok(length)
            &&& length >= 0
            &&& lookup(entries, key_bytes("piece length")) is None
        }) ==> spec_info(Value::Dict(entries)) == Err::<InfoView, TorrentFromBencodeErrorView>(
            TorrentFromBencodeErrorView::KeyDoesNotExist("piece length"@),
        ),
        ({
            &&& spec_string_entry(entries, "name") is Ok
            &&& spec_isize_entry(entries, "length") matches Ok(length)
            &&& length >= 0
            &&& spec_isize_entry(entries, "piece length") matches Ok(piece_length)
            &&& piece_length > 0
            &&& lookup(entries, key_bytes("pieces")) is None
        }) ==> spec_info(Value::Dict(entries)) == Err::<InfoView, TorrentFromBencodeErrorView>(
            TorrentFromBencodeErrorView::KeyDoesNotExist("pieces"@),
        ),
{
}

/// A `Torrent` is read from a dictionary in the order `announce`, `info`.
/// Where a key is missing and what comes before it is sound, the error
/// names exactly that key; and a key missing in the `info` dictionary is
/// named as `Info` names it.
pub proof fn law_torrent_names_the_missing_key(entries: Seq<(Seq<u8>, Value)>)
    ensures
        lookup(entries, key_bytes("announce")) is None ==> spec_torrent(Value::Dict(entries))
            == Err::<(Seq<char>, InfoView, int), TorrentFromBencodeErrorView>(
            TorrentFromBencodeErrorView::KeyDoesNotExist("announce"@),
        ),
        ({
            &&& spec_string_entry(entries, "announce") is Ok
            &&& lookup(entries, key_bytes("info")) is None
        }) ==> spec_torrent(Value::Dict(entries)) == Err::<
            (Seq<char>, InfoView, int),
            TorrentFromBencodeErrorView,
        >(TorrentFromBencodeErrorView::KeyDoesNotExist("info"@)),
        ({
            &&& spec_string_entry(entries, "announce") is Ok
            &&& lookup(entries, key_bytes("info")) matches Some(i)
            &&& spec_info(entries[i].1) matches Err(e)
        }) ==> spec_torrent(Value::Dict(entries)) == Err::<
            (Seq<char>, InfoView, int),
            TorrentFromBencodeErrorView,
        >(spec_info(entries[lookup(entries, key_bytes("info"))->Some_0].1)->Err_0),
{
}

/// A value of the wrong kind under a key is reported as such: anything but
/// a byte string under `announce` or `name` is no string, anything but an
/// integer under `length` or `piece length` is no number, anything but a
/// byte string under `pieces` is no string, and anything but a dictionary
/// where one is expected is no dictionary. Each holds where what is read
/// before the key is sound.
pub proof fn law_wrong_kind_is_reported(entries: Seq<(Seq<u8>, Value)>)
    ensures
        (spec_entry(entries, "announce") matches Ok(value) && !(value is ByteString))
            ==> spec_torrent(Value::Dict(entries)) == Err::<
            (Seq<char>, InfoView, int),
            TorrentFromBencodeErrorView,
        >(TorrentFromBencodeErrorView::NotAString(StringFromBencodeError::InvalidType)),
        ({
            &&& spec_string_entry(entries, "announce") is Ok
            &&& spec_entry(entries, "info") matches Ok(value)
            &&& !(value is Dict)
        }) ==> spec_torrent(Value::Dict(entries)) == Err::<
            (Seq<char>, InfoView, int),
            TorrentFromBencodeErrorView,
        >(TorrentFromBencodeErrorView::NotADict),
        (spec_entry(entries, "name") matches Ok(value) && !(value is ByteString)) ==> spec_info(
            Value::Dict(entries),
        ) == Err::<InfoView, TorrentFromBencodeErrorView>(
            TorrentFromBencodeErrorView::NotAString(StringFromBencodeError::InvalidType),
        ),
        ({
            &&& spec_string_entry(entries, "name") is Ok
            &&& spec_entry(entries, "length") matches Ok(value)
            &&& !(value is Integer)
        }) ==> spec_info(Value::Dict(entries)) == Err::<InfoView, TorrentFromBencodeErrorView>(
            TorrentFromBencodeErrorView::NotANumber(NumFromBencodeError::InvalidType),
        ),
        ({
            &&& spec_string_entry(entries, "name") is Ok
            &&& spec_isize_entry(entries, "length") matches Ok(length)
            &&& length >= 0
            &&& spec_entry(entries, "piece length") matches Ok(value)
            &&& !(value is Integer)
        }) ==> spec_info(Value::Dict(entries)) == Err::<InfoView, TorrentFromBencodeErrorView>(
            TorrentFromBencodeErrorView::NotANumber(NumFromBencodeError::InvalidType),
        ),
        ({
            &&& spec_string_entry(entries, "name") is Ok
            &&& spec_isize_entry(entries, "length") matches Ok(length)
            &&& length >= 0
            &&& spec_isize_entry(entries, "piece length") matches Ok(piece_length)
            &&& piece_length > 0
            &&& spec_entry(entries, "pieces") matches Ok(value)
            &&& !(value is ByteString)
        }) ==> spec_info(Value::Dict(entries)) == Err::<InfoView, TorrentFromBencodeErrorView>(
            TorrentFromBencodeErrorView::NotAString(StringFromBencodeError::InvalidType),
        ),
{
}

/// The bytes of the keys that a metainfo document is read by.
pub proof fn lemma_key_bytes()
    ensures
        key_bytes("announce") == seq![97u8, 110, 110, 111, 117, 110, 99, 101],
        key_bytes("info") == seq![105u8, 110, 102, 111],
        key_bytes("name") == seq![110u8, 97, 109, 101],
        key_bytes("length") == seq![108u8, 101, 110, 103, 116, 104],
        key_bytes("piece length") == seq![
            112u8,
            105,
            101,
            99,
            101,
            32,
            108,
            101,
            110,
            103,
            116,
            104,
        ],
        key_bytes("pieces") == seq![112u8, 105, 101, 99, 101, 115],
{
    broadcast use is_ascii_spec_bytes;

    reveal_strlit("announce");
    reveal_strlit("info");
    reveal_strlit("name");
    reveal_strlit("length");
    reveal_strlit("piece length");
    reveal_strlit("pieces");
    assert("announce"@.len() == 8 && is_ascii("announce"));
    assert("announce".spec_bytes() =~= seq![97u8, 110, 110, 111, 117, 110, 99, 101]);
    assert("info"@.len() == 4 && is_ascii("info"));
    assert("info".spec_bytes() =~= seq![105u8, 110, 102, 111]);
    assert("name"@.len() == 4 && is_ascii("name"));
    assert("name".spec_bytes() =~= seq![110u8, 97, 109, 101]);
    assert("length"@.len() == 6 && is_ascii("length"));
    assert("length".spec_bytes() =~= seq![108u8, 101, 110, 103, 116, 104]);
    assert("piece length"@.len() == 12 && is_ascii("piece length"));
    assert("piece length".spec_bytes() =~= seq![
        112u8,
        105,
        101,
        99,
        101,
        32,
        108,
        101,
        110,
        103,
        116,
        104,
    ]);
    assert("pieces"@.len() == 6 && is_ascii("pieces"));
    assert("pieces".spec_bytes() =~= seq![112u8, 105, 101, 99, 101, 115]);
}

} // verus!
