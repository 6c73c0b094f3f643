//! The metainfo document: its records, how they are read out of a decoded
//! value, and the splitting of the piece hashes.

use vstd::prelude::*;
use vstd::slice::slice_subrange;
use vstd::string::StringSliceAdditionalSpecFns;
use vstd::utf8::{decode_utf8, encode_utf8_decode_utf8, valid_utf8};
use crate::decoder::decode_with_span;
use crate::grammar::{spec_decode, DecodeError};
use crate::spans::lemma_decode_spans;
use crate::value::{
    entries_view, find_entry, lemma_dict_view, lemma_span_tree_view, lookup, Bencode, Span,
    SpanTree, Value,
};

verus! {

/// The error of `core::str::from_utf8`; nothing is read from it.
#[verifier::external_type_specification]
#[verifier::external_body]
pub struct ExUtf8Error(core::str::Utf8Error);

/// `core::str::from_utf8` succeeds on exactly the byte slices that are valid
/// UTF-8, and then returns the string slice made of these very bytes.
pub assume_specification<'a>[ core::str::from_utf8 ](v: &'a [u8]) -> (r: Result<
    &'a str,
    core::str::Utf8Error,
>)
    ensures
        r is Ok <==> valid_utf8(v@),
        r matches Ok(s) ==> s.spec_bytes() == v@,
;

/// Why a node is no string.
#[derive(Debug, Clone, Copy, PartialEq, Eq, Structural)]
pub enum StringFromBencodeError {
    /// The node is a byte string, but its bytes are not valid UTF-8.
    InvalidUtf8,
    /// The node is no byte string.
    InvalidType,
}

/// Why a node is no number of the machine's word size.
#[derive(Debug, Clone, Copy, PartialEq, Eq, Structural)]
pub enum NumFromBencodeError {
    /// The node is an integer, the one given, but it does not fit.
    OutOfRange(i64),
    /// The node is no integer.
    InvalidType,
}

/// Why a buffer or a decoded value is no metainfo document.
#[derive(Debug, PartialEq, Eq)]
pub enum TorrentFromBencodeError {
    /// A dictionary was expected: the document itself, or its `info`.
    NotADict,
    /// The dictionary has no entry for the key named.
    KeyDoesNotExist(String),
    /// An entry that must hold a string holds something else.
    NotAString(StringFromBencodeError),
    /// An entry that must hold a number holds something else.
    NotANumber(NumFromBencodeError),
    /// `length` is negative.
    InvalidLength,
    /// `piece length` is not positive.
    InvalidPieceLength,
    /// The buffer is not one bencoded value.
    Decode(DecodeError),
}

/// The mathematical content of a [`TorrentFromBencodeError`].
pub enum TorrentFromBencodeErrorView {
    NotADict,
    KeyDoesNotExist(Seq<char>),
    NotAString(StringFromBencodeError),
    NotANumber(NumFromBencodeError),
    InvalidLength,
    InvalidPieceLength,
    Decode(DecodeError),
}

impl View for TorrentFromBencodeError {
    type V = TorrentFromBencodeErrorView;

    open spec fn view(&self) -> TorrentFromBencodeErrorView {
        match self {
            TorrentFromBencodeError::NotADict => TorrentFromBencodeErrorView::NotADict,
            TorrentFromBencodeError::KeyDoesNotExist(key) => {
                TorrentFromBencodeErrorView::KeyDoesNotExist(key@)
            },
            TorrentFromBencodeError::NotAString(e) => TorrentFromBencodeErrorView::NotAString(*e),
            TorrentFromBencodeError::NotANumber(e) => TorrentFromBencodeErrorView::NotANumber(*e),
            TorrentFromBencodeError::InvalidLength => TorrentFromBencodeErrorView::InvalidLength,
            TorrentFromBencodeError::InvalidPieceLength => {
                TorrentFromBencodeErrorView::InvalidPieceLength
            },
            TorrentFromBencodeError::Decode(e) => TorrentFromBencodeErrorView::Decode(*e),
        }
    }
}

/// The flat byte string of piece hashes, as a metainfo document holds it.
#[derive(Debug)]
pub struct PieceHashes(pub Vec<u8>);

impl View for PieceHashes {
    type V = Seq<u8>;

    open spec fn view(&self) -> Seq<u8> {
        self.0@
    }
}

/// Why a byte string is no sequence of piece hashes.
#[derive(Debug, Clone, Copy, PartialEq, Eq, Structural)]
pub enum PieceHashesError {
    /// The length is no multiple of `HASH_LEN`.
    InvalidLength,
}

/// The file that a metainfo document describes.
#[derive(PartialEq, Debug)]
pub struct Info {
    pub name: String,
    pub length: isize,
    pub piece_length: isize,
    pub pieces: Vec<u8>,
}

/// The mathematical content of an [`Info`].
pub struct InfoView {
    pub name: Seq<char>,
    pub length: int,
    pub piece_length: int,
    pub pieces: Seq<u8>,
}

impl View for Info {
    type V = InfoView;

    open spec fn view(&self) -> InfoView {
        InfoView {
            name: self.name@,
            length: self.length as int,
            piece_length: self.piece_length as int,
            pieces: self.pieces@,
        }
    }
}

/// A metainfo document. `info_digest` is the digest of the bytes that
/// encode `info` in the buffer that the document was read from.
#[derive(PartialEq, Debug)]
pub struct Torrent {
    pub announce: String,
    pub info: Info,
    pub info_digest: [u8; 20],
}

/// The mathematical content of a [`Torrent`].
pub struct TorrentView {
    pub announce: Seq<char>,
    pub info: InfoView,
    pub info_digest: Seq<u8>,
}

impl View for Torrent {
    type V = TorrentView;

    open spec fn view(&self) -> TorrentView {
        TorrentView {
            announce: self.announce@,
            info: self.info@,
            info_digest: self.info_digest@,
        }
    }
}

/// The bytes of the key that a dictionary holds for the name `key`: its
/// UTF-8 encoding.
pub open spec fn key_bytes(key: &str) -> Seq<u8> {
    key.spec_bytes()
}

/// The string that a value holds: the text of a byte string of valid UTF-8.
pub open spec fn spec_string(value: Value) -> Result<Seq<char>, StringFromBencodeError> {
    match value {
        Value::ByteString(bytes) => if valid_utf8(bytes) {
            Ok(decode_utf8(bytes))
        } else {
            Err(StringFromBencodeError::InvalidUtf8)
        },
        _ => Err(StringFromBencodeError::InvalidType),
    }
}

/// The number that a value holds: an integer that fits the machine's word.
pub open spec fn spec_isize(value: Value) -> Result<int, NumFromBencodeError> {
    match value {
        Value::Integer(number) => if isize::MIN <= number <= isize::MAX {
            Ok(number as int)
        } else {
            Err(NumFromBencodeError::OutOfRange(number))
        },
        _ => Err(NumFromBencodeError::InvalidType),
    }
}

/// The value that a dictionary gives for `key`, or the error that names the
/// missing key.
pub open spec fn spec_entry(entries: Seq<(Seq<u8>, Value)>, key: &str) -> Result<
    Value,
    TorrentFromBencodeErrorView,
> {
    match lookup(entries, key_bytes(key)) {
        Some(i) => Ok(entries[i].1),
        None => Err(TorrentFromBencodeErrorView::KeyDoesNotExist(key@)),
    }
}

/// The string under `key`.
pub open spec fn spec_string_entry(entries: Seq<(Seq<u8>, Value)>, key: &str) -> Result<
    Seq<char>,
    TorrentFromBencodeErrorView,
> {
    match spec_entry(entries, key) {
        Ok(value) => match spec_string(value) {
            Ok(text) => Ok(text),
            Err(e) => Err(TorrentFromBencodeErrorView::NotAString(e)),
        },
        Err(e) => Err(e),
    }
}

/// The number under `key`.
pub open spec fn spec_isize_entry(entries: Seq<(Seq<u8>, Value)>, key: &str) -> Result<
    int,
    TorrentFromBencodeErrorView,
> {
    match spec_entry(entries, key) {
        Ok(value) => match spec_isize(value) {
            Ok(number) => Ok(number),
            Err(e) => Err(TorrentFromBencodeErrorView::NotANumber(e)),
        },
        Err(e) => Err(e),
    }
}

/// The piece hashes that a value holds: the bytes of a byte string.
pub open spec fn spec_piece_hashes(value: Value) -> Result<Seq<u8>, TorrentFromBencodeErrorView> {
    match value {
        Value::ByteString(bytes) => Ok(bytes),
        _ => Err(TorrentFromBencodeErrorView::NotAString(StringFromBencodeError::InvalidType)),
    }
}

/// The `Info` that a value holds.
///
/// The value must be a dictionary. Its entries are read in the order `name`,
/// `length`, `piece length`, `pieces`, each one in full before the next: the
/// entry must be there, hold the right kind of value, and (for the two
/// numbers) lie in its range. The first failure is the result.
pub open spec fn spec_info(value: Value) -> Result<InfoView, TorrentFromBencodeErrorView> {
    match value {
        Value::Dict(entries) => match spec_string_entry(entries, "name") {
            Err(e) => Err(e),
            Ok(name) => match spec_isize_entry(entries, "length") {
                Err(e) => Err(e),
                Ok(length) => if length < 0 {
                    Err(TorrentFromBencodeErrorView::InvalidLength)
                } else {
                    match spec_isize_entry(entries, "piece length") {
                        Err(e) => Err(e),
                        Ok(piece_length) => if piece_length <= 0 {
                            Err(TorrentFromBencodeErrorView::InvalidPieceLength)
                        } else {
                            match spec_entry(entries, "pieces") {
                                Err(e) => Err(e),
                                Ok(hashes) => match spec_piece_hashes(hashes) {
                                    Err(e) => Err(e),
                                    Ok(pieces) => Ok(
                                        InfoView { name, length, piece_length, pieces },
                                    ),
                                },
                            }
                        },
                    }
                },
            },
        },
        _ => Err(TorrentFromBencodeErrorView::NotADict),
    }
}

/// What a value gives of a `Torrent`: the announce URL, the `Info`, and the
/// index of the entry that holds `info`.
///
/// The value must be a dictionary. `announce` is read first and in full,
/// then `info`; the first failure is the result.
pub open spec fn spec_torrent(value: Value) -> Result<
    (Seq<char>, InfoView, int),
    TorrentFromBencodeErrorView,
> {
    match value {
        Value::Dict(entries) => match spec_string_entry(entries, "announce") {
            Err(e) => Err(e),
            Ok(announce) => match lookup(entries, key_bytes("info")) {
                None => Err(TorrentFromBencodeErrorView::KeyDoesNotExist("info"@)),
                Some(i) => match spec_info(entries[i].1) {
                    Err(e) => Err(e),
                    Ok(info) => Ok((announce, info, i)),
                },
            },
        },
        _ => Err(TorrentFromBencodeErrorView::NotADict),
    }
}

/// What a buffer gives of a `Torrent`: the announce URL, the `Info`, and the
/// span of the buffer that encodes the `info` dictionary.
///
/// The buffer must hold one bencoded value and nothing after it.
pub open spec fn spec_metainfo(buf: Seq<u8>) -> Result<
    (Seq<char>, InfoView, Span),
    TorrentFromBencodeErrorView,
> {
    match spec_decode(buf, 0) {
        Err(e) => Err(TorrentFromBencodeErrorView::Decode(e)),
        Ok(decoded) => if decoded.end != buf.len() {
            Err(
                TorrentFromBencodeErrorView::Decode(
                    DecodeError::TrailingData(decoded.end as usize),
                ),
            )
        } else {
            match spec_torrent(decoded.value) {
                Err(e) => Err(e),
                Ok((announce, info, i)) => Ok((announce, info, decoded.spans.children[i].span)),
            }
        },
    }
}

/// Whether `out` is what `digest` gave for the bytes `input`.
pub open spec fn digest_of<F: Fn(&[u8]) -> [u8; 20]>(digest: F, input: Seq<u8>, out: [u8; 20]) -> bool {
    exists|bytes: &[u8]| bytes@ == input && digest.ensures((bytes,), out)
}

/// Reads a string out of a node: the text of a byte string.
fn string_from_bencode(bencode: &Bencode) -> (r: Result<String, StringFromBencodeError>)
    ensures
        match r {
            Ok(text) => spec_string(bencode@) == Ok::<Seq<char>, StringFromBencodeError>(text@),
            Err(e) => spec_string(bencode@) == Err::<Seq<char>, StringFromBencodeError>(e),
        },
{
    match bencode {
        Bencode::ByteString(bytes) => match core::str::from_utf8(bytes.as_slice()) {
            Ok(text) => {
                proof {
                    encode_utf8_decode_utf8(text@);
                }
                Ok(text.to_owned())
            },
            Err(_) => Err(StringFromBencodeError::InvalidUtf8),
        },
        _ => Err(StringFromBencodeError::InvalidType),
    }
}

/// Reads a number of the machine's word size out of a node.
fn isize_from_bencode(bencode: &Bencode) -> (r: Result<isize, NumFromBencodeError>)
    ensures
        match r {
            Ok(number) => spec_isize(bencode@) == Ok::<int, NumFromBencodeError>(number as int),
            Err(e) => spec_isize(bencode@) == Err::<int, NumFromBencodeError>(e),
        },
{
    match bencode {
        Bencode::Integer(number) => {
            let number: i64 = *number;
            if number < isize::MIN as i64 || number > isize::MAX as i64 {
                Err(NumFromBencodeError::OutOfRange(number))
            } else {
                Ok(number as isize)
            }
        },
        _ => Err(NumFromBencodeError::InvalidType),
    }
}

/// Looks up the value that a dictionary gives for `key`.
fn entry<'a>(entries: &'a Vec<(Vec<u8>, Bencode)>, key: &str) -> (r: Result<
    &'a Bencode,
    TorrentFromBencodeError,
>)
    ensures
        match r {
            Ok(value) => spec_entry(entries_view(entries@), key) == Ok::<
                Value,
                TorrentFromBencodeErrorView,
            >(value@),
            Err(e) => spec_entry(entries_view(entries@), key) == Err::<
                Value,
                TorrentFromBencodeErrorView,
            >(e@),
        },
{
    match find_entry(entries, key.as_bytes()) {
        Some(i) => Ok(&entries[i].1),
        None => Err(TorrentFromBencodeError::KeyDoesNotExist(key.to_owned())),
    }
}

/// Reads the string under `key`.
fn string_entry(entries: &Vec<(Vec<u8>, Bencode)>, key: &str) -> (r: Result<
    String,
    TorrentFromBencodeError,
>)
    ensures
        match r {
            Ok(text) => spec_string_entry(entries_view(entries@), key) == Ok::<
                Seq<char>,
                TorrentFromBencodeErrorView,
            >(text@),
            Err(e) => spec_string_entry(entries_view(entries@), key) == Err::<
                Seq<char>,
                TorrentFromBencodeErrorView,
            >(e@),
        },
{
    match entry(entries, key) {
        Ok(value) => match string_from_bencode(value) {
            Ok(text) => Ok(text),
            Err(e) => Err(TorrentFromBencodeError::NotAString(e)),
        },
        Err(e) => Err(e),
    }
}

/// Reads the number under `key`.
fn isize_entry(entries: &Vec<(Vec<u8>, Bencode)>, key: &str) -> (r: Result<
    isize,
    TorrentFromBencodeError,
>)
    ensures
        match r {
            Ok(number) => spec_isize_entry(entries_view(entries@), key) == Ok::<
                int,
                TorrentFromBencodeErrorView,
            >(number as int),
            Err(e) => spec_isize_entry(entries_view(entries@), key) == Err::<
                int,
                TorrentFromBencodeErrorView,
            >(e@),
        },
{
    match entry(entries, key) {
        Ok(value) => match isize_from_bencode(value) {
            Ok(number) => Ok(number),
            Err(e) => Err(TorrentFromBencodeError::NotANumber(e)),
        },
        Err(e) => Err(e),
    }
}

impl PieceHashes {
    /// Reads the piece hashes out of a decoded value: the bytes of a byte
    /// string, whatever their number. Any other value is no string.
    pub fn from_bencode(bencode: &Bencode) -> (r: Result<PieceHashes, TorrentFromBencodeError>)
        ensures
            match r {
                Ok(hashes) => spec_piece_hashes(bencode@) == Ok::<
                    Seq<u8>,
                    TorrentFromBencodeErrorView,
                >(hashes@),
                Err(e) => spec_piece_hashes(bencode@) == Err::<
                    Seq<u8>,
                    TorrentFromBencodeErrorView,
                >(e@),
            },
    {
        match bencode {
            Bencode::ByteString(bytes) => {
                let copy = bytes.clone();
                assert(copy@ =~= bytes@);
                Ok(PieceHashes(copy))
            },
            _ => Err(TorrentFromBencodeError::NotAString(StringFromBencodeError::InvalidType)),
        }
    }
}

impl Info {
    /// Reads an `Info` out of a decoded value, as `spec_info` states: the
    /// entries `name`, `length`, `piece length` and `pieces` of a
    /// dictionary, checked in that order, the first failure returned.
    pub fn from_bencode(bencode: &Bencode) -> (r: Result<Info, TorrentFromBencodeError>)
        ensures
            match r {
                Ok(info) => spec_info(bencode@) == Ok::<InfoView, TorrentFromBencodeErrorView>(
                    info@,
                ),
                Err(e) => spec_info(bencode@) == Err::<InfoView, TorrentFromBencodeErrorView>(e@),
            },
    {
        match bencode {
            Bencode::Dict(entries) => {
                proof {
                    lemma_dict_view(*entries);
                }
                let name = match string_entry(entries, "name") {
                    Ok(name) => name,
                    Err(e) => {
                        return Err(e);
                    },
                };
                let length = match isize_entry(entries, "length") {
                    Ok(length) => length,
                    Err(e) => {
                        return Err(e);
                    },
                };
                if length < 0 {
                    return Err(TorrentFromBencodeError::InvalidLength);
                }
                let piece_length = match isize_entry(entries, "piece length") {
                    Ok(piece_length) => piece_length,
                    Err(e) => {
                        return Err(e);
                    },
                };
                if piece_length <= 0 {
                    return Err(TorrentFromBencodeError::InvalidPieceLength);
                }
                let pieces_bencode = match entry(entries, "pieces") {
                    Ok(pieces_bencode) => pieces_bencode,
                    Err(e) => {
                        return Err(e);
                    },
                };
                let pieces = match PieceHashes::from_bencode(pieces_bencode) {
                    Ok(hashes) => hashes.0,
                    Err(e) => {
                        return Err(e);
                    },
                };
                Ok(Info { name, length, piece_length, pieces })
            },
            _ => Err(TorrentFromBencodeError::NotADict),
        }
    }
}

impl Torrent {
    /// Reads a `Torrent` out of a decoded value, the spans recorded for it
    /// and the buffer that it was decoded from.
    ///
    /// `announce` and `info` are read as `spec_torrent` states. Where both
    /// are sound, `digest` is called once, on the very bytes of `buffer`
    /// that the span of the `info` value marks; what it returns is the
    /// `info_digest`.
    pub fn from_bencode<F: Fn(&[u8]) -> [u8; 20]>(
        bencode: &Bencode,
        spans: &SpanTree,
        buffer: &[u8],
        digest: F,
    ) -> (r: Result<Torrent, TorrentFromBencodeError>)
        requires
            spans@.fits(bencode@, buffer@.len() as int),
            forall|bytes: &[u8]| digest.requires((bytes,)),
        ensures
            match r {
                Ok(torrent) => {
                    &&& spec_torrent(bencode@) matches Ok((announce, info, i))
                    &&& torrent.announce@ == announce
                    &&& torrent.info@ == info
                    &&& digest_of(
                        digest,
                        buffer@.subrange(
                            spans@.children[i].span.start as int,
                            spans@.children[i].span.end as int,
                        ),
                        torrent.info_digest,
                    )
                },
                Err(e) => spec_torrent(bencode@) == Err::<
                    (Seq<char>, InfoView, int),
                    TorrentFromBencodeErrorView,
                >(e@),
            },
    {
        match bencode {
            Bencode::Dict(entries) => {
                proof {
                    lemma_dict_view(*entries);
                    lemma_span_tree_view(*spans);
                }
                let announce = match string_entry(entries, "announce") {
                    Ok(announce) => announce,
                    Err(e) => {
                        return Err(e);
                    },
                };
                let i = match find_entry(entries, "info".as_bytes()) {
                    Some(i) => i,
                    None => {
                        return Err(TorrentFromBencodeError::KeyDoesNotExist("info".to_owned()));
                    },
                };
                let info = match Info::from_bencode(&entries[i].1) {
                    Ok(info) => info,
                    Err(e) => {
                        return Err(e);
                    },
                };
                assert(spans@.children[i as int].fits(
                    bencode@->Dict_0[i as int].1,
                    buffer@.len() as int,
                ));
                let span = spans.children[i].span;
                let info_bytes = slice_subrange(buffer, span.start, span.end);
                let info_digest = digest(info_bytes);
                Ok(Torrent { announce, info, info_digest })
            },
            _ => Err(TorrentFromBencodeError::NotADict),
        }
    }
}

/// Reads a `Torrent` out of a buffer that holds one metainfo document.
///
/// The buffer is decoded once and must be used up by one value. `digest` is
/// then handed the bytes of the buffer that encode the `info` dictionary, as
/// they stand there, and never a new encoding of the decoded value.
pub fn parse_torrent<F: Fn(&[u8]) -> [u8; 20]>(buffer: &[u8], digest: F) -> (r: Result<
    Torrent,
    TorrentFromBencodeError,
>)
    requires
        forall|bytes: &[u8]| digest.requires((bytes,)),
    ensures
        match r {
            Ok(torrent) => {
                &&& spec_metainfo(buffer@) matches Ok((announce, info, span))
                &&& torrent.announce@ == announce
                &&& torrent.info@ == info
                &&& digest_of(
                    digest,
                    buffer@.subrange(span.start as int, span.end as int),
                    torrent.info_digest,
                )
            },
            Err(e) => spec_metainfo(buffer@) == Err::<
                (Seq<char>, InfoView, Span),
                TorrentFromBencodeErrorView,
            >(e@),
        },
{
    match decode_with_span(buffer) {
        Ok((value, spans, consumed)) => {
            if consumed != buffer.len() {
                return Err(TorrentFromBencodeError::Decode(DecodeError::TrailingData(consumed)));
            }
            proof {
                lemma_decode_spans(buffer@, 0);
            }
            Torrent::from_bencode(&value, &spans, buffer, digest)
        },
        Err(e) => Err(TorrentFromBencodeError::Decode(e)),
    }
}

/// The number of bytes of one piece hash.
pub const HASH_LEN: usize = 20;

/// Cuts `hashes` into its piece hashes, in order: block `i` holds the bytes
/// `20 * i .. 20 * i + 20`. A length that is no multiple of 20 is refused,
/// and nothing is returned for it.
pub fn split_piece_hashes(hashes: Vec<u8>) -> (r: Result<Vec<[u8; 20]>, PieceHashesError>)
    ensures
        hashes@.len() % 20 != 0 ==> r == Err::<Vec<[u8; 20]>, PieceHashesError>(
            PieceHashesError::InvalidLength,
        ),
        hashes@.len() % 20 == 0 ==> {
            &&& r matches Ok(blocks)
            &&& blocks@.len() * 20 == hashes@.len()
            &&& forall|i: int|
                0 <= i < blocks@.len() ==> (#[trigger] blocks@[i])@ == hashes@.subrange(
                    20 * i,
                    20 * i + 20,
                )
        },
{
    let len = hashes.len();
    if len % HASH_LEN != 0 {
        return Err(PieceHashesError::InvalidLength);
    }
    let count: usize = len / HASH_LEN;
    let mut blocks: Vec<[u8; 20]> = Vec::new();
    let mut i: usize = 0;
    while i < count
        invariant
            len == hashes@.len(),
            count * 20 == len,
            i <= count,
            blocks@.len() == i,
            forall|k: int|
                0 <= k < i ==> (#[trigger] blocks@[k])@ == hashes@.subrange(20 * k, 20 * k + 20),
        decreases count - i,
    {
        let base: usize = i * HASH_LEN;
        let mut block: [u8; 20] = [0u8; 20];
        let mut j: usize = 0;
        while j < HASH_LEN
            invariant
                len == hashes@.len(),
                base + 20 <= len,
                j <= 20,
                forall|k: int| 0 <= k < j ==> block@[k] == hashes@[base + k],
            decreases 20 - j,
        {
            block[j] = hashes[base + j];
            j = j + 1;
        }
        assert(block@ =~= hashes@.subrange(20 * i, 20 * i + 20));
        blocks.push(block);
        i = i + 1;
    }
    Ok(blocks)
}

} // verus!
