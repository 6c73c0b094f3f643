//! Reading of bencoded metainfo documents, with machine-checked contracts.
//!
//! - [`value`] holds the bencode value model and the spans that decoding
//!   records.
//! - [`grammar`] states the bencode grammar as functions on byte sequences,
//!   and [`decoder`] is the executable decoder that computes them.
//! - [`encoding`] states how a value is written and proves that the span
//!   recorded for a decoded value holds exactly its encoding; [`roundtrip`]
//!   proves that every encoding is decoded; [`spans`] proves that recorded
//!   spans lie in the buffer.
//! - [`metainfo_files`] reads the records of a metainfo document out of a
//!   decoded value or a buffer, and splits the piece hashes.
//! - [`laws`] states what holds of every buffer and every decoded value.

pub mod decoder;
pub mod encoding;
pub mod grammar;
pub mod laws;
pub mod metainfo_files;
pub mod roundtrip;
pub mod spans;
pub mod value;
