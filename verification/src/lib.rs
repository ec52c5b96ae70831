//! Decoding of bencoded byte streams and extraction of torrent metadata.
//!
//! The crate has two layers, consumed in sequence: the bencoding decoder
//! turns a byte slice into a generic [`bencoding::Bencoding`] tree, and the
//! extractor projects that tree into a strongly typed [`torrent::Torrent`]
//! record. Both layers are pure functions over their inputs: every failure is
//! a typed error value, and no malformed input can cause a panic.

pub mod bencoding;
pub mod torrent;
