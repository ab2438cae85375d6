//! Batch work on LZJD digests: the line format in which digests are kept,
//! the all-pairs comparison of two lists of digests, and the decisions of a
//! run.
//!
//! A digest is an `LZDict` of the `malwaredb_lzjd` crate, which also writes
//! a digest as text, reads it back, and says how similar two digests are.
//! Building a digest from a file is left to the caller.
//!
//! - [`digest`]: a digest with the name of what it was computed from.
//! - [`codec`]: writing a record as a line of text and reading it back.
//! - [`score`]: the similarity of two digests as a percentage.
//! - [`engine`]: which pairs are compared, which are reported, and in what
//!   order.
//! - [`plan`]: what a run does, given its options.
//! - [`crc32`]: a `std::hash::Hasher` over `crc32fast`.
//! - [`text`], [`error`]: what the others share.

pub mod codec;
pub mod crc32;
pub mod digest;
pub mod engine;
pub mod error;
pub mod plan;
pub mod score;
pub mod text;
