//! Reading and writing the osu! collection database (`collection.db`): a
//! version number and an ordered list of named collections, each an ordered
//! list of beatmap hashes.
//!
//! - [`wire`] says, as mathematics, which bytes a document is written as and
//!   what is read from a buffer.
//! - [`osu_reader`] and [`osu_writer`] read and write the primitives: bytes,
//!   little-endian 32-bit integers, unsigned LEB128 numbers and strings.
//! - [`osu_collections`] holds the document and its collections, and decodes
//!   and encodes them.
//! - [`laws`] proves what holds of the format as a whole: what is written is
//!   read back, what was read can be written again, and a buffer that ends
//!   too early is refused.
//! - [`beatmaps`] tells which files of a beatmap archive are beatmaps and
//!   computes the hash a beatmap is listed under; [`backup`] names the backup
//!   of the database.
//! - [`trusted`] lists the contracts that are believed and not proved.
//!
//! The library does no input or output: it takes and gives bytes and strings.

pub mod backup;
pub mod beatmaps;
pub mod error;
pub mod laws;
pub mod osu_collections;
pub mod osu_reader;
pub mod osu_writer;
pub mod trusted;
pub mod wire;
