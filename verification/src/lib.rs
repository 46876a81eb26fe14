//! A verified engine for a game-asset container format ("archive").
//!
//! An archive stores files that are identified either by a textual name or,
//! when no name is recorded, by a 32-bit checksum of the original name.
//! The crate provides:
//!
//! - [`checksum`]: the checksum over name strings that both sides of the
//!   format agree on;
//! - [`layout`]: the byte layout of an archive, as specification functions
//!   that the reader and the writer are both proved against;
//! - [`archive`]: the reader, with its dual name/hash index and the
//!   `promote` channel that turns a hash-only entry into a named one;
//! - [`writer`]: the writer, which accumulates entries and serializes them;
//! - [`dehash`]: recovery of names for hash-only entries from a list of
//!   candidate strings, and the per-archive-type strategy selection;
//! - [`text`]: the bridge between byte sequences, characters and `String`.
//!
//! The layout module also proves the crate's central law: serializing any
//! writer whose identifiers are unique and whose sizes fit, then opening
//! the bytes, yields back exactly the entries that were written.

pub mod archive;
pub mod checksum;
pub mod dehash;
pub mod layout;
pub mod text;
pub mod writer;
