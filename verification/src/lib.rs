//! Locating the N largest files beneath a directory tree.
//!
//! The library holds the verified core of the tool: ranking file entries by
//! descending size, the textual log record that persists a ranking across
//! runs, and the decisions behind the traversal work list and the
//! delete-by-rank operation. All filesystem work (listing directories,
//! reading and writing the log file, removing files) is left to the caller,
//! which hands the library plain values and takes plain values back.

pub mod errors;
pub mod entries;
pub mod numeral;
pub mod select;
pub mod codec;
pub mod traverse;
