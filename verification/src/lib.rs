//! An embedded key-value store over JSON-like value trees, with secondary
//! hash indexes, integrity records and backups, verified with Verus.
//!
//! The store keeps one value tree under each key. Every change of a record
//! is followed by the indexes: each index files the key under the
//! structural hash of the value, a 64-bit digest that does not depend on
//! the order in which the members of an object came. The records have a
//! canonical byte form, whose SHA-256 digest is kept as an integrity record
//! beside the data file.
//!
//! The library touches no file. What there is to do on disk it hands out as
//! steps for the caller to carry out, and what the caller found on disk it
//! takes as plain values; JSON text is the caller's too.
//!
//! - [`value`], [`value_ops`], [`keys`], [`members`]: the value tree and the
//!   sorted members behind objects and records.
//! - [`hashing`], [`path`]: the structural hash and dotted field paths.
//! - [`buckets`], [`hash_index`], [`index_text`], [`index_load`], [`scan`]:
//!   the indexes, their text on disk, and the searches over all records.
//! - [`db`], [`consistency`]: the store and why its indexes stay true.
//! - [`digest`], [`layout`], [`persist`], [`disk`]: integrity records, the
//!   places of the files, the steps of a save, the choice of a repair, and
//!   what the steps come to on a model of the disk.
//! - [`laws`]: what holds of the store as a whole.
//! - [`password`], [`image_processor`], [`vector_db`]: the rules of the
//!   tools that stand around the store.

pub mod keys;
pub mod text;
pub mod layout;
pub mod value;
pub mod members;
pub mod value_ops;
pub mod hashing;
pub mod path;
pub mod buckets;
pub mod hash_index;
pub mod index_text;
pub mod consistency;
pub mod digest;
pub mod db;
pub mod scan;
pub mod persist;
pub mod disk;
pub mod index_load;
pub mod laws;
pub mod password;
pub mod image_processor;
pub mod vector_db;
