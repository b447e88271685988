//! UDF: a container file format for typed multi-dimensional arrays.
//!
//! A file holds 16-byte aligned regions, one dataset each. A dataset is a
//! header, table descriptors, a hash-sorted name dictionary and a storage blob
//! of table data. Table data may be compressed with the SimpleU32 stream codec.
//!
//! - `format`, `layout`, `bytes`: the on-disk structures and their little-endian bytes
//! - `hash`, `names`: name hashes and the name dictionary
//! - `shape`, `utils`: shapes and the type-info fields
//! - `dataset`, `string_array`: building, serializing and parsing datasets
//! - `compress`, `simplu32`: the stream codec
//! - `file_offset`, `path`: region allocation, errors, and text forms

pub mod bytes;
pub mod compress;
pub mod dataset;
pub mod file_offset;
pub mod format;
pub mod hash;
pub mod layout;
pub mod names;
pub mod path;
pub mod shape;
pub mod simplu32;
pub mod string_array;
pub mod utils;

pub use self::dataset::{DataRef, Dataset, DatasetRef, TableRef};
pub use self::file_offset::ParseError;
pub use self::format::FileOffset;
pub use self::hash::hash;
pub use self::names::{NameOrHash, Names, NamesRef};
pub use self::path::PathEl;
pub use self::shape::Shape;
pub use self::simplu32::SimpleU32;
pub use self::string_array::build_string_array_utf8;
pub use self::utils::{FileSize, PrintHex, PrintId, PrintTypeInfo, WalkRef};
