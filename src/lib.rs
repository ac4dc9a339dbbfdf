//! A small embedded data store: one directory per table, one file per row,
//! optional per-field authenticated encryption and an in-memory reverse index
//! for exact-match search.
//!
//! The library computes; the caller moves bytes to and from the disk. A write
//! yields the bytes of the row file, a read takes them, and the reverse index
//! is an owned value threaded through every call that changes it.

pub mod error;
pub mod escape;
pub mod field_codec;
pub mod index;
pub mod laws;
pub mod row_codec;
pub mod table;
pub mod text;

pub use error::{status, DbError};
pub use field_codec::{decode_field, derive_nonce, encode_field, Cipher};
pub use index::Index;
pub use row_codec::{frame_fields, parse_fields, resolve_fields};
pub use table::{info_file_name, init, search, Field, LenType, Row, Table};
pub use text::{decimal_string, parse_row_number};
