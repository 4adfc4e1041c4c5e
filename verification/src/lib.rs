//! Reading, indexing and serving MDict dictionary archives.
//!
//! An archive set is one `.mdx` file (keyword to text entry) with any number
//! of companion `.mdd` files (resource path to binary blob). This crate decodes
//! the archive layout from bytes, builds an in-memory prefix index from keys to
//! record locators, and answers lookups by decompressing the one block a
//! locator points into. Every function here carries a contract that Verus
//! proves; the few calls into other crates are gathered in `outside`.

pub mod archive;
pub mod block;
pub mod checksum;
pub mod cipher;
pub mod error;
pub mod header;
pub mod index;
pub mod keys;
pub mod laws;
pub mod outside;
pub mod paths;
pub mod present;
pub mod records;
pub mod source;
pub mod store;
pub mod table;
pub mod text;
pub mod wire;

pub use crate::error::MDictError;
pub use crate::header::{MDictHeader, MDictMode};
pub use crate::index::{MDictLookup, MDictMemIndex};
pub use crate::records::{MDictRecordBlockIndex, MDictRecordIndex};
pub use crate::source::ByteSource;
pub use crate::store::MDictRecordIndices;
