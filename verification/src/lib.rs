//! A compact, memory-mappable binary database ("memdb") for JavaScript
//! source maps, optimized for looking up the original source position of a
//! generated (line, column) coordinate.
//!
//! The crate covers the bit codec used to pack token records, the legacy
//! fixed-width position packer, the memdb container format (header, sorted
//! token index, string tables, optional Brotli-compressed source contents),
//! and a unified view over raw source maps and memdb buffers.

pub mod bitmodel;
pub mod bitpacker;
pub mod compress;
pub mod errors;
pub mod memdb;
pub mod memidx;
pub mod record;
pub mod smap;
pub mod types;
pub mod unified;
pub mod varint;
pub mod writer;

pub use errors::ErrorKind;
pub use unified::{sourcemap_to_memdb_vec, Index, MapView, TokenMatch, ViewOrIndex};
