//! Extraction of airport time-zone records from the text of a chart supplement.
//!
//! The library holds the logic: offset parsing, geometry on finite scalars,
//! outline and page-tree navigation, glyph decoding, content replay, line
//! reconstruction, encoding tables and time-zone matching. Reading documents and files is left
//! to the caller, who hands plain values in.

mod pattern;
mod text;

pub mod chapter;
pub mod content;
pub mod decode;
pub mod error;
pub mod geometry;
pub mod offset;
pub mod outline;
pub mod pages;
pub mod tables;
pub mod zones;

pub use offset::{normalize_offset, normalize_reverse_offset};
