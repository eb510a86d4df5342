//! An in-memory keyword-to-emoji index with per-language tables,
//! case-insensitive exact and prefix search, multi-language search with
//! cross-language deduplication, and whole-table load, update and removal.
pub mod index;
pub mod jsonio;
pub mod laws;
pub mod model;
pub mod text;

pub use index::EmojiSearch;
pub use index::IndexError;
pub use text::lower_of;
