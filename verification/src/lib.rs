//! Streaming content-matching and asset-extraction engine for project files.
//!
//! The engine works on fully decoded byte buffers handed in by the caller:
//! it transparently gunzips gzip-compressed input, splits text into lines,
//! performs case-insensitive substring search that detects matches spanning
//! a line boundary, extracts a bounded snippet around the first match, and
//! harvests referenced asset paths from XML documents.
pub mod assets;
pub mod decode;
pub mod engine;
pub mod chars;
pub mod search;
pub mod xmlscan;
pub mod fold;
