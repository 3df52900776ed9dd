//! A flat, zero-copy binary heap of JSON-like values.
//!
//! A heap is a byte buffer whose first four bytes hold the little-endian
//! offset of the root value. Every value starts with a one-byte tag and
//! refers to its children by little-endian `u32` offsets into the same buffer.
//! `builder` appends values to a buffer, `reader` views one without copying,
//! `json` writes a whole JSON document, and `laws` relates the two sides.
//! `bulk` walks many stored heaps, and `codecs` decodes and re-encodes stored
//! events in the formats that heaps are compared with.

pub mod format;
pub mod builder;
pub mod reader;
pub mod json;
pub mod laws;
pub mod bulk;
pub mod bson_depth;
pub mod ion_depth;
pub mod nesting;
pub mod formats;
pub mod codecs;
pub mod history;

pub use builder::HeapBuilder;
pub use bulk::{total_bytes, walk_heaps};
pub use json::JsonValue;
pub use reader::{HeapRef, RawHeap};
