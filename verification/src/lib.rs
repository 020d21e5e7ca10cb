//! Settings synchronization engine for per-profile game configuration files.
//!
//! The library parses flat `key = value` configuration text, filters settings
//! by category substrings, exports the filtered subset of several files into
//! one JSON document, merges such a document back into live configuration
//! text while preserving unrelated lines, and prepares timestamped backups.
//! All path and text values are handled as byte strings; the thin shell that
//! performs file and directory I/O hands contents in and out as plain values.
use vstd::prelude::*;

pub mod backup;
pub mod discover;
pub mod document;
pub mod merge;
pub mod settings;
pub mod text;

verus! {

/// True for the ASCII whitespace bytes that surround keys and values:
/// space, tab, line feed, vertical tab, form feed, carriage return.
/// Trimming is ASCII-only; a non-ASCII whitespace character in a key or
/// value is kept as part of it.
pub open spec fn is_ws(b: u8) -> bool {
    b == 32 || b == 9 || b == 10 || b == 11 || b == 12 || b == 13
}

} // verus!
