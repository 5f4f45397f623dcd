//! Relocates media files into date-derived names and directories.
//!
//! The heart of the library is a bidirectional timestamp codec — a calendar
//! timestamp is encoded as a short, sortable, filename-safe token — and a
//! collision-safe relocation engine that decides new names and paths without
//! ever planning an overwrite.

pub mod codec;
pub mod engine;
pub mod resolver;
