//! Streaming reader for Portable Game Notation (PGN) chess game records.
//!
//! The reader scans games from a sequential byte source through a sliding
//! window buffer, parses each game's header block, skip-scans its move text,
//! and reports what it finds to a consumer-implemented [`visitor::Visitor`].
//! The consumer's end-of-headers answer lets a filtering pipeline reject a
//! game before its move text is examined.
pub mod buffer;
pub mod filter;
pub mod reader;
pub mod scan;
pub mod source;
pub mod stream;
pub mod visitor;
