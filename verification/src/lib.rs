//! A verified line-oriented substring search library.
//!
//! The matcher reports, for a query and a block of text, every line that
//! contains the query, in exact-case or case-folded mode, with 1-based line
//! numbers. The collector gathers the regular files under a directory root
//! breadth-first; the filesystem itself is driven by the caller, which feeds
//! each directory listing back into the collector.

pub mod collector;
pub mod config;
pub mod matcher;

pub use config::Config;

pub use matcher::isearch;
pub use matcher::scan_content;
pub use matcher::search;
