//! Line-oriented substring search.
//!
//! The library splits a text into lines, selects the lines that contain a
//! query string (exactly, or up to lowercasing), and returns each selected
//! line with its surrounding whitespace trimmed.  A small configuration
//! resolver turns a raw argument list into a search configuration.

pub mod config;
pub mod lines;
pub mod search;
pub mod text;

pub use config::Config;
pub use config::GrepError;
pub use search::run_search;
pub use search::search;
pub use search::search_case_insensitive;
