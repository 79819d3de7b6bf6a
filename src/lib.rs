//! Line-oriented text search: select the lines of a text that contain a query,
//! either exactly or after lowercasing, and read the command-line arguments
//! that drive such a search.

pub mod text;
pub mod search;
pub mod config;
mod slicing;
