//! A small line-oriented text search: the lines of a text that contain a
//! query, with or without regard to case, and the run configuration that
//! says which of the two to use.
//!
//! All contracts are stated over `Seq<char>`, the view of `str` and `String`.
//! The executable code works on the UTF-8 bytes of its arguments; `utf8`
//! holds the lemmas that carry facts from bytes to characters.

pub mod config;
pub mod lines;
pub mod matcher;
pub mod substring;
pub mod utf8;

pub use config::{Config, ConfigError};
pub use matcher::{run, search, search_case_insensitive};
