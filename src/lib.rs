//! A small text search library: configuration from command-line arguments,
//! line splitting, and case-sensitive or case-insensitive line search.

pub mod config;
pub mod run;
pub mod search;
pub mod text;

pub use config::{Config, NOT_ENOUGH_ARGUMENTS};
pub use run::{lines_to_print, RunError};
pub use search::{search, search_case_insensitive};
pub use text::{chars_of, contains, lines};
