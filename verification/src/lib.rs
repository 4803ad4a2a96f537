//! A minimal line-oriented text search library.
//!
//! Given a query string and the full text of a file, the matcher returns
//! every line that contains the query as a literal substring, either
//! case-sensitively or after simple (ASCII) lowercasing of both sides.
//! A configuration resolver turns a plain argument list and one
//! environment-derived flag into a validated `Config`, and a small runner
//! dispatches a `Config` to the right matcher.

pub mod config;
pub mod matcher;
pub mod runner;

pub use config::Config;
pub use matcher::{search, search_case_insensitive};
pub use runner::matching_lines;
