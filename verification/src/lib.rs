//! Line-oriented substring search over in-memory text.

pub mod config;
pub mod encoding;
pub mod engine;
pub mod folding;
pub mod lines;
pub mod substring;

pub use crate::config::{run, Config};
pub use crate::engine::{search, search_case_insensitive};
