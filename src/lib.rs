//! A trie router for slash-separated paths, with `:name` parameters and
//! trailing `*name` catch-all segments.
pub mod error;
pub mod laws;
pub mod matching;
pub mod model;
pub mod router;
pub mod segments;

pub use error::Error;
pub use matching::{Match, Params};
pub use router::Router;
