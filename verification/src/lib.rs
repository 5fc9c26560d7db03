//! Fuzzy matching of a query against a list of known terms.

pub mod cli;
pub mod clipboard;
pub mod distance;
pub mod download;
pub mod ranker;
pub mod shift;

pub use cli::Cli;
pub use distance::edit_distance;
pub use ranker::closest_matches;
pub use shift::insert_and_shift;
