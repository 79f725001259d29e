//! A small in-memory fuzzy search index for embedded autocomplete and search
//! suggestions: the index itself, its tokenizer and term table, and the
//! integer parts of its ranking.
pub mod order;
pub mod text;
pub mod options;
pub mod terms;
pub mod model;
pub mod index;
pub mod rank;
pub mod matches;
pub mod laws;

pub use index::Index;
pub use options::Options;
pub use terms::PostingMap;
pub use matches::MatchSite;
pub use text::typo_prefixes;
pub use rank::{PositionMetrics, proximity_cost, first_position, count_exact};
