//! Classifies a short free-text query into a category.
//!
//! The query is normalised into words, the words are matched fuzzily against a
//! fixed vocabulary, and the category weights recorded for each matched entry's
//! neighbouring words are added up. The category with the highest total wins.

pub mod aggregate;
pub mod category;
pub mod driver;
pub mod matcher;
pub mod scores;
pub mod table;
pub mod text;
pub mod token;

pub use aggregate::{aggregate, predict};
pub use category::Category;
pub use driver::tokenize;
pub use matcher::find_most_similar_word_in_vocab;
pub use scores::{get_largest_output, ScoreMap};
pub use table::{NeighbourEntry, NeighbourTable};
pub use text::normalize;
pub use token::{get_token_neighbours, Token};
