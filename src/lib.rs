//! Resolve free-text queries to emoji: a tiered lexical matcher over an emoji
//! catalog, user memos that take precedence over it, and the decision logic
//! that drives a language model one emoji at a time.
use vstd::prelude::*;

pub mod error;
pub mod text;
pub mod record;
pub mod search;
pub mod memo;
pub mod ai;
pub mod catalog;
pub mod generators;
pub mod models;
pub mod actions;

pub use catalog::load_emojis;
pub use memo::EmojiMappings;
pub use record::{to_char, EmojiRecord};
pub use search::{get_search_index, search, SearchIndex};

verus! {

} // verus!
