//! An in-memory inverted keyword index: exact, boolean-combined and
//! live-typing search plus multi-scope autocomplete over caller-supplied
//! records, with an approximate-string-similarity fallback for near misses.

mod autocomplete;
mod builder;
mod fuzzy;
mod insert;
mod keyset;
mod laws;
mod order;
mod remove;
mod search;
mod search_index;
mod store;
mod tokenizer;
mod top_scores;
mod types;

pub use builder::SearchIndexBuilder;
pub use search_index::{Entry, SearchIndex};
pub use types::{AutocompleteType, Indexable, SearchType, StrSimType};
