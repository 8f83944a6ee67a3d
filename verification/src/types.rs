//! The index's public option types and the trait a record implements to
//! become indexable.

use vstd::prelude::*;

verus! {

/// How a record offers its text to the index: one string per indexable field.
/// `insert`, `remove` and `replace` call this once per record; the same record
/// must always yield the same strings, or a removal cannot undo the earlier
/// insertion.
pub trait Indexable {
    fn strings(&self) -> Vec<String>;
}

/// How the key sets of a query's keywords are combined into one result.
#[derive(Clone, Copy, Debug, PartialEq, Eq, Structural)]
pub enum SearchType {
    /// The whole query is one keyword; its stored key set is returned as is.
    Keyword,
    /// Keys matching any keyword, ranked by how many distinct keywords they
    /// match.
    Or,
    /// Keys matching every keyword.
    And,
    /// Incremental typing: every keyword but the last must match, the last is
    /// treated as a prefix to complete.
    Live,
}

/// Which candidates an autocompletion may draw on.
#[derive(Clone, Copy, Debug, PartialEq, Eq, Structural)]
pub enum AutocompleteType {
    /// Complete the last keyword from the whole index, ignoring the preceding
    /// keywords.
    Global,
    /// Complete the last keyword, keeping only completions whose records also
    /// match the preceding keywords.
    Context,
    /// Treat the entire query as a single keyword and return its bare
    /// completions, unsplit and without context filtering.
    Keyword,
}

/// The string-similarity metric used when an exact lookup misses.
#[derive(Clone, Copy, Debug, PartialEq, Eq, Structural)]
pub enum StrSimType {
    DamerauLevenshtein,
    Jaro,
    JaroWinkler,
    Levenshtein,
    SorensenDice,
}

} // verus!
