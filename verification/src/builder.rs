//! The builder that customizes an index before use, the default settings,
//! and the conversions between a builder and a finished index.

use vstd::prelude::*;
use crate::search_index::{entries_wf, Entry, SearchIndex};
use crate::types::{AutocompleteType, SearchType, StrSimType};

verus! {

/// The bit pattern of the default minimum fuzzy score, an IEEE 754 double of
/// three tenths.
pub const DEFAULT_STRSIM_MINIMUM_SCORE: u64 = 0x3FD3_3333_3333_3333;

impl Default for SearchIndex {
    /// An empty index with the default settings: `Or` searches, contextual
    /// autocompletion, Levenshtein fuzzy fallback over two-character
    /// candidate prefixes, case folding on, keywords of 1 to 24 characters,
    /// whole strings up to 24 characters, a short English stop-word list,
    /// 5 completions, 100 search results, 40960 keys per keyword, and a NUL
    /// dump sentinel.
    fn default() -> (r: SearchIndex)
        ensures
            r.wf(),
            r.entries@.len() == 0,
            r.search_type == SearchType::Or,
            r.autocomplete_type == AutocompleteType::Context,
            r.strsim_type == Some(StrSimType::Levenshtein),
            r.strsim_length == 2,
            r.strsim_minimum_score == DEFAULT_STRSIM_MINIMUM_SCORE,
            r.split_pattern is Some,
            !r.case_sensitive,
            r.minimum_keyword_length == 1,
            r.maximum_keyword_length == 24,
            r.maximum_string_length == Some(24usize),
            r.exclude_keywords is Some,
            r.maximum_autocomplete_options == 5,
            r.maximum_search_results == 100,
            r.maximum_keys_per_keyword == 40960,
            r.dump_keyword is Some,
    {
        let split_pattern: Vec<char> = vec![
            '\t',
            '\n',
            '\r',
            ' ',
            '!',
            '"',
            '&',
            '(',
            ')',
            '*',
            '+',
            ',',
            '-',
            '.',
            '/',
            ':',
            ';',
            '<',
            '=',
            '>',
            '?',
            '[',
            '\\',
            ']',
            '^',
            '`',
            '{',
            '|',
            '}',
            '~',
        ];
        let exclude_keywords: Vec<String> = vec![
            "a".to_owned(),
            "an".to_owned(),
            "and".to_owned(),
            "are".to_owned(),
            "as".to_owned(),
            "at".to_owned(),
            "be".to_owned(),
            "but".to_owned(),
            "by".to_owned(),
            "for".to_owned(),
            "if".to_owned(),
            "in".to_owned(),
            "into".to_owned(),
            "is".to_owned(),
            "it".to_owned(),
            "no".to_owned(),
            "not".to_owned(),
            "of".to_owned(),
            "on".to_owned(),
            "or".to_owned(),
            "such".to_owned(),
            "that".to_owned(),
            "the".to_owned(),
            "their".to_owned(),
            "then".to_owned(),
            "there".to_owned(),
            "these".to_owned(),
            "they".to_owned(),
            "this".to_owned(),
            "to".to_owned(),
            "was".to_owned(),
            "will".to_owned(),
            "with".to_owned(),
        ];
        let r = SearchIndex {
            entries: Vec::new(),
            search_type: SearchType::Or,
            autocomplete_type: AutocompleteType::Context,
            strsim_type: Some(StrSimType::Levenshtein),
            strsim_length: 2,
            strsim_minimum_score: DEFAULT_STRSIM_MINIMUM_SCORE,
            split_pattern: Some(split_pattern),
            case_sensitive: false,
            minimum_keyword_length: 1,
            maximum_keyword_length: 24,
            maximum_string_length: Some(24),
            exclude_keywords: Some(exclude_keywords),
            maximum_autocomplete_options: 5,
            maximum_search_results: 100,
            maximum_keys_per_keyword: 40960,
            dump_keyword: Some("\0".to_owned()),
        };
        r
    }
}

/// The builder: the same state as an index, accumulated setting by setting.
pub struct SearchIndexBuilder {
    pub entries: Vec<Entry>,
    pub search_type: SearchType,
    pub autocomplete_type: AutocompleteType,
    pub strsim_type: Option<StrSimType>,
    pub strsim_length: usize,
    pub strsim_minimum_score: u64,
    pub split_pattern: Option<Vec<char>>,
    pub case_sensitive: bool,
    pub minimum_keyword_length: usize,
    pub maximum_keyword_length: usize,
    pub maximum_string_length: Option<usize>,
    pub exclude_keywords: Option<Vec<String>>,
    pub maximum_autocomplete_options: usize,
    pub maximum_search_results: usize,
    pub maximum_keys_per_keyword: usize,
    pub dump_keyword: Option<String>,
}

impl SearchIndexBuilder {
    /// The builder's keyword mapping is well-formed.
    pub open spec fn wf(self) -> bool {
        entries_wf(self.entries@)
    }
}

impl From<SearchIndex> for SearchIndexBuilder {
    /// Reopen a finished index as a builder, all state kept.
    fn from(search_index: SearchIndex) -> (r: SearchIndexBuilder) {
        SearchIndexBuilder {
            entries: search_index.entries,
            search_type: search_index.search_type,
            autocomplete_type: search_index.autocomplete_type,
            strsim_type: search_index.strsim_type,
            strsim_length: search_index.strsim_length,
            strsim_minimum_score: search_index.strsim_minimum_score,
            split_pattern: search_index.split_pattern,
            case_sensitive: search_index.case_sensitive,
            minimum_keyword_length: search_index.minimum_keyword_length,
            maximum_keyword_length: search_index.maximum_keyword_length,
            maximum_string_length: search_index.maximum_string_length,
            exclude_keywords: search_index.exclude_keywords,
            maximum_autocomplete_options: search_index.maximum_autocomplete_options,
            maximum_search_results: search_index.maximum_search_results,
            maximum_keys_per_keyword: search_index.maximum_keys_per_keyword,
            dump_keyword: search_index.dump_keyword,
        }
    }
}

impl vstd::std_specs::convert::FromSpecImpl<SearchIndex> for SearchIndexBuilder {
    open spec fn obeys_from_spec() -> bool {
        true
    }

    open spec fn from_spec(search_index: SearchIndex) -> Self {
        SearchIndexBuilder {
            entries: search_index.entries,
            search_type: search_index.search_type,
            autocomplete_type: search_index.autocomplete_type,
            strsim_type: search_index.strsim_type,
            strsim_length: search_index.strsim_length,
            strsim_minimum_score: search_index.strsim_minimum_score,
            split_pattern: search_index.split_pattern,
            case_sensitive: search_index.case_sensitive,
            minimum_keyword_length: search_index.minimum_keyword_length,
            maximum_keyword_length: search_index.maximum_keyword_length,
            maximum_string_length: search_index.maximum_string_length,
            exclude_keywords: search_index.exclude_keywords,
            maximum_autocomplete_options: search_index.maximum_autocomplete_options,
            maximum_search_results: search_index.maximum_search_results,
            maximum_keys_per_keyword: search_index.maximum_keys_per_keyword,
            dump_keyword: search_index.dump_keyword,
        }
    }
}

impl From<SearchIndexBuilder> for SearchIndex {
    /// Finish a builder into an index, all state kept.
    fn from(builder: SearchIndexBuilder) -> (r: SearchIndex) {
        SearchIndex {
            entries: builder.entries,
            search_type: builder.search_type,
            autocomplete_type: builder.autocomplete_type,
            strsim_type: builder.strsim_type,
            strsim_length: builder.strsim_length,
            strsim_minimum_score: builder.strsim_minimum_score,
            split_pattern: builder.split_pattern,
            case_sensitive: builder.case_sensitive,
            minimum_keyword_length: builder.minimum_keyword_length,
            maximum_keyword_length: builder.maximum_keyword_length,
            maximum_string_length: builder.maximum_string_length,
            exclude_keywords: builder.exclude_keywords,
            maximum_autocomplete_options: builder.maximum_autocomplete_options,
            maximum_search_results: builder.maximum_search_results,
            maximum_keys_per_keyword: builder.maximum_keys_per_keyword,
            dump_keyword: builder.dump_keyword,
        }
    }
}

impl vstd::std_specs::convert::FromSpecImpl<SearchIndexBuilder> for SearchIndex {
    open spec fn obeys_from_spec() -> bool {
        true
    }

    open spec fn from_spec(builder: SearchIndexBuilder) -> Self {
        SearchIndex {
            entries: builder.entries,
            search_type: builder.search_type,
            autocomplete_type: builder.autocomplete_type,
            strsim_type: builder.strsim_type,
            strsim_length: builder.strsim_length,
            strsim_minimum_score: builder.strsim_minimum_score,
            split_pattern: builder.split_pattern,
            case_sensitive: builder.case_sensitive,
            minimum_keyword_length: builder.minimum_keyword_length,
            maximum_keyword_length: builder.maximum_keyword_length,
            maximum_string_length: builder.maximum_string_length,
            exclude_keywords: builder.exclude_keywords,
            maximum_autocomplete_options: builder.maximum_autocomplete_options,
            maximum_search_results: builder.maximum_search_results,
            maximum_keys_per_keyword: builder.maximum_keys_per_keyword,
            dump_keyword: builder.dump_keyword,
        }
    }
}

impl SearchIndexBuilder {
    /// A builder loaded with the default settings.
    pub fn default() -> (r: SearchIndexBuilder)
        ensures
            r.wf(),
            r.entries@.len() == 0,
    {
        SearchIndexBuilder::from(SearchIndex::default())
    }

    /// Set how searches combine keyword results.
    pub fn search_type(self, search_type: SearchType) -> (r: Self)
        ensures
            r == (SearchIndexBuilder { search_type, ..self }),
    {
        SearchIndexBuilder { search_type, ..self }
    }

    /// Set which candidates autocompletion draws on.
    pub fn autocomplete_type(self, autocomplete_type: AutocompleteType) -> (r: Self)
        ensures
            r == (SearchIndexBuilder { autocomplete_type, ..self }),
    {
        SearchIndexBuilder { autocomplete_type, ..self }
    }

    /// Set the similarity metric for near-miss fallback; `None` disables it.
    pub fn strsim_type(self, strsim_type: Option<StrSimType>) -> (r: Self)
        ensures
            r == (SearchIndexBuilder { strsim_type, ..self }),
    {
        SearchIndexBuilder { strsim_type, ..self }
    }

    /// Set how many leading characters a fuzzy candidate must share with the
    /// queried keyword.
    pub fn strsim_length(self, strsim_length: usize) -> (r: Self)
        ensures
            r == (SearchIndexBuilder { strsim_length, ..self }),
    {
        SearchIndexBuilder { strsim_length, ..self }
    }

    /// Set the minimum similarity score of an eligible fuzzy candidate, as
    /// the bit pattern of a non-negative IEEE 754 double.
    pub fn strsim_minimum_score(self, strsim_minimum_score: u64) -> (r: Self)
        ensures
            r == (SearchIndexBuilder { strsim_minimum_score, ..self }),
    {
        SearchIndexBuilder { strsim_minimum_score, ..self }
    }

    /// Set the characters that split text into keywords.
    pub fn split_pattern(self, split_pattern: Option<Vec<char>>) -> (r: Self)
        ensures
            r == (SearchIndexBuilder { split_pattern, ..self }),
    {
        SearchIndexBuilder { split_pattern, ..self }
    }

    /// Set whether the index is case sensitive.
    pub fn case_sensitive(self, case_sensitive: bool) -> (r: Self)
        ensures
            r == (SearchIndexBuilder { case_sensitive, ..self }),
    {
        SearchIndexBuilder { case_sensitive, ..self }
    }

    /// Set the minimum keyword length, in characters.
    pub fn min_keyword_len(self, minimum_keyword_length: usize) -> (r: Self)
        ensures
            r == (SearchIndexBuilder { minimum_keyword_length, ..self }),
    {
        SearchIndexBuilder { minimum_keyword_length, ..self }
    }

    /// Set the maximum keyword length, in characters.
    pub fn max_keyword_len(self, maximum_keyword_length: usize) -> (r: Self)
        ensures
            r == (SearchIndexBuilder { maximum_keyword_length, ..self }),
    {
        SearchIndexBuilder { maximum_keyword_length, ..self }
    }

    /// Set the cutoff under which whole strings are indexed as keywords.
    pub fn max_string_len(self, maximum_string_length: Option<usize>) -> (r: Self)
        ensures
            r == (SearchIndexBuilder { maximum_string_length, ..self }),
    {
        SearchIndexBuilder { maximum_string_length, ..self }
    }

    /// Set the keywords that are never indexed and never matched.
    pub fn exclude_keywords(self, exclude_keywords: Option<Vec<String>>) -> (r: Self)
        ensures
            r == (SearchIndexBuilder { exclude_keywords, ..self }),
    {
        SearchIndexBuilder { exclude_keywords, ..self }
    }

    /// Set how many completions an autocompletion returns at most.
    pub fn max_autocomplete_options(self, maximum_autocomplete_options: usize) -> (r: Self)
        ensures
            r == (SearchIndexBuilder { maximum_autocomplete_options, ..self }),
    {
        SearchIndexBuilder { maximum_autocomplete_options, ..self }
    }

    /// Set how many keys a search returns at most.
    pub fn max_search_results(self, maximum_search_results: usize) -> (r: Self)
        ensures
            r == (SearchIndexBuilder { maximum_search_results, ..self }),
    {
        SearchIndexBuilder { maximum_search_results, ..self }
    }

    /// Set how many keys a single keyword's set may hold.
    pub fn max_keys_per_keyword(self, maximum_keys_per_keyword: usize) -> (r: Self)
        ensures
            r == (SearchIndexBuilder { maximum_keys_per_keyword, ..self }),
    {
        SearchIndexBuilder { maximum_keys_per_keyword, ..self }
    }

    /// Set the sentinel query that returns every key.
    pub fn dump_keyword(self, dump_keyword: Option<String>) -> (r: Self)
        ensures
            r == (SearchIndexBuilder { dump_keyword, ..self }),
    {
        SearchIndexBuilder { dump_keyword, ..self }
    }

    /// Finish the builder into a usable index.
    pub fn build(self) -> (r: SearchIndex)
        requires
            self.wf(),
        ensures
            r.wf(),
            r == <SearchIndex as vstd::std_specs::convert::FromSpec<SearchIndexBuilder>>::from_spec(self),
    {
        SearchIndex::from(self)
    }
}

} // verus!
