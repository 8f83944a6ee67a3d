//! The search index itself: a sorted keyword-to-key-set mapping together with
//! the immutable configuration snapshot that governs tokenization, search and
//! autocompletion.

use vstd::prelude::*;
use crate::keyset::ascending;
use crate::order::lex_lt;
use crate::types::{AutocompleteType, SearchType, StrSimType};

verus! {

/// One keyword of the index and the keys of the records that contain it.
pub struct Entry {
    pub keyword: String,
    pub keys: Vec<usize>,
}

/// The search index. Keywords are held in strictly ascending lexicographic
/// order; every keyword owns a non-empty, strictly ascending key set.
pub struct SearchIndex {
    /// The keyword-to-key-set mapping.
    pub entries: Vec<Entry>,
    /// How searches combine keyword results unless a call overrides it.
    pub search_type: SearchType,
    /// Which candidates autocompletion draws on unless a call overrides it.
    pub autocomplete_type: AutocompleteType,
    /// The similarity metric for near-miss fallback; `None` disables it.
    pub strsim_type: Option<StrSimType>,
    /// How many leading characters a fuzzy candidate must share with the
    /// queried keyword; `0` compares against the whole index.
    pub strsim_length: usize,
    /// The minimum similarity score of an eligible fuzzy candidate, encoded
    /// as the bit pattern of a non-negative IEEE 754 double. For such
    /// doubles the unsigned order of the bits is the order of the values,
    /// so scores are compared as plain integers.
    pub strsim_minimum_score: u64,
    /// Characters that split text into keywords; `None` leaves each string
    /// whole.
    pub split_pattern: Option<Vec<char>>,
    /// When false, all text is folded to lower case before use.
    pub case_sensitive: bool,
    /// Keywords shorter than this (in characters) are not indexed.
    pub minimum_keyword_length: usize,
    /// Keywords longer than this (in characters) are not indexed.
    pub maximum_keyword_length: usize,
    /// When set, a record string no longer than this is additionally indexed
    /// whole, as a single keyword, for phrase-level completion.
    pub maximum_string_length: Option<usize>,
    /// Keywords that are never indexed and never matched.
    pub exclude_keywords: Option<Vec<String>>,
    /// How many completions an autocompletion returns at most.
    pub maximum_autocomplete_options: usize,
    /// How many keys a search returns at most.
    pub maximum_search_results: usize,
    /// How many keys a single keyword's set may hold; insertion beyond the
    /// cap is silently dropped.
    pub maximum_keys_per_keyword: usize,
    /// A sentinel query that returns every key in the index.
    pub dump_keyword: Option<String>,
}

/// The key set stored for `kw`, or `None` where `kw` is not indexed.
pub open spec fn kw_lookup(entries: Seq<Entry>, kw: Seq<char>) -> Option<Seq<usize>>
    decreases entries.len(),
{
    if entries.len() == 0 {
        None
    } else if entries[0].keyword@ == kw {
        Some(entries[0].keys@)
    } else {
        kw_lookup(entries.skip(1), kw)
    }
}

/// The key set stored for `kw`, empty where `kw` is not indexed.
pub open spec fn kw_keys(entries: Seq<Entry>, kw: Seq<char>) -> Seq<usize> {
    match kw_lookup(entries, kw) {
        Some(ks) => ks,
        None => Seq::empty(),
    }
}

/// The structural invariant of a keyword mapping: keywords strictly sorted,
/// key sets non-empty and strictly ascending.
pub open spec fn entries_wf(entries: Seq<Entry>) -> bool {
    &&& forall|i: int, j: int|
        0 <= i < j < entries.len() ==> lex_lt(entries[i].keyword@, entries[j].keyword@)
    &&& forall|i: int|
        0 <= i < entries.len() ==> ascending(#[trigger] entries[i].keys@) && entries[i].keys@.len()
            > 0
}

impl SearchIndex {
    /// The structural invariant of the mapping.
    pub open spec fn wf(self) -> bool {
        entries_wf(self.entries@)
    }

    /// True when `other` carries the same configuration: everything but the
    /// keyword mapping agrees.
    pub open spec fn same_config(self, other: SearchIndex) -> bool {
        &&& self.search_type == other.search_type
        &&& self.autocomplete_type == other.autocomplete_type
        &&& self.strsim_type == other.strsim_type
        &&& self.strsim_length == other.strsim_length
        &&& self.strsim_minimum_score == other.strsim_minimum_score
        &&& self.split_pattern == other.split_pattern
        &&& self.case_sensitive == other.case_sensitive
        &&& self.minimum_keyword_length == other.minimum_keyword_length
        &&& self.maximum_keyword_length == other.maximum_keyword_length
        &&& self.maximum_string_length == other.maximum_string_length
        &&& self.exclude_keywords == other.exclude_keywords
        &&& self.maximum_autocomplete_options == other.maximum_autocomplete_options
        &&& self.maximum_search_results == other.maximum_search_results
        &&& self.maximum_keys_per_keyword == other.maximum_keys_per_keyword
        &&& self.dump_keyword == other.dump_keyword
    }

    /// The configured cap on a single keyword's key set.
    pub fn max_keys_per_keyword(&self) -> (r: usize)
        ensures
            r == self.maximum_keys_per_keyword,
    {
        self.maximum_keys_per_keyword
    }
}

/// Distinct positions of a well-formed index hold distinct keywords.
pub proof fn lemma_wf_keywords_distinct(s: SearchIndex, i: int, j: int)
    requires
        s.wf(),
        0 <= i < s.entries@.len(),
        0 <= j < s.entries@.len(),
        i != j,
    ensures
        s.entries@[i].keyword@ != s.entries@[j].keyword@,
{
    if i < j {
        crate::order::lemma_lex_irrefl(s.entries@[i].keyword@);
    } else {
        crate::order::lemma_lex_irrefl(s.entries@[j].keyword@);
    }
}

/// Where the first match for `kw` stands at position `i`, the lookup yields
/// that entry's keys.
pub proof fn lemma_kw_lookup_at(entries: Seq<Entry>, kw: Seq<char>, i: int)
    requires
        0 <= i < entries.len(),
        entries[i].keyword@ == kw,
        forall|j: int| 0 <= j < i ==> entries[j].keyword@ != kw,
    ensures
        kw_lookup(entries, kw) == Some(entries[i].keys@),
    decreases entries.len(),
{
    if i > 0 {
        lemma_kw_lookup_at(entries.skip(1), kw, i - 1);
    }
}

/// Where no entry holds `kw`, the lookup yields nothing.
pub proof fn lemma_kw_lookup_absent(entries: Seq<Entry>, kw: Seq<char>)
    requires
        forall|j: int| 0 <= j < entries.len() ==> entries[j].keyword@ != kw,
    ensures
        kw_lookup(entries, kw) is None,
    decreases entries.len(),
{
    if entries.len() > 0 {
        lemma_kw_lookup_absent(entries.skip(1), kw);
    }
}

/// A successful lookup comes from some entry.
pub proof fn lemma_kw_lookup_found(entries: Seq<Entry>, kw: Seq<char>)
    requires
        kw_lookup(entries, kw) is Some,
    ensures
        exists|i: int|
            0 <= i < entries.len() && entries[i].keyword@ == kw && entries[i].keys@ == kw_lookup(
                entries,
                kw,
            )->Some_0,
    decreases entries.len(),
{
    if entries.len() > 0 {
        if entries[0].keyword@ == kw {
            assert(entries[0].keyword@ == kw && entries[0].keys@ == kw_lookup(entries, kw)->Some_0);
        } else {
            lemma_kw_lookup_found(entries.skip(1), kw);
            let i = choose|i: int|
                0 <= i < entries.skip(1).len() && entries.skip(1)[i].keyword@ == kw && entries.skip(
                    1,
                )[i].keys@ == kw_lookup(entries.skip(1), kw)->Some_0;
            assert(entries[i + 1].keyword@ == kw && entries[i + 1].keys@ == kw_lookup(
                entries,
                kw,
            )->Some_0);
        }
    }
}

} // verus!
