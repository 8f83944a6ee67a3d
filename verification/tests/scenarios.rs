use indicium::{AutocompleteType, Indexable, SearchIndex, SearchIndexBuilder, SearchType};

struct Text {
    s: String,
}

impl Text {
    fn new(s: &str) -> Text {
        Text { s: s.to_string() }
    }
}

impl Indexable for Text {
    fn strings(&self) -> Vec<String> {
        vec![self.s.clone()]
    }
}

fn kings_titles() -> SearchIndex {
    let mut search_index: SearchIndex = SearchIndex::default();
    search_index.insert(&0, &Text::new("Harold Godwinson"));
    search_index.insert(&1, &Text::new("Edgar Ætheling"));
    search_index.insert(&2, &Text::new("William the Conqueror"));
    search_index.insert(&3, &Text::new("William Rufus"));
    search_index.insert(&4, &Text::new("Henry Beauclerc"));
    search_index
}

#[test]
fn search_exact_and_fuzzy_fallback() {
    let search_index = kings_titles();

    let resulting_keys = search_index.search("William");
    assert_eq!(resulting_keys, vec![2, 3]);

    // Demonstrating fuzzy matching:
    let resulting_keys = search_index.search("Harry");
    assert_eq!(resulting_keys, vec![0]);
}

#[test]
fn autocomplete_global_with_fuzzy_fallback() {
    let mut search_index: SearchIndex = SearchIndexBuilder::default()
        .autocomplete_type(AutocompleteType::Global)
        .exclude_keywords(None)
        .build();

    search_index.insert(&0, &Text::new("apple"));
    search_index.insert(&1, &Text::new("ball"));
    search_index.insert(&3, &Text::new("bird"));
    search_index.insert(&4, &Text::new("birthday"));
    search_index.insert(&5, &Text::new("red"));

    let autocomplete_options = search_index.autocomplete("a very big bi");
    assert_eq!(
        autocomplete_options,
        vec!["a very big bird", "a very big birthday"]
    );

    // Demonstrating fuzzy matching:
    let autocomplete_options = search_index.autocomplete("a very big birf");
    assert_eq!(
        autocomplete_options,
        vec!["a very big bird", "a very big birthday"]
    );
}

#[test]
fn live_search() {
    let mut search_index: SearchIndex = SearchIndex::default();
    search_index.insert(&0, &Text::new("Harold Godwinson"));
    search_index.insert(&1, &Text::new("Edgar Ætheling"));
    search_index.insert(&2, &Text::new("William the Conqueror"));
    search_index.insert(&2, &Text::new("First Norman monarch of England."));
    search_index.insert(&3, &Text::new("William Rufus"));

    let search_results = search_index.search_type(&SearchType::Live, "Norman C");
    assert_eq!(search_results, vec![2]);
}

#[test]
fn keyword_search_absent_is_empty() {
    let search_index = kings_titles();
    let search_results = search_index.search_type(&SearchType::Keyword, "plantagenet");
    assert_eq!(search_results, Vec::<usize>::new());
}

#[test]
fn empty_query_is_empty() {
    let search_index = kings_titles();
    assert_eq!(search_index.search(""), Vec::<usize>::new());
    assert_eq!(search_index.autocomplete(""), Vec::<String>::new());
}

#[test]
fn and_with_unmatched_keyword_is_empty() {
    let search_index = kings_titles();
    let search_results = search_index.search_type(&SearchType::And, "william zzzz");
    assert_eq!(search_results, Vec::<usize>::new());
}

#[test]
fn and_results_within_or_results() {
    let search_index = kings_titles();
    let and_results = search_index.search_type(&SearchType::And, "william rufus");
    let or_results = search_index.search_type(&SearchType::Or, "william rufus");
    assert_eq!(and_results, vec![3]);
    assert_eq!(or_results, vec![3, 2]);
    for key in &and_results {
        assert!(or_results.contains(key));
    }
}

#[test]
fn dump_sentinel_returns_all_keys() {
    let search_index = kings_titles();
    let search_results = search_index.search("\0");
    assert_eq!(search_results, vec![0, 1, 2, 3, 4]);
}

#[test]
fn insert_is_idempotent() {
    let mut once: SearchIndex = SearchIndex::default();
    once.insert(&7, &Text::new("golden plover"));

    let mut twice: SearchIndex = SearchIndex::default();
    twice.insert(&7, &Text::new("golden plover"));
    twice.insert(&7, &Text::new("golden plover"));

    assert_eq!(once.search("golden"), twice.search("golden"));
    assert_eq!(once.search("plover"), twice.search("plover"));
    assert_eq!(once.search("\0"), twice.search("\0"));
}

#[test]
fn remove_restores_prior_state() {
    let mut search_index: SearchIndex = SearchIndex::default();
    search_index.insert(&0, &Text::new("heron"));
    let before = search_index.search("\0");

    search_index.insert(&1, &Text::new("heron bittern"));
    assert_eq!(search_index.search("bittern"), vec![1]);
    assert_eq!(search_index.search("heron"), vec![0, 1]);

    search_index.remove(&1, &Text::new("heron bittern"));
    assert_eq!(search_index.search("bittern"), Vec::<usize>::new());
    assert_eq!(search_index.search("heron"), vec![0]);
    assert_eq!(search_index.search("\0"), before);
}

#[test]
fn insert_text_and_remove_text_index_one_string() {
    let mut search_index: SearchIndex = SearchIndex::default();
    search_index.insert_text(&0, "copper beech");
    assert_eq!(search_index.search("copper"), vec![0]);
    search_index.remove_text(&0, "copper beech");
    assert_eq!(search_index.search("copper"), Vec::<usize>::new());
    assert_eq!(search_index.search("\0"), Vec::<usize>::new());
}

#[test]
fn insert_strings_and_remove_strings_index_all_strings() {
    let mut search_index: SearchIndex = SearchIndex::default();
    let strings = vec!["silver birch".to_string(), "downy birch".to_string()];
    search_index.insert_strings(&6, &strings);
    assert_eq!(search_index.search("silver"), vec![6]);
    assert_eq!(search_index.search("downy"), vec![6]);
    search_index.remove_strings(&6, &strings);
    assert_eq!(search_index.search("\0"), Vec::<usize>::new());
}

#[test]
fn replace_swaps_indexed_text() {
    let mut search_index: SearchIndex = SearchIndex::default();
    search_index.insert(&0, &Text::new("winter wren"));
    search_index.replace(&0, &Text::new("winter wren"), &Text::new("summer tanager"));
    assert_eq!(search_index.search("wren"), Vec::<usize>::new());
    assert_eq!(search_index.search("winter"), Vec::<usize>::new());
    assert_eq!(search_index.search("tanager"), vec![0]);
}

#[test]
fn or_ranks_by_matched_keyword_count() {
    let mut search_index: SearchIndex = SearchIndex::default();
    search_index.insert(&5, &Text::new("oak"));
    search_index.insert(&2, &Text::new("oak elm"));
    search_index.insert(&9, &Text::new("elm"));
    // key 2 matches both keywords and must precede the single-keyword
    // matches, which tie and fall back to ascending key order
    let search_results = search_index.search_type(&SearchType::Or, "oak elm");
    assert_eq!(search_results, vec![2, 5, 9]);
}

#[test]
fn case_insensitive_folds_queries_and_records() {
    let mut search_index: SearchIndex = SearchIndex::default();
    search_index.insert(&3, &Text::new("GRANITE"));
    assert_eq!(search_index.search_type(&SearchType::Keyword, "granite"), vec![3]);
    assert_eq!(search_index.search_type(&SearchType::Keyword, "GrAnItE"), vec![3]);
}

#[test]
fn case_sensitive_keeps_case() {
    let mut search_index: SearchIndex = SearchIndexBuilder::default()
        .case_sensitive(true)
        .build();
    search_index.insert(&3, &Text::new("Granite"));
    assert_eq!(search_index.search_type(&SearchType::Keyword, "granite"), Vec::<usize>::new());
    assert_eq!(search_index.search_type(&SearchType::Keyword, "Granite"), vec![3]);
}

#[test]
fn builder_caps_search_results() {
    let mut search_index: SearchIndex = SearchIndexBuilder::default()
        .max_search_results(1)
        .build();
    search_index.insert(&0, &Text::new("fern"));
    search_index.insert(&1, &Text::new("fern moss"));
    let search_results = search_index.search_type(&SearchType::Or, "fern");
    assert_eq!(search_results.len(), 1);
}

#[test]
fn builder_custom_dump_keyword() {
    let mut search_index: SearchIndex = SearchIndexBuilder::default()
        .dump_keyword(Some("everything".to_string()))
        .build();
    search_index.insert(&4, &Text::new("basalt"));
    search_index.insert(&8, &Text::new("pumice"));
    assert_eq!(search_index.search("everything"), vec![4, 8]);
}

#[test]
fn excluded_keywords_are_never_indexed() {
    // "the" stands in the default exclusion list
    let search_index = kings_titles();
    assert_eq!(search_index.search_type(&SearchType::Keyword, "the"), Vec::<usize>::new());
}

#[test]
fn context_autocomplete_with_unmatched_context_is_empty() {
    // the context keyword matches no record, so no completion can be
    // relevant to it
    let search_index = kings_titles();
    let autocomplete_options =
        search_index.autocomplete_type(&AutocompleteType::Context, "zzzz w");
    assert_eq!(autocomplete_options, Vec::<String>::new());
}

#[test]
fn autocomplete_with_caps_options() {
    let search_index = kings_titles();
    let autocomplete_options =
        search_index.autocomplete_with(&AutocompleteType::Global, &1, "w");
    assert_eq!(autocomplete_options, vec!["william".to_string()]);
}

#[test]
fn search_with_caps_results() {
    let search_index = kings_titles();
    let search_results = search_index.search_with(&SearchType::Or, &1, "william rufus");
    assert_eq!(search_results, vec![3]);
}

#[test]
fn keys_per_keyword_cap_drops_extra_keys() {
    let mut search_index: SearchIndex = SearchIndexBuilder::default()
        .max_keys_per_keyword(1)
        .build();
    search_index.insert(&0, &Text::new("pine"));
    search_index.insert(&1, &Text::new("pine"));
    assert_eq!(search_index.search_type(&SearchType::Keyword, "pine"), vec![0]);
}

#[test]
fn min_keyword_length_drops_short_tokens() {
    let mut search_index: SearchIndex = SearchIndexBuilder::default()
        .min_keyword_len(3)
        .exclude_keywords(None)
        .build();
    search_index.insert(&0, &Text::new("go far"));
    assert_eq!(search_index.search_type(&SearchType::Keyword, "go"), Vec::<usize>::new());
    assert_eq!(search_index.search_type(&SearchType::Keyword, "far"), vec![0]);
}
