use indicium::{Indexable, SearchIndex, SearchIndexBuilder, StrSimType};

struct Text {
    s: String,
}

impl Text {
    fn new(s: &str) -> Text {
        Text { s: s.to_string() }
    }
}

impl Indexable for Text {
    fn strings(&self) -> Vec<String> {
        vec![self.s.clone()]
    }
}

fn bird_index(strsim_type: Option<StrSimType>) -> SearchIndex {
    let mut search_index: SearchIndex = SearchIndexBuilder::default()
        .strsim_type(strsim_type)
        .build();
    search_index.insert(&0, &Text::new("bird"));
    search_index.insert(&1, &Text::new("birthday"));
    search_index
}

#[test]
fn strsim_autocomplete_levenshtein() {
    let search_index = bird_index(Some(StrSimType::Levenshtein));
    let options = search_index.strsim_autocomplete("birf");
    assert_eq!(options, vec!["bird", "birthday"]);
}

#[test]
fn strsim_autocomplete_damerau_levenshtein() {
    let search_index = bird_index(Some(StrSimType::DamerauLevenshtein));
    let options = search_index.strsim_autocomplete("birf");
    assert_eq!(options, vec!["bird", "birthday"]);
}

#[test]
fn strsim_autocomplete_jaro() {
    let search_index = bird_index(Some(StrSimType::Jaro));
    let options = search_index.strsim_autocomplete("birf");
    assert_eq!(options, vec!["bird", "birthday"]);
}

#[test]
fn strsim_autocomplete_jaro_winkler() {
    let search_index = bird_index(Some(StrSimType::JaroWinkler));
    let options = search_index.strsim_autocomplete("birf");
    assert_eq!(options, vec!["bird", "birthday"]);
}

#[test]
fn strsim_autocomplete_sorensen_dice() {
    let search_index = bird_index(Some(StrSimType::SorensenDice));
    let options = search_index.strsim_autocomplete("birf");
    assert_eq!(options, vec!["bird", "birthday"]);
}

#[test]
fn strsim_disabled_yields_nothing() {
    let search_index = bird_index(None);
    let options = search_index.strsim_autocomplete("birf");
    assert_eq!(options, Vec::<String>::new());
}

#[test]
fn short_keyword_skips_fuzzy_matching() {
    // the default candidate-prefix length is 2; a one-character keyword is
    // never fuzzy matched
    let search_index = bird_index(Some(StrSimType::Levenshtein));
    let options = search_index.strsim_autocomplete("b");
    assert_eq!(options, Vec::<String>::new());
}

#[test]
fn strsim_minimum_score_thresholds_candidates() {
    // normalized Levenshtein scores: 0.75 for "bird", 0.375 for "birthday";
    // a minimum of one half keeps only the first
    let mut search_index: SearchIndex = SearchIndexBuilder::default()
        .strsim_minimum_score((0.5f64).to_bits())
        .build();
    search_index.insert(&0, &Text::new("bird"));
    search_index.insert(&1, &Text::new("birthday"));
    let options = search_index.strsim_autocomplete("birf");
    assert_eq!(options, vec!["bird"]);
}

#[test]
fn eddie_keyword_jaro_winkler_finds_closest() {
    let mut search_index: SearchIndex = SearchIndex::default();
    search_index.insert(&0, &Text::new("Harold Godwinson"));
    search_index.insert(&1, &Text::new("Edgar Ætheling"));
    search_index.insert(&2, &Text::new("William the Conqueror"));
    let best = search_index.eddie_keyword_global_jaro_winkler("ha", "harry");
    assert_eq!(best, Some("harold".to_string()));
}

#[test]
fn strsim_keyword_levenshtein_finds_closest() {
    let mut search_index: SearchIndex = SearchIndex::default();
    search_index.insert(&0, &Text::new("Harold Godwinson"));
    search_index.insert(&1, &Text::new("Edgar Ætheling"));
    let best = search_index.strsim_keyword_levenshtein("ha", "harry");
    assert_eq!(best, Some("harold".to_string()));
}

#[test]
fn internal_keyword_search_is_exact_only() {
    let mut search_index: SearchIndex = SearchIndex::default();
    search_index.insert(&0, &Text::new("bird"));
    assert_eq!(search_index.internal_keyword_search("bird"), vec![0]);
    // no fuzzy fallback and no case folding at this level
    assert_eq!(search_index.internal_keyword_search("birf"), Vec::<usize>::new());
    assert_eq!(search_index.internal_keyword_search("BIRD"), Vec::<usize>::new());
}

#[test]
fn strsim_autocomplete_global_jaro_ranks_by_score() {
    let search_index = bird_index(Some(StrSimType::Jaro));
    let cands = search_index.strsim_autocomplete_global_jaro("bi", "birf");
    let keywords: Vec<&String> = cands.iter().map(|e| &e.keyword).collect();
    assert_eq!(keywords, vec!["bird", "birthday"]);
    assert_eq!(cands[0].keys, vec![0]);
    assert_eq!(cands[1].keys, vec![1]);
}

#[test]
fn search_live_completes_last_keyword() {
    let mut search_index: SearchIndex = SearchIndex::default();
    search_index.insert(&0, &Text::new("bird"));
    search_index.insert(&1, &Text::new("birthday"));
    assert_eq!(search_index.search_live("bi"), vec![0, 1]);
}
