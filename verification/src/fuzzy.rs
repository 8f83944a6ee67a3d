//! The approximate-similarity fallback: when an exact lookup misses, the
//! index keywords near the query are scored by a string-similarity metric and
//! the best eligible one stands in.
//!
//! The metrics come from outside crates and score in floating point. A score
//! enters verified code as the bit pattern of its IEEE 754 double: every
//! metric here returns a non-negative double, and on non-negative doubles the
//! unsigned order of the bit patterns is exactly the numeric order, so the
//! verified code ranks and thresholds scores as plain `u64` integers. The
//! configured minimum score is held in the same encoding.

use vstd::prelude::*;
use crate::order::{is_prefix, str_starts_with, str_take_chars};
use crate::search_index::{Entry, SearchIndex};
use crate::top_scores::{lemma_rank_inserted_props, rank_before, rank_inserted, se_views, ScoredView, TopScores};
use crate::types::StrSimType;

verus! {

/// The score of `strsim::normalized_levenshtein`, as ordered bits.
pub uninterp spec fn levenshtein_score(a: Seq<char>, b: Seq<char>) -> u64;

/// The score of `strsim::normalized_damerau_levenshtein`, as ordered bits.
pub uninterp spec fn damerau_levenshtein_score(a: Seq<char>, b: Seq<char>) -> u64;

/// The score of `strsim::jaro`, as ordered bits.
pub uninterp spec fn jaro_score(a: Seq<char>, b: Seq<char>) -> u64;

/// The score of `strsim::jaro_winkler`, as ordered bits.
pub uninterp spec fn jaro_winkler_score(a: Seq<char>, b: Seq<char>) -> u64;

/// The score of `strsim::sorensen_dice`, as ordered bits.
pub uninterp spec fn sorensen_dice_score(a: Seq<char>, b: Seq<char>) -> u64;

/// The score of `eddie::slice::JaroWinkler::similarity` over the strings'
/// characters, as ordered bits.
pub uninterp spec fn eddie_jaro_winkler_score(a: Seq<char>, b: Seq<char>) -> u64;

/// Relies on `strsim::normalized_levenshtein`: a similarity in [0, 1],
/// deterministic in the two strings alone; being non-negative, its double's
/// bit pattern orders as the value does.
#[verifier::external_body]
fn levenshtein_bits(a: &str, b: &str) -> (r: u64)
    ensures
        r == levenshtein_score(a@, b@),
{
    strsim::normalized_levenshtein(a, b).to_bits()
}

/// Relies on `strsim::normalized_damerau_levenshtein`: a similarity in
/// [0, 1], deterministic in the two strings alone; being non-negative, its
/// double's bit pattern orders as the value does.
#[verifier::external_body]
fn damerau_levenshtein_bits(a: &str, b: &str) -> (r: u64)
    ensures
        r == damerau_levenshtein_score(a@, b@),
{
    strsim::normalized_damerau_levenshtein(a, b).to_bits()
}

/// Relies on `strsim::jaro`: a similarity in [0, 1], deterministic in the
/// two strings alone; being non-negative, its double's bit pattern orders as
/// the value does.
#[verifier::external_body]
fn jaro_bits(a: &str, b: &str) -> (r: u64)
    ensures
        r == jaro_score(a@, b@),
{
    strsim::jaro(a, b).to_bits()
}

/// Relies on `strsim::jaro_winkler`: a similarity in [0, 1], deterministic
/// in the two strings alone; being non-negative, its double's bit pattern
/// orders as the value does.
#[verifier::external_body]
fn jaro_winkler_bits(a: &str, b: &str) -> (r: u64)
    ensures
        r == jaro_winkler_score(a@, b@),
{
    strsim::jaro_winkler(a, b).to_bits()
}

/// Relies on `strsim::sorensen_dice`: a similarity in [0, 1], deterministic
/// in the two strings alone; being non-negative, its double's bit pattern
/// orders as the value does.
#[verifier::external_body]
fn sorensen_dice_bits(a: &str, b: &str) -> (r: u64)
    ensures
        r == sorensen_dice_score(a@, b@),
{
    strsim::sorensen_dice(a, b).to_bits()
}

/// Relies on `eddie::slice::JaroWinkler::new` and
/// `eddie::slice::JaroWinkler::similarity` at the default scaling, fed the
/// two strings' character sequences: a similarity in [0, 1], deterministic
/// in the two strings alone; being non-negative, its double's bit pattern
/// orders as the value does.
#[verifier::external_body]
fn eddie_jaro_winkler_bits(a: &str, b: &str) -> (r: u64)
    ensures
        r == eddie_jaro_winkler_score(a@, b@),
{
    let ca: Vec<char> = a.chars().collect();
    let cb: Vec<char> = b.chars().collect();
    eddie::slice::JaroWinkler::new().similarity(&ca, &cb).to_bits()
}

/// The similarity metric a scan scores with: one of the configurable strsim
/// metrics, or the eddie-backed Jaro-Winkler.
#[derive(Clone, Copy, Debug, PartialEq, Eq, Structural)]
pub enum Metric {
    Std(StrSimType),
    EddieJaroWinkler,
}

/// The (bit-encoded) score `metric` gives the pair of strings.
pub open spec fn metric_score(metric: Metric, a: Seq<char>, b: Seq<char>) -> u64 {
    match metric {
        Metric::Std(m) => match m {
            StrSimType::DamerauLevenshtein => damerau_levenshtein_score(a, b),
            StrSimType::Jaro => jaro_score(a, b),
            StrSimType::JaroWinkler => jaro_winkler_score(a, b),
            StrSimType::Levenshtein => levenshtein_score(a, b),
            StrSimType::SorensenDice => sorensen_dice_score(a, b),
        },
        Metric::EddieJaroWinkler => eddie_jaro_winkler_score(a, b),
    }
}

/// Score one pair of strings under the chosen metric.
fn metric_bits(metric: &Metric, a: &str, b: &str) -> (r: u64)
    ensures
        r == metric_score(*metric, a@, b@),
{
    match metric {
        Metric::Std(m) => match m {
            StrSimType::DamerauLevenshtein => damerau_levenshtein_bits(a, b),
            StrSimType::Jaro => jaro_bits(a, b),
            StrSimType::JaroWinkler => jaro_winkler_bits(a, b),
            StrSimType::Levenshtein => levenshtein_bits(a, b),
            StrSimType::SorensenDice => sorensen_dice_bits(a, b),
        },
        Metric::EddieJaroWinkler => eddie_jaro_winkler_bits(a, b),
    }
}

impl SearchIndex {
    /// The entry at `i` is an eligible fuzzy candidate for `ukw`: it starts
    /// with the range prefix and scores at least the configured minimum.
    pub open spec fn fuzzy_elig(
        self,
        metric: Metric,
        rg: Seq<char>,
        ukw: Seq<char>,
        i: int,
    ) -> bool {
        &&& 0 <= i < self.entries@.len()
        &&& is_prefix(rg, self.entries@[i].keyword@)
        &&& metric_score(metric, self.entries@[i].keyword@, ukw) >= self.strsim_minimum_score
    }

    /// The entry at `i` wins the scan: eligible, of maximal score, and the
    /// last such position in scan order.
    pub open spec fn fuzzy_best_at(
        self,
        metric: Metric,
        rg: Seq<char>,
        ukw: Seq<char>,
        i: int,
    ) -> bool {
        &&& self.fuzzy_elig(metric, rg, ukw, i)
        &&& forall|j: int|
            self.fuzzy_elig(metric, rg, ukw, j) ==> metric_score(
                metric,
                self.entries@[j].keyword@,
                ukw,
            ) <= metric_score(metric, self.entries@[i].keyword@, ukw)
        &&& forall|j: int|
            j > i && self.fuzzy_elig(metric, rg, ukw, j) ==> metric_score(
                metric,
                self.entries@[j].keyword@,
                ukw,
            ) < metric_score(metric, self.entries@[i].keyword@, ukw)
    }

    /// The prefix that fuzzy candidates for `ukw` must share, or `None` when
    /// the keyword is shorter than the configured candidate-prefix length and
    /// fuzzy matching is skipped.
    pub open spec fn fuzzy_range(self, ukw: Seq<char>) -> Option<Seq<char>> {
        if self.strsim_length == 0 {
            Some(Seq::empty())
        } else if ukw.len() >= self.strsim_length {
            Some(ukw.take(self.strsim_length as int))
        } else {
            None
        }
    }

    /// The keyword that stands in for a missed exact match of `ukw`, if the
    /// configuration enables fuzzy matching and a candidate is eligible.
    pub open spec fn fuzzy_keyword_match(self, ukw: Seq<char>) -> Option<Seq<char>> {
        match self.strsim_type {
            Some(m) => match self.fuzzy_range(ukw) {
                Some(rg) => if exists|i: int| self.fuzzy_best_at(Metric::Std(m), rg, ukw, i) {
                    Some(
                        self.entries@[choose|i: int|
                            self.fuzzy_best_at(Metric::Std(m), rg, ukw, i)].keyword@,
                    )
                } else {
                    None
                },
                None => None,
            },
            None => None,
        }
    }

    /// Scan the index for the best eligible keyword under `metric` within
    /// the prefix range. Of equally scored candidates the last in keyword
    /// order wins.
    pub(crate) fn fuzzy_keyword_scan(
        &self,
        metric: &Metric,
        index_range: &str,
        user_keyword: &str,
    ) -> (r: Option<String>)
        ensures
            r is None ==> forall|i: int|
                !self.fuzzy_elig(*metric, index_range@, user_keyword@, i),
            r is Some ==> exists|i: int|
                self.fuzzy_best_at(*metric, index_range@, user_keyword@, i)
                    && self.entries@[i].keyword@ == r->Some_0@,
    {
        let ghost m = *metric;
        let ghost rg = index_range@;
        let ghost ukw = user_keyword@;
        let n = self.entries.len();
        let mut best: Option<String> = None;
        let mut best_score: u64 = 0;
        let ghost mut best_i: int = 0;
        let mut i: usize = 0;
        while i < n
            invariant
                i <= n,
                n == self.entries@.len(),
                m == *metric,
                rg == index_range@,
                ukw == user_keyword@,
                best is None ==> forall|j: int| 0 <= j < i ==> !self.fuzzy_elig(m, rg, ukw, j),
                best is Some ==> {
                    &&& 0 <= best_i < i
                    &&& self.fuzzy_elig(m, rg, ukw, best_i)
                    &&& best->Some_0@ == self.entries@[best_i].keyword@
                    &&& best_score == metric_score(m, self.entries@[best_i].keyword@, ukw)
                    &&& forall|j: int|
                        0 <= j < i && self.fuzzy_elig(m, rg, ukw, j) ==> metric_score(
                            m,
                            self.entries@[j].keyword@,
                            ukw,
                        ) <= best_score
                    &&& forall|j: int|
                        best_i < j < i && self.fuzzy_elig(m, rg, ukw, j) ==> metric_score(
                            m,
                            self.entries@[j].keyword@,
                            ukw,
                        ) < best_score
                },
            decreases n - i,
        {
            let kw: &String = &self.entries[i].keyword;
            if str_starts_with(kw.as_str(), index_range) {
                let s = metric_bits(metric, kw.as_str(), user_keyword);
                if s >= self.strsim_minimum_score {
                    let better = match &best {
                        None => true,
                        Some(_) => s >= best_score,
                    };
                    if better {
                        best = Some(kw.clone());
                        best_score = s;
                        proof {
                            best_i = i as int;
                        }
                    }
                }
            }
            i = i + 1;
        }
        proof {
            if best is Some {
                assert(self.fuzzy_best_at(m, rg, ukw, best_i));
            }
        }
        best
    }

    /// Scan the whole index, within `index_range`, for the keyword closest
    /// to `user_keyword` under the eddie crate's Jaro-Winkler metric.
    pub fn eddie_keyword_global_jaro_winkler(
        &self,
        index_range: &str,
        user_keyword: &str,
    ) -> (r: Option<String>)
        ensures
            r is None ==> forall|i: int|
                !self.fuzzy_elig(Metric::EddieJaroWinkler, index_range@, user_keyword@, i),
            r is Some ==> exists|i: int|
                self.fuzzy_best_at(Metric::EddieJaroWinkler, index_range@, user_keyword@, i)
                    && self.entries@[i].keyword@ == r->Some_0@,
    {
        self.fuzzy_keyword_scan(&Metric::EddieJaroWinkler, index_range, user_keyword)
    }

    /// Scan the index, within `index_range`, for the keyword closest to
    /// `user_keyword` under the normalized Levenshtein metric.
    pub fn strsim_keyword_levenshtein(
        &self,
        index_range: &str,
        user_keyword: &str,
    ) -> (r: Option<String>)
        ensures
            r is None ==> forall|i: int|
                !self.fuzzy_elig(
                    Metric::Std(StrSimType::Levenshtein),
                    index_range@,
                    user_keyword@,
                    i,
                ),
            r is Some ==> exists|i: int|
                self.fuzzy_best_at(
                    Metric::Std(StrSimType::Levenshtein),
                    index_range@,
                    user_keyword@,
                    i,
                ) && self.entries@[i].keyword@ == r->Some_0@,
    {
        self.fuzzy_keyword_scan(&Metric::Std(StrSimType::Levenshtein), index_range, user_keyword)
    }

    /// The keyword substituted for a missed exact match of `user_keyword`,
    /// under the configured metric and candidate-prefix length.
    pub fn strsim_keyword(&self, user_keyword: &str) -> (r: Option<String>)
        ensures
            (r is Some) == (self.fuzzy_keyword_match(user_keyword@) is Some),
            r is Some ==> r->Some_0@ == self.fuzzy_keyword_match(user_keyword@)->Some_0,
    {
        let m: StrSimType = match &self.strsim_type {
            None => {
                return None;
            },
            Some(m) => *m,
        };
        let ghost ukw = user_keyword@;
        let range: String = if self.strsim_length == 0 {
            let e = String::new();
            proof {
                assert(e@ =~= self.fuzzy_range(ukw)->Some_0);
            }
            e
        } else {
            if user_keyword.unicode_len() >= self.strsim_length {
                str_take_chars(user_keyword, self.strsim_length)
            } else {
                proof {
                    assert(self.fuzzy_range(ukw) is None);
                }
                return None;
            }
        };
        let r = self.fuzzy_keyword_scan(&Metric::Std(m), range.as_str(), user_keyword);
        proof {
            let rg = self.fuzzy_range(ukw)->Some_0;
            assert(range@ == rg);
            match r {
                None => {
                    assert(forall|i: int| !self.fuzzy_best_at(Metric::Std(m), rg, ukw, i));
                },
                Some(ref kw) => {
                    let i = choose|i: int|
                        self.fuzzy_best_at(Metric::Std(m), rg, ukw, i) && self.entries@[i].keyword@
                            == kw@;
                    let c = choose|j: int| self.fuzzy_best_at(Metric::Std(m), rg, ukw, j);
                    lemma_fuzzy_best_unique(*self, Metric::Std(m), rg, ukw, i, c);
                },
            }
        }
        r
    }
}

impl SearchIndex {
    /// How many entries below `upto` are eligible fuzzy candidates.
    pub open spec fn fuzzy_elig_count(
        self,
        metric: Metric,
        rg: Seq<char>,
        ukw: Seq<char>,
        upto: int,
    ) -> int
        decreases upto,
    {
        if upto <= 0 {
            0
        } else {
            self.fuzzy_elig_count(metric, rg, ukw, upto - 1) + if self.fuzzy_elig(
                metric,
                rg,
                ukw,
                upto - 1,
            ) {
                1int
            } else {
                0int
            }
        }
    }

    /// Some eligible entry carries this candidate's keyword and keys.
    pub open spec fn fuzzy_cand_from(self, metric: Metric, rg: Seq<char>, ukw: Seq<char>, e: Entry) -> bool {
        exists|j: int|
            self.fuzzy_elig(metric, rg, ukw, j) && self.entries@[j].keyword@ == e.keyword@
                && self.entries@[j].keys@ == e.keys@
    }

    /// What a fuzzy candidate scan returns: candidates drawn from the
    /// eligible entries, strictly rank-sorted best first, as many as there
    /// are eligible entries up to `nopts`; an eligible entry missing from the
    /// result lost to a full list of at-least-as-high scores.
    pub open spec fn fuzzy_cands_ok(
        self,
        metric: Metric,
        rg: Seq<char>,
        ukw: Seq<char>,
        nopts: int,
        r: Seq<Entry>,
    ) -> bool {
        &&& forall|a: int|
            0 <= a < r.len() ==> self.fuzzy_cand_from(metric, rg, ukw, #[trigger] r[a])
        &&& forall|a: int, b: int|
            0 <= a < b < r.len() ==> rank_before(
                metric_score(metric, (#[trigger] r[a]).keyword@, ukw),
                r[a].keyword@,
                metric_score(metric, (#[trigger] r[b]).keyword@, ukw),
                r[b].keyword@,
            )
        &&& r.len() == {
            let total = self.fuzzy_elig_count(metric, rg, ukw, self.entries@.len() as int);
            if total <= nopts {
                total
            } else {
                nopts
            }
        }
        &&& forall|j: int|
            #[trigger] self.fuzzy_elig(metric, rg, ukw, j) ==> (exists|a: int|
                0 <= a < r.len() && (#[trigger] r[a]).keyword@ == self.entries@[j].keyword@) || (
            r.len() == nopts && forall|a: int|
                0 <= a < r.len() ==> metric_score(metric, (#[trigger] r[a]).keyword@, ukw)
                    >= metric_score(metric, self.entries@[j].keyword@, ukw))
    }

    /// Scan the index for the best `nopts` eligible keywords under `metric`
    /// within the prefix range, with their key sets, best score first.
    pub(crate) fn fuzzy_autocomplete_scan(
        &self,
        metric: &Metric,
        index_range: &str,
        user_keyword: &str,
        nopts: usize,
    ) -> (r: Vec<Entry>)
        requires
            self.wf(),
        ensures
            self.fuzzy_cands_ok(*metric, index_range@, user_keyword@, nopts as int, r@),
    {
        let ghost m = *metric;
        let ghost rg = index_range@;
        let ghost ukw = user_keyword@;
        let n = self.entries.len();
        let mut ts = TopScores::with_capacity(nopts);
        let mut i: usize = 0;
        while i < n
            invariant
                i <= n,
                n == self.entries@.len(),
                self.wf(),
                m == *metric,
                rg == index_range@,
                ukw == user_keyword@,
                ts.wf(),
                ts.capacity == nopts,
                tracker_from(*self, m, rg, ukw, i as int, ts),
                tracker_complete(*self, m, rg, ukw, i as int, ts),
                tracker_counted(*self, m, rg, ukw, i as int, ts),
            decreases n - i,
        {
            let ghost old_ts = ts;
            let kw: &String = &self.entries[i].keyword;
            let mut eligible = false;
            let mut s: u64 = 0;
            if str_starts_with(kw.as_str(), index_range) {
                s = metric_bits(metric, kw.as_str(), user_keyword);
                if s >= self.strsim_minimum_score {
                    eligible = true;
                }
            }
            if eligible {
                assert(self.fuzzy_elig(m, rg, ukw, i as int));
                proof {
                    // the candidate's keyword is new to the tracker
                    assert forall|a: int| 0 <= a < ts.top@.len() implies (#[trigger] ts
                        .top@[a]).keyword@ != kw@ by {
                        let j = tracker_witness(*self, m, rg, ukw, i as int, ts, a);
                        crate::search_index::lemma_wf_keywords_distinct(*self, j, i as int);
                    }
                }
                ts.insert(kw, &self.entries[i].keys, s);
                proof {
                    let ii = i as int;
                    let ev = (ScoredView {
                        kw: self.entries@[ii].keyword@,
                        keys: self.entries@[ii].keys@,
                        score: s,
                    });
                    if old_ts.top@.len() < nopts {
                        lemma_tracker_step_grow(*self, m, rg, ukw, ii, old_ts, ts, ev);
                    } else if nopts > 0 && s > old_ts.top@.last().score {
                        lemma_tracker_step_evict(*self, m, rg, ukw, ii, old_ts, ts, ev);
                    } else {
                        lemma_tracker_step_discard(*self, m, rg, ukw, ii, old_ts, ts, s);
                    }
                }
            } else {
                proof {
                    assert(!self.fuzzy_elig(m, rg, ukw, i as int));
                    lemma_tracker_step_inelig(*self, m, rg, ukw, i as int, ts);
                }
            }
            i = i + 1;
        }
        let r = ts.results();
        proof {
            assert(r@.len() == ts.top@.len());
            assert forall|a: int| 0 <= a < r@.len() implies self.fuzzy_cand_from(
                m,
                rg,
                ukw,
                #[trigger] r@[a],
            ) by {
                let j = tracker_witness(*self, m, rg, ukw, n as int, ts, a);
                assert(self.fuzzy_elig(m, rg, ukw, j) && self.entries@[j].keyword@
                    == r@[a].keyword@ && self.entries@[j].keys@ == r@[a].keys@);
            }
            assert forall|a: int, b: int| 0 <= a < b < r@.len() implies rank_before(
                metric_score(m, (#[trigger] r@[a]).keyword@, ukw),
                r@[a].keyword@,
                metric_score(m, (#[trigger] r@[b]).keyword@, ukw),
                r@[b].keyword@,
            ) by {
                let ja = tracker_witness(*self, m, rg, ukw, n as int, ts, a);
                let jb = tracker_witness(*self, m, rg, ukw, n as int, ts, b);
                let sv = se_views(ts.top@);
                assert(sv[a] == ts.top@[a]@);
                assert(sv[b] == ts.top@[b]@);
                assert(rank_before(sv[a].score, sv[a].kw, sv[b].score, sv[b].kw));
                assert(ts.top@[a].score == metric_score(m, r@[a].keyword@, ukw));
                assert(ts.top@[b].score == metric_score(m, r@[b].keyword@, ukw));
            }
            assert forall|j: int| #[trigger] self.fuzzy_elig(m, rg, ukw, j) implies (exists|a: int|
                0 <= a < r@.len() && (#[trigger] r@[a]).keyword@ == self.entries@[j].keyword@) || (
            r@.len() == nopts && forall|a: int|
                0 <= a < r@.len() ==> metric_score(m, (#[trigger] r@[a]).keyword@, ukw)
                    >= metric_score(m, self.entries@[j].keyword@, ukw)) by {
                assert(0 <= j < n);
                if exists|a: int|
                    0 <= a < ts.top@.len() && (#[trigger] ts.top@[a]).keyword@
                        == self.entries@[j].keyword@ {
                    let a = choose|a: int|
                        0 <= a < ts.top@.len() && (#[trigger] ts.top@[a]).keyword@
                            == self.entries@[j].keyword@;
                    assert(r@[a].keyword@ == self.entries@[j].keyword@);
                } else {
                    assert(ts.top@.len() == nopts);
                    assert forall|a: int| 0 <= a < r@.len() implies metric_score(
                        m,
                        (#[trigger] r@[a]).keyword@,
                        ukw,
                    ) >= metric_score(m, self.entries@[j].keyword@, ukw) by {
                        let ja = tracker_witness(*self, m, rg, ukw, n as int, ts, a);
                        assert(ts.top@[a].score >= metric_score(
                            m,
                            self.entries@[j].keyword@,
                            ukw,
                        ));
                        assert(ts.top@[a].score == metric_score(m, r@[a].keyword@, ukw));
                    }
                }
            }
        }
        r
    }
}

impl SearchIndex {
    /// Scan the index, within `index_range`, for the keywords closest to
    /// `user_keyword` under the Jaro metric, with their key sets, best score
    /// first, at most the configured number of autocomplete options.
    pub fn strsim_autocomplete_global_jaro(
        &self,
        index_range: &str,
        user_keyword: &str,
    ) -> (r: Vec<Entry>)
        requires
            self.wf(),
        ensures
            self.fuzzy_cands_ok(
                Metric::Std(StrSimType::Jaro),
                index_range@,
                user_keyword@,
                self.maximum_autocomplete_options as int,
                r@,
            ),
    {
        self.fuzzy_autocomplete_scan(
            &Metric::Std(StrSimType::Jaro),
            index_range,
            user_keyword,
            self.maximum_autocomplete_options,
        )
    }

    /// The keywords that could complete `user_keyword` by similarity alone,
    /// under the configured metric and candidate-prefix length: at most the
    /// configured number of options, best score first. Empty when fuzzy
    /// matching is disabled or the keyword is shorter than the prefix
    /// length.
    pub fn strsim_autocomplete(&self, user_keyword: &str) -> (r: Vec<String>)
        requires
            self.wf(),
        ensures
            (self.strsim_type is None || self.fuzzy_range(user_keyword@) is None) ==> r@.len()
                == 0,
            (self.strsim_type is Some && self.fuzzy_range(user_keyword@) is Some) ==> exists|
                cands: Seq<Entry>,
            |
                #[trigger] self.fuzzy_cands_ok(
                    Metric::Std(self.strsim_type->Some_0),
                    self.fuzzy_range(user_keyword@)->Some_0,
                    user_keyword@,
                    self.maximum_autocomplete_options as int,
                    cands,
                ) && r@.len() == cands.len() && (forall|a: int|
                    0 <= a < r@.len() ==> (#[trigger] r@[a])@ == cands[a].keyword@),
    {
        let ghost ukw = user_keyword@;
        let m: StrSimType = match &self.strsim_type {
            None => {
                let r: Vec<String> = Vec::new();
                return r;
            },
            Some(m) => *m,
        };
        let range: String = if self.strsim_length == 0 {
            let e = String::new();
            proof {
                assert(e@ =~= self.fuzzy_range(ukw)->Some_0);
            }
            e
        } else {
            if user_keyword.unicode_len() >= self.strsim_length {
                str_take_chars(user_keyword, self.strsim_length)
            } else {
                proof {
                    assert(self.fuzzy_range(ukw) is None);
                }
                let r: Vec<String> = Vec::new();
                return r;
            }
        };
        let cands = self.fuzzy_autocomplete_scan(
            &Metric::Std(m),
            range.as_str(),
            user_keyword,
            self.maximum_autocomplete_options,
        );
        let ghost cands_v = cands@;
        let mut r: Vec<String> = Vec::new();
        let mut i: usize = 0;
        while i < cands.len()
            invariant
                i <= cands_v.len(),
                cands_v == cands@,
                r@.len() == i,
                forall|j: int| 0 <= j < i ==> (#[trigger] r@[j])@ == cands_v[j].keyword@,
            decreases cands_v.len() - i,
        {
            r.push(cands[i].keyword.clone());
            i = i + 1;
        }
        proof {
            assert(self.fuzzy_cands_ok(
                Metric::Std(m),
                self.fuzzy_range(ukw)->Some_0,
                ukw,
                self.maximum_autocomplete_options as int,
                cands_v,
            ) && r@.len() == cands_v.len() && (forall|a: int|
                0 <= a < r@.len() ==> (#[trigger] r@[a])@ == cands_v[a].keyword@));
        }
        r
    }
}

/// Every candidate the tracker retains comes from an eligible entry below
/// `upto` and carries that entry's keyword, keys and score.
spec fn tracker_from(
    s: SearchIndex,
    m: Metric,
    rg: Seq<char>,
    ukw: Seq<char>,
    upto: int,
    ts: TopScores,
) -> bool {
    forall|a: int|
        0 <= a < ts.top@.len() ==> tracker_entry_src(s, m, rg, ukw, upto, #[trigger] ts.top@[a])
}

/// `te` carries the keyword, keys and score of an eligible entry below
/// `upto`.
spec fn tracker_entry_src(
    s: SearchIndex,
    m: Metric,
    rg: Seq<char>,
    ukw: Seq<char>,
    upto: int,
    te: crate::top_scores::ScoredEntry,
) -> bool {
    exists|j: int|
        0 <= j < upto && s.fuzzy_elig(m, rg, ukw, j) && s.entries@[j].keyword@ == te.keyword@
            && s.entries@[j].keys@ == te.keys@ && te.score == metric_score(
            m,
            s.entries@[j].keyword@,
            ukw,
        )
}

/// Every eligible entry below `upto` is retained, or lost to a tracker full
/// of candidates scoring at least as high.
spec fn tracker_complete(
    s: SearchIndex,
    m: Metric,
    rg: Seq<char>,
    ukw: Seq<char>,
    upto: int,
    ts: TopScores,
) -> bool {
    forall|j: int|
        0 <= j < upto && #[trigger] s.fuzzy_elig(m, rg, ukw, j) ==> (exists|a: int|
            0 <= a < ts.top@.len() && (#[trigger] ts.top@[a]).keyword@ == s.entries@[j].keyword@)
            || (ts.top@.len() == ts.capacity && forall|a: int|
            0 <= a < ts.top@.len() ==> (#[trigger] ts.top@[a]).score >= metric_score(
                m,
                s.entries@[j].keyword@,
                ukw,
            ))
}

/// The tracker holds as many candidates as there are eligible entries below
/// `upto`, up to its capacity.
spec fn tracker_counted(
    s: SearchIndex,
    m: Metric,
    rg: Seq<char>,
    ukw: Seq<char>,
    upto: int,
    ts: TopScores,
) -> bool {
    ts.top@.len() == {
        let c = s.fuzzy_elig_count(m, rg, ukw, upto);
        if c <= ts.capacity {
            c
        } else {
            ts.capacity as int
        }
    }
}

/// The eligible entry a retained candidate came from.
proof fn tracker_witness(
    s: SearchIndex,
    m: Metric,
    rg: Seq<char>,
    ukw: Seq<char>,
    upto: int,
    ts: TopScores,
    a: int,
) -> (j: int)
    requires
        tracker_from(s, m, rg, ukw, upto, ts),
        0 <= a < ts.top@.len(),
    ensures
        0 <= j < upto,
        s.fuzzy_elig(m, rg, ukw, j),
        s.entries@[j].keyword@ == ts.top@[a].keyword@,
        s.entries@[j].keys@ == ts.top@[a].keys@,
        ts.top@[a].score == metric_score(m, s.entries@[j].keyword@, ukw),
        ts.top@[a].score == metric_score(m, ts.top@[a].keyword@, ukw),
{
    assert(tracker_entry_src(s, m, rg, ukw, upto, ts.top@[a]));
    let j = choose|j: int|
        0 <= j < upto && s.fuzzy_elig(m, rg, ukw, j) && s.entries@[j].keyword@ == ts.top@[
            a
        ].keyword@ && s.entries@[j].keys@ == ts.top@[a].keys@ && ts.top@[a].score == metric_score(
            m,
            s.entries@[j].keyword@,
            ukw,
        );
    j
}

/// An ineligible entry leaves the tracker's state facts intact.
proof fn lemma_tracker_step_inelig(
    s: SearchIndex,
    m: Metric,
    rg: Seq<char>,
    ukw: Seq<char>,
    i: int,
    ts: TopScores,
)
    requires
        0 <= i,
        !s.fuzzy_elig(m, rg, ukw, i),
        tracker_from(s, m, rg, ukw, i, ts),
        tracker_complete(s, m, rg, ukw, i, ts),
        tracker_counted(s, m, rg, ukw, i, ts),
    ensures
        tracker_from(s, m, rg, ukw, i + 1, ts),
        tracker_complete(s, m, rg, ukw, i + 1, ts),
        tracker_counted(s, m, rg, ukw, i + 1, ts),
{
    assert forall|a: int| 0 <= a < ts.top@.len() implies tracker_entry_src(
        s,
        m,
        rg,
        ukw,
        i + 1,
        #[trigger] ts.top@[a],
    ) by {
        let j = tracker_witness(s, m, rg, ukw, i, ts, a);
        assert(0 <= j < i + 1 && s.fuzzy_elig(m, rg, ukw, j) && s.entries@[j].keyword@ == ts.top@[
            a
        ].keyword@ && s.entries@[j].keys@ == ts.top@[a].keys@ && ts.top@[a].score == metric_score(
            m,
            s.entries@[j].keyword@,
            ukw,
        ));
    }
}

/// Facts common to the three ways an eligible entry can change the tracker.
proof fn lemma_tracker_step_grow(
    s: SearchIndex,
    m: Metric,
    rg: Seq<char>,
    ukw: Seq<char>,
    i: int,
    old_ts: TopScores,
    new_ts: TopScores,
    ev: ScoredView,
)
    requires
        s.wf(),
        s.fuzzy_elig(m, rg, ukw, i),
        ev == (ScoredView {
            kw: s.entries@[i].keyword@,
            keys: s.entries@[i].keys@,
            score: metric_score(m, s.entries@[i].keyword@, ukw),
        }),
        old_ts.wf(),
        old_ts.top@.len() < old_ts.capacity,
        new_ts.capacity == old_ts.capacity,
        se_views(new_ts.top@) == rank_inserted(se_views(old_ts.top@), ev),
        forall|a: int| 0 <= a < old_ts.top@.len() ==> (#[trigger] old_ts.top@[a]).keyword@ != ev.kw,
        tracker_from(s, m, rg, ukw, i, old_ts),
        tracker_complete(s, m, rg, ukw, i, old_ts),
        tracker_counted(s, m, rg, ukw, i, old_ts),
    ensures
        tracker_from(s, m, rg, ukw, i + 1, new_ts),
        tracker_complete(s, m, rg, ukw, i + 1, new_ts),
        tracker_counted(s, m, rg, ukw, i + 1, new_ts),
{
    let ov = se_views(old_ts.top@);
    let nv = se_views(new_ts.top@);
    assert forall|a: int| 0 <= a < ov.len() implies (#[trigger] ov[a]).kw != ev.kw by {
        assert(ov[a] == old_ts.top@[a]@);
    }
    lemma_rank_inserted_props(ov, ev);
    assert(nv.len() == ov.len() + 1);
    assert forall|a: int| 0 <= a < new_ts.top@.len() implies tracker_entry_src(
        s,
        m,
        rg,
        ukw,
        i + 1,
        #[trigger] new_ts.top@[a],
    ) by {
        let x = nv[a];
        assert(x == new_ts.top@[a]@);
        assert(nv.contains(x));
        if x == ev {
            assert(0 <= i < i + 1 && s.fuzzy_elig(m, rg, ukw, i) && s.entries@[i].keyword@ == new_ts
                .top@[a].keyword@ && s.entries@[i].keys@ == new_ts.top@[a].keys@
                && new_ts.top@[a].score == metric_score(m, s.entries@[i].keyword@, ukw));
        } else {
            assert(ov.contains(x));
            let b = choose|b: int| 0 <= b < ov.len() && ov[b] == x;
            assert(ov[b] == old_ts.top@[b]@);
            let j = tracker_witness(s, m, rg, ukw, i, old_ts, b);
            assert(0 <= j < i + 1 && s.fuzzy_elig(m, rg, ukw, j) && s.entries@[j].keyword@ == new_ts
                .top@[a].keyword@ && s.entries@[j].keys@ == new_ts.top@[a].keys@
                && new_ts.top@[a].score == metric_score(m, s.entries@[j].keyword@, ukw));
        }
    }
    assert forall|j: int| 0 <= j < i + 1 && #[trigger] s.fuzzy_elig(m, rg, ukw, j) implies (exists|
        a: int,
    |
        0 <= a < new_ts.top@.len() && (#[trigger] new_ts.top@[a]).keyword@
            == s.entries@[j].keyword@) || (new_ts.top@.len() == new_ts.capacity && forall|a: int|
        0 <= a < new_ts.top@.len() ==> (#[trigger] new_ts.top@[a]).score >= metric_score(
            m,
            s.entries@[j].keyword@,
            ukw,
        )) by {
        if j == i {
            assert(nv.contains(ev));
            let a = choose|a: int| 0 <= a < nv.len() && nv[a] == ev;
            assert(nv[a] == new_ts.top@[a]@);
            assert((new_ts.top@[a]).keyword@ == s.entries@[j].keyword@);
        } else {
            let a = choose|a: int|
                0 <= a < old_ts.top@.len() && (#[trigger] old_ts.top@[a]).keyword@ == s.entries@[
                    j
                ].keyword@;
            assert(0 <= a < old_ts.top@.len() && old_ts.top@[a].keyword@ == s.entries@[j].keyword@);
            let x = ov[a];
            assert(x == old_ts.top@[a]@);
            assert(ov.contains(x));
            assert(nv.contains(x));
            let b = choose|b: int| 0 <= b < nv.len() && nv[b] == x;
            assert(nv[b] == new_ts.top@[b]@);
            assert((new_ts.top@[b]).keyword@ == s.entries@[j].keyword@);
        }
    }
    assert(s.fuzzy_elig_count(m, rg, ukw, i + 1) == s.fuzzy_elig_count(m, rg, ukw, i) + 1);
}

/// A full tracker evicted its bottom for a strictly higher score.
proof fn lemma_tracker_step_evict(
    s: SearchIndex,
    m: Metric,
    rg: Seq<char>,
    ukw: Seq<char>,
    i: int,
    old_ts: TopScores,
    new_ts: TopScores,
    ev: ScoredView,
)
    requires
        s.wf(),
        s.fuzzy_elig(m, rg, ukw, i),
        ev == (ScoredView {
            kw: s.entries@[i].keyword@,
            keys: s.entries@[i].keys@,
            score: metric_score(m, s.entries@[i].keyword@, ukw),
        }),
        old_ts.wf(),
        old_ts.top@.len() >= old_ts.capacity,
        old_ts.capacity > 0,
        ev.score > old_ts.top@.last().score,
        new_ts.capacity == old_ts.capacity,
        se_views(new_ts.top@) == rank_inserted(se_views(old_ts.top@).drop_last(), ev),
        forall|a: int| 0 <= a < old_ts.top@.len() ==> (#[trigger] old_ts.top@[a]).keyword@ != ev.kw,
        tracker_from(s, m, rg, ukw, i, old_ts),
        tracker_complete(s, m, rg, ukw, i, old_ts),
        tracker_counted(s, m, rg, ukw, i, old_ts),
    ensures
        tracker_from(s, m, rg, ukw, i + 1, new_ts),
        tracker_complete(s, m, rg, ukw, i + 1, new_ts),
        tracker_counted(s, m, rg, ukw, i + 1, new_ts),
{
    let ov = se_views(old_ts.top@);
    let nv = se_views(new_ts.top@);
    let dv = ov.drop_last();
    let cap = old_ts.capacity as int;
    let len = old_ts.top@.len() as int;
    assert(len == cap);
    let bottom = old_ts.top@.last().score;
    assert(ov[len - 1] == old_ts.top@[len - 1]@);
    assert(ov[len - 1].score == bottom);
    // the old list is ranked, so every score is at least the bottom's
    assert forall|a: int| 0 <= a < len implies (#[trigger] old_ts.top@[a]).score >= bottom by {
        assert(ov[a] == old_ts.top@[a]@);
        if a < len - 1 {
            assert(rank_before(ov[a].score, ov[a].kw, ov[len - 1].score, ov[len - 1].kw));
        }
    }
    assert forall|a: int, b: int| 0 <= a < b < dv.len() implies rank_before(
        (#[trigger] dv[a]).score,
        dv[a].kw,
        (#[trigger] dv[b]).score,
        dv[b].kw,
    ) by {
        assert(dv[a] == ov[a]);
        assert(dv[b] == ov[b]);
    }
    assert forall|a: int| 0 <= a < dv.len() implies (#[trigger] dv[a]).kw != ev.kw by {
        assert(dv[a] == ov[a]);
        assert(ov[a] == old_ts.top@[a]@);
    }
    lemma_rank_inserted_props(dv, ev);
    assert(nv.len() == dv.len() + 1);
    assert(new_ts.top@.len() == cap);
    // every new element scores at least the old bottom
    assert forall|a: int| 0 <= a < new_ts.top@.len() implies (#[trigger] new_ts.top@[a]).score
        >= bottom by {
        let x = nv[a];
        assert(x == new_ts.top@[a]@);
        assert(nv.contains(x));
        if x == ev {
        } else {
            assert(dv.contains(x));
            let b = choose|b: int| 0 <= b < dv.len() && dv[b] == x;
            assert(dv[b] == ov[b]);
            assert(ov[b] == old_ts.top@[b]@);
            assert(old_ts.top@[b].score >= bottom);
        }
    }
    assert forall|a: int| 0 <= a < new_ts.top@.len() implies tracker_entry_src(
        s,
        m,
        rg,
        ukw,
        i + 1,
        #[trigger] new_ts.top@[a],
    ) by {
        let x = nv[a];
        assert(x == new_ts.top@[a]@);
        assert(nv.contains(x));
        if x == ev {
            assert(0 <= i < i + 1 && s.fuzzy_elig(m, rg, ukw, i) && s.entries@[i].keyword@ == new_ts
                .top@[a].keyword@ && s.entries@[i].keys@ == new_ts.top@[a].keys@
                && new_ts.top@[a].score == metric_score(m, s.entries@[i].keyword@, ukw));
        } else {
            assert(dv.contains(x));
            let b = choose|b: int| 0 <= b < dv.len() && dv[b] == x;
            assert(dv[b] == ov[b]);
            assert(ov[b] == old_ts.top@[b]@);
            let j = tracker_witness(s, m, rg, ukw, i, old_ts, b);
            assert(0 <= j < i + 1 && s.fuzzy_elig(m, rg, ukw, j) && s.entries@[j].keyword@ == new_ts
                .top@[a].keyword@ && s.entries@[j].keys@ == new_ts.top@[a].keys@
                && new_ts.top@[a].score == metric_score(m, s.entries@[j].keyword@, ukw));
        }
    }
    assert forall|j: int| 0 <= j < i + 1 && #[trigger] s.fuzzy_elig(m, rg, ukw, j) implies (exists|
        a: int,
    |
        0 <= a < new_ts.top@.len() && (#[trigger] new_ts.top@[a]).keyword@
            == s.entries@[j].keyword@) || (new_ts.top@.len() == new_ts.capacity && forall|a: int|
        0 <= a < new_ts.top@.len() ==> (#[trigger] new_ts.top@[a]).score >= metric_score(
            m,
            s.entries@[j].keyword@,
            ukw,
        )) by {
        if j == i {
            assert(nv.contains(ev));
            let a = choose|a: int| 0 <= a < nv.len() && nv[a] == ev;
            assert(nv[a] == new_ts.top@[a]@);
            assert((new_ts.top@[a]).keyword@ == s.entries@[j].keyword@);
        } else {
            if exists|a: int|
                0 <= a < old_ts.top@.len() && (#[trigger] old_ts.top@[a]).keyword@ == s.entries@[
                    j
                ].keyword@ {
                let a = choose|a: int|
                    0 <= a < old_ts.top@.len() && (#[trigger] old_ts.top@[a]).keyword@
                        == s.entries@[j].keyword@;
                if a < len - 1 {
                    let x = ov[a];
                    assert(x == old_ts.top@[a]@);
                    assert(dv[a] == x);
                    assert(dv.contains(x));
                    assert(nv.contains(x));
                    let b = choose|b: int| 0 <= b < nv.len() && nv[b] == x;
                    assert(nv[b] == new_ts.top@[b]@);
                    assert((new_ts.top@[b]).keyword@ == s.entries@[j].keyword@);
                } else {
                    // the evicted bottom held this keyword; the new list is
                    // full of at-least-as-high scores
                    let jb = tracker_witness(s, m, rg, ukw, i, old_ts, len - 1);
                    assert(metric_score(m, s.entries@[j].keyword@, ukw) == bottom);
                    assert forall|b: int| 0 <= b < new_ts.top@.len() implies (#[trigger] new_ts
                        .top@[b]).score >= metric_score(m, s.entries@[j].keyword@, ukw) by {
                        assert(new_ts.top@[b].score >= bottom);
                    }
                }
            } else {
                assert(old_ts.top@.len() == old_ts.capacity);
                let jb = tracker_witness(s, m, rg, ukw, i, old_ts, len - 1);
                assert(old_ts.top@[len - 1].score >= metric_score(m, s.entries@[j].keyword@, ukw));
                assert forall|b: int| 0 <= b < new_ts.top@.len() implies (#[trigger] new_ts
                    .top@[b]).score >= metric_score(m, s.entries@[j].keyword@, ukw) by {
                    assert(new_ts.top@[b].score >= bottom);
                }
            }
        }
    }
    assert(s.fuzzy_elig_count(m, rg, ukw, i + 1) == s.fuzzy_elig_count(m, rg, ukw, i) + 1);
}

/// A full tracker discarded a candidate that did not beat its bottom.
proof fn lemma_tracker_step_discard(
    s: SearchIndex,
    m: Metric,
    rg: Seq<char>,
    ukw: Seq<char>,
    i: int,
    old_ts: TopScores,
    new_ts: TopScores,
    sc: u64,
)
    requires
        s.wf(),
        s.fuzzy_elig(m, rg, ukw, i),
        sc == metric_score(m, s.entries@[i].keyword@, ukw),
        old_ts.wf(),
        old_ts.top@.len() >= old_ts.capacity,
        !(old_ts.capacity > 0 && sc > old_ts.top@.last().score),
        new_ts.capacity == old_ts.capacity,
        new_ts.top@ == old_ts.top@,
        tracker_from(s, m, rg, ukw, i, old_ts),
        tracker_complete(s, m, rg, ukw, i, old_ts),
        tracker_counted(s, m, rg, ukw, i, old_ts),
    ensures
        tracker_from(s, m, rg, ukw, i + 1, new_ts),
        tracker_complete(s, m, rg, ukw, i + 1, new_ts),
        tracker_counted(s, m, rg, ukw, i + 1, new_ts),
{
    let ov = se_views(old_ts.top@);
    let cap = old_ts.capacity as int;
    let len = old_ts.top@.len() as int;
    assert(len == cap);
    assert forall|a: int| 0 <= a < new_ts.top@.len() implies tracker_entry_src(
        s,
        m,
        rg,
        ukw,
        i + 1,
        #[trigger] new_ts.top@[a],
    ) by {
        let j = tracker_witness(s, m, rg, ukw, i, old_ts, a);
        assert(0 <= j < i + 1 && s.fuzzy_elig(m, rg, ukw, j) && s.entries@[j].keyword@ == new_ts
            .top@[a].keyword@ && s.entries@[j].keys@ == new_ts.top@[a].keys@
            && new_ts.top@[a].score == metric_score(m, s.entries@[j].keyword@, ukw));
    }
    assert forall|j: int| 0 <= j < i + 1 && #[trigger] s.fuzzy_elig(m, rg, ukw, j) implies (exists|
        a: int,
    |
        0 <= a < new_ts.top@.len() && (#[trigger] new_ts.top@[a]).keyword@
            == s.entries@[j].keyword@) || (new_ts.top@.len() == new_ts.capacity && forall|a: int|
        0 <= a < new_ts.top@.len() ==> (#[trigger] new_ts.top@[a]).score >= metric_score(
            m,
            s.entries@[j].keyword@,
            ukw,
        )) by {
        if j == i {
            if cap == 0 {
                assert(new_ts.top@.len() == new_ts.capacity);
            } else {
                assert(sc <= old_ts.top@.last().score);
                let bottom = old_ts.top@.last().score;
                assert(ov[len - 1] == old_ts.top@[len - 1]@);
                assert forall|a: int| 0 <= a < new_ts.top@.len() implies (#[trigger] new_ts
                    .top@[a]).score >= metric_score(m, s.entries@[j].keyword@, ukw) by {
                    assert(ov[a] == old_ts.top@[a]@);
                    if a < len - 1 {
                        assert(rank_before(ov[a].score, ov[a].kw, ov[len - 1].score, ov[len
                            - 1].kw));
                    }
                }
            }
        }
    }
    assert(s.fuzzy_elig_count(m, rg, ukw, i + 1) == s.fuzzy_elig_count(m, rg, ukw, i) + 1);
    assert(s.fuzzy_elig_count(m, rg, ukw, i) >= cap);
}

/// The winning scan position is unique.
proof fn lemma_fuzzy_best_unique(
    s: SearchIndex,
    metric: Metric,
    rg: Seq<char>,
    ukw: Seq<char>,
    i: int,
    j: int,
)
    requires
        s.fuzzy_best_at(metric, rg, ukw, i),
        s.fuzzy_best_at(metric, rg, ukw, j),
    ensures
        i == j,
{
    if i < j {
        assert(metric_score(metric, s.entries@[j].keyword@, ukw) < metric_score(
            metric,
            s.entries@[i].keyword@,
            ukw,
        ));
    } else if j < i {
        assert(metric_score(metric, s.entries@[i].keyword@, ukw) < metric_score(
            metric,
            s.entries@[j].keyword@,
            ukw,
        ));
    }
}

} // verus!
