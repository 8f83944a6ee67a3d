//! The search engine: exact single-keyword lookup, the boolean combinators
//! over per-keyword key sets, live-typing search, and the public dispatch
//! over the configured search type.

use vstd::prelude::*;
use crate::keyset::{
    ascending, inter_seqs, keys_intersect, lemma_inter_props, take_at_most, copy_keys_capped,
};
use crate::order::str_eq;
use crate::search_index::{kw_keys, kw_lookup, Entry, SearchIndex};
use crate::tokenizer::str_views;

verus! {

/// The most keys a single keyword lookup hands to the combinators.
pub const MAXIMUM_INTERNAL_SEARCH_RESULTS: usize = 40960;

impl SearchIndex {
    /// The keys an exact lookup of `kw` yields, capped at the internal limit.
    pub open spec fn exact_keys(self, kw: Seq<char>) -> Seq<usize> {
        take_at_most(kw_keys(self.entries@, kw), MAXIMUM_INTERNAL_SEARCH_RESULTS)
    }

    /// The keys a single keyword contributes to a boolean search: its exact
    /// matches, or on a miss the matches of its best fuzzy substitute.
    pub open spec fn matched_keys(self, kw: Seq<char>) -> Seq<usize> {
        if kw_lookup(self.entries@, kw) is Some {
            self.exact_keys(kw)
        } else {
            match self.fuzzy_keyword_match(kw) {
                Some(bk) => self.exact_keys(bk),
                None => Seq::empty(),
            }
        }
    }

    /// The intersection of every keyword's matches, in ascending key order;
    /// empty when there are no keywords.
    pub open spec fn and_result(self, toks: Seq<Seq<char>>) -> Seq<usize>
        decreases toks.len(),
    {
        if toks.len() == 0 {
            Seq::empty()
        } else if toks.len() == 1 {
            self.matched_keys(toks[0])
        } else {
            inter_seqs(self.and_result(toks.drop_last()), self.matched_keys(toks.last()))
        }
    }

    /// Find the entry holding exactly `kw`.
    pub(crate) fn find_entry(&self, kw: &str) -> (r: Option<usize>)
        requires
            self.wf(),
        ensures
            match r {
                Some(i) => i < self.entries@.len() && self.entries@[i as int].keyword@ == kw@
                    && kw_lookup(self.entries@, kw@) == Some(self.entries@[i as int].keys@),
                None => kw_lookup(self.entries@, kw@) is None,
            },
    {
        let n = self.entries.len();
        let mut i: usize = 0;
        while i < n
            invariant
                i <= n,
                n == self.entries@.len(),
                self.wf(),
                forall|j: int| 0 <= j < i ==> self.entries@[j].keyword@ != kw@,
            decreases n - i,
        {
            if str_eq(self.entries[i].keyword.as_str(), kw) {
                proof {
                    crate::search_index::lemma_kw_lookup_at(self.entries@, kw@, i as int);
                }
                return Some(i);
            }
            i = i + 1;
        }
        proof {
            crate::search_index::lemma_kw_lookup_absent(self.entries@, kw@);
        }
        None
    }

    /// Look up the keys stored for exactly `keyword`, capped at the internal
    /// limit; empty when the keyword is absent. No fuzzy fallback, no case
    /// folding: higher levels observe those.
    pub fn internal_keyword_search(&self, keyword: &str) -> (r: Vec<usize>)
        requires
            self.wf(),
        ensures
            r@ == self.exact_keys(keyword@),
            ascending(r@),
    {
        match self.find_entry(keyword) {
            Some(i) => {
                let r = copy_keys_capped(&self.entries[i].keys, MAXIMUM_INTERNAL_SEARCH_RESULTS);
                proof {
                    lemma_take_at_most_ascending(self.entries@[i as int].keys@,
                        MAXIMUM_INTERNAL_SEARCH_RESULTS);
                }
                r
            },
            None => Vec::new(),
        }
    }

    /// The keys one keyword contributes to a boolean search.
    pub(crate) fn keyword_matched_keys(&self, keyword: &String) -> (r: Vec<usize>)
        requires
            self.wf(),
        ensures
            r@ == self.matched_keys(keyword@),
            ascending(r@),
    {
        match self.find_entry(keyword.as_str()) {
            Some(i) => {
                let r = copy_keys_capped(&self.entries[i].keys, MAXIMUM_INTERNAL_SEARCH_RESULTS);
                proof {
                    lemma_take_at_most_ascending(self.entries@[i as int].keys@,
                        MAXIMUM_INTERNAL_SEARCH_RESULTS);
                }
                r
            },
            None => {
                match self.strsim_keyword(keyword.as_str()) {
                    Some(bk) => {
                        let r = self.internal_keyword_search(bk.as_str());
                        r
                    },
                    None => Vec::new(),
                }
            },
        }
    }

    /// Intersect every keyword's matches: the `And` combinator's raw result,
    /// in ascending key order.
    pub(crate) fn internal_and_search(&self, keywords: &Vec<String>) -> (r: Vec<usize>)
        requires
            self.wf(),
        ensures
            r@ == self.and_result(str_views(keywords@)),
            ascending(r@),
    {
        let ghost toks = str_views(keywords@);
        let n = keywords.len();
        if n == 0 {
            let r: Vec<usize> = Vec::new();
            return r;
        }
        let mut acc = self.keyword_matched_keys(&keywords[0]);
        proof {
            assert(toks.take(1) =~= seq![toks[0]]);
            assert(self.and_result(toks.take(1)) == self.matched_keys(toks[0]));
        }
        let mut i: usize = 1;
        while i < n
            invariant
                1 <= i <= n,
                n == keywords@.len(),
                toks == str_views(keywords@),
                self.wf(),
                acc@ == self.and_result(toks.take(i as int)),
                ascending(acc@),
            decreases n - i,
        {
            let mk = self.keyword_matched_keys(&keywords[i]);
            let next = keys_intersect(&acc, &mk);
            proof {
                assert(toks.take(i + 1).drop_last() =~= toks.take(i as int));
                assert(toks.take(i + 1).last() == toks[i as int]);
                lemma_inter_props(acc@, mk@);
            }
            acc = next;
            i = i + 1;
        }
        proof {
            assert(toks.take(n as int) =~= toks);
        }
        acc
    }
}

/// A key and the number of distinct queried keywords it matched.
#[derive(Clone, Copy)]
pub struct KeyCount {
    pub key: usize,
    pub count: usize,
}

/// The count recorded for `k`, or `None` where `k` is unrecorded.
pub open spec fn kc_lookup(acc: Seq<KeyCount>, k: usize) -> Option<usize>
    decreases acc.len(),
{
    if acc.len() == 0 {
        None
    } else if acc[0].key == k {
        Some(acc[0].count)
    } else {
        kc_lookup(acc.skip(1), k)
    }
}

/// Count records sorted by strictly ascending key.
pub open spec fn sorted_kc(acc: Seq<KeyCount>) -> bool {
    forall|a: int, b: int|
        0 <= a < b < acc.len() ==> (#[trigger] acc[a]).key < (#[trigger] acc[b]).key
}

proof fn lemma_kc_lookup_at(acc: Seq<KeyCount>, k: usize, i: int)
    requires
        0 <= i < acc.len(),
        acc[i].key == k,
        forall|j: int| 0 <= j < i ==> (#[trigger] acc[j]).key != k,
    ensures
        kc_lookup(acc, k) == Some(acc[i].count),
    decreases acc.len(),
{
    if i > 0 {
        lemma_kc_lookup_at(acc.skip(1), k, i - 1);
    }
}

proof fn lemma_kc_lookup_absent(acc: Seq<KeyCount>, k: usize)
    requires
        forall|j: int| 0 <= j < acc.len() ==> (#[trigger] acc[j]).key != k,
    ensures
        kc_lookup(acc, k) is None,
    decreases acc.len(),
{
    if acc.len() > 0 {
        lemma_kc_lookup_absent(acc.skip(1), k);
    }
}

proof fn lemma_kc_lookup_found(acc: Seq<KeyCount>, k: usize)
    requires
        kc_lookup(acc, k) is Some,
    ensures
        exists|i: int|
            0 <= i < acc.len() && (#[trigger] acc[i]).key == k && acc[i].count == kc_lookup(
                acc,
                k,
            )->Some_0,
    decreases acc.len(),
{
    if acc.len() > 0 {
        if acc[0].key == k {
            assert((acc[0]).key == k && acc[0].count == kc_lookup(acc, k)->Some_0);
        } else {
            lemma_kc_lookup_found(acc.skip(1), k);
            let i = choose|i: int|
                0 <= i < acc.skip(1).len() && (#[trigger] acc.skip(1)[i]).key == k && acc.skip(
                    1,
                )[i].count == kc_lookup(acc.skip(1), k)->Some_0;
            assert((acc[i + 1]).key == k && acc[i + 1].count == kc_lookup(acc, k)->Some_0);
        }
    }
}

proof fn lemma_kc_update_at(pre: Seq<KeyCount>, post: Seq<KeyCount>, i: int)
    requires
        pre.len() == post.len(),
        0 <= i < pre.len(),
        forall|j: int| 0 <= j < pre.len() && j != i ==> post[j] == pre[j],
        post[i].key == pre[i].key,
    ensures
        forall|k: usize| k != pre[i].key ==> kc_lookup(post, k) == kc_lookup(pre, k),
    decreases pre.len(),
{
    if i == 0 {
        assert(post.skip(1) =~= pre.skip(1));
    } else {
        assert(post[0] == pre[0]);
        let pre_t = pre.skip(1);
        let post_t = post.skip(1);
        assert(forall|j: int|
            0 <= j < pre_t.len() && j != i - 1 ==> (#[trigger] post_t[j]) == pre_t[j]);
        lemma_kc_update_at(pre_t, post_t, i - 1);
        assert forall|k: usize| k != pre[i].key implies kc_lookup(post, k) == kc_lookup(
            pre,
            k,
        ) by {
            if pre[0].key != k {
                assert(kc_lookup(post_t, k) == kc_lookup(pre_t, k));
            }
        }
    }
}

proof fn lemma_kc_insert_at(pre: Seq<KeyCount>, e: KeyCount, i: int)
    requires
        0 <= i <= pre.len(),
        forall|j: int| 0 <= j < i ==> (#[trigger] pre[j]).key != e.key,
    ensures
        forall|k: usize| k != e.key ==> kc_lookup(pre.insert(i, e), k) == kc_lookup(pre, k),
        kc_lookup(pre.insert(i, e), e.key) == Some(e.count),
    decreases i,
{
    let post = pre.insert(i, e);
    if i == 0 {
        assert(post[0] == e);
        assert(post.skip(1) =~= pre);
    } else {
        assert(post[0] == pre[0]);
        let pre_t = pre.skip(1);
        let post_t = post.skip(1);
        assert(post_t =~= pre_t.insert(i - 1, e));
        assert(forall|j: int| 0 <= j < i - 1 ==> (#[trigger] pre_t[j]).key != e.key);
        lemma_kc_insert_at(pre_t, e, i - 1);
        assert(pre[0].key != e.key);
        assert forall|k: usize| k != e.key implies kc_lookup(post, k) == kc_lookup(pre, k) by {
            if pre[0].key != k {
                assert(kc_lookup(post_t, k) == kc_lookup(pre_t, k));
            }
        }
    }
}

/// Record one more matched keyword for `key`.
fn upsert_count(acc: &mut Vec<KeyCount>, key: usize)
    requires
        sorted_kc(old(acc)@),
        match kc_lookup(old(acc)@, key) {
            Some(c) => c < usize::MAX,
            None => true,
        },
    ensures
        sorted_kc(final(acc)@),
        forall|k: usize|
            #[trigger] kc_lookup(final(acc)@, k) == if k == key {
                match kc_lookup(old(acc)@, key) {
                    Some(c) => Some((c + 1) as usize),
                    None => Some(1usize),
                }
            } else {
                kc_lookup(old(acc)@, k)
            },
{
    let ghost pre = acc@;
    let n = acc.len();
    let mut i: usize = 0;
    loop
        invariant
            acc@ == pre,
            sorted_kc(pre),
            n == pre.len(),
            i <= n,
            forall|j: int| 0 <= j < i ==> (#[trigger] pre[j]).key < key,
        ensures
            acc@ == pre,
            i <= n,
            forall|j: int| 0 <= j < i ==> (#[trigger] pre[j]).key < key,
            i < n ==> pre[i as int].key >= key,
        decreases n - i,
    {
        if i == n {
            break ;
        }
        if acc[i].key >= key {
            break ;
        }
        i = i + 1;
    }
    if i < n && acc[i].key == key {
        proof {
            lemma_kc_lookup_at(pre, key, i as int);
        }
        let c = acc[i].count;
        acc.set(i, KeyCount { key, count: c + 1 });
        proof {
            let post = acc@;
            assert(forall|j: int| 0 <= j < pre.len() && j != i ==> post[j] == pre[j]);
            lemma_kc_update_at(pre, post, i as int);
            lemma_kc_lookup_at(post, key, i as int);
        }
    } else {
        proof {
            assert forall|j: int| 0 <= j < n implies (#[trigger] pre[j]).key != key by {
                if j >= i {
                    if pre[j].key == key {
                        assert(pre[i as int].key >= key);
                        if j > i {
                            assert(pre[i as int].key < pre[j].key);
                        }
                    }
                }
            }
            lemma_kc_lookup_absent(pre, key);
            lemma_kc_insert_at(pre, KeyCount { key, count: 1 }, i as int);
        }
        acc.insert(i, KeyCount { key, count: 1 });
        proof {
            let post = acc@;
            assert(post =~= pre.insert(i as int, KeyCount { key, count: 1 }));
            assert forall|a: int, b: int| 0 <= a < b < post.len() implies (#[trigger] post[a]).key
                < (#[trigger] post[b]).key by {
                let pa: int = if a < i {
                    a
                } else {
                    a - 1
                };
                let pb: int = if b < i {
                    b
                } else {
                    b - 1
                };
                if a == i {
                    assert(post[b] == pre[b - 1]);
                    assert(pre[i as int].key >= key);
                    if b - 1 > i {
                        assert(pre[i as int].key < pre[b - 1].key);
                    }
                } else if b == i {
                    assert(post[a] == pre[a]);
                } else {
                    assert(post[a] == pre[pa]);
                    assert(post[b] == pre[pb]);
                }
            }
        }
    }
}

/// The tokens with later repetitions dropped: each keyword counts once.
pub open spec fn dedup_toks(toks: Seq<Seq<char>>) -> Seq<Seq<char>>
    decreases toks.len(),
{
    if toks.len() == 0 {
        toks
    } else if toks.drop_last().contains(toks.last()) {
        dedup_toks(toks.drop_last())
    } else {
        dedup_toks(toks.drop_last()).push(toks.last())
    }
}

pub proof fn lemma_dedup_props(toks: Seq<Seq<char>>)
    ensures
        forall|x: Seq<char>| #[trigger] dedup_toks(toks).contains(x) <==> toks.contains(x),
        forall|a: int, b: int|
            0 <= a < b < dedup_toks(toks).len() ==> dedup_toks(toks)[a] != dedup_toks(toks)[b],
    decreases toks.len(),
{
    let d = dedup_toks(toks);
    if toks.len() == 0 {
        assert forall|x: Seq<char>| #[trigger] d.contains(x) implies toks.contains(x) by {}
    } else {
        let t = toks.drop_last();
        let x0 = toks.last();
        lemma_dedup_props(t);
        let dt = dedup_toks(t);
        assert forall|x: Seq<char>| #[trigger] toks.contains(x) implies (t.contains(x) || x
            == x0) by {
            let i = choose|i: int| 0 <= i < toks.len() && toks[i] == x;
            if i < toks.len() - 1 {
                assert(t[i] == x);
            }
        }
        assert forall|x: Seq<char>| t.contains(x) implies toks.contains(x) by {
            let i = choose|i: int| 0 <= i < t.len() && t[i] == x;
            assert(toks[i] == x);
        }
        assert(toks.contains(x0)) by {
            assert(toks[toks.len() - 1] == x0);
        }
        if t.contains(x0) {
            assert(d == dt);
        } else {
            assert(d == dt.push(x0));
            assert forall|x: Seq<char>| #[trigger] d.contains(x) implies toks.contains(x) by {
                let i = choose|i: int| 0 <= i < d.len() && d[i] == x;
                if i < d.len() - 1 {
                    assert(dt[i] == x);
                    assert(dt.contains(x));
                }
            }
            assert forall|x: Seq<char>| toks.contains(x) implies d.contains(x) by {
                if x == x0 {
                    assert(d[d.len() - 1] == x);
                } else {
                    assert(t.contains(x));
                    assert(dt.contains(x));
                    let i = choose|i: int| 0 <= i < dt.len() && dt[i] == x;
                    assert(d[i] == x);
                }
            }
            assert forall|a: int, b: int| 0 <= a < b < d.len() implies d[a] != d[b] by {
                if b == d.len() - 1 {
                    assert(d[a] == dt[a]);
                    assert(dt.contains(dt[a]));
                    assert(t.contains(d[a]));
                }
            }
        }
    }
}

/// Membership of a string among a vector's views.
fn contains_str(v: &Vec<String>, s: &String) -> (r: bool)
    ensures
        r == str_views(v@).contains(s@),
{
    let mut i: usize = 0;
    while i < v.len()
        invariant
            i <= v@.len(),
            forall|j: int| 0 <= j < i ==> v@[j]@ != s@,
        decreases v@.len() - i,
    {
        if str_eq(v[i].as_str(), s.as_str()) {
            proof {
                assert(str_views(v@)[i as int] == s@);
            }
            return true;
        }
        i = i + 1;
    }
    proof {
        if str_views(v@).contains(s@) {
            let j = choose|j: int| 0 <= j < str_views(v@).len() && str_views(v@)[j] == s@;
            assert(v@[j]@ == s@);
        }
    }
    false
}

/// Drop repeated keywords, keeping first occurrences in order.
fn dedup_keywords(keywords: &Vec<String>) -> (r: Vec<String>)
    ensures
        str_views(r@) == dedup_toks(str_views(keywords@)),
{
    let ghost toks = str_views(keywords@);
    let mut out: Vec<String> = Vec::new();
    let mut i: usize = 0;
    proof {
        assert(str_views(out@) =~= dedup_toks(toks.take(0)));
    }
    while i < keywords.len()
        invariant
            i <= keywords@.len(),
            toks == str_views(keywords@),
            str_views(out@) == dedup_toks(toks.take(i as int)),
        decreases keywords@.len() - i,
    {
        proof {
            assert(toks.take(i + 1).drop_last() =~= toks.take(i as int));
            assert(toks.take(i + 1).last() == toks[i as int]);
            lemma_dedup_props(toks.take(i as int));
        }
        if !contains_str(&out, &keywords[i]) {
            let ghost old_out = out@;
            out.push(keywords[i].clone());
            proof {
                assert(str_views(out@) =~= str_views(old_out).push(toks[i as int]));
            }
        }
        i = i + 1;
    }
    proof {
        assert(toks.take(keywords@.len() as int) =~= toks);
    }
    out
}

impl SearchIndex {
    /// How many of the distinct keywords in `u` the key `k` matches.
    pub open spec fn or_count(self, u: Seq<Seq<char>>, k: usize) -> int
        decreases u.len(),
    {
        if u.len() == 0 {
            0
        } else {
            self.or_count(u.drop_last(), k) + if self.matched_keys(u.last()).contains(k) {
                1int
            } else {
                0int
            }
        }
    }

    /// `x` outranks `k`: more matched keywords, or as many and a smaller key.
    pub open spec fn or_better(self, u: Seq<Seq<char>>, x: usize, k: usize) -> bool {
        self.or_count(u, x) > self.or_count(u, k) || (self.or_count(u, x) == self.or_count(u, k)
            && x < k)
    }

    /// What an `Or` search returns, ranking keys over the distinct queried
    /// keywords `u = dedup_toks(toks)`: matched keys in strictly descending
    /// rank, truncated to `max`; a matched key missing from the result lost
    /// to a full result of better-ranked keys.
    pub open spec fn or_ok(self, toks: Seq<Seq<char>>, max: int, r: Seq<usize>) -> bool {
        let u = dedup_toks(toks);
        &&& forall|a: int, b: int| 0 <= a < b < r.len() ==> self.or_better(u, r[a], r[b])
        &&& forall|a: int| 0 <= a < r.len() ==> self.or_count(u, #[trigger] r[a]) >= 1
        &&& r.len() <= max
        &&& forall|k: usize|
            #[trigger] self.or_count(u, k) >= 1 ==> r.contains(k) || (r.len() == max && forall|
                a: int,
            | 0 <= a < r.len() ==> self.or_better(u, #[trigger] r[a], k))
    }

    pub proof fn lemma_or_count_bounds(self, u: Seq<Seq<char>>, k: usize)
        ensures
            0 <= self.or_count(u, k) <= u.len(),
        decreases u.len(),
    {
        if u.len() > 0 {
            self.lemma_or_count_bounds(u.drop_last(), k);
        }
    }

    /// Tally, for every key, how many of the distinct keywords in `u` match
    /// it.
    fn build_counts(&self, u: &Vec<String>) -> (acc: Vec<KeyCount>)
        requires
            self.wf(),
        ensures
            sorted_kc(acc@),
            forall|k: usize|
                match #[trigger] kc_lookup(acc@, k) {
                    Some(c) => c == self.or_count(str_views(u@), k) && c >= 1,
                    None => self.or_count(str_views(u@), k) == 0,
                },
    {
        let ghost uv = str_views(u@);
        let n = u.len();
        let mut acc: Vec<KeyCount> = Vec::new();
        let mut t: usize = 0;
        while t < n
            invariant
                t <= n,
                n == u@.len(),
                uv == str_views(u@),
                self.wf(),
                sorted_kc(acc@),
                forall|k: usize|
                    match #[trigger] kc_lookup(acc@, k) {
                        Some(c) => c == self.or_count(uv.take(t as int), k) && c >= 1 && c <= t,
                        None => self.or_count(uv.take(t as int), k) == 0,
                    },
            decreases n - t,
        {
            let mk = self.keyword_matched_keys(&u[t]);
            proof {
                assert(uv.take(t + 1).drop_last() =~= uv.take(t as int));
                assert(uv.take(t + 1).last() == uv[t as int]);
                assert(mk@ == self.matched_keys(uv[t as int]));
            }
            let mut j: usize = 0;
            proof {
                assert(mk@.take(0) =~= Seq::<usize>::empty());
            }
            while j < mk.len()
                invariant
                    j <= mk@.len(),
                    t < n,
                    n == u@.len(),
                    uv == str_views(u@),
                    self.wf(),
                    mk@ == self.matched_keys(uv[t as int]),
                    ascending(mk@),
                    sorted_kc(acc@),
                    forall|k: usize|
                        match #[trigger] kc_lookup(acc@, k) {
                            Some(c) => c == self.or_count(uv.take(t as int), k) + (if mk@.take(
                                j as int,
                            ).contains(k) {
                                1int
                            } else {
                                0int
                            }) && c >= 1 && c <= t + 1,
                            None => self.or_count(uv.take(t as int), k) == 0 && !mk@.take(
                                j as int,
                            ).contains(k),
                        },
                decreases mk@.len() - j,
            {
                let key = mk[j];
                proof {
                    // the key has not been counted for this keyword yet
                    assert(!mk@.take(j as int).contains(key)) by {
                        if mk@.take(j as int).contains(key) {
                            let a = choose|a: int|
                                0 <= a < j && mk@.take(j as int)[a] == key;
                            assert(mk@[a] == key);
                            assert(mk@[a] < mk@[j as int]);
                        }
                    }
                    self.lemma_or_count_bounds(uv.take(t as int), key);
                }
                upsert_count(&mut acc, key);
                proof {
                    assert(mk@.take(j as int).push(mk@[j as int]) =~= mk@.take(j + 1));
                    assert forall|k: usize| k != key implies (mk@.take(j + 1).contains(k) == mk@
                        .take(j as int).contains(k)) by {
                        if mk@.take(j + 1).contains(k) {
                            let a = choose|a: int|
                                0 <= a < j + 1 && #[trigger] mk@.take(j + 1)[a] == k;
                            if a < j {
                                assert(mk@.take(j as int)[a] == k);
                            }
                        }
                        if mk@.take(j as int).contains(k) {
                            let a = choose|a: int|
                                0 <= a < j && #[trigger] mk@.take(j as int)[a] == k;
                            assert(mk@.take(j + 1)[a] == k);
                        }
                    }
                    assert(mk@.take(j + 1).contains(key)) by {
                        assert(mk@.take(j + 1)[j as int] == key);
                    }
                }
                j = j + 1;
            }
            proof {
                assert(mk@.take(mk@.len() as int) =~= mk@);
                assert forall|k: usize|
                    match #[trigger] kc_lookup(acc@, k) {
                        Some(c) => c == self.or_count(uv.take(t + 1), k) && c >= 1 && c <= t + 1,
                        None => self.or_count(uv.take(t + 1), k) == 0,
                    } by {
                    assert(self.or_count(uv.take(t + 1), k) == self.or_count(uv.take(t as int), k)
                        + if self.matched_keys(uv[t as int]).contains(k) {
                        1int
                    } else {
                        0int
                    });
                }
            }
            t = t + 1;
        }
        proof {
            assert(uv.take(n as int) =~= uv);
        }
        acc
    }
}

/// `x` ranks strictly before `y`: a higher count, or the same count and a
/// smaller key.
pub open spec fn kc_rank_before(x: KeyCount, y: KeyCount) -> bool {
    x.count > y.count || (x.count == y.count && x.key < y.key)
}

/// Count records strictly rank-sorted, best first.
pub open spec fn kc_ranked(s: Seq<KeyCount>) -> bool {
    forall|a: int, b: int| 0 <= a < b < s.len() ==> kc_rank_before(s[a], s[b])
}

/// `e` inserted into `s` at its rank position.
pub open spec fn kc_rank_inserted(s: Seq<KeyCount>, e: KeyCount) -> Seq<KeyCount>
    decreases s.len(),
{
    if s.len() == 0 {
        seq![e]
    } else if kc_rank_before(e, s[0]) {
        seq![e] + s
    } else {
        seq![s[0]] + kc_rank_inserted(s.skip(1), e)
    }
}

proof fn lemma_kc_rank_inserted_props(s: Seq<KeyCount>, e: KeyCount)
    requires
        kc_ranked(s),
        forall|i: int| 0 <= i < s.len() ==> (#[trigger] s[i]).key != e.key,
    ensures
        kc_ranked(kc_rank_inserted(s, e)),
        kc_rank_inserted(s, e).len() == s.len() + 1,
        forall|x: KeyCount| #[trigger] kc_rank_inserted(s, e).contains(x) ==> (s.contains(x) || x
            == e),
        forall|x: KeyCount| #[trigger] s.contains(x) ==> kc_rank_inserted(s, e).contains(x),
        kc_rank_inserted(s, e).contains(e),
    decreases s.len(),
{
    let r = kc_rank_inserted(s, e);
    if s.len() == 0 {
        assert(r =~= seq![e]);
        assert(r[0] == e);
        assert(r.contains(e));
        assert forall|x: KeyCount| #[trigger] r.contains(x) implies (s.contains(x) || x == e) by {
            let i = choose|i: int| 0 <= i < r.len() && r[i] == x;
        }
    } else if kc_rank_before(e, s[0]) {
        assert(r =~= seq![e] + s);
        assert forall|a: int, b: int| 0 <= a < b < r.len() implies kc_rank_before(r[a], r[b]) by {
            if a == 0 {
                assert(r[b] == s[b - 1]);
                if b > 1 {
                    assert(kc_rank_before(s[0], s[b - 1]));
                }
            } else {
                assert(r[a] == s[a - 1]);
                assert(r[b] == s[b - 1]);
            }
        }
        assert forall|x: KeyCount| #[trigger] r.contains(x) implies (s.contains(x) || x == e) by {
            let i = choose|i: int| 0 <= i < r.len() && r[i] == x;
            if i > 0 {
                assert(s[i - 1] == x);
            }
        }
        assert forall|x: KeyCount| #[trigger] s.contains(x) implies r.contains(x) by {
            let i = choose|i: int| 0 <= i < s.len() && s[i] == x;
            assert(r[i + 1] == x);
        }
        assert(r[0] == e);
        assert(r.contains(e));
    } else {
        let t = s.skip(1);
        let rt = kc_rank_inserted(t, e);
        assert(r =~= seq![s[0]] + rt);
        assert forall|i: int| 0 <= i < t.len() implies (#[trigger] t[i]).key != e.key by {
            assert(t[i] == s[i + 1]);
        }
        assert(kc_ranked(t)) by {
            assert forall|a: int, b: int| 0 <= a < b < t.len() implies kc_rank_before(
                t[a],
                t[b],
            ) by {
                assert(t[a] == s[a + 1]);
                assert(t[b] == s[b + 1]);
            }
        }
        lemma_kc_rank_inserted_props(t, e);
        assert(s[0].key != e.key);
        assert(kc_rank_before(s[0], e));
        assert forall|a: int, b: int| 0 <= a < b < r.len() implies kc_rank_before(r[a], r[b]) by {
            if a == 0 {
                let x = r[b];
                assert(rt[b - 1] == x);
                assert(rt.contains(x));
                assert(t.contains(x) || x == e);
                if t.contains(x) {
                    let m = choose|m: int| 0 <= m < t.len() && t[m] == x;
                    assert(s[m + 1] == x);
                }
            } else {
                assert(rt[a - 1] == r[a]);
                assert(rt[b - 1] == r[b]);
            }
        }
        assert forall|x: KeyCount| #[trigger] r.contains(x) implies (s.contains(x) || x == e) by {
            let i = choose|i: int| 0 <= i < r.len() && r[i] == x;
            if i == 0 {
                assert(s[0] == x);
            } else {
                assert(rt[i - 1] == x);
                assert(rt.contains(x));
                assert(t.contains(x) || x == e);
                if t.contains(x) {
                    let m = choose|m: int| 0 <= m < t.len() && t[m] == x;
                    assert(s[m + 1] == x);
                }
            }
        }
        assert forall|x: KeyCount| #[trigger] s.contains(x) implies r.contains(x) by {
            let i = choose|i: int| 0 <= i < s.len() && s[i] == x;
            if i == 0 {
                assert(r[0] == x);
            } else {
                assert(t[i - 1] == x);
                assert(t.contains(x));
                assert(rt.contains(x));
                let m = choose|m: int| 0 <= m < rt.len() && rt[m] == x;
                assert(r[m + 1] == x);
            }
        }
        assert(r.contains(e)) by {
            assert(rt.contains(e));
            let m = choose|m: int| 0 <= m < rt.len() && rt[m] == e;
            assert(r[m + 1] == e);
        }
    }
}

proof fn lemma_kc_rank_inserted_position(s: Seq<KeyCount>, e: KeyCount, p: int)
    requires
        0 <= p <= s.len(),
        forall|j: int| 0 <= j < p ==> !kc_rank_before(e, #[trigger] s[j]),
        p < s.len() ==> kc_rank_before(e, s[p]),
    ensures
        kc_rank_inserted(s, e) =~= s.insert(p, e),
    decreases s.len(),
{
    if s.len() == 0 {
        assert(kc_rank_inserted(s, e) =~= s.insert(0, e));
    } else if p == 0 {
        assert(kc_rank_inserted(s, e) =~= s.insert(0, e));
    } else {
        let t = s.skip(1);
        assert forall|j: int| 0 <= j < p - 1 implies !kc_rank_before(e, #[trigger] t[j]) by {
            assert(t[j] == s[j + 1]);
        }
        if p - 1 < t.len() {
            assert(t[p - 1] == s[p]);
        }
        lemma_kc_rank_inserted_position(t, e, p - 1);
        assert(kc_rank_inserted(s, e) =~= seq![s[0]] + kc_rank_inserted(t, e));
    }
}

/// Insert a count record at its rank position.
fn kc_insert_at_rank(v: &mut Vec<KeyCount>, e: KeyCount)
    requires
        kc_ranked(old(v)@),
        forall|i: int| 0 <= i < old(v)@.len() ==> (#[trigger] old(v)@[i]).key != e.key,
    ensures
        final(v)@ == kc_rank_inserted(old(v)@, e),
        kc_ranked(final(v)@),
{
    proof {
        lemma_kc_rank_inserted_props(old(v)@, e);
    }
    let n = v.len();
    let mut i: usize = 0;
    loop
        invariant
            v@ == old(v)@,
            n == v@.len(),
            i <= n,
            forall|j: int| 0 <= j < i ==> !kc_rank_before(e, #[trigger] v@[j]),
        ensures
            v@ == old(v)@,
            i <= n,
            forall|j: int| 0 <= j < i ==> !kc_rank_before(e, #[trigger] v@[j]),
            i < n ==> kc_rank_before(e, v@[i as int]),
        decreases n - i,
    {
        if i == n {
            break ;
        }
        let outranks = if e.count != v[i].count {
            e.count > v[i].count
        } else {
            e.key < v[i].key
        };
        if outranks {
            break ;
        }
        i = i + 1;
    }
    proof {
        lemma_kc_rank_inserted_position(old(v)@, e, i as int);
    }
    v.insert(i, e);
    proof {
        assert(final(v)@ =~= kc_rank_inserted(old(v)@, e));
    }
}

/// Sort count records by rank, best first.
fn kc_rank_sort(v: &Vec<KeyCount>) -> (out: Vec<KeyCount>)
    requires
        sorted_kc(v@),
    ensures
        kc_ranked(out@),
        out@.len() == v@.len(),
        forall|x: KeyCount| out@.contains(x) <==> v@.contains(x),
{
    let mut out: Vec<KeyCount> = Vec::new();
    let mut i: usize = 0;
    while i < v.len()
        invariant
            i <= v@.len(),
            sorted_kc(v@),
            kc_ranked(out@),
            out@.len() == i,
            forall|x: KeyCount| out@.contains(x) <==> v@.take(i as int).contains(x),
        decreases v@.len() - i,
    {
        let e = v[i];
        proof {
            assert forall|a: int| 0 <= a < out@.len() implies (#[trigger] out@[a]).key != e.key by {
                assert(out@.contains(out@[a]));
                assert(v@.take(i as int).contains(out@[a]));
                let m = choose|m: int| 0 <= m < i && v@.take(i as int)[m] == out@[a];
                assert(v@[m] == out@[a]);
                assert(v@[m].key < v@[i as int].key);
            }
        }
        let ghost old_out = out@;
        kc_insert_at_rank(&mut out, e);
        proof {
            lemma_kc_rank_inserted_props(old_out, e);
            assert forall|x: KeyCount| out@.contains(x) implies v@.take(i + 1).contains(x) by {
                if old_out.contains(x) {
                    assert(v@.take(i as int).contains(x));
                    let m = choose|m: int| 0 <= m < i && #[trigger] v@.take(i as int)[m] == x;
                    assert(v@.take(i + 1)[m] == x);
                } else {
                    assert(x == e);
                    assert(v@.take(i + 1)[i as int] == x);
                }
            }
            assert forall|x: KeyCount| v@.take(i + 1).contains(x) implies out@.contains(x) by {
                let m = choose|m: int| 0 <= m < i + 1 && #[trigger] v@.take(i + 1)[m] == x;
                if m < i {
                    assert(v@.take(i as int)[m] == x);
                    assert(old_out.contains(x));
                } else {
                    assert(x == e);
                }
            }
        }
        i = i + 1;
    }
    proof {
        assert(v@.take(v@.len() as int) =~= v@);
    }
    out
}

impl SearchIndex {
    /// Rank the keys matching any queried keyword: matched keys in strictly
    /// descending rank (count of distinct matched keywords, ties to the
    /// smaller key), truncated to `max`.
    pub(crate) fn internal_or_search(&self, keywords: &Vec<String>, max: usize) -> (r: Vec<usize>)
        requires
            self.wf(),
        ensures
            self.or_ok(str_views(keywords@), max as int, r@),
    {
        let ghost toks = str_views(keywords@);
        let u = dedup_keywords(keywords);
        let ghost uv = str_views(u@);
        let acc = self.build_counts(&u);
        let sorted = kc_rank_sort(&acc);
        let end: usize = if sorted.len() <= max {
            sorted.len()
        } else {
            max
        };
        let mut r: Vec<usize> = Vec::new();
        let mut i: usize = 0;
        while i < end
            invariant
                i <= end,
                end <= sorted@.len(),
                r@.len() == i,
                forall|j: int| 0 <= j < i ==> r@[j] == (#[trigger] sorted@[j]).key,
            decreases end - i,
        {
            r.push(sorted[i].key);
            i = i + 1;
        }
        proof {
            let rv = r@;
            // every record of `sorted` is a record of `acc`, whose count is
            // the key's rank count
            assert forall|a: int| 0 <= a < sorted@.len() implies (#[trigger] sorted@[a]).count
                == self.or_count(uv, sorted@[a].key) && sorted@[a].count >= 1 by {
                assert(sorted@.contains(sorted@[a]));
                assert(acc@.contains(sorted@[a]));
                let m = choose|m: int| 0 <= m < acc@.len() && acc@[m] == sorted@[a];
                lemma_kc_elem_lookup(acc@, m);
            }
            assert forall|a: int, b: int| 0 <= a < b < rv.len() implies self.or_better(
                uv,
                rv[a],
                rv[b],
            ) by {
                assert(kc_rank_before(sorted@[a], sorted@[b]));
            }
            assert forall|a: int| 0 <= a < rv.len() implies self.or_count(uv, #[trigger] rv[a])
                >= 1 by {
                assert(rv[a] == sorted@[a].key);
            }
            assert forall|k: usize| #[trigger] self.or_count(uv, k) >= 1 implies rv.contains(k) || (
            rv.len() == max && forall|a: int|
                0 <= a < rv.len() ==> self.or_better(uv, #[trigger] rv[a], k)) by {
                lemma_kc_lookup_found(acc@, k);
                let m = choose|m: int|
                    0 <= m < acc@.len() && (#[trigger] acc@[m]).key == k && acc@[m].count
                        == kc_lookup(acc@, k)->Some_0;
                assert(acc@.contains(acc@[m]));
                assert(sorted@.contains(acc@[m]));
                let a0 = choose|a0: int| 0 <= a0 < sorted@.len() && sorted@[a0] == acc@[m];
                if a0 < end {
                    assert(rv[a0] == k);
                    assert(rv.contains(k));
                } else {
                    assert(rv.len() == max);
                    assert forall|a: int| 0 <= a < rv.len() implies self.or_better(
                        uv,
                        #[trigger] rv[a],
                        k,
                    ) by {
                        assert(kc_rank_before(sorted@[a], sorted@[a0]));
                        assert(sorted@[a0].key == k);
                    }
                }
            }
        }
        r
    }
}

/// Some of the first `a` candidates' key sets holds `k`.
pub open spec fn cand_keys_upto(cands: Seq<Entry>, a: int, k: usize) -> bool {
    exists|b: int| 0 <= b < a && (#[trigger] cands[b]).keys@.contains(k)
}

impl SearchIndex {
    /// `k` passes the context filter: there are no context keywords, or the
    /// context result holds it.
    pub open spec fn ctx_pass(self, ctx: Seq<Seq<char>>, k: usize) -> bool {
        ctx.len() > 0 ==> self.and_result(ctx).contains(k)
    }

    /// `k` qualifies for a live search: some completion candidate's key set
    /// holds it, and, where there are context keywords, so does the context
    /// result.
    pub open spec fn live_member(
        self,
        cands: Seq<Entry>,
        ctx: Seq<Seq<char>>,
        k: usize,
    ) -> bool {
        &&& cand_keys_upto(cands, cands.len() as int, k)
        &&& self.ctx_pass(ctx, k)
    }

    /// What a live search returns for query `q`: the qualifying keys of the
    /// last keyword's completion candidates, ascending, truncated to `max`
    /// from below.
    pub open spec fn live_ok(self, q: Seq<char>, max: int, r: Seq<usize>) -> bool {
        let toks = self.text_tokens(q, false);
        if toks.len() == 0 {
            r.len() == 0
        } else {
            let ctx = toks.drop_last();
            let last = toks.last();
            exists|cands: Seq<Entry>|
                #[trigger] self.acand_ok(last, self.maximum_autocomplete_options as int, cands) && {
                    &&& ascending(r)
                    &&& forall|a: int|
                        0 <= a < r.len() ==> self.live_member(cands, ctx, #[trigger] r[a])
                    &&& r.len() <= max
                    &&& forall|k: usize|
                        #[trigger] self.live_member(cands, ctx, k) ==> r.contains(k) || (r.len()
                            == max && forall|a: int| 0 <= a < r.len() ==> r[a] < k)
                }
        }
    }

    /// Live search with an explicit result cap.
    fn search_live_n(&self, string: &str, max: usize) -> (r: Vec<usize>)
        requires
            self.wf(),
        ensures
            self.live_ok(string@, max as int, r@),
    {
        let ghost toks = self.text_tokens(string@, false);
        let mut keywords = self.string_keywords(string, false);
        let last = match keywords.pop() {
            None => {
                let r: Vec<usize> = Vec::new();
                return r;
            },
            Some(last) => last,
        };
        proof {
            assert(last@ == toks.last());
            assert(str_views(keywords@) =~= toks.drop_last());
        }
        let ghost ctx = toks.drop_last();
        let cands = self.internal_autocomplete_keyword(
            last.as_str(),
            self.maximum_autocomplete_options,
        );
        let ghost cands_v = cands@;
        let has_ctx = keywords.len() > 0;
        let ctx_keys: Vec<usize> = if has_ctx {
            self.internal_and_search(&keywords)
        } else {
            Vec::new()
        };
        proof {
            if has_ctx {
                assert(ctx_keys@ == self.and_result(ctx));
            }
        }
        let mut u: Vec<usize> = Vec::new();
        let mut a: usize = 0;
        while a < cands.len()
            invariant
                a <= cands_v.len(),
                cands_v == cands@,
                self.wf(),
                has_ctx == (ctx.len() > 0),
                has_ctx ==> ctx_keys@ == self.and_result(ctx),
                ascending(u@),
                forall|k: usize|
                    #[trigger] u@.contains(k) <==> (cand_keys_upto(cands_v, a as int, k)
                        && self.ctx_pass(ctx, k)),
            decreases cands_v.len() - a,
        {
            let keys = &cands[a].keys;
            let mut j: usize = 0;
            proof {
                assert(keys@.take(0) =~= Seq::<usize>::empty());
            }
            while j < keys.len()
                invariant
                    j <= keys@.len(),
                    a < cands_v.len(),
                    cands_v == cands@,
                    keys@ == cands_v[a as int].keys@,
                    self.wf(),
                    has_ctx == (ctx.len() > 0),
                    has_ctx ==> ctx_keys@ == self.and_result(ctx),
                    ascending(u@),
                    forall|k: usize|
                        #[trigger] u@.contains(k) <==> ((cand_keys_upto(cands_v, a as int, k)
                            || keys@.take(j as int).contains(k)) && self.ctx_pass(ctx, k)),
                decreases keys@.len() - j,
            {
                let ghost old_u = u@;
                let k0 = keys[j];
                proof {
                    assert(keys@.take(j as int).push(keys@[j as int]) =~= keys@.take(j + 1));
                    assert forall|k: usize| #[trigger] keys@.take(j + 1).contains(k) implies (keys@
                        .take(j as int).contains(k) || k == k0) by {
                        let m = choose|m: int| 0 <= m < j + 1 && #[trigger] keys@.take(j + 1)[m]
                            == k;
                        if m < j {
                            assert(keys@.take(j as int)[m] == k);
                        }
                    }
                    assert forall|k: usize| keys@.take(j as int).contains(k) implies keys@.take(
                        j + 1,
                    ).contains(k) by {
                        let m = choose|m: int| 0 <= m < j && #[trigger] keys@.take(j as int)[m]
                            == k;
                        assert(keys@.take(j + 1)[m] == k);
                    }
                    assert(keys@.take(j + 1).contains(k0)) by {
                        assert(keys@.take(j + 1)[j as int] == k0);
                    }
                }
                let keep = if has_ctx {
                    crate::keyset::keys_contains(&ctx_keys, k0)
                } else {
                    true
                };
                if keep {
                    crate::keyset::keys_insert(&mut u, k0);
                    proof {
                        crate::keyset::lemma_key_inserted_props(old_u, k0);
                    }
                }
                proof {
                    assert(keep == self.ctx_pass(ctx, k0));
                    assert forall|k: usize| #[trigger] u@.contains(k) <==> ((cand_keys_upto(
                        cands_v,
                        a as int,
                        k,
                    ) || keys@.take(j + 1).contains(k)) && self.ctx_pass(ctx, k)) by {
                        if k == k0 {
                            if keep {
                                assert(u@.contains(k0));
                            } else {
                                assert(!old_u.contains(k0));
                            }
                        } else {
                            assert(keys@.take(j + 1).contains(k) == keys@.take(
                                j as int,
                            ).contains(k));
                            if keep {
                                assert(u@.contains(k) == old_u.contains(k));
                            }
                        }
                    }
                }
                j = j + 1;
            }
            proof {
                assert(keys@.take(keys@.len() as int) =~= keys@);
                assert forall|k: usize| #[trigger] u@.contains(k) <==> (cand_keys_upto(
                    cands_v,
                    a + 1,
                    k,
                ) && self.ctx_pass(ctx, k)) by {
                    if cand_keys_upto(cands_v, a as int, k) {
                        let b = choose|b: int|
                            0 <= b < a && (#[trigger] cands_v[b]).keys@.contains(k);
                        assert(cand_keys_upto(cands_v, a + 1, k));
                    }
                    if keys@.contains(k) {
                        assert(cands_v[a as int].keys@.contains(k));
                        assert(cand_keys_upto(cands_v, a + 1, k));
                    }
                    if cand_keys_upto(cands_v, a + 1, k) {
                        let b = choose|b: int|
                            0 <= b < a + 1 && (#[trigger] cands_v[b]).keys@.contains(k);
                        if b < a {
                            assert(cand_keys_upto(cands_v, a as int, k));
                        } else {
                            assert(keys@.contains(k));
                        }
                    }
                }
            }
            a = a + 1;
        }
        // truncate from below: the smallest qualifying keys stay
        let end: usize = if u.len() <= max {
            u.len()
        } else {
            max
        };
        let mut r: Vec<usize> = Vec::new();
        let mut i: usize = 0;
        while i < end
            invariant
                i <= end,
                end <= u@.len(),
                r@.len() == i,
                forall|j: int| 0 <= j < i ==> r@[j] == u@[j],
            decreases end - i,
        {
            r.push(u[i]);
            i = i + 1;
        }
        proof {
            let rv = r@;
            assert(rv =~= u@.take(end as int));
            assert forall|a2: int, b2: int| 0 <= a2 < b2 < rv.len() implies rv[a2] < rv[b2] by {
                assert(rv[a2] == u@[a2]);
                assert(rv[b2] == u@[b2]);
            }
            assert forall|a2: int| 0 <= a2 < rv.len() implies self.live_member(
                cands_v,
                ctx,
                #[trigger] rv[a2],
            ) by {
                assert(u@.contains(u@[a2]));
            }
            assert forall|k: usize| #[trigger] self.live_member(cands_v, ctx, k) implies rv
                .contains(k) || (rv.len() == max && forall|a2: int|
                0 <= a2 < rv.len() ==> rv[a2] < k) by {
                assert(u@.contains(k));
                let m = choose|m: int| 0 <= m < u@.len() && u@[m] == k;
                if m < end {
                    assert(rv[m] == k);
                    assert(rv.contains(k));
                } else {
                    assert(rv.len() == max);
                    assert forall|a2: int| 0 <= a2 < rv.len() implies rv[a2] < k by {
                        assert(rv[a2] == u@[a2]);
                        assert(u@[a2] < u@[m]);
                    }
                }
            }
            assert(self.acand_ok(toks.last(), self.maximum_autocomplete_options as int, cands_v)
                && {
                &&& ascending(rv)
                &&& forall|a2: int|
                    0 <= a2 < rv.len() ==> self.live_member(cands_v, ctx, #[trigger] rv[a2])
                &&& rv.len() <= max as int
                &&& forall|k: usize|
                    #[trigger] self.live_member(cands_v, ctx, k) ==> rv.contains(k) || (rv.len()
                        == max as int && forall|a2: int| 0 <= a2 < rv.len() ==> rv[a2] < k)
            });
        }
        r
    }

    /// Live search at the configured result cap: every keyword but the last
    /// must match, the last is completed, and the qualifying keys come back
    /// in ascending order.
    pub fn search_live(&self, string: &str) -> (r: Vec<usize>)
        requires
            self.wf(),
        ensures
            self.live_ok(string@, self.maximum_search_results as int, r@),
    {
        self.search_live_n(string, self.maximum_search_results)
    }

    /// Some entry's key set holds `k`.
    pub open spec fn dump_member(self, k: usize) -> bool {
        cand_keys_upto(self.entries@, self.entries@.len() as int, k)
    }

    /// What the dump sentinel returns: every indexed key, ascending,
    /// truncated to `max` from below.
    pub open spec fn dump_ok(self, max: int, r: Seq<usize>) -> bool {
        &&& ascending(r)
        &&& forall|a: int| 0 <= a < r.len() ==> self.dump_member(#[trigger] r[a])
        &&& r.len() <= max
        &&& forall|k: usize|
            #[trigger] self.dump_member(k) ==> r.contains(k) || (r.len() == max && forall|a: int|
                0 <= a < r.len() ==> r[a] < k)
    }

    /// Collect every indexed key, ascending, truncated to `max`.
    fn dump_all(&self, max: usize) -> (r: Vec<usize>)
        requires
            self.wf(),
        ensures
            self.dump_ok(max as int, r@),
    {
        let n = self.entries.len();
        let mut u: Vec<usize> = Vec::new();
        let mut a: usize = 0;
        while a < n
            invariant
                a <= n,
                n == self.entries@.len(),
                self.wf(),
                ascending(u@),
                forall|k: usize|
                    #[trigger] u@.contains(k) <==> cand_keys_upto(self.entries@, a as int, k),
            decreases n - a,
        {
            let keys = &self.entries[a].keys;
            let mut j: usize = 0;
            proof {
                assert(keys@.take(0) =~= Seq::<usize>::empty());
            }
            while j < keys.len()
                invariant
                    j <= keys@.len(),
                    a < n,
                    n == self.entries@.len(),
                    keys@ == self.entries@[a as int].keys@,
                    self.wf(),
                    ascending(u@),
                    forall|k: usize|
                        #[trigger] u@.contains(k) <==> (cand_keys_upto(self.entries@, a as int, k)
                            || keys@.take(j as int).contains(k)),
                decreases keys@.len() - j,
            {
                let ghost old_u = u@;
                let k0 = keys[j];
                proof {
                    assert(keys@.take(j as int).push(keys@[j as int]) =~= keys@.take(j + 1));
                    assert forall|k: usize| #[trigger] keys@.take(j + 1).contains(k) implies (keys@
                        .take(j as int).contains(k) || k == k0) by {
                        let m = choose|m: int| 0 <= m < j + 1 && #[trigger] keys@.take(j + 1)[m]
                            == k;
                        if m < j {
                            assert(keys@.take(j as int)[m] == k);
                        }
                    }
                    assert forall|k: usize| keys@.take(j as int).contains(k) implies keys@.take(
                        j + 1,
                    ).contains(k) by {
                        let m = choose|m: int| 0 <= m < j && #[trigger] keys@.take(j as int)[m]
                            == k;
                        assert(keys@.take(j + 1)[m] == k);
                    }
                    assert(keys@.take(j + 1).contains(k0)) by {
                        assert(keys@.take(j + 1)[j as int] == k0);
                    }
                }
                crate::keyset::keys_insert(&mut u, k0);
                proof {
                    crate::keyset::lemma_key_inserted_props(old_u, k0);
                    assert forall|k: usize| #[trigger] u@.contains(k) <==> (cand_keys_upto(
                        self.entries@,
                        a as int,
                        k,
                    ) || keys@.take(j + 1).contains(k)) by {
                        if k == k0 {
                            assert(u@.contains(k0));
                        } else {
                            assert(keys@.take(j + 1).contains(k) == keys@.take(
                                j as int,
                            ).contains(k));
                            assert(u@.contains(k) == old_u.contains(k));
                        }
                    }
                }
                j = j + 1;
            }
            proof {
                assert(keys@.take(keys@.len() as int) =~= keys@);
                assert forall|k: usize| #[trigger] u@.contains(k) <==> cand_keys_upto(
                    self.entries@,
                    a + 1,
                    k,
                ) by {
                    if cand_keys_upto(self.entries@, a as int, k) {
                        let b = choose|b: int|
                            0 <= b < a && (#[trigger] self.entries@[b]).keys@.contains(k);
                        assert(cand_keys_upto(self.entries@, a + 1, k));
                    }
                    if keys@.contains(k) {
                        assert(self.entries@[a as int].keys@.contains(k));
                        assert(cand_keys_upto(self.entries@, a + 1, k));
                    }
                    if cand_keys_upto(self.entries@, a + 1, k) {
                        let b = choose|b: int|
                            0 <= b < a + 1 && (#[trigger] self.entries@[b]).keys@.contains(k);
                        if b < a {
                            assert(cand_keys_upto(self.entries@, a as int, k));
                        } else {
                            assert(keys@.contains(k));
                        }
                    }
                }
            }
            a = a + 1;
        }
        let end: usize = if u.len() <= max {
            u.len()
        } else {
            max
        };
        let mut r: Vec<usize> = Vec::new();
        let mut i: usize = 0;
        while i < end
            invariant
                i <= end,
                end <= u@.len(),
                r@.len() == i,
                forall|j: int| 0 <= j < i ==> r@[j] == u@[j],
            decreases end - i,
        {
            r.push(u[i]);
            i = i + 1;
        }
        proof {
            let rv = r@;
            assert forall|a2: int, b2: int| 0 <= a2 < b2 < rv.len() implies rv[a2] < rv[b2] by {
                assert(rv[a2] == u@[a2]);
                assert(rv[b2] == u@[b2]);
            }
            assert forall|a2: int| 0 <= a2 < rv.len() implies self.dump_member(
                #[trigger] rv[a2],
            ) by {
                assert(u@.contains(u@[a2]));
            }
            assert forall|k: usize| #[trigger] self.dump_member(k) implies rv.contains(k) || (rv
                .len() == max && forall|a2: int| 0 <= a2 < rv.len() ==> rv[a2] < k) by {
                assert(u@.contains(k));
                let m = choose|m: int| 0 <= m < u@.len() && u@[m] == k;
                if m < end {
                    assert(rv[m] == k);
                    assert(rv.contains(k));
                } else {
                    assert(rv.len() == max);
                    assert forall|a2: int| 0 <= a2 < rv.len() implies rv[a2] < k by {
                        assert(rv[a2] == u@[a2]);
                        assert(u@[a2] < u@[m]);
                    }
                }
            }
        }
        r
    }

    /// The query is the configured dump sentinel.
    pub open spec fn is_dump_query(self, q: Seq<char>) -> bool {
        match self.dump_keyword {
            Some(d) => d@ == q,
            None => false,
        }
    }

    /// What a search returns: all keys for the dump sentinel; otherwise the
    /// configured combinator's result, truncated to `max`.
    pub open spec fn search_ok(
        self,
        st: crate::types::SearchType,
        max: usize,
        q: Seq<char>,
        r: Seq<usize>,
    ) -> bool {
        if self.is_dump_query(q) {
            self.dump_ok(max as int, r)
        } else {
            match st {
                crate::types::SearchType::Keyword => r == take_at_most(
                    self.exact_keys(self.normalize_text(q)),
                    max,
                ),
                crate::types::SearchType::Or => self.or_ok(
                    self.text_tokens(q, false),
                    max as int,
                    r,
                ),
                crate::types::SearchType::And => r == take_at_most(
                    self.and_result(self.text_tokens(q, false)),
                    max,
                ),
                crate::types::SearchType::Live => self.live_ok(q, max as int, r),
            }
        }
    }

    /// Search under an explicit combinator and result cap.
    pub fn search_with(
        &self,
        search_type: &crate::types::SearchType,
        maximum_search_results: &usize,
        string: &str,
    ) -> (r: Vec<usize>)
        requires
            self.wf(),
        ensures
            self.search_ok(*search_type, *maximum_search_results, string@, r@),
    {
        let max = *maximum_search_results;
        if let Some(d) = &self.dump_keyword {
            if str_eq(string, d.as_str()) {
                return self.dump_all(max);
            }
        }
        match search_type {
            crate::types::SearchType::Keyword => {
                let norm = self.normalize_exec(string);
                let mut v = self.internal_keyword_search(norm.as_str());
                let ghost full = v@;
                v.truncate(max);
                proof {
                    assert(v@ =~= take_at_most(full, max));
                }
                v
            },
            crate::types::SearchType::Or => {
                let keywords = self.string_keywords(string, false);
                self.internal_or_search(&keywords, max)
            },
            crate::types::SearchType::And => {
                let keywords = self.string_keywords(string, false);
                let mut v = self.internal_and_search(&keywords);
                let ghost full = v@;
                v.truncate(max);
                proof {
                    assert(v@ =~= take_at_most(full, max));
                }
                v
            },
            crate::types::SearchType::Live => self.search_live_n(string, max),
        }
    }

    /// Search under an explicit combinator, at the configured result cap.
    pub fn search_type(
        &self,
        search_type: &crate::types::SearchType,
        string: &str,
    ) -> (r: Vec<usize>)
        requires
            self.wf(),
        ensures
            self.search_ok(*search_type, self.maximum_search_results, string@, r@),
    {
        let n = self.maximum_search_results;
        self.search_with(search_type, &n, string)
    }

    /// Search under the configured combinator and result cap.
    pub fn search(&self, string: &str) -> (r: Vec<usize>)
        requires
            self.wf(),
        ensures
            self.search_ok(self.search_type, self.maximum_search_results, string@, r@),
    {
        let t = self.search_type;
        let n = self.maximum_search_results;
        self.search_with(&t, &n, string)
    }
}

/// In a key-sorted record list, the lookup of an element's key yields its
/// count.
proof fn lemma_kc_elem_lookup(acc: Seq<KeyCount>, i: int)
    requires
        sorted_kc(acc),
        0 <= i < acc.len(),
    ensures
        kc_lookup(acc, acc[i].key) == Some(acc[i].count),
{
    assert forall|j: int| 0 <= j < i implies (#[trigger] acc[j]).key != acc[i].key by {
        assert(acc[j].key < acc[i].key);
    }
    lemma_kc_lookup_at(acc, acc[i].key, i);
}

/// Truncation keeps ascending order, and its members are members of the
/// source.
pub proof fn lemma_take_at_most_ascending(s: Seq<usize>, n: usize)
    requires
        ascending(s),
    ensures
        ascending(take_at_most(s, n)),
        forall|x: usize| take_at_most(s, n).contains(x) ==> s.contains(x),
{
    let t = take_at_most(s, n);
    assert forall|a: int, b: int| 0 <= a < b < t.len() implies t[a] < t[b] by {
        assert(t[a] == s[a]);
        assert(t[b] == s[b]);
    }
    assert forall|x: usize| t.contains(x) implies s.contains(x) by {
        let i = choose|i: int| 0 <= i < t.len() && t[i] == x;
        assert(s[i] == x);
    }
}

} // verus!
