//! Removing a record: its text is re-tokenized and the record's key leaves
//! every resulting keyword's set; keywords whose sets empty leave entirely.

use vstd::prelude::*;
use crate::keyset::ascending;
use crate::search_index::{kw_lookup, Entry, SearchIndex};
use crate::store::{remove_pointwise, removed_pointwise, removed_set};
use crate::tokenizer::str_views;
use crate::types::Indexable;

verus! {

/// Every stored key set of `entries` is ascending.
pub open spec fn lookups_ascending(entries: Seq<Entry>) -> bool {
    forall|w: Seq<char>|
        (#[trigger] kw_lookup(entries, w)) is Some ==> ascending(kw_lookup(entries, w)->Some_0)
}

/// A well-formed index stores ascending key sets.
pub proof fn lemma_wf_lookups_ascending(s: SearchIndex)
    requires
        s.wf(),
    ensures
        lookups_ascending(s.entries@),
{
    assert forall|w: Seq<char>| (#[trigger] kw_lookup(s.entries@, w)) is Some implies ascending(
        kw_lookup(s.entries@, w)->Some_0,
    ) by {
        crate::search_index::lemma_kw_lookup_found(s.entries@, w);
    }
}

/// Removing a key a second time changes nothing more.
pub proof fn lemma_removed_set_idempotent(ks: Option<Seq<usize>>, key: usize)
    requires
        ks is Some ==> ascending(ks->Some_0),
    ensures
        removed_set(removed_set(ks, key), key) == removed_set(ks, key),
{
    match ks {
        None => {},
        Some(s) => {
            crate::keyset::lemma_key_removed_props(s, key);
            let r = crate::keyset::key_removed(s, key);
            if r.len() > 0 {
                assert forall|j: int| 0 <= j < r.len() implies r[j] != key by {
                    assert(r.contains(r[j]));
                }
                crate::keyset::lemma_key_removed_absent(r, key);
            }
        },
    }
}

/// Pointwise removals compose: the keywords accumulate.
pub proof fn lemma_removed_compose(
    pre: Seq<Entry>,
    mid: Seq<Entry>,
    post: Seq<Entry>,
    toks1: Seq<Seq<char>>,
    toks2: Seq<Seq<char>>,
    key: usize,
)
    requires
        lookups_ascending(pre),
        removed_pointwise(pre, mid, toks1, key),
        removed_pointwise(mid, post, toks2, key),
    ensures
        removed_pointwise(pre, post, toks1 + toks2, key),
{
    let both = toks1 + toks2;
    assert forall|w: Seq<char>| #[trigger] kw_lookup(post, w) == if both.contains(w) {
        removed_set(kw_lookup(pre, w), key)
    } else {
        kw_lookup(pre, w)
    } by {
        assert(kw_lookup(mid, w) == if toks1.contains(w) {
            removed_set(kw_lookup(pre, w), key)
        } else {
            kw_lookup(pre, w)
        });
        crate::store::lemma_concat_contains(toks1, toks2, w);
        if toks1.contains(w) && toks2.contains(w) {
            lemma_removed_set_idempotent(kw_lookup(pre, w), key);
        }
    }
}

impl SearchIndex {
    /// Remove `key` from under every one of the given keyword tokens.
    fn remove_tokens(&mut self, key: &usize, tokens: &Vec<String>)
        requires
            old(self).wf(),
        ensures
            final(self).wf(),
            old(self).same_config(*final(self)),
            removed_pointwise(
                old(self).entries@,
                final(self).entries@,
                str_views(tokens@),
                *key,
            ),
    {
        let ghost tv = str_views(tokens@);
        let n = tokens.len();
        let mut i: usize = 0;
        proof {
            lemma_wf_lookups_ascending(*self);
            assert(tv.take(0) =~= Seq::<Seq<char>>::empty());
            assert forall|w: Seq<char>| #[trigger] kw_lookup(self.entries@, w) == if tv.take(
                0,
            ).contains(w) {
                removed_set(kw_lookup(old(self).entries@, w), *key)
            } else {
                kw_lookup(old(self).entries@, w)
            } by {
                if tv.take(0).contains(w) {
                    let m = choose|m: int| 0 <= m < 0 && tv.take(0)[m] == w;
                }
            }
        }
        while i < n
            invariant
                i <= n,
                n == tokens@.len(),
                tv == str_views(tokens@),
                self.wf(),
                old(self).same_config(*self),
                lookups_ascending(old(self).entries@),
                removed_pointwise(
                    old(self).entries@,
                    self.entries@,
                    tv.take(i as int),
                    *key,
                ),
            decreases n - i,
        {
            let ghost mid = self.entries@;
            self.remove_keyword_key(&tokens[i], *key);
            proof {
                let w0 = tv[i as int];
                assert(remove_pointwise(mid, self.entries@, w0, *key));
                assert(removed_pointwise(mid, self.entries@, seq![w0], *key)) by {
                    assert forall|w: Seq<char>| #[trigger] kw_lookup(self.entries@, w) == if seq![
                        w0,
                    ].contains(w) {
                        removed_set(kw_lookup(mid, w), *key)
                    } else {
                        kw_lookup(mid, w)
                    } by {
                        if seq![w0].contains(w) {
                            assert(w == w0);
                        }
                        if w == w0 {
                            assert(seq![w0][0] == w);
                        }
                    }
                }
                lemma_removed_compose(
                    old(self).entries@,
                    mid,
                    self.entries@,
                    tv.take(i as int),
                    seq![w0],
                    *key,
                );
                assert(tv.take(i as int) + seq![w0] =~= tv.take(i + 1));
            }
            i = i + 1;
        }
        proof {
            assert(tv.take(n as int) =~= tv);
        }
    }

    /// Unindex a record's text strings under `key`: every keyword token
    /// they yield, whole-string mode on, loses the key.
    pub fn remove_strings(&mut self, key: &usize, strings: &Vec<String>)
        requires
            old(self).wf(),
        ensures
            final(self).wf(),
            old(self).same_config(*final(self)),
            removed_pointwise(
                old(self).entries@,
                final(self).entries@,
                old(self).texts_tokens(str_views(strings@), true),
                *key,
            ),
    {
        let ghost sv = str_views(strings@);
        let mut tokens: Vec<String> = Vec::new();
        let mut i: usize = 0;
        proof {
            assert(str_views(tokens@) =~= self.texts_tokens(sv.take(0), true));
        }
        while i < strings.len()
            invariant
                i <= strings@.len(),
                sv == str_views(strings@),
                self == old(self),
                self.wf(),
                str_views(tokens@) == self.texts_tokens(sv.take(i as int), true),
            decreases strings@.len() - i,
        {
            let mut toks = self.string_keywords(strings[i].as_str(), true);
            let ghost prev = str_views(tokens@);
            let ghost added = str_views(toks@);
            tokens.append(&mut toks);
            proof {
                assert(str_views(tokens@) =~= prev + added);
                assert(sv.take(i + 1).drop_last() =~= sv.take(i as int));
                assert(sv.take(i + 1).last() == sv[i as int]);
            }
            i = i + 1;
        }
        proof {
            assert(sv.take(strings@.len() as int) =~= sv);
        }
        self.remove_tokens(key, &tokens);
    }

    /// Unindex one string of a record's text under `key`: every keyword
    /// token the text yields, whole-string mode on, loses the key.
    pub fn remove_text(&mut self, key: &usize, text: &str)
        requires
            old(self).wf(),
        ensures
            final(self).wf(),
            old(self).same_config(*final(self)),
            removed_pointwise(
                old(self).entries@,
                final(self).entries@,
                old(self).text_tokens(text@, true),
                *key,
            ),
    {
        let toks = self.string_keywords(text, true);
        self.remove_tokens(key, &toks);
    }

    /// Remove a record: every string of its text is unindexed under `key`.
    /// The record must yield the same strings it yielded at insertion, or
    /// stale entries remain.
    pub fn remove<T: Indexable>(&mut self, key: &usize, value: &T)
        requires
            old(self).wf(),
        ensures
            final(self).wf(),
            old(self).same_config(*final(self)),
            exists|toks: Seq<Seq<char>>|
                removed_pointwise(old(self).entries@, final(self).entries@, toks, *key),
    {
        let strings = value.strings();
        self.remove_strings(key, &strings);
        proof {
            assert(removed_pointwise(
                old(self).entries@,
                self.entries@,
                old(self).texts_tokens(str_views(strings@), true),
                *key,
            ));
        }
    }

    /// Replace a record's indexed text: remove what `before` yields, then
    /// insert what `after` yields, under the same key.
    pub fn replace<T: Indexable>(&mut self, key: &usize, before: &T, after: &T)
        requires
            old(self).wf(),
        ensures
            final(self).wf(),
            old(self).same_config(*final(self)),
            exists|toks_r: Seq<Seq<char>>, toks_i: Seq<Seq<char>>, mid: Seq<Entry>|
                removed_pointwise(old(self).entries@, mid, toks_r, *key)
                    && crate::store::inserted_pointwise(
                    mid,
                    final(self).entries@,
                    toks_i,
                    *key,
                    old(self).maximum_keys_per_keyword,
                ),
    {
        self.remove(key, before);
        let ghost mid_self = *self;
        self.insert(key, after);
        proof {
            let toks_r = choose|toks: Seq<Seq<char>>|
                removed_pointwise(old(self).entries@, mid_self.entries@, toks, *key);
            let toks_i = choose|toks: Seq<Seq<char>>|
                crate::store::inserted_pointwise(
                    mid_self.entries@,
                    self.entries@,
                    toks,
                    *key,
                    mid_self.maximum_keys_per_keyword,
                );
            assert(mid_self.maximum_keys_per_keyword == old(self).maximum_keys_per_keyword);
            assert(removed_pointwise(old(self).entries@, mid_self.entries@, toks_r, *key));
            assert(crate::store::inserted_pointwise(
                mid_self.entries@,
                self.entries@,
                toks_i,
                *key,
                old(self).maximum_keys_per_keyword,
            ));
        }
    }
}

} // verus!
