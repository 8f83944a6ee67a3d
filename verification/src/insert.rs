//! Inserting a record: its text is tokenized and the record's key joins
//! every resulting keyword's set.

use vstd::prelude::*;
use crate::search_index::SearchIndex;
use crate::store::{add_pointwise, added_set, inserted_pointwise, lemma_inserted_compose};
use crate::tokenizer::str_views;
use crate::types::Indexable;

verus! {

impl SearchIndex {
    /// Add `key` under every one of the given keyword tokens.
    fn add_tokens(&mut self, key: &usize, tokens: &Vec<String>)
        requires
            old(self).wf(),
        ensures
            final(self).wf(),
            old(self).same_config(*final(self)),
            inserted_pointwise(
                old(self).entries@,
                final(self).entries@,
                str_views(tokens@),
                *key,
                old(self).maximum_keys_per_keyword,
            ),
    {
        let ghost tv = str_views(tokens@);
        let n = tokens.len();
        let mut i: usize = 0;
        proof {
            assert(tv.take(0) =~= Seq::<Seq<char>>::empty());
            assert forall|w: Seq<char>| #[trigger] crate::search_index::kw_lookup(
                self.entries@,
                w,
            ) == if tv.take(0).contains(w) {
                added_set(
                    crate::search_index::kw_lookup(old(self).entries@, w),
                    *key,
                    old(self).maximum_keys_per_keyword,
                )
            } else {
                crate::search_index::kw_lookup(old(self).entries@, w)
            } by {
                if tv.take(0).contains(w) {
                    let m = choose|m: int| 0 <= m < 0 && tv.take(0)[m] == w;
                }
            }
        }
        while i < n
            invariant
                i <= n,
                n == tokens@.len(),
                tv == str_views(tokens@),
                self.wf(),
                old(self).same_config(*self),
                inserted_pointwise(
                    old(self).entries@,
                    self.entries@,
                    tv.take(i as int),
                    *key,
                    old(self).maximum_keys_per_keyword,
                ),
            decreases n - i,
        {
            let ghost mid = self.entries@;
            self.add_keyword_key(&tokens[i], *key);
            proof {
                let cap = old(self).maximum_keys_per_keyword;
                let w0 = tv[i as int];
                assert(add_pointwise(mid, self.entries@, w0, *key, cap));
                assert(inserted_pointwise(mid, self.entries@, seq![w0], *key, cap)) by {
                    assert forall|w: Seq<char>| #[trigger] crate::search_index::kw_lookup(
                        self.entries@,
                        w,
                    ) == if seq![w0].contains(w) {
                        added_set(crate::search_index::kw_lookup(mid, w), *key, cap)
                    } else {
                        crate::search_index::kw_lookup(mid, w)
                    } by {
                        if seq![w0].contains(w) {
                            assert(w == w0);
                        }
                        if w == w0 {
                            assert(seq![w0][0] == w);
                        }
                    }
                }
                lemma_inserted_compose(
                    old(self).entries@,
                    mid,
                    self.entries@,
                    tv.take(i as int),
                    seq![w0],
                    *key,
                    cap,
                );
                assert(tv.take(i as int) + seq![w0] =~= tv.take(i + 1));
            }
            i = i + 1;
        }
        proof {
            assert(tv.take(n as int) =~= tv);
        }
    }

    /// Index a record's text strings under `key`: every keyword token they
    /// yield, whole-string mode on, gains the key.
    pub fn insert_strings(&mut self, key: &usize, strings: &Vec<String>)
        requires
            old(self).wf(),
        ensures
            final(self).wf(),
            old(self).same_config(*final(self)),
            inserted_pointwise(
                old(self).entries@,
                final(self).entries@,
                old(self).texts_tokens(str_views(strings@), true),
                *key,
                old(self).maximum_keys_per_keyword,
            ),
    {
        let ghost sv = str_views(strings@);
        let mut tokens: Vec<String> = Vec::new();
        let mut i: usize = 0;
        proof {
            assert(str_views(tokens@) =~= self.texts_tokens(sv.take(0), true));
        }
        while i < strings.len()
            invariant
                i <= strings@.len(),
                sv == str_views(strings@),
                self == old(self),
                self.wf(),
                str_views(tokens@) == self.texts_tokens(sv.take(i as int), true),
            decreases strings@.len() - i,
        {
            let mut toks = self.string_keywords(strings[i].as_str(), true);
            let ghost prev = str_views(tokens@);
            let ghost added = str_views(toks@);
            tokens.append(&mut toks);
            proof {
                assert(str_views(tokens@) =~= prev + added);
                assert(sv.take(i + 1).drop_last() =~= sv.take(i as int));
                assert(sv.take(i + 1).last() == sv[i as int]);
            }
            i = i + 1;
        }
        proof {
            assert(sv.take(strings@.len() as int) =~= sv);
        }
        self.add_tokens(key, &tokens);
    }

    /// Index one string of a record's text under `key`: every keyword token
    /// the text yields, whole-string mode on, gains the key.
    pub fn insert_text(&mut self, key: &usize, text: &str)
        requires
            old(self).wf(),
        ensures
            final(self).wf(),
            old(self).same_config(*final(self)),
            inserted_pointwise(
                old(self).entries@,
                final(self).entries@,
                old(self).text_tokens(text@, true),
                *key,
                old(self).maximum_keys_per_keyword,
            ),
    {
        let toks = self.string_keywords(text, true);
        self.add_tokens(key, &toks);
    }

    /// Insert a record: every string of its text is indexed under `key`.
    /// The derived keyword set is what the record's `strings` returned this
    /// time; a deterministic `Indexable` makes `remove` its exact inverse.
    pub fn insert<T: Indexable>(&mut self, key: &usize, value: &T)
        requires
            old(self).wf(),
        ensures
            final(self).wf(),
            old(self).same_config(*final(self)),
            exists|toks: Seq<Seq<char>>|
                inserted_pointwise(
                    old(self).entries@,
                    final(self).entries@,
                    toks,
                    *key,
                    old(self).maximum_keys_per_keyword,
                ),
    {
        let strings = value.strings();
        self.insert_strings(key, &strings);
        proof {
            assert(inserted_pointwise(
                old(self).entries@,
                self.entries@,
                old(self).texts_tokens(str_views(strings@), true),
                *key,
                old(self).maximum_keys_per_keyword,
            ));
        }
    }
}

} // verus!
