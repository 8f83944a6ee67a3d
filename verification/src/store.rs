//! The inverted store's primitive operations: adding a key under a keyword,
//! removing one, and the lemmas that relate a changed entry list to the
//! lookups over it.

use vstd::prelude::*;
use crate::keyset::{ascending, key_inserted, key_removed, keys_contains, keys_insert, keys_remove};
use crate::order::{lex_lt, lemma_lex_connected, lemma_lex_irrefl, lemma_lex_trans};
use crate::search_index::{kw_lookup, Entry, SearchIndex};
use crate::order::str_lex_lt;
use crate::order::str_eq;

verus! {

/// What `add` leaves under a keyword: the key joins the set unless the set is
/// full; a missing set is created when the cap admits one key.
pub open spec fn added_set(ks: Option<Seq<usize>>, key: usize, cap: usize) -> Option<Seq<usize>> {
    match ks {
        None => if cap >= 1 {
            Some(seq![key])
        } else {
            None
        },
        Some(s) => if s.contains(key) {
            Some(s)
        } else if s.len() < cap {
            Some(key_inserted(s, key))
        } else {
            Some(s)
        },
    }
}

/// What `remove` leaves under a keyword: the key leaves the set, and a set
/// emptied by that leaves the index entirely.
pub open spec fn removed_set(ks: Option<Seq<usize>>, key: usize) -> Option<Seq<usize>> {
    match ks {
        None => None,
        Some(s) => {
            let r = key_removed(s, key);
            if r.len() == 0 {
                None
            } else {
                Some(r)
            }
        },
    }
}

/// The single-keyword update relation: `post` looks up as `pre` everywhere
/// but at `kw`, where the key was added.
pub open spec fn add_pointwise(
    pre: Seq<Entry>,
    post: Seq<Entry>,
    kw: Seq<char>,
    key: usize,
    cap: usize,
) -> bool {
    forall|w: Seq<char>|
        #[trigger] kw_lookup(post, w) == if w == kw {
            added_set(kw_lookup(pre, w), key, cap)
        } else {
            kw_lookup(pre, w)
        }
}

/// The single-keyword removal relation: `post` looks up as `pre` everywhere
/// but at `kw`, where the key was removed.
pub open spec fn remove_pointwise(
    pre: Seq<Entry>,
    post: Seq<Entry>,
    kw: Seq<char>,
    key: usize,
) -> bool {
    forall|w: Seq<char>|
        #[trigger] kw_lookup(post, w) == if w == kw {
            removed_set(kw_lookup(pre, w), key)
        } else {
            kw_lookup(pre, w)
        }
}

/// The multi-keyword insertion relation: `post` looks up as `pre`
/// everywhere, except that `key` was added under every keyword of `toks`.
pub open spec fn inserted_pointwise(
    pre: Seq<Entry>,
    post: Seq<Entry>,
    toks: Seq<Seq<char>>,
    key: usize,
    cap: usize,
) -> bool {
    forall|w: Seq<char>|
        #[trigger] kw_lookup(post, w) == if toks.contains(w) {
            added_set(kw_lookup(pre, w), key, cap)
        } else {
            kw_lookup(pre, w)
        }
}

/// The multi-keyword removal relation: `post` looks up as `pre` everywhere,
/// except that `key` was removed under every keyword of `toks`.
pub open spec fn removed_pointwise(
    pre: Seq<Entry>,
    post: Seq<Entry>,
    toks: Seq<Seq<char>>,
    key: usize,
) -> bool {
    forall|w: Seq<char>|
        #[trigger] kw_lookup(post, w) == if toks.contains(w) {
            removed_set(kw_lookup(pre, w), key)
        } else {
            kw_lookup(pre, w)
        }
}

/// Adding a key a second time changes nothing more.
pub proof fn lemma_added_set_idempotent(ks: Option<Seq<usize>>, key: usize, cap: usize)
    ensures
        added_set(added_set(ks, key, cap), key, cap) == added_set(ks, key, cap),
{
    match ks {
        None => {},
        Some(s) => {
            if !s.contains(key) && s.len() < cap {
                crate::keyset::lemma_key_inserted_contains_self(s, key);
            }
        },
    }
}

/// Pointwise insertions compose: the keywords accumulate.
pub proof fn lemma_inserted_compose(
    pre: Seq<Entry>,
    mid: Seq<Entry>,
    post: Seq<Entry>,
    toks1: Seq<Seq<char>>,
    toks2: Seq<Seq<char>>,
    key: usize,
    cap: usize,
)
    requires
        inserted_pointwise(pre, mid, toks1, key, cap),
        inserted_pointwise(mid, post, toks2, key, cap),
    ensures
        inserted_pointwise(pre, post, toks1 + toks2, key, cap),
{
    let both = toks1 + toks2;
    assert forall|w: Seq<char>| #[trigger] kw_lookup(post, w) == if both.contains(w) {
        added_set(kw_lookup(pre, w), key, cap)
    } else {
        kw_lookup(pre, w)
    } by {
        assert(kw_lookup(mid, w) == if toks1.contains(w) {
            added_set(kw_lookup(pre, w), key, cap)
        } else {
            kw_lookup(pre, w)
        });
        lemma_concat_contains(toks1, toks2, w);
        if toks1.contains(w) && toks2.contains(w) {
            lemma_added_set_idempotent(kw_lookup(pre, w), key, cap);
        }
    }
}

/// Membership in a concatenation is membership in either part.
pub proof fn lemma_concat_contains<A>(a: Seq<A>, b: Seq<A>, x: A)
    ensures
        (a + b).contains(x) <==> (a.contains(x) || b.contains(x)),
{
    if (a + b).contains(x) {
        let i = choose|i: int| 0 <= i < (a + b).len() && (a + b)[i] == x;
        if i < a.len() {
            assert(a[i] == x);
        } else {
            assert(b[i - a.len()] == x);
        }
    }
    if a.contains(x) {
        let i = choose|i: int| 0 <= i < a.len() && a[i] == x;
        assert((a + b)[i] == x);
    }
    if b.contains(x) {
        let i = choose|i: int| 0 <= i < b.len() && b[i] == x;
        assert((a + b)[a.len() + i] == x);
    }
}

/// In a well-formed entry list every stored key set is ascending and
/// non-empty.
pub proof fn lemma_wf_lookup_ascending(s: SearchIndex, w: Seq<char>)
    requires
        s.wf(),
        kw_lookup(s.entries@, w) is Some,
    ensures
        ascending(kw_lookup(s.entries@, w)->Some_0),
        kw_lookup(s.entries@, w)->Some_0.len() > 0,
{
    crate::search_index::lemma_kw_lookup_found(s.entries@, w);
}

/// Replacing the keys of one entry changes no other keyword's lookup.
proof fn lemma_lookup_update_at(pre: Seq<Entry>, post: Seq<Entry>, i: int)
    requires
        pre.len() == post.len(),
        0 <= i < pre.len(),
        forall|j: int| 0 <= j < pre.len() && j != i ==> post[j] == pre[j],
        post[i].keyword@ == pre[i].keyword@,
    ensures
        forall|w: Seq<char>|
            w != pre[i].keyword@ ==> kw_lookup(post, w) == kw_lookup(pre, w),
    decreases pre.len(),
{
    if i == 0 {
        assert(post.skip(1) =~= pre.skip(1));
    } else {
        assert(post[0] == pre[0]);
        let pre_t = pre.skip(1);
        let post_t = post.skip(1);
        assert(forall|j: int| 0 <= j < pre_t.len() && j != i - 1 ==> post_t[j] == pre_t[j]);
        lemma_lookup_update_at(pre_t, post_t, i - 1);
        assert forall|w: Seq<char>| w != pre[i].keyword@ implies kw_lookup(post, w) == kw_lookup(
            pre,
            w,
        ) by {
            if pre[0].keyword@ != w {
                assert(kw_lookup(post_t, w) == kw_lookup(pre_t, w));
            }
        }
    }
}

/// Inserting an entry whose keyword no earlier entry holds changes no other
/// keyword's lookup and makes its own keys findable.
proof fn lemma_lookup_insert_at(pre: Seq<Entry>, e: Entry, i: int)
    requires
        0 <= i <= pre.len(),
        forall|j: int| 0 <= j < i ==> pre[j].keyword@ != e.keyword@,
    ensures
        forall|w: Seq<char>|
            w != e.keyword@ ==> kw_lookup(pre.insert(i, e), w) == kw_lookup(pre, w),
        kw_lookup(pre.insert(i, e), e.keyword@) == Some(e.keys@),
    decreases i,
{
    let post = pre.insert(i, e);
    if i == 0 {
        assert(post[0] == e);
        assert(post.skip(1) =~= pre);
    } else {
        assert(post[0] == pre[0]);
        let pre_t = pre.skip(1);
        let post_t = post.skip(1);
        assert(post_t =~= pre_t.insert(i - 1, e));
        assert(forall|j: int| 0 <= j < i - 1 ==> pre_t[j].keyword@ != e.keyword@);
        lemma_lookup_insert_at(pre_t, e, i - 1);
        assert(pre[0].keyword@ != e.keyword@);
        assert forall|w: Seq<char>| w != e.keyword@ implies kw_lookup(post, w) == kw_lookup(
            pre,
            w,
        ) by {
            if pre[0].keyword@ != w {
                assert(kw_lookup(post_t, w) == kw_lookup(pre_t, w));
            }
        }
    }
}

/// Removing the only entry that holds a keyword erases that keyword's lookup
/// and changes no other.
proof fn lemma_lookup_remove_at(pre: Seq<Entry>, i: int)
    requires
        0 <= i < pre.len(),
        forall|j: int| 0 <= j < pre.len() && j != i ==> pre[j].keyword@ != pre[i].keyword@,
    ensures
        forall|w: Seq<char>|
            w != pre[i].keyword@ ==> kw_lookup(pre.remove(i), w) == kw_lookup(pre, w),
        kw_lookup(pre.remove(i), pre[i].keyword@) is None,
    decreases i,
{
    let post = pre.remove(i);
    if i == 0 {
        assert(post =~= pre.skip(1));
        assert forall|j: int| 0 <= j < post.len() implies post[j].keyword@
            != pre[0].keyword@ by {
            assert(post[j] == pre[j + 1]);
        }
        crate::search_index::lemma_kw_lookup_absent(post, pre[0].keyword@);
    } else {
        assert(post[0] == pre[0]);
        let pre_t = pre.skip(1);
        let post_t = post.skip(1);
        assert(post_t =~= pre_t.remove(i - 1));
        assert(forall|j: int|
            0 <= j < pre_t.len() && j != i - 1 ==> (#[trigger] pre_t[j]).keyword@ != pre_t[i
                - 1].keyword@);
        lemma_lookup_remove_at(pre_t, i - 1);
        assert(pre[0].keyword@ != pre[i].keyword@);
        assert(pre_t[i - 1] == pre[i]);
        assert forall|w: Seq<char>| w != pre[i].keyword@ implies kw_lookup(post, w) == kw_lookup(
            pre,
            w,
        ) by {
            if pre[0].keyword@ != w {
                assert(kw_lookup(post_t, w) == kw_lookup(pre_t, w));
            }
        }
    }
}

impl SearchIndex {
    /// Add `key` under `keyword`, creating the keyword as needed; a set
    /// already at the configured cap is left alone.
    pub(crate) fn add_keyword_key(&mut self, keyword: &String, key: usize)
        requires
            old(self).wf(),
        ensures
            final(self).wf(),
            old(self).same_config(*final(self)),
            add_pointwise(
                old(self).entries@,
                final(self).entries@,
                keyword@,
                key,
                old(self).maximum_keys_per_keyword,
            ),
    {
        let ghost pre = self.entries@;
        let n = self.entries.len();
        let mut i: usize = 0;
        loop
            invariant
                self == old(self),
                n == self.entries@.len(),
                i <= n,
                forall|j: int| 0 <= j < i ==> lex_lt(self.entries@[j].keyword@, keyword@),
            ensures
                self == old(self),
                i <= n,
                forall|j: int| 0 <= j < i ==> lex_lt(self.entries@[j].keyword@, keyword@),
                i < n ==> !lex_lt(self.entries@[i as int].keyword@, keyword@),
            decreases n - i,
        {
            if i == n {
                break ;
            }
            if !str_lex_lt(self.entries[i].keyword.as_str(), keyword.as_str()) {
                break ;
            }
            i = i + 1;
        }
        proof {
            assert forall|j: int| 0 <= j < i implies pre[j].keyword@ != keyword@ by {
                if pre[j].keyword@ == keyword@ {
                    lemma_lex_irrefl(keyword@);
                }
            }
        }
        if i < n && str_eq(self.entries[i].keyword.as_str(), keyword.as_str()) {
            // the keyword is present at position i
            proof {
                crate::search_index::lemma_kw_lookup_at(pre, keyword@, i as int);
            }
            let entry = self.entries.remove(i);
            let Entry { keyword: kw_own, keys: mut ks } = entry;
            let ghost old_ks = ks@;
            if !keys_contains(&ks, key) && ks.len() < self.maximum_keys_per_keyword {
                keys_insert(&mut ks, key);
            }
            self.entries.insert(i, Entry { keyword: kw_own, keys: ks });
            proof {
                let post = self.entries@;
                assert(post =~= pre.remove(i as int).insert(i as int, Entry {
                    keyword: pre[i as int].keyword,
                    keys: self.entries@[i as int].keys,
                }));
                assert(post.len() == pre.len());
                assert(forall|j: int| 0 <= j < pre.len() && j != i ==> post[j] == pre[j]);
                assert(post[i as int].keyword@ == pre[i as int].keyword@);
                lemma_lookup_update_at(pre, post, i as int);
                crate::search_index::lemma_kw_lookup_at(post, keyword@, i as int);
                crate::keyset::lemma_key_inserted_props(old_ks, key);
                assert(kw_lookup(post, keyword@) == added_set(
                    kw_lookup(pre, keyword@),
                    key,
                    old(self).maximum_keys_per_keyword,
                ));
                assert forall|a: int, b: int| 0 <= a < b < post.len() implies lex_lt(
                    post[a].keyword@,
                    post[b].keyword@,
                ) by {
                    assert(post[a].keyword@ == pre[a].keyword@);
                    assert(post[b].keyword@ == pre[b].keyword@);
                }
            }
        } else {
            // the keyword is absent; position i is its sorted slot
            proof {
                assert forall|j: int| i <= j < n implies pre[j].keyword@ != keyword@ by {
                    if j > i && pre[j].keyword@ == keyword@ {
                        assert(lex_lt(pre[i as int].keyword@, pre[j].keyword@));
                    }
                }
                crate::search_index::lemma_kw_lookup_absent(pre, keyword@);
            }
            if self.maximum_keys_per_keyword >= 1 {
                let mut ks: Vec<usize> = Vec::new();
                ks.push(key);
                let e = Entry { keyword: keyword.clone(), keys: ks };
                proof {
                    lemma_lookup_insert_at(pre, e, i as int);
                }
                self.entries.insert(i, e);
                proof {
                    let post = self.entries@;
                    assert(kw_lookup(post, keyword@) == Some(seq![key]));
                    assert forall|a: int, b: int| 0 <= a < b < post.len() implies lex_lt(
                        post[a].keyword@,
                        post[b].keyword@,
                    ) by {
                        if a < i && b == i {
                        } else if a == i && b > i {
                            if i < n {
                                if !lex_lt(keyword@, pre[i as int].keyword@) {
                                    lemma_lex_connected(keyword@, pre[i as int].keyword@);
                                }
                                if b > i + 1 {
                                    lemma_lex_trans(
                                        keyword@,
                                        pre[i as int].keyword@,
                                        pre[b - 1].keyword@,
                                    );
                                }
                            }
                        } else if a < i && b > i {
                            assert(post[a].keyword@ == pre[a].keyword@);
                            assert(post[b].keyword@ == pre[b - 1].keyword@);
                            if b - 1 > a {
                            } else {
                                assert(b - 1 == a && a < i);
                                lemma_lex_irrefl(pre[a].keyword@);
                            }
                        } else {
                            assert(post[a].keyword@ == pre[if a < i {
                                a
                            } else {
                                a - 1
                            }].keyword@);
                        }
                    }
                    assert(ascending(seq![key]));
                }
            }
        }
    }

    /// Remove `key` from under `keyword`; a keyword whose set empties leaves
    /// the index entirely.
    pub(crate) fn remove_keyword_key(&mut self, keyword: &String, key: usize)
        requires
            old(self).wf(),
        ensures
            final(self).wf(),
            old(self).same_config(*final(self)),
            remove_pointwise(old(self).entries@, final(self).entries@, keyword@, key),
    {
        let ghost pre = self.entries@;
        let n = self.entries.len();
        let mut i: usize = 0;
        loop
            invariant
                self == old(self),
                n == self.entries@.len(),
                i <= n,
                forall|j: int| 0 <= j < i ==> self.entries@[j].keyword@ != keyword@,
            ensures
                self == old(self),
                i <= n,
                forall|j: int| 0 <= j < i ==> self.entries@[j].keyword@ != keyword@,
                i < n ==> self.entries@[i as int].keyword@ == keyword@,
            decreases n - i,
        {
            if i == n {
                break ;
            }
            if str_eq(self.entries[i].keyword.as_str(), keyword.as_str()) {
                break ;
            }
            i = i + 1;
        }
        if i == n {
            proof {
                crate::search_index::lemma_kw_lookup_absent(pre, keyword@);
            }
            return ;
        }
        proof {
            crate::search_index::lemma_kw_lookup_at(pre, keyword@, i as int);
        }
        let entry = self.entries.remove(i);
        let Entry { keyword: kw_own, keys: mut ks } = entry;
        let ghost old_ks = ks@;
        keys_remove(&mut ks, key);
        proof {
            crate::keyset::lemma_key_removed_props(old_ks, key);
        }
        if ks.len() == 0 {
            // the keyword's set emptied: the entry stays out
            proof {
                let post = self.entries@;
                assert(post =~= pre.remove(i as int));
                assert forall|j: int| 0 <= j < pre.len() && j != i implies pre[j].keyword@
                    != pre[i as int].keyword@ by {
                    crate::search_index::lemma_wf_keywords_distinct(*old(self), j, i as int);
                }
                lemma_lookup_remove_at(pre, i as int);
                assert forall|a: int, b: int| 0 <= a < b < post.len() implies lex_lt(
                    post[a].keyword@,
                    post[b].keyword@,
                ) by {
                    let pa: int = if a < i {
                        a
                    } else {
                        a + 1
                    };
                    let pb: int = if b < i {
                        b
                    } else {
                        b + 1
                    };
                    assert(post[a] == pre[pa]);
                    assert(post[b] == pre[pb]);
                }
            }
        } else {
            self.entries.insert(i, Entry { keyword: kw_own, keys: ks });
            proof {
                let post = self.entries@;
                assert(post.len() == pre.len());
                assert(forall|j: int| 0 <= j < pre.len() && j != i ==> post[j] == pre[j]);
                assert(post[i as int].keyword@ == pre[i as int].keyword@);
                lemma_lookup_update_at(pre, post, i as int);
                crate::search_index::lemma_kw_lookup_at(post, keyword@, i as int);
                assert forall|a: int, b: int| 0 <= a < b < post.len() implies lex_lt(
                    post[a].keyword@,
                    post[b].keyword@,
                ) by {
                    assert(post[a].keyword@ == pre[a].keyword@);
                    assert(post[b].keyword@ == pre[b].keyword@);
                }
            }
        }
    }
}

} // verus!
