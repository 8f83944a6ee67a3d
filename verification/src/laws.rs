//! The index's governing laws, proved once and for all: membership after
//! insertion and removal, idempotence of insertion, removal as the exact
//! inverse of insertion, the containment of `And` results in `Or` results,
//! and the rank discipline of `Or` search.

use vstd::prelude::*;
use crate::autocomplete::entry_view_seq;
use crate::keyset::{ascending, key_inserted, key_removed, take_at_most};
use crate::order::{lex_lt, lemma_lex_irrefl, lemma_lex_trans};
use crate::remove::lookups_ascending;
use crate::search_index::{entries_wf, kw_lookup, Entry, SearchIndex};
use crate::store::{added_set, inserted_pointwise, removed_pointwise, removed_set};

verus! {

/// `key` is not in the (possibly absent) key set.
pub open spec fn key_absent(ks: Option<Seq<usize>>, key: usize) -> bool {
    match ks {
        Some(s) => !s.contains(key),
        None => true,
    }
}

/// The (possibly absent) key set has room for `key` under `cap`: the key is
/// already present, or the set is below the cap.
pub open spec fn has_room(ks: Option<Seq<usize>>, key: usize, cap: usize) -> bool {
    match ks {
        Some(s) => s.contains(key) || s.len() < cap,
        None => cap >= 1,
    }
}

/// A well-formed keyword mapping is its lookups: two mappings that look up
/// alike hold the same keywords and key sets, in the same order.
pub proof fn lemma_entries_lookup_ext(a: Seq<Entry>, b: Seq<Entry>)
    requires
        entries_wf(a),
        entries_wf(b),
        forall|w: Seq<char>| #[trigger] kw_lookup(a, w) == kw_lookup(b, w),
    ensures
        entry_view_seq(a) == entry_view_seq(b),
    decreases a.len(),
{
    if a.len() == 0 && b.len() == 0 {
        assert(entry_view_seq(a) =~= entry_view_seq(b));
    } else if a.len() == 0 {
        crate::search_index::lemma_kw_lookup_at(b, b[0].keyword@, 0);
        crate::search_index::lemma_kw_lookup_absent(a, b[0].keyword@);
        assert(false);
    } else if b.len() == 0 {
        crate::search_index::lemma_kw_lookup_at(a, a[0].keyword@, 0);
        crate::search_index::lemma_kw_lookup_absent(b, a[0].keyword@);
        assert(false);
    } else {
        let akw = a[0].keyword@;
        let bkw = b[0].keyword@;
        crate::search_index::lemma_kw_lookup_at(a, akw, 0);
        crate::search_index::lemma_kw_lookup_at(b, bkw, 0);
        // each head keyword occurs in the other mapping, which is sorted,
        // so the heads agree
        assert(akw == bkw) by {
            assert(kw_lookup(b, akw) is Some);
            crate::search_index::lemma_kw_lookup_found(b, akw);
            let j = choose|j: int| 0 <= j < b.len() && b[j].keyword@ == akw && b[j].keys@
                == kw_lookup(b, akw)->Some_0;
            assert(kw_lookup(a, bkw) is Some);
            crate::search_index::lemma_kw_lookup_found(a, bkw);
            let i = choose|i: int| 0 <= i < a.len() && a[i].keyword@ == bkw && a[i].keys@
                == kw_lookup(a, bkw)->Some_0;
            if akw != bkw {
                assert(j != 0);
                assert(i != 0);
                assert(lex_lt(bkw, b[j].keyword@));
                assert(lex_lt(akw, a[i].keyword@));
                lemma_lex_trans(akw, bkw, akw);
                lemma_lex_irrefl(akw);
            }
        }
        assert(a[0].keys@ == b[0].keys@);
        let at = a.skip(1);
        let bt = b.skip(1);
        assert(entries_wf(at)) by {
            assert forall|i: int, j: int| 0 <= i < j < at.len() implies lex_lt(
                at[i].keyword@,
                at[j].keyword@,
            ) by {
                assert(at[i] == a[i + 1]);
                assert(at[j] == a[j + 1]);
            }
            assert forall|i: int| 0 <= i < at.len() implies ascending(#[trigger] at[i].keys@)
                && at[i].keys@.len() > 0 by {
                assert(at[i] == a[i + 1]);
            }
        }
        assert(entries_wf(bt)) by {
            assert forall|i: int, j: int| 0 <= i < j < bt.len() implies lex_lt(
                bt[i].keyword@,
                bt[j].keyword@,
            ) by {
                assert(bt[i] == b[i + 1]);
                assert(bt[j] == b[j + 1]);
            }
            assert forall|i: int| 0 <= i < bt.len() implies ascending(#[trigger] bt[i].keys@)
                && bt[i].keys@.len() > 0 by {
                assert(bt[i] == b[i + 1]);
            }
        }
        assert forall|w: Seq<char>| #[trigger] kw_lookup(at, w) == kw_lookup(bt, w) by {
            if w == akw {
                assert forall|j: int| 0 <= j < at.len() implies at[j].keyword@ != akw by {
                    assert(at[j] == a[j + 1]);
                    assert(lex_lt(a[0].keyword@, a[j + 1].keyword@));
                    if a[j + 1].keyword@ == akw {
                        lemma_lex_irrefl(akw);
                    }
                }
                assert forall|j: int| 0 <= j < bt.len() implies bt[j].keyword@ != akw by {
                    assert(bt[j] == b[j + 1]);
                    assert(lex_lt(b[0].keyword@, b[j + 1].keyword@));
                    if b[j + 1].keyword@ == akw {
                        lemma_lex_irrefl(akw);
                    }
                }
                crate::search_index::lemma_kw_lookup_absent(at, w);
                crate::search_index::lemma_kw_lookup_absent(bt, w);
            } else {
                assert(kw_lookup(a, w) == kw_lookup(at, w));
                assert(kw_lookup(b, w) == kw_lookup(bt, w));
            }
        }
        lemma_entries_lookup_ext(at, bt);
        assert(entry_view_seq(a) =~= seq![(a[0].keyword@, a[0].keys@)] + entry_view_seq(at));
        assert(entry_view_seq(b) =~= seq![(b[0].keyword@, b[0].keys@)] + entry_view_seq(bt));
    }
}

/// Inserting the same record twice is inserting it once: the second
/// insertion leaves the mapping's value unchanged.
pub proof fn lemma_insert_idempotent(
    pre: Seq<Entry>,
    mid: Seq<Entry>,
    post: Seq<Entry>,
    toks: Seq<Seq<char>>,
    key: usize,
    cap: usize,
)
    requires
        entries_wf(mid),
        entries_wf(post),
        inserted_pointwise(pre, mid, toks, key, cap),
        inserted_pointwise(mid, post, toks, key, cap),
    ensures
        entry_view_seq(post) == entry_view_seq(mid),
{
    assert forall|w: Seq<char>| #[trigger] kw_lookup(post, w) == kw_lookup(mid, w) by {
        if toks.contains(w) {
            crate::store::lemma_added_set_idempotent(kw_lookup(pre, w), key, cap);
        }
    }
    lemma_entries_lookup_ext(post, mid);
}

/// Removing a freshly inserted key undoes the insertion exactly: the
/// mapping's value returns to what it was, provided the key was not indexed
/// under any of the derived keywords before.
pub proof fn lemma_insert_remove_restores(
    pre: Seq<Entry>,
    mid: Seq<Entry>,
    post: Seq<Entry>,
    toks: Seq<Seq<char>>,
    key: usize,
    cap: usize,
)
    requires
        entries_wf(pre),
        entries_wf(post),
        lookups_ascending(pre),
        inserted_pointwise(pre, mid, toks, key, cap),
        removed_pointwise(mid, post, toks, key),
        forall|w: Seq<char>| toks.contains(w) ==> key_absent(#[trigger] kw_lookup(pre, w), key),
    ensures
        entry_view_seq(post) == entry_view_seq(pre),
{
    assert forall|w: Seq<char>| #[trigger] kw_lookup(post, w) == kw_lookup(pre, w) by {
        if toks.contains(w) {
            if kw_lookup(pre, w) is Some {
                crate::search_index::lemma_kw_lookup_found(pre, w);
            }
            lemma_add_remove_roundtrip(kw_lookup(pre, w), key, cap);
        }
    }
    lemma_entries_lookup_ext(post, pre);
}

/// Removing a key that was just added restores the set; the set must not
/// have held the key, must be ascending, and non-empty as stored sets are.
proof fn lemma_add_remove_roundtrip(ks: Option<Seq<usize>>, key: usize, cap: usize)
    requires
        key_absent(ks, key),
        ks is Some ==> ascending(ks->Some_0) && ks->Some_0.len() > 0,
    ensures
        removed_set(added_set(ks, key, cap), key) == ks,
{
    match ks {
        None => {
            if cap >= 1 {
                assert(added_set(ks, key, cap) == Some(seq![key]));
                assert(key_removed(seq![key], key) =~= Seq::<usize>::empty());
            }
        },
        Some(s) => {
            if s.len() < cap {
                let ins = key_inserted(s, key);
                crate::keyset::lemma_key_inserted_props(s, key);
                crate::keyset::lemma_key_removed_props(ins, key);
                let r = key_removed(ins, key);
                assert forall|x: usize| r.contains(x) <==> s.contains(x) by {}
                crate::keyset::lemma_ascending_same_elements(r, s);
                assert(s.contains(s[0]));
                assert(r.len() > 0);
            } else {
                assert(added_set(ks, key, cap) == Some(s));
                assert forall|j: int| 0 <= j < s.len() implies s[j] != key by {
                    assert(s.contains(s[j]));
                }
                crate::keyset::lemma_key_removed_absent(s, key);
                assert(key_removed(s, key) == s);
            }
        },
    }
}

/// After an insertion, every derived keyword with room for the key maps to
/// a set that holds it.
pub proof fn lemma_insert_includes_key(
    pre: Seq<Entry>,
    post: Seq<Entry>,
    toks: Seq<Seq<char>>,
    key: usize,
    cap: usize,
    w: Seq<char>,
)
    requires
        inserted_pointwise(pre, post, toks, key, cap),
        toks.contains(w),
        has_room(kw_lookup(pre, w), key, cap),
    ensures
        kw_lookup(post, w) is Some,
        kw_lookup(post, w)->Some_0.contains(key),
{
    match kw_lookup(pre, w) {
        None => {
            assert(kw_lookup(post, w) == Some(seq![key]));
            assert(seq![key][0] == key);
        },
        Some(s) => {
            if !s.contains(key) {
                crate::keyset::lemma_key_inserted_contains_self(s, key);
            }
        },
    }
}

/// The keys one keyword contributes are ascending.
proof fn lemma_matched_keys_ascending(s: SearchIndex, kw: Seq<char>)
    requires
        s.wf(),
    ensures
        ascending(s.matched_keys(kw)),
{
    if kw_lookup(s.entries@, kw) is Some {
        crate::search_index::lemma_kw_lookup_found(s.entries@, kw);
        crate::search::lemma_take_at_most_ascending(
            kw_lookup(s.entries@, kw)->Some_0,
            crate::search::MAXIMUM_INTERNAL_SEARCH_RESULTS,
        );
    } else {
        match s.fuzzy_keyword_match(kw) {
            Some(bk) => {
                if kw_lookup(s.entries@, bk) is Some {
                    crate::search_index::lemma_kw_lookup_found(s.entries@, bk);
                    crate::search::lemma_take_at_most_ascending(
                        kw_lookup(s.entries@, bk)->Some_0,
                        crate::search::MAXIMUM_INTERNAL_SEARCH_RESULTS,
                    );
                }
            },
            None => {},
        }
    }
}

/// An `And` result is ascending, and holds exactly the keys matched by
/// every queried keyword.
proof fn lemma_and_result_props(s: SearchIndex, toks: Seq<Seq<char>>)
    requires
        s.wf(),
    ensures
        ascending(s.and_result(toks)),
        toks.len() > 0 ==> forall|k: usize|
            #[trigger] s.and_result(toks).contains(k) <==> (forall|i: int|
                0 <= i < toks.len() ==> s.matched_keys(#[trigger] toks[i]).contains(k)),
    decreases toks.len(),
{
    if toks.len() == 0 {
    } else if toks.len() == 1 {
        lemma_matched_keys_ascending(s, toks[0]);
        assert forall|k: usize| #[trigger] s.and_result(toks).contains(k) <==> (forall|i: int|
            0 <= i < toks.len() ==> s.matched_keys(#[trigger] toks[i]).contains(k)) by {
            if s.and_result(toks).contains(k) {
                assert forall|i: int| 0 <= i < toks.len() implies s.matched_keys(
                    #[trigger] toks[i],
                ).contains(k) by {
                    assert(toks[i] == toks[0]);
                }
            }
        }
    } else {
        let d = toks.drop_last();
        lemma_and_result_props(s, d);
        lemma_matched_keys_ascending(s, toks.last());
        crate::keyset::lemma_inter_props(s.and_result(d), s.matched_keys(toks.last()));
        assert forall|k: usize| #[trigger] s.and_result(toks).contains(k) <==> (forall|i: int|
            0 <= i < toks.len() ==> s.matched_keys(#[trigger] toks[i]).contains(k)) by {
            if s.and_result(toks).contains(k) {
                assert(s.and_result(d).contains(k));
                assert forall|i: int| 0 <= i < toks.len() implies s.matched_keys(
                    #[trigger] toks[i],
                ).contains(k) by {
                    if i < toks.len() - 1 {
                        assert(toks[i] == d[i]);
                        assert(s.matched_keys(d[i]).contains(k));
                    } else {
                        assert(toks[i] == toks.last());
                    }
                }
            } else {
                if forall|i: int|
                    0 <= i < toks.len() ==> s.matched_keys(#[trigger] toks[i]).contains(k) {
                    assert(s.matched_keys(toks.last()).contains(k));
                    assert forall|i: int| 0 <= i < d.len() implies s.matched_keys(
                        #[trigger] d[i],
                    ).contains(k) by {
                        assert(d[i] == toks[i]);
                        assert(s.matched_keys(toks[i]).contains(k));
                    }
                    assert(s.and_result(d).contains(k));
                    assert(false);
                }
            }
        }
    }
}

/// A key matched by every keyword of `u` counts them all, and conversely.
proof fn lemma_or_count_saturated(s: SearchIndex, u: Seq<Seq<char>>, k: usize)
    ensures
        s.or_count(u, k) == u.len() <==> (forall|j: int|
            0 <= j < u.len() ==> s.matched_keys(#[trigger] u[j]).contains(k)),
    decreases u.len(),
{
    if u.len() > 0 {
        let d = u.drop_last();
        lemma_or_count_saturated(s, d, k);
        s.lemma_or_count_bounds(d, k);
        if s.or_count(u, k) == u.len() {
            assert(s.or_count(d, k) == d.len());
            assert forall|j: int| 0 <= j < u.len() implies s.matched_keys(
                #[trigger] u[j],
            ).contains(k) by {
                if j < u.len() - 1 {
                    assert(u[j] == d[j]);
                    assert(s.matched_keys(d[j]).contains(k));
                } else {
                    assert(u[j] == u.last());
                }
            }
        }
        if forall|j: int| 0 <= j < u.len() ==> s.matched_keys(#[trigger] u[j]).contains(k) {
            assert(s.matched_keys(u.last()).contains(k));
            assert forall|j: int| 0 <= j < d.len() implies s.matched_keys(
                #[trigger] d[j],
            ).contains(k) by {
                assert(d[j] == u[j]);
                assert(s.matched_keys(u[j]).contains(k));
            }
            assert(s.or_count(d, k) == d.len());
        }
    }
}

/// In an ascending sequence drawn from another ascending sequence, the
/// element at position `a` sits at position `a` or later in the source.
proof fn lemma_asc_embedding(big: Seq<usize>, small: Seq<usize>, a: int)
    requires
        ascending(big),
        ascending(small),
        forall|b: int| 0 <= b < small.len() ==> big.contains(#[trigger] small[b]),
        0 <= a < small.len(),
    ensures
        exists|q: int| a <= q < big.len() && big[q] == small[a],
    decreases a,
{
    assert(big.contains(small[a]));
    let q0 = choose|q0: int| 0 <= q0 < big.len() && big[q0] == small[a];
    if a == 0 {
        assert(0 <= q0 < big.len() && big[q0] == small[0]);
    } else {
        lemma_asc_embedding(big, small, a - 1);
        let qp = choose|qp: int| a - 1 <= qp < big.len() && big[qp] == small[a - 1];
        assert(small[a - 1] < small[a]);
        if q0 <= qp {
            if q0 < qp {
                assert(big[q0] < big[qp]);
            }
            assert(false);
        }
        assert(a <= q0 < big.len() && big[q0] == small[a]);
    }
}

/// Every key an `And` search returns, an `Or` search over the same query
/// and cap returns too.
pub proof fn lemma_and_within_or(
    s: SearchIndex,
    toks: Seq<Seq<char>>,
    max: usize,
    ra: Seq<usize>,
    ro: Seq<usize>,
    k: usize,
)
    requires
        s.wf(),
        ra == take_at_most(s.and_result(toks), max),
        s.or_ok(toks, max as int, ro),
        ra.contains(k),
    ensures
        ro.contains(k),
{
    let av = s.and_result(toks);
    lemma_and_result_props(s, toks);
    crate::search::lemma_take_at_most_ascending(av, max);
    assert(av.contains(k));
    if toks.len() == 0 {
        assert(false);
    }
    let u = crate::search::dedup_toks(toks);
    crate::search::lemma_dedup_props(toks);
    assert(u.len() > 0) by {
        assert(toks[0] == toks[0]);
        assert(toks.contains(toks[0]));
        assert(u.contains(toks[0]));
    }
    // k matches every distinct keyword, so its count is saturated
    assert forall|j: int| 0 <= j < u.len() implies s.matched_keys(#[trigger] u[j]).contains(
        k,
    ) by {
        assert(u.contains(u[j]));
        assert(toks.contains(u[j]));
        let i = choose|i: int| 0 <= i < toks.len() && toks[i] == u[j];
        assert(s.matched_keys(toks[i]).contains(k));
    }
    lemma_or_count_saturated(s, u, k);
    assert(s.or_count(u, k) == u.len());
    if !ro.contains(k) {
        assert(ro.len() == max);
        assert(forall|a: int| 0 <= a < ro.len() ==> s.or_better(u, #[trigger] ro[a], k));
        // every returned key also saturates its count, hence sits in the
        // `And` result, and loses the tie only by being a smaller key
        assert forall|a: int| 0 <= a < ro.len() implies av.contains(#[trigger] ro[a]) && ro[a]
            < k by {
            s.lemma_or_count_bounds(u, ro[a]);
            assert(s.or_count(u, ro[a]) == u.len());
            lemma_or_count_saturated(s, u, ro[a]);
            assert forall|i: int| 0 <= i < toks.len() implies s.matched_keys(
                #[trigger] toks[i],
            ).contains(ro[a]) by {
                assert(toks.contains(toks[i]));
                assert(u.contains(toks[i]));
                let j = choose|j: int| 0 <= j < u.len() && u[j] == toks[i];
                assert(s.matched_keys(u[j]).contains(ro[a]));
            }
        }
        assert(ascending(ro)) by {
            assert forall|a: int, b: int| 0 <= a < b < ro.len() implies ro[a] < ro[b] by {
                assert(s.or_better(u, ro[a], ro[b]));
                s.lemma_or_count_bounds(u, ro[a]);
                assert(s.or_count(u, ro[a]) == u.len());
                assert(s.or_count(u, ro[b]) == u.len());
            }
        }
        // ro, extended by k itself, embeds ascending into the And result,
        // pushing k to position max or later; but k stands before max
        let small = ro.push(k);
        assert(ascending(small)) by {
            assert forall|a: int, b: int| 0 <= a < b < small.len() implies small[a] < small[b] by {
                if b == small.len() - 1 {
                    assert(small[a] == ro[a]);
                } else {
                    assert(small[a] == ro[a]);
                    assert(small[b] == ro[b]);
                }
            }
        }
        assert forall|b: int| 0 <= b < small.len() implies av.contains(#[trigger] small[b]) by {
            if b < small.len() - 1 {
                assert(small[b] == ro[b]);
            } else {
                assert(small[b] == k);
            }
        }
        lemma_asc_embedding(av, small, max as int);
        let q = choose|q: int| max <= q < av.len() && av[q] == small[max as int];
        assert(av[q] == k);
        let i0 = choose|i0: int| 0 <= i0 < ra.len() && ra[i0] == k;
        assert(ra[i0] == av[i0]);
        assert(i0 < max);
        assert(av[i0] < av[q]);
        assert(false);
    }
}

/// In an `Or` result, a key that matched strictly more distinct keywords
/// stands strictly earlier.
pub proof fn lemma_or_ranking(
    s: SearchIndex,
    toks: Seq<Seq<char>>,
    max: int,
    r: Seq<usize>,
    a: int,
    b: int,
)
    requires
        s.or_ok(toks, max, r),
        0 <= a < r.len(),
        0 <= b < r.len(),
        s.or_count(crate::search::dedup_toks(toks), r[a]) > s.or_count(
            crate::search::dedup_toks(toks),
            r[b],
        ),
    ensures
        a < b,
{
    let u = crate::search::dedup_toks(toks);
    if a == b {
        assert(false);
    } else if b < a {
        assert(s.or_better(u, r[b], r[a]));
        assert(false);
    }
}

/// A contextual autocompletion with context keywords only returns
/// completions whose candidate's key set meets the context result.
pub proof fn lemma_context_completions_relevant(
    s: SearchIndex,
    q: Seq<char>,
    nopts: int,
    r: Seq<Seq<char>>,
) -> (w: (Seq<Entry>, Seq<(Seq<char>, Seq<usize>)>))
    requires
        s.context_ok(q, nopts, r),
        s.text_tokens(q, false).len() > 0,
        s.text_tokens(q, false).drop_last().len() > 0,
    ensures
        s.acand_ok(s.text_tokens(q, false).last(), nopts, w.0),
        forall|a: int|
            0 <= a < r.len() ==> entry_view_seq(w.0).contains(#[trigger] w.1[a])
                && crate::autocomplete::keys_overlap(
                w.1[a].1,
                s.and_result(s.text_tokens(q, false).drop_last()),
            ) && r[a] == crate::autocomplete::join_spaces(
                s.text_tokens(q, false).drop_last().push(w.1[a].0),
            ),
{
    let toks = s.text_tokens(q, false);
    let ctx = toks.drop_last();
    let ctxres = s.and_result(ctx);
    let pred = |p: (Seq<char>, Seq<usize>)| crate::autocomplete::keys_overlap(p.1, ctxres);
    let cands = choose|cands: Seq<Entry>|
        #[trigger] s.acand_ok(toks.last(), nopts, cands) && s.context_completion_ok(
            ctx,
            nopts,
            cands,
            r,
        );
    let kept = s.context_kept(ctx, cands);
    assert(kept == entry_view_seq(cands).filter(pred));
    assert forall|a: int| 0 <= a < r.len() implies entry_view_seq(cands).contains(
        #[trigger] kept[a],
    ) && crate::autocomplete::keys_overlap(
        kept[a].1,
        s.and_result(s.text_tokens(q, false).drop_last()),
    ) && r[a] == crate::autocomplete::join_spaces(
        s.text_tokens(q, false).drop_last().push(kept[a].0),
    ) by {
        let p = kept[a];
        Seq::lemma_filter_pred(entry_view_seq(cands), pred, a);
        Seq::lemma_filter_len(entry_view_seq(cands), pred);
        assert(kept.contains(p));
        crate::autocomplete::lemma_filter_subset(entry_view_seq(cands), pred, p);
    }
    assert(s.acand_ok(s.text_tokens(q, false).last(), nopts, cands));
    (cands, kept)
}

/// After a removal, no derived keyword maps to a set that holds the key,
/// and no derived keyword maps to an empty set.
pub proof fn lemma_remove_excludes_key(
    pre: Seq<Entry>,
    post: Seq<Entry>,
    toks: Seq<Seq<char>>,
    key: usize,
    w: Seq<char>,
)
    requires
        lookups_ascending(pre),
        removed_pointwise(pre, post, toks, key),
        toks.contains(w),
    ensures
        match kw_lookup(post, w) {
            Some(ks) => !ks.contains(key) && ks.len() > 0,
            None => true,
        },
{
    match kw_lookup(pre, w) {
        None => {},
        Some(s) => {
            crate::keyset::lemma_key_removed_props(s, key);
        },
    }
}

} // verus!
