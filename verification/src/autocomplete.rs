//! The autocomplete engine: prefix-range candidates for the partial last
//! keyword, fuzzy fallback when none exist, the three completion scopes, and
//! the assembly of completed query strings.

use vstd::prelude::*;
use crate::fuzzy::Metric;
use crate::order::{is_prefix, str_starts_with, str_take_chars};
use crate::search_index::{Entry, SearchIndex};
use crate::tokenizer::str_views;

verus! {

/// The mathematical values of a candidate list: keyword and key set views.
pub open spec fn entry_view_seq(s: Seq<Entry>) -> Seq<(Seq<char>, Seq<usize>)> {
    s.map_values(|e: Entry| (e.keyword@, e.keys@))
}

impl SearchIndex {
    /// The index holds some keyword starting with `kw`.
    pub open spec fn any_prefix_cand(self, kw: Seq<char>) -> bool {
        exists|i: int| 0 <= i < self.entries@.len() && is_prefix(kw, (#[trigger] self.entries@[i]).keyword@)
    }

    /// The candidates of the prefix range of `kw`, in keyword order.
    pub open spec fn prefix_cand_views(self, kw: Seq<char>) -> Seq<(Seq<char>, Seq<usize>)> {
        entry_view_seq(self.entries@).filter(|p: (Seq<char>, Seq<usize>)| is_prefix(kw, p.0))
    }

    /// What the candidate lookup for a partial keyword returns: the whole
    /// prefix range when it is inhabited, else the best fuzzy candidates
    /// under the configured metric, else nothing.
    pub open spec fn acand_ok(self, kw: Seq<char>, nopts: int, r: Seq<Entry>) -> bool {
        if self.any_prefix_cand(kw) {
            entry_view_seq(r) == self.prefix_cand_views(kw)
        } else {
            match self.strsim_type {
                Some(m) => match self.fuzzy_range(kw) {
                    Some(rg) => self.fuzzy_cands_ok(Metric::Std(m), rg, kw, nopts, r),
                    None => r.len() == 0,
                },
                None => r.len() == 0,
            }
        }
    }

    /// The candidates offered to complete the partial keyword `keyword`:
    /// every entry of its prefix range, or on an empty range the best
    /// `nopts` fuzzy candidates.
    pub(crate) fn internal_autocomplete_keyword(&self, keyword: &str, nopts: usize) -> (r: Vec<
        Entry,
    >)
        requires
            self.wf(),
        ensures
            self.acand_ok(keyword@, nopts as int, r@),
    {
        let ghost kw = keyword@;
        let ghost pred = |p: (Seq<char>, Seq<usize>)| is_prefix(kw, p.0);
        let n = self.entries.len();
        // the sorted layout keeps a prefix range contiguous; this scan walks
        // the whole list, trading the range bounds for a simpler proof
        let mut out: Vec<Entry> = Vec::new();
        let mut i: usize = 0;
        proof {
            reveal(Seq::filter);
            assert(entry_view_seq(self.entries@.take(0)) =~= Seq::<(Seq<char>, Seq<usize>)>::empty());
        }
        while i < n
            invariant
                i <= n,
                n == self.entries@.len(),
                self.wf(),
                kw == keyword@,
                entry_view_seq(out@) == entry_view_seq(self.entries@.take(i as int)).filter(
                    |p: (Seq<char>, Seq<usize>)| is_prefix(kw, p.0),
                ),
            decreases n - i,
        {
            let ghost prev = entry_view_seq(self.entries@.take(i as int));
            proof {
                Seq::lemma_filter_push(
                    prev,
                    (self.entries@[i as int].keyword@, self.entries@[i as int].keys@),
                    |p: (Seq<char>, Seq<usize>)| is_prefix(kw, p.0),
                );
                assert(prev.push((self.entries@[i as int].keyword@, self.entries@[i as int].keys@))
                    =~= entry_view_seq(self.entries@.take(i + 1)));
            }
            if str_starts_with(self.entries[i].keyword.as_str(), keyword) {
                let ghost old_out = out@;
                let e = Entry {
                    keyword: self.entries[i].keyword.clone(),
                    keys: crate::keyset::copy_keys(&self.entries[i].keys),
                };
                out.push(e);
                proof {
                    assert(entry_view_seq(out@) =~= entry_view_seq(old_out).push((
                        self.entries@[i as int].keyword@,
                        self.entries@[i as int].keys@,
                    )));
                }
            }
            i = i + 1;
        }
        proof {
            assert(self.entries@.take(n as int) =~= self.entries@);
        }
        if out.len() > 0 {
            proof {
                assert(entry_view_seq(out@).len() > 0);
                assert(self.prefix_cand_views(kw).contains(self.prefix_cand_views(kw)[0]));
                Seq::lemma_filter_pred(
                    entry_view_seq(self.entries@),
                    |p: (Seq<char>, Seq<usize>)| is_prefix(kw, p.0),
                    0,
                );
                let x = self.prefix_cand_views(kw)[0];
                // the first kept view comes from some entry, whose keyword
                // has the prefix
                assert(entry_view_seq(self.entries@).contains(x)) by {
                    lemma_filter_subset(entry_view_seq(self.entries@), pred, x);
                }
                let j = choose|j: int|
                    0 <= j < entry_view_seq(self.entries@).len() && entry_view_seq(self.entries@)[j]
                        == x;
                assert(is_prefix(kw, (self.entries@[j]).keyword@));
                assert(self.any_prefix_cand(kw));
            }
            return out;
        }
        proof {
            if self.any_prefix_cand(kw) {
                let j = choose|j: int|
                    0 <= j < self.entries@.len() && is_prefix(
                        kw,
                        (#[trigger] self.entries@[j]).keyword@,
                    );
                Seq::lemma_filter_contains(entry_view_seq(self.entries@), pred, j);
                assert(false);
            }
        }
        let m: crate::types::StrSimType = match &self.strsim_type {
            None => {
                return out;
            },
            Some(m) => *m,
        };
        let range: String = if self.strsim_length == 0 {
            let e = String::new();
            proof {
                assert(e@ =~= self.fuzzy_range(kw)->Some_0);
            }
            e
        } else {
            if keyword.unicode_len() >= self.strsim_length {
                str_take_chars(keyword, self.strsim_length)
            } else {
                proof {
                    assert(self.fuzzy_range(kw) is None);
                }
                return out;
            }
        };
        let r = self.fuzzy_autocomplete_scan(&Metric::Std(m), range.as_str(), keyword, nopts);
        r
    }

    /// The keywords offered to complete the partial keyword `keyword`, at
    /// most `nopts` of them, candidate order kept.
    pub(crate) fn autocomplete_keyword(&self, keyword: &str, nopts: usize) -> (r: Vec<String>)
        requires
            self.wf(),
        ensures
            self.akw_ok(keyword@, nopts as int, str_views(r@)),
    {
        let cands = self.internal_autocomplete_keyword(keyword, nopts);
        let end: usize = if cands.len() <= nopts {
            cands.len()
        } else {
            nopts
        };
        let mut r: Vec<String> = Vec::new();
        let mut i: usize = 0;
        while i < end
            invariant
                i <= end,
                end <= cands@.len(),
                r@.len() == i,
                forall|j: int| 0 <= j < i ==> r@[j]@ == (#[trigger] cands@[j]).keyword@,
            decreases end - i,
        {
            r.push(cands[i].keyword.clone());
            i = i + 1;
        }
        proof {
            let kws = str_views(r@);
            assert forall|j: int| 0 <= j < kws.len() implies kws[j] == (
            #[trigger] cands@[j]).keyword@ by {
                assert(kws[j] == r@[j]@);
            }
            assert(self.akw_ok(keyword@, nopts as int, kws)) by {
                assert(self.acand_ok(keyword@, nopts as int, cands@) && kws.len() == (if cands@.len()
                    <= nopts as int {
                    cands@.len() as int
                } else {
                    nopts as int
                }) && (forall|a: int|
                    0 <= a < kws.len() ==> kws[a] == (#[trigger] cands@[a]).keyword@));
            }
        }
        r
    }

    /// What the keyword completions for a partial keyword are: the keywords
    /// of the first `nopts` candidates, in candidate order.
    pub open spec fn akw_ok(self, kw: Seq<char>, nopts: int, kws: Seq<Seq<char>>) -> bool {
        exists|cands: Seq<Entry>|
            #[trigger] self.acand_ok(kw, nopts, cands) && kws.len() == (if cands.len() <= nopts {
                cands.len() as int
            } else {
                nopts
            }) && (forall|a: int| 0 <= a < kws.len() ==> kws[a] == (#[trigger] cands[a]).keyword@)
    }
}

/// The tokens joined into one query string with single spaces.
pub open spec fn join_spaces(ts: Seq<Seq<char>>) -> Seq<char>
    decreases ts.len(),
{
    if ts.len() == 0 {
        Seq::empty()
    } else if ts.len() == 1 {
        ts[0]
    } else {
        join_spaces(ts.drop_last()) + seq![' '] + ts.last()
    }
}

/// Two key sets share a member.
pub open spec fn keys_overlap(a: Seq<usize>, b: Seq<usize>) -> bool {
    exists|x: usize| a.contains(x) && b.contains(x)
}

/// Some key of `a` appears in `b`.
fn keys_any_in(a: &Vec<usize>, b: &Vec<usize>) -> (r: bool)
    ensures
        r == keys_overlap(a@, b@),
{
    let mut i: usize = 0;
    while i < a.len()
        invariant
            i <= a@.len(),
            forall|j: int| 0 <= j < i ==> !b@.contains(#[trigger] a@[j]),
        decreases a@.len() - i,
    {
        if crate::keyset::keys_contains(b, a[i]) {
            proof {
                assert(a@.contains(a@[i as int]));
            }
            return true;
        }
        i = i + 1;
    }
    proof {
        if keys_overlap(a@, b@) {
            let x = choose|x: usize| a@.contains(x) && b@.contains(x);
            let j = choose|j: int| 0 <= j < a@.len() && a@[j] == x;
        }
    }
    false
}

/// Join the context tokens and one completed last token into a query string.
fn join_with_spaces(ctx: &Vec<String>, last: &String) -> (r: String)
    ensures
        r@ == join_spaces(str_views(ctx@).push(last@)),
{
    let full_ghost: Ghost<Seq<Seq<char>>> = Ghost(str_views(ctx@).push(last@));
    if ctx.len() == 0 {
        let r = last.clone();
        proof {
            assert(full_ghost@.len() == 1);
            assert(full_ghost@[0] == last@);
        }
        r
    } else {
        let mut acc = ctx[0].clone();
        proof {
            assert(str_views(ctx@).take(1) =~= seq![str_views(ctx@)[0]]);
            assert(acc@ == join_spaces(str_views(ctx@).take(1)));
            reveal_strlit(" ");
            assert(" "@ =~= seq![' ']);
        }
        let mut i: usize = 1;
        while i < ctx.len()
            invariant
                1 <= i <= ctx@.len(),
                acc@ == join_spaces(str_views(ctx@).take(i as int)),
                " "@ == seq![' '],
            decreases ctx@.len() - i,
        {
            acc.append(" ");
            acc.append(ctx[i].as_str());
            proof {
                let v = str_views(ctx@);
                assert(v.take(i + 1).drop_last() =~= v.take(i as int));
                assert(v.take(i + 1).last() == v[i as int]);
                assert(v.take(i + 1).len() >= 2);
                assert(acc@ == join_spaces(v.take(i + 1)));
            }
            i = i + 1;
        }
        proof {
            assert(str_views(ctx@).take(ctx@.len() as int) =~= str_views(ctx@));
        }
        acc.append(" ");
        acc.append(last.as_str());
        proof {
            assert(full_ghost@.drop_last() =~= str_views(ctx@));
            assert(full_ghost@.last() == last@);
            assert(full_ghost@.len() >= 2);
        }
        acc
    }
}

impl SearchIndex {
    /// The candidates that survive the context filter: all of them without
    /// context keywords, else those whose key set meets the context result.
    pub open spec fn context_kept(self, ctx: Seq<Seq<char>>, cands: Seq<Entry>) -> Seq<
        (Seq<char>, Seq<usize>),
    > {
        if ctx.len() == 0 {
            entry_view_seq(cands)
        } else {
            entry_view_seq(cands).filter(
                |p: (Seq<char>, Seq<usize>)| keys_overlap(p.1, self.and_result(ctx)),
            )
        }
    }

    /// `r` is the first `nopts` surviving candidates of `cands`, each
    /// substituted into the query after the context keywords.
    pub open spec fn context_completion_ok(
        self,
        ctx: Seq<Seq<char>>,
        nopts: int,
        cands: Seq<Entry>,
        r: Seq<Seq<char>>,
    ) -> bool {
        let kept = self.context_kept(ctx, cands);
        &&& r.len() == (if kept.len() <= nopts {
            kept.len() as int
        } else {
            nopts
        })
        &&& forall|a: int|
            0 <= a < r.len() ==> r[a] == join_spaces(ctx.push((#[trigger] kept[a]).0))
    }

    /// What a context-scoped autocompletion returns for query `q`: the
    /// candidates for the last (partial) keyword, kept only where their key
    /// set meets the context result when there are context keywords, at most
    /// `nopts` of them, each substituted into the query.
    pub open spec fn context_ok(self, q: Seq<char>, nopts: int, r: Seq<Seq<char>>) -> bool {
        let toks = self.text_tokens(q, false);
        if toks.len() == 0 {
            r.len() == 0
        } else {
            let ctx = toks.drop_last();
            let last = toks.last();
            exists|cands: Seq<Entry>|
                #[trigger] self.acand_ok(last, nopts, cands) && self.context_completion_ok(
                    ctx,
                    nopts,
                    cands,
                    r,
                )
        }
    }

    /// What a global-scoped autocompletion returns for query `q`: the first
    /// `nopts` completions of the last (partial) keyword, context ignored,
    /// each substituted into the query.
    pub open spec fn global_ok(self, q: Seq<char>, nopts: int, r: Seq<Seq<char>>) -> bool {
        let toks = self.text_tokens(q, false);
        if toks.len() == 0 {
            r.len() == 0
        } else {
            let ctx = toks.drop_last();
            let last = toks.last();
            exists|kws: Seq<Seq<char>>|
                #[trigger] self.akw_ok(last, nopts, kws) && r.len() == kws.len() && (forall|a: int|
                    0 <= a < r.len() ==> r[a] == join_spaces(ctx.push(#[trigger] kws[a])))
        }
    }

    /// What a keyword-scoped autocompletion returns for query `q`: the bare
    /// completions of the whole normalized query, unsplit.
    pub open spec fn keyword_scope_ok(self, q: Seq<char>, nopts: int, r: Seq<Seq<char>>) -> bool {
        self.akw_ok(self.normalize_text(q), nopts, r)
    }

    /// What an autocompletion returns under each scope.
    pub open spec fn autocomplete_ok(
        self,
        scope: crate::types::AutocompleteType,
        nopts: int,
        q: Seq<char>,
        r: Seq<Seq<char>>,
    ) -> bool {
        match scope {
            crate::types::AutocompleteType::Global => self.global_ok(q, nopts, r),
            crate::types::AutocompleteType::Context => self.context_ok(q, nopts, r),
            crate::types::AutocompleteType::Keyword => self.keyword_scope_ok(q, nopts, r),
        }
    }

    /// Context-scoped autocompletion with an explicit option cap.
    fn and_autocomplete_n(&self, string: &str, nopts: usize) -> (r: Vec<String>)
        requires
            self.wf(),
        ensures
            self.context_ok(string@, nopts as int, str_views(r@)),
    {
        let ghost toks = self.text_tokens(string@, false);
        let mut keywords = self.string_keywords(string, false);
        let last = match keywords.pop() {
            None => {
                let r: Vec<String> = Vec::new();
                proof {
                    assert(str_views(r@) =~= Seq::<Seq<char>>::empty());
                }
                return r;
            },
            Some(last) => last,
        };
        proof {
            assert(last@ == toks.last());
            assert(str_views(keywords@) =~= toks.drop_last());
        }
        let ghost ctx = toks.drop_last();
        let ghost ctxres = self.and_result(ctx);
        let cands = self.internal_autocomplete_keyword(last.as_str(), nopts);
        let ghost cands_v = cands@;
        let ghost pred = |p: (Seq<char>, Seq<usize>)| keys_overlap(p.1, ctxres);
        let kept: Vec<Entry>;
        if keywords.len() == 0 {
            kept = cands;
            proof {
                assert(ctx.len() == 0);
            }
        } else {
            let ctx_keys = self.internal_and_search(&keywords);
            proof {
                assert(ctx_keys@ == ctxres);
            }
            let mut f: Vec<Entry> = Vec::new();
            let mut i: usize = 0;
            proof {
                reveal(Seq::filter);
                assert(entry_view_seq(cands@.take(0)) =~= Seq::<(Seq<char>, Seq<usize>)>::empty());
            }
            while i < cands.len()
                invariant
                    i <= cands@.len(),
                    ctxres == ctx_keys@,
                    entry_view_seq(f@) == entry_view_seq(cands@.take(i as int)).filter(
                        |p: (Seq<char>, Seq<usize>)| keys_overlap(p.1, ctxres),
                    ),
                decreases cands@.len() - i,
            {
                let ghost prev = entry_view_seq(cands@.take(i as int));
                proof {
                    Seq::lemma_filter_push(
                        prev,
                        (cands@[i as int].keyword@, cands@[i as int].keys@),
                        |p: (Seq<char>, Seq<usize>)| keys_overlap(p.1, ctxres),
                    );
                    assert(prev.push((cands@[i as int].keyword@, cands@[i as int].keys@))
                        =~= entry_view_seq(cands@.take(i + 1)));
                }
                if keys_any_in(&cands[i].keys, &ctx_keys) {
                    let ghost old_f = f@;
                    let e = Entry {
                        keyword: cands[i].keyword.clone(),
                        keys: crate::keyset::copy_keys(&cands[i].keys),
                    };
                    f.push(e);
                    proof {
                        assert(entry_view_seq(f@) =~= entry_view_seq(old_f).push((
                            cands@[i as int].keyword@,
                            cands@[i as int].keys@,
                        )));
                    }
                }
                i = i + 1;
            }
            proof {
                assert(cands@.take(cands@.len() as int) =~= cands@);
            }
            kept = f;
        }
        let end: usize = if kept.len() <= nopts {
            kept.len()
        } else {
            nopts
        };
        let mut r: Vec<String> = Vec::new();
        let mut i: usize = 0;
        while i < end
            invariant
                i <= end,
                end <= kept@.len(),
                r@.len() == i,
                str_views(keywords@) == ctx,
                forall|j: int|
                    0 <= j < i ==> r@[j]@ == join_spaces(
                        ctx.push((#[trigger] entry_view_seq(kept@)[j]).0),
                    ),
            decreases end - i,
        {
            let joined = join_with_spaces(&keywords, &kept[i].keyword);
            r.push(joined);
            proof {
                assert(entry_view_seq(kept@)[i as int].0 == kept@[i as int].keyword@);
            }
            i = i + 1;
        }
        proof {
            let rv = str_views(r@);
            assert forall|a: int| 0 <= a < rv.len() implies rv[a] == join_spaces(
                ctx.push((#[trigger] entry_view_seq(kept@)[a]).0),
            ) by {
                assert(rv[a] == r@[a]@);
            }
            let kept_w = self.context_kept(ctx, cands_v);
            assert(entry_view_seq(kept@) == kept_w);
            assert(self.acand_ok(toks.last(), nopts as int, cands_v));
            assert(self.context_completion_ok(ctx, nopts as int, cands_v, rv)) by {
                assert(rv.len() == (if kept_w.len() <= nopts as int {
                    kept_w.len() as int
                } else {
                    nopts as int
                }) && (forall|a: int|
                    0 <= a < rv.len() ==> rv[a] == join_spaces(
                        ctx.push((#[trigger] kept_w[a]).0),
                    )));
            }
            assert(self.context_ok(string@, nopts as int, rv));
        }
        r
    }
}

impl SearchIndex {
    /// Global-scoped autocompletion with an explicit option cap.
    fn autocomplete_global_n(&self, string: &str, nopts: usize) -> (r: Vec<String>)
        requires
            self.wf(),
        ensures
            self.global_ok(string@, nopts as int, str_views(r@)),
    {
        let ghost toks = self.text_tokens(string@, false);
        let mut keywords = self.string_keywords(string, false);
        let last = match keywords.pop() {
            None => {
                let r: Vec<String> = Vec::new();
                proof {
                    assert(str_views(r@) =~= Seq::<Seq<char>>::empty());
                }
                return r;
            },
            Some(last) => last,
        };
        proof {
            assert(last@ == toks.last());
            assert(str_views(keywords@) =~= toks.drop_last());
        }
        let ghost ctx = toks.drop_last();
        let kws = self.autocomplete_keyword(last.as_str(), nopts);
        let ghost kws_v = str_views(kws@);
        let mut r: Vec<String> = Vec::new();
        let mut i: usize = 0;
        while i < kws.len()
            invariant
                i <= kws@.len(),
                kws_v == str_views(kws@),
                str_views(keywords@) == ctx,
                r@.len() == i,
                forall|j: int|
                    0 <= j < i ==> r@[j]@ == join_spaces(ctx.push(#[trigger] kws_v[j])),
            decreases kws@.len() - i,
        {
            let joined = join_with_spaces(&keywords, &kws[i]);
            r.push(joined);
            proof {
                assert(kws_v[i as int] == kws@[i as int]@);
            }
            i = i + 1;
        }
        proof {
            let rv = str_views(r@);
            assert forall|a: int| 0 <= a < rv.len() implies rv[a] == join_spaces(
                ctx.push(#[trigger] kws_v[a]),
            ) by {
                assert(rv[a] == r@[a]@);
            }
            assert(self.akw_ok(toks.last(), nopts as int, kws_v) && rv.len() == kws_v.len() && (
            forall|a: int| 0 <= a < rv.len() ==> rv[a] == join_spaces(ctx.push(#[trigger] kws_v[a]))));
            assert(self.global_ok(string@, nopts as int, rv));
        }
        r
    }

    /// Keyword-scoped autocompletion with an explicit option cap: the whole
    /// query, normalized but unsplit, is the keyword to complete.
    fn autocomplete_keyword_scope_n(&self, string: &str, nopts: usize) -> (r: Vec<String>)
        requires
            self.wf(),
        ensures
            self.keyword_scope_ok(string@, nopts as int, str_views(r@)),
    {
        let norm = self.normalize_exec(string);
        self.autocomplete_keyword(norm.as_str(), nopts)
    }

    /// Contextual autocompletion: complete the last keyword of `string`,
    /// keeping only completions whose records also match the preceding
    /// keywords, and substitute each into the query.
    pub fn and_autocomplete(&self, string: &str) -> (r: Vec<String>)
        requires
            self.wf(),
        ensures
            self.context_ok(string@, self.maximum_autocomplete_options as int, str_views(r@)),
    {
        self.and_autocomplete_n(string, self.maximum_autocomplete_options)
    }

    /// Global autocompletion: complete the last keyword of `string` from the
    /// whole index, ignore the preceding keywords, and substitute each
    /// completion into the query. Results follow candidate order:
    /// lexicographic for prefix matches, best score first for fuzzy ones.
    pub fn autocomplete_global(&self, string: &str) -> (r: Vec<String>)
        requires
            self.wf(),
        ensures
            self.global_ok(string@, self.maximum_autocomplete_options as int, str_views(r@)),
    {
        self.autocomplete_global_n(string, self.maximum_autocomplete_options)
    }

    /// Autocompletion under an explicit scope and option cap.
    pub fn autocomplete_with(
        &self,
        autocomplete_type: &crate::types::AutocompleteType,
        maximum_autocomplete_options: &usize,
        string: &str,
    ) -> (r: Vec<String>)
        requires
            self.wf(),
        ensures
            self.autocomplete_ok(
                *autocomplete_type,
                *maximum_autocomplete_options as int,
                string@,
                str_views(r@),
            ),
    {
        match autocomplete_type {
            crate::types::AutocompleteType::Global => self.autocomplete_global_n(
                string,
                *maximum_autocomplete_options,
            ),
            crate::types::AutocompleteType::Context => self.and_autocomplete_n(
                string,
                *maximum_autocomplete_options,
            ),
            crate::types::AutocompleteType::Keyword => self.autocomplete_keyword_scope_n(
                string,
                *maximum_autocomplete_options,
            ),
        }
    }

    /// Autocompletion under an explicit scope, at the configured option cap.
    pub fn autocomplete_type(
        &self,
        autocomplete_type: &crate::types::AutocompleteType,
        string: &str,
    ) -> (r: Vec<String>)
        requires
            self.wf(),
        ensures
            self.autocomplete_ok(
                *autocomplete_type,
                self.maximum_autocomplete_options as int,
                string@,
                str_views(r@),
            ),
    {
        let n = self.maximum_autocomplete_options;
        self.autocomplete_with(autocomplete_type, &n, string)
    }

    /// Autocompletion under the configured scope and option cap.
    pub fn autocomplete(&self, string: &str) -> (r: Vec<String>)
        requires
            self.wf(),
        ensures
            self.autocomplete_ok(
                self.autocomplete_type,
                self.maximum_autocomplete_options as int,
                string@,
                str_views(r@),
            ),
    {
        let t = self.autocomplete_type;
        let n = self.maximum_autocomplete_options;
        self.autocomplete_with(&t, &n, string)
    }
}

/// A member of a filtered sequence is a member of the sequence.
pub(crate) proof fn lemma_filter_subset<A>(s: Seq<A>, pred: spec_fn(A) -> bool, x: A)
    requires
        s.filter(pred).contains(x),
    ensures
        s.contains(x),
    decreases s.len(),
{
    reveal(Seq::filter);
    if s.len() > 0 {
        let t = s.drop_last();
        if pred(s.last()) && x == s.last() {
            assert(s[s.len() - 1] == x);
        } else {
            assert(t.filter(pred).contains(x)) by {
                if pred(s.last()) {
                    let f = t.filter(pred);
                    let i = choose|i: int|
                        0 <= i < f.push(s.last()).len() && f.push(s.last())[i] == x;
                    assert(f[i] == x);
                }
            }
            lemma_filter_subset(t, pred, x);
            let i = choose|i: int| 0 <= i < t.len() && t[i] == x;
            assert(s[i] == x);
        }
    }
}

} // verus!
