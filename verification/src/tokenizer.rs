//! Turning raw text into normalized keyword tokens: case folding, splitting
//! on the configured separator characters, and dropping tokens that violate
//! the length bounds or stand in the exclusion list.

use vstd::prelude::*;
use crate::search_index::SearchIndex;

verus! {

/// The lowercase folding of a character sequence, as `str::to_lowercase`
/// computes it. The mapping depends on the characters alone.
pub uninterp spec fn lower_of(s: Seq<char>) -> Seq<char>;

/// Relies on `str::to_lowercase`: the returned string is the lowercase
/// equivalent of the input, a deterministic function of its characters.
#[verifier::external_body]
fn lowercase(s: &str) -> (r: String)
    ensures
        r@ == lower_of(s@),
{
    s.to_lowercase()
}

/// The views of a vector of strings.
pub open spec fn str_views(ss: Seq<String>) -> Seq<Seq<char>> {
    ss.map_values(|t: String| t@)
}

/// Membership test in a character vector.
fn char_in(v: &Vec<char>, c: char) -> (r: bool)
    ensures
        r == v@.contains(c),
{
    let mut i: usize = 0;
    while i < v.len()
        invariant
            i <= v@.len(),
            forall|j: int| 0 <= j < i ==> v@[j] != c,
        decreases v@.len() - i,
    {
        if v[i] == c {
            return true;
        }
        i = i + 1;
    }
    false
}

impl SearchIndex {
    /// The text with the configured case folding applied.
    pub open spec fn normalize_text(self, s: Seq<char>) -> Seq<char> {
        if self.case_sensitive {
            s
        } else {
            lower_of(s)
        }
    }

    /// `t` stands in the configured exclusion list.
    pub open spec fn kw_excluded(self, t: Seq<char>) -> bool {
        match self.exclude_keywords {
            Some(xs) => exists|i: int| 0 <= i < xs@.len() && xs@[i]@ == t,
            None => false,
        }
    }

    /// A split token survives: its length is within the configured bounds and
    /// it is not excluded.
    pub open spec fn kw_keep(self, t: Seq<char>) -> bool {
        &&& self.minimum_keyword_length <= t.len()
        &&& t.len() <= self.maximum_keyword_length
        &&& !self.kw_excluded(t)
    }

    /// What a finished run of non-separator characters contributes: itself,
    /// if non-empty and kept.
    pub open spec fn tok_emit(self, cur: Seq<char>) -> Seq<Seq<char>> {
        if cur.len() > 0 && self.kw_keep(cur) {
            seq![cur]
        } else {
            seq![]
        }
    }

    /// The kept tokens of `s` split on `pat`, with `cur` the run pending
    /// before `s`.
    pub open spec fn toks_acc(self, s: Seq<char>, pat: Seq<char>, cur: Seq<char>) -> Seq<Seq<char>>
        decreases s.len(),
    {
        if s.len() == 0 {
            self.tok_emit(cur)
        } else if pat.contains(s[0]) {
            self.tok_emit(cur) + self.toks_acc(s.skip(1), pat, Seq::empty())
        } else {
            self.toks_acc(s.skip(1), pat, cur.push(s[0]))
        }
    }

    /// The kept tokens of the normalized text `sn`.
    pub open spec fn split_tokens(self, sn: Seq<char>) -> Seq<Seq<char>> {
        match self.split_pattern {
            Some(p) => self.toks_acc(sn, p@, Seq::empty()),
            None => if sn.len() > 0 && self.kw_keep(sn) {
                seq![sn]
            } else {
                seq![]
            },
        }
    }

    /// The normalized text itself qualifies as a whole-string token.
    pub open spec fn whole_keep(self, w: Seq<char>) -> bool {
        match self.maximum_string_length {
            Some(m) => 1 <= w.len() <= m && !self.kw_excluded(w),
            None => false,
        }
    }

    /// Every keyword token the text `s` yields: its kept split tokens, plus
    /// the whole normalized string when whole-string mode asks for it and the
    /// string qualifies.
    pub open spec fn text_tokens(self, s: Seq<char>, whole: bool) -> Seq<Seq<char>> {
        let w = self.normalize_text(s);
        let base = self.split_tokens(w);
        if whole && self.whole_keep(w) {
            base.push(w)
        } else {
            base
        }
    }

    /// Every keyword token a list of text strings yields, in order.
    pub open spec fn texts_tokens(self, texts: Seq<Seq<char>>, whole: bool) -> Seq<Seq<char>>
        decreases texts.len(),
    {
        if texts.len() == 0 {
            Seq::empty()
        } else {
            self.texts_tokens(texts.drop_last(), whole) + self.text_tokens(texts.last(), whole)
        }
    }

    /// Apply the configured case folding to `s`.
    pub(crate) fn normalize_exec(&self, s: &str) -> (r: String)
        ensures
            r@ == self.normalize_text(s@),
    {
        if self.case_sensitive {
            s.to_owned()
        } else {
            lowercase(s)
        }
    }

    /// `t` survives the token filter.
    fn keep_exec(&self, t: &String) -> (r: bool)
        ensures
            r == self.kw_keep(t@),
    {
        let len = t.as_str().unicode_len();
        if len < self.minimum_keyword_length || len > self.maximum_keyword_length {
            return false;
        }
        !self.excluded_exec(t.as_str())
    }

    /// `t` stands in the exclusion list.
    fn excluded_exec(&self, t: &str) -> (r: bool)
        ensures
            r == self.kw_excluded(t@),
    {
        match self.exclude_keywords {
            None => false,
            Some(ref xs) => {
                let mut i: usize = 0;
                while i < xs.len()
                    invariant
                        i <= xs@.len(),
                        self.exclude_keywords is Some,
                        xs@ == self.exclude_keywords->Some_0@,
                        forall|j: int| 0 <= j < i ==> xs@[j]@ != t@,
                    decreases xs@.len() - i,
                {
                    if crate::order::str_eq(xs[i].as_str(), t) {
                        proof {
                            let ys = self.exclude_keywords->Some_0;
                            assert(self.exclude_keywords is Some);
                            assert(exists|j: int| 0 <= j < ys@.len() && ys@[j]@ == t@) by {
                                assert(ys@[i as int]@ == t@);
                            }
                            assert(self.kw_excluded(t@));
                        }
                        return true;
                    }
                    i = i + 1;
                }
                false
            },
        }
    }

    /// Split `string` into its normalized keyword tokens. With `use_whole`
    /// set, the whole normalized string is appended as one more token when
    /// the configuration admits it.
    pub fn string_keywords(&self, string: &str, use_whole: bool) -> (r: Vec<String>)
        ensures
            str_views(r@) == self.text_tokens(string@, use_whole),
    {
        let norm: String = if self.case_sensitive {
            string.to_owned()
        } else {
            lowercase(string)
        };
        let ghost w = self.normalize_text(string@);
        assert(norm@ == w);
        let mut out: Vec<String> = Vec::new();
        match &self.split_pattern {
            Some(pat) => {
                let len = norm.as_str().unicode_len();
                let mut i: usize = 0;
                let mut start: usize = 0;
                proof {
                    assert(w.skip(0) =~= w);
                    assert(w.subrange(0, 0) =~= Seq::<char>::empty());
                    assert(str_views(out@) =~= Seq::<Seq<char>>::empty());
                    assert(str_views(out@) + self.toks_acc(w.skip(0), pat@, w.subrange(0, 0))
                        =~= self.toks_acc(w, pat@, Seq::empty()));
                }
                while i < len
                    invariant
                        start <= i <= len,
                        len == w.len(),
                        norm@ == w,
                        self.split_pattern == Some(*pat),
                        str_views(out@) + self.toks_acc(
                            w.skip(i as int),
                            pat@,
                            w.subrange(start as int, i as int),
                        ) == self.toks_acc(w, pat@, Seq::empty()),
                    decreases len - i,
                {
                    let ghost cur = w.subrange(start as int, i as int);
                    proof {
                        assert(w.skip(i as int)[0] == w[i as int]);
                        assert(w.skip(i as int).skip(1) =~= w.skip(i + 1));
                    }
                    let c = norm.as_str().get_char(i);
                    if char_in(pat, c) {
                        // the pending run ends here
                        if i > start {
                            let tok = norm.as_str().substring_char(start, i).to_owned();
                            assert(tok@ == cur);
                            if self.keep_exec(&tok) {
                                let ghost old_out = out@;
                                out.push(tok);
                                proof {
                                    assert(str_views(out@) =~= str_views(old_out).push(cur));
                                    assert(self.tok_emit(cur) =~= seq![cur]);
                                    assert(str_views(old_out) + (self.tok_emit(cur)
                                        + self.toks_acc(w.skip(i + 1), pat@, Seq::empty()))
                                        =~= str_views(out@) + self.toks_acc(
                                        w.skip(i + 1),
                                        pat@,
                                        Seq::empty(),
                                    ));
                                }
                            } else {
                                proof {
                                    assert(self.tok_emit(cur) =~= Seq::<Seq<char>>::empty());
                                    assert(self.tok_emit(cur) + self.toks_acc(
                                        w.skip(i + 1),
                                        pat@,
                                        Seq::empty(),
                                    ) =~= self.toks_acc(w.skip(i + 1), pat@, Seq::empty()));
                                }
                            }
                        } else {
                            proof {
                                assert(cur =~= Seq::<char>::empty());
                                assert(self.tok_emit(cur) + self.toks_acc(
                                    w.skip(i + 1),
                                    pat@,
                                    Seq::empty(),
                                ) =~= self.toks_acc(w.skip(i + 1), pat@, Seq::empty()));
                            }
                        }
                        start = i + 1;
                        proof {
                            assert(w.subrange(start as int, i + 1) =~= Seq::<char>::empty());
                        }
                    } else {
                        proof {
                            assert(cur.push(w[i as int]) =~= w.subrange(start as int, i + 1));
                        }
                    }
                    i = i + 1;
                }
                // the final pending run
                let ghost cur = w.subrange(start as int, i as int);
                proof {
                    assert(w.skip(i as int) =~= Seq::<char>::empty());
                    assert(self.toks_acc(w.skip(i as int), pat@, cur) == self.tok_emit(cur));
                }
                if i > start {
                    let tok = norm.as_str().substring_char(start, i).to_owned();
                    assert(tok@ == cur);
                    if self.keep_exec(&tok) {
                        let ghost old_out = out@;
                        out.push(tok);
                        proof {
                            assert(str_views(out@) =~= str_views(old_out).push(cur));
                            assert(str_views(old_out) + self.tok_emit(cur) =~= str_views(out@));
                        }
                    } else {
                        proof {
                            assert(str_views(out@) + self.tok_emit(cur) =~= str_views(out@));
                        }
                    }
                } else {
                    proof {
                        assert(cur =~= Seq::<char>::empty());
                        assert(str_views(out@) + self.tok_emit(cur) =~= str_views(out@));
                    }
                }
                assert(str_views(out@) == self.split_tokens(w));
            },
            None => {
                let wlen = norm.as_str().unicode_len();
                if wlen > 0 && self.keep_exec(&norm) {
                    let ghost old_out = out@;
                    out.push(norm.clone());
                    proof {
                        assert(str_views(out@) =~= str_views(old_out).push(w));
                        assert(str_views(out@) =~= self.split_tokens(w));
                    }
                } else {
                    proof {
                        assert(str_views(out@) =~= self.split_tokens(w));
                    }
                }
            },
        }
        // the whole-string token
        if use_whole {
            if let Some(m) = self.maximum_string_length {
                let wlen = norm.as_str().unicode_len();
                if wlen >= 1 && wlen <= m && !self.excluded_exec(norm.as_str()) {
                    let ghost old_out = out@;
                    out.push(norm);
                    proof {
                        assert(str_views(out@) =~= str_views(old_out).push(w));
                    }
                    return out;
                }
            }
        }
        proof {
            assert(!(use_whole && self.whole_keep(w)));
        }
        out
    }
}

} // verus!
