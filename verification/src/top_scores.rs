//! The bounded best-N tracker for fuzzy autocompletion: it retains at most
//! its capacity of scored keywords; once full, a new candidate must strictly
//! outscore the lowest retained score to evict it.

use vstd::prelude::*;
use crate::order::{lex_lt, lemma_lex_connected, lemma_lex_trans, str_lex_lt};

verus! {

/// A retained candidate: a keyword, its keys, and its bit-encoded score.
pub struct ScoredEntry {
    pub keyword: String,
    pub keys: Vec<usize>,
    pub score: u64,
}

/// The mathematical value of a retained candidate.
pub struct ScoredView {
    pub kw: Seq<char>,
    pub keys: Seq<usize>,
    pub score: u64,
}

impl View for ScoredEntry {
    type V = ScoredView;

    open spec fn view(&self) -> ScoredView {
        ScoredView { kw: self.keyword@, keys: self.keys@, score: self.score }
    }
}

/// The views of a vector of retained candidates.
pub open spec fn se_views(s: Seq<ScoredEntry>) -> Seq<ScoredView> {
    s.map_values(|e: ScoredEntry| e@)
}

/// `a` ranks strictly before `b`: a higher score, or the same score and an
/// earlier keyword.
pub open spec fn rank_before(a_score: u64, a_kw: Seq<char>, b_score: u64, b_kw: Seq<char>) -> bool {
    a_score > b_score || (a_score == b_score && lex_lt(a_kw, b_kw))
}

/// The retained candidates, strictly rank-sorted, best first.
pub open spec fn ranked(s: Seq<ScoredView>) -> bool {
    forall|a: int, b: int|
        0 <= a < b < s.len() ==> rank_before(
            (#[trigger] s[a]).score,
            s[a].kw,
            (#[trigger] s[b]).score,
            s[b].kw,
        )
}

/// `e` inserted into `s` at its rank position; of equal ranks the sitting
/// element keeps the earlier place.
pub open spec fn rank_inserted(s: Seq<ScoredView>, e: ScoredView) -> Seq<ScoredView>
    decreases s.len(),
{
    if s.len() == 0 {
        seq![e]
    } else if rank_before(e.score, e.kw, s[0].score, s[0].kw) {
        seq![e] + s
    } else {
        seq![s[0]] + rank_inserted(s.skip(1), e)
    }
}

pub proof fn lemma_rank_trans(
    a_s: u64,
    a_k: Seq<char>,
    b_s: u64,
    b_k: Seq<char>,
    c_s: u64,
    c_k: Seq<char>,
)
    requires
        rank_before(a_s, a_k, b_s, b_k),
        rank_before(b_s, b_k, c_s, c_k),
    ensures
        rank_before(a_s, a_k, c_s, c_k),
{
    if a_s == b_s && b_s == c_s {
        lemma_lex_trans(a_k, b_k, c_k);
    }
}

/// Distinct keywords always order one way or the other.
pub proof fn lemma_rank_total(a_s: u64, a_k: Seq<char>, b_s: u64, b_k: Seq<char>)
    requires
        a_k != b_k,
    ensures
        rank_before(a_s, a_k, b_s, b_k) || rank_before(b_s, b_k, a_s, a_k),
{
    if a_s == b_s {
        if !lex_lt(a_k, b_k) && !lex_lt(b_k, a_k) {
            lemma_lex_connected(a_k, b_k);
        }
    }
}

/// Inserting a keyword no element holds keeps the list ranked and adds
/// exactly that element.
pub proof fn lemma_rank_inserted_props(s: Seq<ScoredView>, e: ScoredView)
    requires
        ranked(s),
        forall|i: int| 0 <= i < s.len() ==> (#[trigger] s[i]).kw != e.kw,
    ensures
        ranked(rank_inserted(s, e)),
        rank_inserted(s, e).len() == s.len() + 1,
        forall|x: ScoredView| #[trigger] rank_inserted(s, e).contains(x) ==> (s.contains(x) || x
            == e),
        forall|x: ScoredView| #[trigger] s.contains(x) ==> rank_inserted(s, e).contains(x),
        rank_inserted(s, e).contains(e),
    decreases s.len(),
{
    let r = rank_inserted(s, e);
    if s.len() == 0 {
        assert(r =~= seq![e]);
        assert(r[0] == e);
        assert(r.contains(e));
        assert forall|x: ScoredView| #[trigger] r.contains(x) implies (s.contains(x) || x == e) by {
            let i = choose|i: int| 0 <= i < r.len() && r[i] == x;
        }
    } else if rank_before(e.score, e.kw, s[0].score, s[0].kw) {
        assert(r =~= seq![e] + s);
        assert forall|a: int, b: int| 0 <= a < b < r.len() implies rank_before(
            (#[trigger] r[a]).score,
            r[a].kw,
            (#[trigger] r[b]).score,
            r[b].kw,
        ) by {
            if a == 0 {
                assert(r[b] == s[b - 1]);
                if b > 1 {
                    lemma_rank_trans(
                        e.score,
                        e.kw,
                        s[0].score,
                        s[0].kw,
                        s[b - 1].score,
                        s[b - 1].kw,
                    );
                }
            } else {
                assert(r[a] == s[a - 1]);
                assert(r[b] == s[b - 1]);
            }
        }
        assert forall|x: ScoredView| #[trigger] r.contains(x) implies (s.contains(x) || x == e) by {
            let i = choose|i: int| 0 <= i < r.len() && r[i] == x;
            if i > 0 {
                assert(s[i - 1] == x);
            }
        }
        assert forall|x: ScoredView| #[trigger] s.contains(x) implies r.contains(x) by {
            let i = choose|i: int| 0 <= i < s.len() && s[i] == x;
            assert(r[i + 1] == x);
        }
        assert(r[0] == e);
        assert(r.contains(e));
    } else {
        let t = s.skip(1);
        let rt = rank_inserted(t, e);
        assert(r =~= seq![s[0]] + rt);
        assert forall|i: int| 0 <= i < t.len() implies (#[trigger] t[i]).kw != e.kw by {
            assert(t[i] == s[i + 1]);
        }
        assert(ranked(t)) by {
            assert forall|a: int, b: int| 0 <= a < b < t.len() implies rank_before(
                (#[trigger] t[a]).score,
                t[a].kw,
                (#[trigger] t[b]).score,
                t[b].kw,
            ) by {
                assert(t[a] == s[a + 1]);
                assert(t[b] == s[b + 1]);
            }
        }
        lemma_rank_inserted_props(t, e);
        // s[0] ranks before e, hence before everything in rt
        assert(s[0].kw != e.kw);
        lemma_rank_total(e.score, e.kw, s[0].score, s[0].kw);
        assert(rank_before(s[0].score, s[0].kw, e.score, e.kw));
        assert forall|a: int, b: int| 0 <= a < b < r.len() implies rank_before(
            (#[trigger] r[a]).score,
            r[a].kw,
            (#[trigger] r[b]).score,
            r[b].kw,
        ) by {
            if a == 0 {
                let x = r[b];
                assert(rt[b - 1] == x);
                assert(rt.contains(x));
                assert(t.contains(x) || x == e);
                if t.contains(x) {
                    let m = choose|m: int| 0 <= m < t.len() && t[m] == x;
                    assert(s[m + 1] == x);
                } else {
                    assert(x == e);
                }
            } else {
                assert(rt[a - 1] == r[a]);
                assert(rt[b - 1] == r[b]);
            }
        }
        assert forall|x: ScoredView| #[trigger] r.contains(x) implies (s.contains(x) || x == e) by {
            let i = choose|i: int| 0 <= i < r.len() && r[i] == x;
            if i == 0 {
                assert(s[0] == x);
            } else {
                assert(rt[i - 1] == x);
                assert(rt.contains(x));
                assert(t.contains(x) || x == e);
                if t.contains(x) {
                    let m = choose|m: int| 0 <= m < t.len() && t[m] == x;
                    assert(s[m + 1] == x);
                }
            }
        }
        assert forall|x: ScoredView| #[trigger] s.contains(x) implies r.contains(x) by {
            let i = choose|i: int| 0 <= i < s.len() && s[i] == x;
            if i == 0 {
                assert(r[0] == x);
            } else {
                assert(t[i - 1] == x);
                assert(t.contains(x));
                assert(rt.contains(x));
                let m = choose|m: int| 0 <= m < rt.len() && rt[m] == x;
                assert(r[m + 1] == x);
            }
        }
        assert(r.contains(e)) by {
            assert(rt.contains(e));
            let m = choose|m: int| 0 <= m < rt.len() && rt[m] == e;
            assert(r[m + 1] == e);
        }
    }
}

/// At the first position `p` that the new element outranks, the recursive
/// insertion spec coincides with positional insertion.
proof fn lemma_rank_inserted_position(s: Seq<ScoredView>, e: ScoredView, p: int)
    requires
        0 <= p <= s.len(),
        forall|j: int|
            0 <= j < p ==> !rank_before(e.score, e.kw, (#[trigger] s[j]).score, s[j].kw),
        p < s.len() ==> rank_before(e.score, e.kw, s[p].score, s[p].kw),
    ensures
        rank_inserted(s, e) =~= s.insert(p, e),
    decreases s.len(),
{
    if s.len() == 0 {
        assert(rank_inserted(s, e) =~= s.insert(0, e));
    } else if p == 0 {
        assert(rank_inserted(s, e) =~= s.insert(0, e));
    } else {
        let t = s.skip(1);
        assert forall|j: int| 0 <= j < p - 1 implies !rank_before(
            e.score,
            e.kw,
            (#[trigger] t[j]).score,
            t[j].kw,
        ) by {
            assert(t[j] == s[j + 1]);
        }
        if p - 1 < t.len() {
            assert(t[p - 1] == s[p]);
        }
        lemma_rank_inserted_position(t, e, p - 1);
        assert(rank_inserted(s, e) =~= seq![s[0]] + rank_inserted(t, e));
    }
}

/// The bounded best-N structure itself.
pub struct TopScores {
    pub top: Vec<ScoredEntry>,
    pub capacity: usize,
}

impl TopScores {
    /// Within capacity and strictly rank-sorted.
    pub open spec fn wf(self) -> bool {
        &&& self.top@.len() <= self.capacity
        &&& ranked(se_views(self.top@))
    }

    /// An empty tracker for at most `capacity` candidates.
    pub fn with_capacity(capacity: usize) -> (r: TopScores)
        ensures
            r.wf(),
            r.top@.len() == 0,
            r.capacity == capacity,
    {
        TopScores { top: Vec::new(), capacity }
    }

    /// Offer a candidate. Below capacity it is retained outright; at
    /// capacity it must strictly outscore the bottom, which it then evicts.
    pub(crate) fn insert(&mut self, keyword: &String, keys: &Vec<usize>, score: u64)
        requires
            old(self).wf(),
            forall|i: int|
                0 <= i < old(self).top@.len() ==> (#[trigger] old(self).top@[i]).keyword@
                    != keyword@,
        ensures
            final(self).wf(),
            final(self).capacity == old(self).capacity,
            old(self).top@.len() < old(self).capacity ==> se_views(final(self).top@)
                == rank_inserted(
                se_views(old(self).top@),
                (ScoredView { kw: keyword@, keys: keys@, score }),
            ),
            old(self).top@.len() >= old(self).capacity && old(self).capacity > 0 && score > old(
                self,
            ).top@.last().score ==> se_views(final(self).top@) == rank_inserted(
                se_views(old(self).top@).drop_last(),
                (ScoredView { kw: keyword@, keys: keys@, score }),
            ),
            old(self).top@.len() >= old(self).capacity && !(old(self).capacity > 0 && score > old(
                self,
            ).top@.last().score) ==> final(self).top@ == old(self).top@,
    {
        if self.top.len() >= self.capacity {
            if self.capacity == 0 {
                return ;
            }
            let bottom = self.top[self.top.len() - 1].score;
            if score > bottom {
                self.top.pop();
                proof {
                    assert(self.top@ =~= old(self).top@.drop_last());
                    assert(se_views(self.top@) =~= se_views(old(self).top@).drop_last());
                    assert forall|a: int, b: int|
                        0 <= a < b < se_views(self.top@).len() implies rank_before(
                        (#[trigger] se_views(self.top@)[a]).score,
                        se_views(self.top@)[a].kw,
                        (#[trigger] se_views(self.top@)[b]).score,
                        se_views(self.top@)[b].kw,
                    ) by {
                        assert(se_views(self.top@)[a] == se_views(old(self).top@)[a]);
                        assert(se_views(self.top@)[b] == se_views(old(self).top@)[b]);
                    }
                    assert forall|i: int| 0 <= i < self.top@.len() implies (#[trigger] self
                        .top@[i]).keyword@ != keyword@ by {
                        assert(self.top@[i] == old(self).top@[i]);
                    }
                }
                self.insert_at_rank(keyword, keys, score);
            }
        } else {
            self.insert_at_rank(keyword, keys, score);
        }
    }

    /// Insert at the rank position, unconditionally.
    fn insert_at_rank(&mut self, keyword: &String, keys: &Vec<usize>, score: u64)
        requires
            ranked(se_views(old(self).top@)),
            forall|i: int|
                0 <= i < old(self).top@.len() ==> (#[trigger] old(self).top@[i]).keyword@
                    != keyword@,
        ensures
            final(self).capacity == old(self).capacity,
            se_views(final(self).top@) == rank_inserted(
                se_views(old(self).top@),
                (ScoredView { kw: keyword@, keys: keys@, score }),
            ),
            ranked(se_views(final(self).top@)),
            final(self).top@.len() == old(self).top@.len() + 1,
    {
        let ghost e = ScoredView { kw: keyword@, keys: keys@, score };
        let ghost sv = se_views(old(self).top@);
        proof {
            assert forall|i: int| 0 <= i < sv.len() implies (#[trigger] sv[i]).kw != e.kw by {
                assert(sv[i] == old(self).top@[i]@);
            }
            lemma_rank_inserted_props(sv, e);
        }
        let n = self.top.len();
        let mut i: usize = 0;
        loop
            invariant
                self == old(self),
                n == self.top@.len(),
                i <= n,
                forall|j: int|
                    0 <= j < i ==> !rank_before(
                        score,
                        keyword@,
                        (#[trigger] self.top@[j]).score,
                        self.top@[j].keyword@,
                    ),
            ensures
                self == old(self),
                i <= n,
                forall|j: int|
                    0 <= j < i ==> !rank_before(
                        score,
                        keyword@,
                        (#[trigger] self.top@[j]).score,
                        self.top@[j].keyword@,
                    ),
                i < n ==> rank_before(
                    score,
                    keyword@,
                    self.top@[i as int].score,
                    self.top@[i as int].keyword@,
                ),
            decreases n - i,
        {
            if i == n {
                break ;
            }
            let outranks = if score != self.top[i].score {
                score > self.top[i].score
            } else {
                str_lex_lt(keyword.as_str(), self.top[i].keyword.as_str())
            };
            if outranks {
                break ;
            }
            i = i + 1;
        }
        proof {
            assert forall|j: int| 0 <= j < i implies !rank_before(
                e.score,
                e.kw,
                (#[trigger] sv[j]).score,
                sv[j].kw,
            ) by {
                assert(sv[j] == self.top@[j]@);
            }
            if (i as int) < sv.len() {
                assert(sv[i as int] == self.top@[i as int]@);
            }
            lemma_rank_inserted_position(sv, e, i as int);
        }
        let entry = ScoredEntry {
            keyword: keyword.clone(),
            keys: crate::keyset::copy_keys(keys),
            score,
        };
        self.top.insert(i, entry);
        proof {
            assert(se_views(final(self).top@) =~= rank_inserted(sv, e));
        }
    }

    /// The retained candidates, best first, scores dropped.
    pub(crate) fn results(&self) -> (r: Vec<crate::search_index::Entry>)
        ensures
            r@.len() == self.top@.len(),
            forall|i: int|
                0 <= i < r@.len() ==> (#[trigger] r@[i]).keyword@ == self.top@[i].keyword@
                    && r@[i].keys@ == self.top@[i].keys@,
    {
        let mut r: Vec<crate::search_index::Entry> = Vec::new();
        let mut i: usize = 0;
        while i < self.top.len()
            invariant
                i <= self.top@.len(),
                r@.len() == i,
                forall|j: int|
                    0 <= j < i ==> (#[trigger] r@[j]).keyword@ == self.top@[j].keyword@
                        && r@[j].keys@ == self.top@[j].keys@,
            decreases self.top@.len() - i,
        {
            let e = crate::search_index::Entry {
                keyword: self.top[i].keyword.clone(),
                keys: crate::keyset::copy_keys(&self.top[i].keys),
            };
            r.push(e);
            i = i + 1;
        }
        r
    }
}

} // verus!
