//! Sorted, duplicate-free vectors of record keys: the representation of every
//! key set held by the index, together with the set operations the search
//! engine needs.

use vstd::prelude::*;

verus! {

/// A key set is kept strictly ascending: sorted and free of duplicates.
pub open spec fn ascending(s: Seq<usize>) -> bool {
    forall|i: int, j: int| 0 <= i < j < s.len() ==> s[i] < s[j]
}

/// The sequence `s` with `k` inserted at its sorted position, unchanged if
/// `k` is already present.
pub open spec fn key_inserted(s: Seq<usize>, k: usize) -> Seq<usize>
    decreases s.len(),
{
    if s.len() == 0 {
        seq![k]
    } else if k < s[0] {
        seq![k] + s
    } else if k == s[0] {
        s
    } else {
        seq![s[0]] + key_inserted(s.skip(1), k)
    }
}

/// The sequence `s` with the first occurrence of `k` removed.
pub open spec fn key_removed(s: Seq<usize>, k: usize) -> Seq<usize>
    decreases s.len(),
{
    if s.len() == 0 {
        s
    } else if s[0] == k {
        s.skip(1)
    } else {
        seq![s[0]] + key_removed(s.skip(1), k)
    }
}

/// `s` truncated to its first `n` elements, or all of `s` if it is shorter.
pub open spec fn take_at_most(s: Seq<usize>, n: usize) -> Seq<usize> {
    if s.len() <= n {
        s
    } else {
        s.take(n as int)
    }
}

pub proof fn lemma_key_inserted_props(s: Seq<usize>, k: usize)
    requires
        ascending(s),
    ensures
        ascending(key_inserted(s, k)),
        forall|x: usize| key_inserted(s, k).contains(x) <==> (s.contains(x) || x == k),
        key_inserted(s, k).len() == if s.contains(k) {
            s.len()
        } else {
            s.len() + 1
        },
    decreases s.len(),
{
    if s.len() == 0 {
        assert forall|x: usize| key_inserted(s, k).contains(x) implies (s.contains(x) || x == k) by {
            assert(key_inserted(s, k) =~= seq![k]);
        }
        assert(key_inserted(s, k).contains(k)) by {
            assert(key_inserted(s, k)[0] == k);
        }
    } else if k < s[0] {
        let r = key_inserted(s, k);
        assert(r =~= seq![k] + s);
        assert forall|x: usize| r.contains(x) implies (s.contains(x) || x == k) by {
            let i = choose|i: int| 0 <= i < r.len() && r[i] == x;
            if i > 0 {
                assert(s[i - 1] == x);
            }
        }
        assert forall|x: usize| s.contains(x) implies r.contains(x) by {
            let i = choose|i: int| 0 <= i < s.len() && s[i] == x;
            assert(r[i + 1] == x);
        }
        assert(r[0] == k);
    } else if k == s[0] {
    } else {
        let t = s.skip(1);
        assert(ascending(t));
        lemma_key_inserted_props(t, k);
        let r = key_inserted(s, k);
        let rt = key_inserted(t, k);
        assert(r =~= seq![s[0]] + rt);
        // ascending: s[0] is below everything in rt
        assert forall|i: int, j: int| 0 <= i < j < r.len() implies r[i] < r[j] by {
            if i == 0 {
                let x = r[j];
                assert(rt[j - 1] == x);
                assert(rt.contains(x));
                if t.contains(x) {
                    let m = choose|m: int| 0 <= m < t.len() && t[m] == x;
                    assert(s[m + 1] == x);
                } else {
                    assert(x == k);
                }
            } else {
                assert(rt[i - 1] < rt[j - 1]);
            }
        }
        assert forall|x: usize| r.contains(x) implies (s.contains(x) || x == k) by {
            let i = choose|i: int| 0 <= i < r.len() && r[i] == x;
            if i > 0 {
                assert(rt[i - 1] == x);
                assert(rt.contains(x));
                if t.contains(x) {
                    let m = choose|m: int| 0 <= m < t.len() && t[m] == x;
                    assert(s[m + 1] == x);
                }
            }
        }
        assert forall|x: usize| (s.contains(x) || x == k) implies r.contains(x) by {
            if x == k {
                assert(rt.contains(k));
                let m = choose|m: int| 0 <= m < rt.len() && rt[m] == k;
                assert(r[m + 1] == k);
            } else {
                let i = choose|i: int| 0 <= i < s.len() && s[i] == x;
                if i == 0 {
                    assert(r[0] == x);
                } else {
                    assert(t[i - 1] == x);
                    assert(t.contains(x));
                    assert(rt.contains(x));
                    let m = choose|m: int| 0 <= m < rt.len() && rt[m] == x;
                    assert(r[m + 1] == x);
                }
            }
        }
        if s.contains(k) {
            assert(t.contains(k)) by {
                let i = choose|i: int| 0 <= i < s.len() && s[i] == k;
                assert(i != 0);
                assert(t[i - 1] == k);
            }
        } else {
            assert(!t.contains(k)) by {
                if t.contains(k) {
                    let i = choose|i: int| 0 <= i < t.len() && t[i] == k;
                    assert(s[i + 1] == k);
                }
            }
        }
    }
}

/// The inserted key is always a member, whatever the order of `s`.
pub proof fn lemma_key_inserted_contains_self(s: Seq<usize>, k: usize)
    ensures
        key_inserted(s, k).contains(k),
    decreases s.len(),
{
    let r = key_inserted(s, k);
    if s.len() == 0 {
        assert(r[0] == k);
    } else if k < s[0] {
        assert(r == seq![k] + s);
        assert(r[0] == k);
    } else if k == s[0] {
        assert(r[0] == k);
    } else {
        lemma_key_inserted_contains_self(s.skip(1), k);
        let rt = key_inserted(s.skip(1), k);
        let m = choose|m: int| 0 <= m < rt.len() && rt[m] == k;
        assert(r == seq![s[0]] + rt);
        assert(r[m + 1] == k);
    }
}

pub proof fn lemma_key_removed_props(s: Seq<usize>, k: usize)
    requires
        ascending(s),
    ensures
        ascending(key_removed(s, k)),
        forall|x: usize| key_removed(s, k).contains(x) <==> (s.contains(x) && x != k),
        key_removed(s, k).len() == if s.contains(k) {
            s.len() - 1
        } else {
            s.len() as int
        },
    decreases s.len(),
{
    if s.len() == 0 {
    } else if s[0] == k {
        let t = s.skip(1);
        assert(key_removed(s, k) == t);
        assert forall|x: usize| t.contains(x) implies (s.contains(x) && x != k) by {
            let i = choose|i: int| 0 <= i < t.len() && t[i] == x;
            assert(s[i + 1] == x);
            assert(s[0] < s[i + 1]);
        }
        assert forall|x: usize| (s.contains(x) && x != k) implies t.contains(x) by {
            let i = choose|i: int| 0 <= i < s.len() && s[i] == x;
            assert(i != 0);
            assert(t[i - 1] == x);
        }
        assert(s.contains(k)) by {
            assert(s[0] == k);
        }
    } else {
        let t = s.skip(1);
        assert(ascending(t));
        lemma_key_removed_props(t, k);
        let r = key_removed(s, k);
        let rt = key_removed(t, k);
        assert(r =~= seq![s[0]] + rt);
        assert forall|i: int, j: int| 0 <= i < j < r.len() implies r[i] < r[j] by {
            if i == 0 {
                let x = r[j];
                assert(rt[j - 1] == x);
                assert(rt.contains(x));
                assert(t.contains(x));
                let m = choose|m: int| 0 <= m < t.len() && t[m] == x;
                assert(s[m + 1] == x);
            } else {
                assert(rt[i - 1] < rt[j - 1]);
            }
        }
        assert forall|x: usize| r.contains(x) implies (s.contains(x) && x != k) by {
            let i = choose|i: int| 0 <= i < r.len() && r[i] == x;
            if i == 0 {
                assert(s[0] == x);
            } else {
                assert(rt[i - 1] == x);
                assert(rt.contains(x));
                assert(t.contains(x));
                let m = choose|m: int| 0 <= m < t.len() && t[m] == x;
                assert(s[m + 1] == x);
            }
        }
        assert forall|x: usize| (s.contains(x) && x != k) implies r.contains(x) by {
            let i = choose|i: int| 0 <= i < s.len() && s[i] == x;
            if i == 0 {
                assert(r[0] == x);
            } else {
                assert(t[i - 1] == x);
                assert(t.contains(x));
                assert(rt.contains(x));
                let m = choose|m: int| 0 <= m < rt.len() && rt[m] == x;
                assert(r[m + 1] == x);
            }
        }
        if s.contains(k) {
            assert(t.contains(k)) by {
                let i = choose|i: int| 0 <= i < s.len() && s[i] == k;
                assert(i != 0);
                assert(t[i - 1] == k);
            }
        } else {
            assert(!t.contains(k)) by {
                if t.contains(k) {
                    let i = choose|i: int| 0 <= i < t.len() && t[i] == k;
                    assert(s[i + 1] == k);
                }
            }
        }
    }
}

/// Two strictly ascending sequences with the same members are the same
/// sequence: a key set has exactly one sorted representation.
pub proof fn lemma_ascending_same_elements(a: Seq<usize>, b: Seq<usize>)
    requires
        ascending(a),
        ascending(b),
        forall|x: usize| a.contains(x) <==> b.contains(x),
    ensures
        a == b,
    decreases a.len(),
{
    if a.len() == 0 {
        if b.len() > 0 {
            assert(b.contains(b[0]));
            assert(false);
        }
        assert(a =~= b);
    } else {
        assert(a.contains(a[0]));
        assert(b.len() > 0) by {
            assert(b.contains(a[0]));
        }
        // heads are the minima, so they agree
        assert(b.contains(a[0]));
        let i = choose|i: int| 0 <= i < b.len() && b[i] == a[0];
        assert(b[0] <= a[0]);
        assert(a.contains(b[0]));
        let j = choose|j: int| 0 <= j < a.len() && a[j] == b[0];
        assert(a[0] <= b[0]);
        assert(a[0] == b[0]);
        let at = a.skip(1);
        let bt = b.skip(1);
        assert forall|x: usize| at.contains(x) <==> bt.contains(x) by {
            assert forall|x: usize| at.contains(x) implies bt.contains(x) by {
                let m = choose|m: int| 0 <= m < at.len() && at[m] == x;
                assert(a[m + 1] == x);
                assert(a[0] < x);
                assert(b.contains(x));
                let n = choose|n: int| 0 <= n < b.len() && b[n] == x;
                assert(n != 0);
                assert(bt[n - 1] == x);
            }
            assert forall|x: usize| bt.contains(x) implies at.contains(x) by {
                let m = choose|m: int| 0 <= m < bt.len() && bt[m] == x;
                assert(b[m + 1] == x);
                assert(b[0] < x);
                assert(a.contains(x));
                let n = choose|n: int| 0 <= n < a.len() && a[n] == x;
                assert(n != 0);
                assert(at[n - 1] == x);
            }
        }
        lemma_ascending_same_elements(at, bt);
        assert(a =~= seq![a[0]] + at);
        assert(b =~= seq![b[0]] + bt);
    }
}

/// Membership test in a key vector.
pub fn keys_contains(v: &Vec<usize>, k: usize) -> (r: bool)
    ensures
        r == v@.contains(k),
{
    let mut i: usize = 0;
    while i < v.len()
        invariant
            i <= v@.len(),
            forall|j: int| 0 <= j < i ==> v@[j] != k,
        decreases v@.len() - i,
    {
        if v[i] == k {
            return true;
        }
        i = i + 1;
    }
    false
}

/// Insert a key at its sorted position; a present key is left alone.
pub fn keys_insert(v: &mut Vec<usize>, k: usize)
    requires
        ascending(old(v)@),
    ensures
        final(v)@ == key_inserted(old(v)@, k),
        ascending(final(v)@),
{
    let mut i: usize = 0;
    while i < v.len() && v[i] < k
        invariant
            i <= v@.len(),
            v@ == old(v)@,
            ascending(v@),
            forall|j: int| 0 <= j < i ==> v@[j] < k,
        decreases v@.len() - i,
    {
        i = i + 1;
    }
    proof {
        lemma_key_inserted_props(v@, k);
        lemma_key_inserted_position(v@, k, i as int);
    }
    if i < v.len() && v[i] == k {
        return;
    }
    v.insert(i, k);
    proof {
        assert(final(v)@ =~= key_inserted(old(v)@, k));
    }
}

/// At the first position `p` whose element is not below `k`, the recursive
/// insertion spec coincides with positional insertion.
proof fn lemma_key_inserted_position(s: Seq<usize>, k: usize, p: int)
    requires
        ascending(s),
        0 <= p <= s.len(),
        forall|j: int| 0 <= j < p ==> s[j] < k,
        p < s.len() ==> s[p] >= k,
    ensures
        p < s.len() && s[p] == k ==> key_inserted(s, k) == s,
        !(p < s.len() && s[p] == k) ==> key_inserted(s, k) =~= s.insert(p, k),
    decreases s.len(),
{
    if s.len() == 0 {
    } else if p == 0 {
        if s[0] == k {
        } else {
            assert(s[0] > k);
            assert(key_inserted(s, k) =~= s.insert(0, k));
        }
    } else {
        let t = s.skip(1);
        assert(ascending(t));
        assert(forall|j: int| 0 <= j < p - 1 ==> t[j] < k);
        lemma_key_inserted_position(t, k, p - 1);
        assert(s[0] < k);
        if p < s.len() && s[p] == k {
            assert(t[p - 1] == k);
            assert(key_inserted(s, k) =~= seq![s[0]] + key_inserted(t, k));
            assert(key_inserted(s, k) =~= s);
        } else {
            assert(key_inserted(s, k) =~= seq![s[0]] + key_inserted(t, k));
            assert(key_inserted(s, k) =~= s.insert(p, k));
        }
    }
}

/// Remove a key from a key vector; an absent key is left alone.
pub fn keys_remove(v: &mut Vec<usize>, k: usize)
    requires
        ascending(old(v)@),
    ensures
        final(v)@ == key_removed(old(v)@, k),
        ascending(final(v)@),
{
    let mut i: usize = 0;
    while i < v.len()
        invariant
            i <= v@.len(),
            v@ == old(v)@,
            ascending(v@),
            forall|j: int| 0 <= j < i ==> v@[j] != k,
        decreases v@.len() - i,
    {
        if v[i] == k {
            proof {
                lemma_key_removed_props(v@, k);
                lemma_key_removed_position(v@, k, i as int);
            }
            v.remove(i);
            proof {
                assert(final(v)@ =~= key_removed(old(v)@, k));
            }
            return;
        }
        i = i + 1;
    }
    proof {
        lemma_key_removed_absent(v@, k);
    }
}

/// Where `k` first occurs at position `p`, the recursive removal spec
/// coincides with positional removal.
proof fn lemma_key_removed_position(s: Seq<usize>, k: usize, p: int)
    requires
        0 <= p < s.len(),
        s[p] == k,
        forall|j: int| 0 <= j < p ==> s[j] != k,
    ensures
        key_removed(s, k) =~= s.remove(p),
    decreases s.len(),
{
    if p == 0 {
        assert(key_removed(s, k) == s.skip(1));
        assert(s.skip(1) =~= s.remove(0));
    } else {
        let t = s.skip(1);
        assert(t[p - 1] == k);
        assert(forall|j: int| 0 <= j < p - 1 ==> t[j] != k);
        lemma_key_removed_position(t, k, p - 1);
        assert(key_removed(s, k) =~= seq![s[0]] + key_removed(t, k));
    }
}

pub proof fn lemma_key_removed_absent(s: Seq<usize>, k: usize)
    requires
        forall|j: int| 0 <= j < s.len() ==> s[j] != k,
    ensures
        key_removed(s, k) =~= s,
    decreases s.len(),
{
    if s.len() > 0 {
        let t = s.skip(1);
        lemma_key_removed_absent(t, k);
        assert(key_removed(s, k) =~= seq![s[0]] + key_removed(t, k));
    }
}

/// The keys of `a` that also appear in `b`, in `a`'s order.
pub open spec fn inter_seqs(a: Seq<usize>, b: Seq<usize>) -> Seq<usize> {
    a.filter(|x: usize| b.contains(x))
}

/// Ascending order survives intersection, and membership is conjunction.
pub proof fn lemma_inter_props(a: Seq<usize>, b: Seq<usize>)
    requires
        ascending(a),
    ensures
        ascending(inter_seqs(a, b)),
        forall|x: usize| inter_seqs(a, b).contains(x) <==> (a.contains(x) && b.contains(x)),
{
    lemma_filter_ascending(a, |x: usize| b.contains(x));
}

/// Compute the intersection of two key vectors.
pub fn keys_intersect(a: &Vec<usize>, b: &Vec<usize>) -> (r: Vec<usize>)
    ensures
        r@ == inter_seqs(a@, b@),
{
    let mut r: Vec<usize> = Vec::new();
    let mut i: usize = 0;
    proof {
        reveal(Seq::filter);
        assert(a@.take(0) =~= Seq::<usize>::empty());
    }
    while i < a.len()
        invariant
            i <= a@.len(),
            r@ == a@.take(i as int).filter(|x: usize| b@.contains(x)),
        decreases a@.len() - i,
    {
        let x = a[i];
        proof {
            Seq::lemma_filter_push(a@.take(i as int), a@[i as int], |x: usize| b@.contains(x));
            assert(a@.take(i as int).push(a@[i as int]) =~= a@.take(i + 1));
        }
        if keys_contains(b, x) {
            r.push(x);
        }
        i = i + 1;
    }
    proof {
        assert(a@.take(a@.len() as int) =~= a@);
    }
    r
}

/// A filtered key vector keeps the ascending order of its source.
pub proof fn lemma_filter_ascending(s: Seq<usize>, pred: spec_fn(usize) -> bool)
    requires
        ascending(s),
    ensures
        ascending(s.filter(pred)),
        forall|x: usize| s.filter(pred).contains(x) <==> (s.contains(x) && pred(x)),
    decreases s.len(),
{
    if s.len() == 0 {
        reveal(Seq::filter);
    } else {
        let t = s.drop_last();
        assert(ascending(t));
        lemma_filter_ascending(t, pred);
        let x = s.last();
        assert(s =~= t.push(x));
        Seq::lemma_filter_push(t, x, pred);
        if pred(x) {
            let r = s.filter(pred);
            assert(r == t.filter(pred).push(x));
            assert forall|i: int, j: int| 0 <= i < j < r.len() implies r[i] < r[j] by {
                if j < r.len() - 1 {
                    assert(t.filter(pred)[i] < t.filter(pred)[j]);
                } else {
                    let y = r[i];
                    assert(t.filter(pred)[i] == y);
                    assert(t.filter(pred).contains(y));
                    assert(t.contains(y));
                    let m = choose|m: int| 0 <= m < t.len() && t[m] == y;
                    assert(s[m] == y);
                    assert(s[m] < s[s.len() - 1]);
                }
            }
        }
        assert forall|y: usize| s.filter(pred).contains(y) implies (s.contains(y) && pred(y)) by {
            if !pred(x) || y != x {
                if t.filter(pred).contains(y) {
                    assert(t.contains(y));
                    let m = choose|m: int| 0 <= m < t.len() && t[m] == y;
                    assert(s[m] == y);
                }
            }
        }
        assert forall|y: usize| (s.contains(y) && pred(y)) implies s.filter(pred).contains(y) by {
            let m = choose|m: int| 0 <= m < s.len() && s[m] == y;
            if m < s.len() - 1 {
                assert(t[m] == y);
            }
        }
    }
}

/// Copy a key vector.
pub fn copy_keys(v: &Vec<usize>) -> (r: Vec<usize>)
    ensures
        r@ == v@,
{
    let mut r: Vec<usize> = Vec::new();
    let mut i: usize = 0;
    while i < v.len()
        invariant
            i <= v@.len(),
            r@ == v@.take(i as int),
        decreases v@.len() - i,
    {
        r.push(v[i]);
        proof {
            assert(v@.take(i as int).push(v@[i as int]) =~= v@.take(i + 1));
        }
        i = i + 1;
    }
    proof {
        assert(v@.take(v@.len() as int) =~= v@);
    }
    r
}

/// Copy at most the first `n` keys of `v`.
pub fn copy_keys_capped(v: &Vec<usize>, n: usize) -> (r: Vec<usize>)
    ensures
        r@ == take_at_most(v@, n),
{
    let end: usize = if v.len() <= n {
        v.len()
    } else {
        n
    };
    let mut r: Vec<usize> = Vec::new();
    let mut i: usize = 0;
    while i < end
        invariant
            i <= end,
            end <= v@.len(),
            r@ == v@.take(i as int),
        decreases end - i,
    {
        r.push(v[i]);
        proof {
            assert(v@.take(i as int).push(v@[i as int]) =~= v@.take(i + 1));
        }
        i = i + 1;
    }
    proof {
        if v@.len() <= n {
            assert(v@.take(v@.len() as int) =~= v@);
        }
    }
    r
}

} // verus!
