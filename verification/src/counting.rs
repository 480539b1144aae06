//! Counting and searching in a sequence by a predicate.

use vstd::prelude::*;

verus! {

/// How many items of `s` satisfy `p`.
pub open spec fn count_where<T>(s: Seq<T>, p: spec_fn(T) -> bool) -> nat
    decreases s.len(),
{
    if s.len() == 0 {
        0
    } else {
        count_where(s.drop_last(), p) + if p(s.last()) {
            1nat
        } else {
            0nat
        }
    }
}

/// The position of the first item of `s` that satisfies `p`, if any.
pub open spec fn first_where<T>(s: Seq<T>, p: spec_fn(T) -> bool) -> Option<int>
    decreases s.len(),
{
    if s.len() == 0 {
        None
    } else if p(s[0]) {
        Some(0)
    } else {
        match first_where(s.drop_first(), p) {
            Some(k) => Some(k + 1),
            None => None,
        }
    }
}

/// Counting over one more item of a prefix.
pub proof fn lemma_count_step<T>(s: Seq<T>, p: spec_fn(T) -> bool, k: int)
    requires
        0 <= k < s.len(),
    ensures
        count_where(s.take(k + 1), p) == count_where(s.take(k), p) + if p(s[k]) {
            1nat
        } else {
            0nat
        },
{
    assert(s.take(k + 1).drop_last() =~= s.take(k));
}

pub proof fn lemma_count_bound<T>(s: Seq<T>, p: spec_fn(T) -> bool)
    ensures
        count_where(s, p) <= s.len(),
    decreases s.len(),
{
    if s.len() > 0 {
        lemma_count_bound(s.drop_last(), p);
    }
}

pub proof fn lemma_count_empty_prefix<T>(s: Seq<T>, p: spec_fn(T) -> bool)
    ensures
        count_where(s.take(0), p) == 0,
        s.take(s.len() as int) == s,
{
    assert(s.take(s.len() as int) =~= s);
}

/// When the items satisfying `p` are exactly the first `k`, there are `k` of them.
pub proof fn lemma_count_prefix<T>(s: Seq<T>, p: spec_fn(T) -> bool, k: int)
    requires
        0 <= k <= s.len(),
        forall|i: int| 0 <= i < k ==> p(#[trigger] s[i]),
        forall|i: int| k <= i < s.len() ==> !p(#[trigger] s[i]),
    ensures
        count_where(s, p) == k,
    decreases s.len(),
{
    if s.len() > 0 {
        let init = s.drop_last();
        if k == s.len() {
            lemma_count_prefix(init, p, k - 1);
            assert(p(s[s.len() - 1]));
        } else {
            lemma_count_prefix(init, p, k);
            assert(!p(s[s.len() - 1]));
        }
    }
}

/// Items of a sequence satisfying `q` but not `p`, when `p` implies `q`,
/// number the difference of the two counts.
pub proof fn lemma_count_difference<T>(
    s: Seq<T>,
    p: spec_fn(T) -> bool,
    q: spec_fn(T) -> bool,
    r: spec_fn(T) -> bool,
)
    requires
        forall|x: T| #[trigger] p(x) ==> q(x),
        forall|x: T| #[trigger] r(x) <==> (q(x) && !p(x)),
    ensures
        count_where(s, q) == count_where(s, p) + count_where(s, r),
    decreases s.len(),
{
    if s.len() > 0 {
        lemma_count_difference(s.drop_last(), p, q, r);
        let x = s.last();
        assert(p(x) ==> q(x));
        assert(r(x) <==> (q(x) && !p(x)));
    }
}

/// Counts agree on sequences that differ only by one inserted item.
pub proof fn lemma_count_insert<T>(s: Seq<T>, p: spec_fn(T) -> bool, k: int, v: T)
    requires
        0 <= k <= s.len(),
    ensures
        count_where(s.insert(k, v), p) == count_where(s, p) + if p(v) {
            1nat
        } else {
            0nat
        },
    decreases s.len(),
{
    if k == s.len() {
        assert(s.insert(k, v).drop_last() =~= s);
    } else {
        lemma_count_insert(s.drop_last(), p, k, v);
        assert(s.insert(k, v).drop_last() =~= s.drop_last().insert(k, v));
    }
}

/// Counts agree on sequences that differ only by one removed item.
pub proof fn lemma_count_remove<T>(s: Seq<T>, p: spec_fn(T) -> bool, k: int)
    requires
        0 <= k < s.len(),
    ensures
        count_where(s, p) == count_where(s.remove(k), p) + if p(s[k]) {
            1nat
        } else {
            0nat
        },
{
    assert(s.remove(k).insert(k, s[k]) =~= s);
    lemma_count_insert(s.remove(k), p, k, s[k]);
}

/// `first_where` finds `k` when `k` is the first position satisfying `p`.
pub proof fn lemma_first_found<T>(s: Seq<T>, p: spec_fn(T) -> bool, k: int)
    requires
        0 <= k < s.len(),
        p(s[k]),
        forall|i: int| 0 <= i < k ==> !p(#[trigger] s[i]),
    ensures
        first_where(s, p) == Some(k),
    decreases k,
{
    if k > 0 {
        assert(!p(s[0]));
        let t = s.drop_first();
        assert forall|i: int| 0 <= i < k - 1 implies !p(#[trigger] t[i]) by {
            assert(t[i] == s[i + 1]);
        }
        lemma_first_found(t, p, k - 1);
    }
}

/// `first_where` finds nothing when no position satisfies `p`.
pub proof fn lemma_first_none<T>(s: Seq<T>, p: spec_fn(T) -> bool)
    requires
        forall|i: int| 0 <= i < s.len() ==> !p(#[trigger] s[i]),
    ensures
        first_where(s, p) is None,
    decreases s.len(),
{
    if s.len() > 0 {
        assert(!p(s[0]));
        let t = s.drop_first();
        assert forall|i: int| 0 <= i < t.len() implies !p(#[trigger] t[i]) by {
            assert(t[i] == s[i + 1]);
        }
        lemma_first_none(t, p);
    }
}

} // verus!
