//! Operations on a vector whose items are in order: binary searches,
//! checking the order, sorting, and dropping repeated items.

use vstd::prelude::*;
use crate::order::{equiv, le, lemma_chain, lemma_trichotomy, less, lt, total_order};
use crate::rank::{
    has_equiv, lemma_adjacent_sorted, lemma_sorted_insert, run_heads, sorted, splits_below,
    splits_not_above,
};

verus! {

/// The position of the first item of sorted `v` that is not below `x`.
pub(crate) fn lower_bound<T: Ord>(v: &Vec<T>, x: &T) -> (p: usize)
    requires
        total_order::<T>(),
        sorted(v@, false),
    ensures
        splits_below(v@, *x, p as int),
{
    let mut lo: usize = 0;
    let mut hi: usize = v.len();
    while lo < hi
        invariant
            total_order::<T>(),
            sorted(v@, false),
            0 <= lo <= hi <= v@.len(),
            forall|k: int| 0 <= k < lo ==> less(#[trigger] v@[k], *x),
            forall|k: int| hi <= k < v@.len() ==> !less(#[trigger] v@[k], *x),
        decreases hi - lo,
    {
        let mid = lo + (hi - lo) / 2;
        if lt(&v[mid], x) {
            proof {
                assert forall|k: int| 0 <= k <= mid implies less(#[trigger] v@[k], *x) by {
                    if k < mid {
                        lemma_chain(v@[k], v@[mid as int], *x);
                    }
                }
            }
            lo = mid + 1;
        } else {
            proof {
                assert forall|k: int| mid <= k < v@.len() implies !less(#[trigger] v@[k], *x) by {
                    if k > mid {
                        lemma_chain(*x, v@[mid as int], v@[k]);
                    }
                }
            }
            hi = mid;
        }
    }
    lo
}

/// The position of the first item of sorted `v` that is above `x`.
pub(crate) fn upper_bound<T: Ord>(v: &Vec<T>, x: &T) -> (p: usize)
    requires
        total_order::<T>(),
        sorted(v@, false),
    ensures
        splits_not_above(v@, *x, p as int),
{
    let mut lo: usize = 0;
    let mut hi: usize = v.len();
    while lo < hi
        invariant
            total_order::<T>(),
            sorted(v@, false),
            0 <= lo <= hi <= v@.len(),
            forall|k: int| 0 <= k < lo ==> !less(*x, #[trigger] v@[k]),
            forall|k: int| hi <= k < v@.len() ==> less(*x, #[trigger] v@[k]),
        decreases hi - lo,
    {
        let mid = lo + (hi - lo) / 2;
        if le(&v[mid], x) {
            proof {
                assert forall|k: int| 0 <= k <= mid implies !less(*x, #[trigger] v@[k]) by {
                    if k < mid {
                        lemma_chain(v@[k], v@[mid as int], *x);
                    }
                }
            }
            lo = mid + 1;
        } else {
            proof {
                assert forall|k: int| mid <= k < v@.len() implies less(*x, #[trigger] v@[k]) by {
                    if k > mid {
                        lemma_chain(*x, v@[mid as int], v@[k]);
                    }
                }
            }
            hi = mid;
        }
    }
    lo
}

/// Whether some item of `v` is below the one before it.
pub(crate) fn has_descent<T: Ord>(v: &Vec<T>) -> (r: bool)
    requires
        total_order::<T>(),
    ensures
        r == exists|k: int| 0 <= k < v@.len() - 1 && less(#[trigger] v@[k + 1], v@[k]),
        !r ==> sorted(v@, false),
{
    let mut k: usize = 1;
    while k < v.len()
        invariant
            total_order::<T>(),
            1 <= k,
            k <= v@.len() || v@.len() == 0,
            forall|j: int| 0 <= j < k - 1 && j < v@.len() - 1 ==> !less(#[trigger] v@[j + 1], v@[j]),
        decreases v@.len() - k,
    {
        if lt(&v[k], &v[k - 1]) {
            proof {
                let j = (k - 1) as int;
                assert(v@[j + 1] == v@[k as int]);
            }
            return true;
        }
        k += 1;
    }
    proof {
        lemma_adjacent_sorted(v@);
    }
    false
}

/// Sorts `v` with std's `slice::sort_unstable`. std documents that it
/// sorts by `Ord` in ascending order, moving the items without adding or
/// dropping any; items that compare equal may end up in any order. For an
/// order that is not total std leaves the outcome unspecified, hence the
/// requirement. Which of several equal items comes first is not stated.
#[verifier::external_body]
pub(crate) fn sort_unstable<T: Ord>(v: &mut Vec<T>)
    requires
        total_order::<T>(),
    ensures
        final(v)@.to_multiset() == old(v)@.to_multiset(),
        sorted(final(v)@, false),
{
    v.sort_unstable();
}

/// Keeps the first of each run of equal items of sorted `values`, as
/// `Vec::dedup` does.
pub(crate) fn dedup<T: Ord>(values: Vec<T>) -> (r: Vec<T>)
    requires
        total_order::<T>(),
        sorted(values@, false),
    ensures
        sorted(r@, true),
        forall|k: int| 0 <= k < r@.len() ==> values@.contains(#[trigger] r@[k]),
        forall|k: int| 0 <= k < values@.len() ==> has_equiv(r@, #[trigger] values@[k]),
        r@ == run_heads(values@),
{
    let ghost vs = values@;
    proof {
        assert(vs.take(0) =~= Seq::<T>::empty());
    }
    let mut out: Vec<T> = Vec::new();
    for x in it: values
        invariant
            total_order::<T>(),
            sorted(vs, false),
            vs == it.seq(),
            sorted(out@, true),
            forall|k: int| 0 <= k < out@.len() ==> vs.contains(#[trigger] out@[k]),
            forall|k: int| 0 <= k < it.index() ==> has_equiv(out@, #[trigger] vs[k]),
            it.index() > 0 ==> out@.len() > 0 && equiv(out@.last(), vs[it.index() - 1]),
            it.index() == 0 ==> out@.len() == 0,
            out@ == run_heads(vs.take(it.index() as int)),
    {
        let ghost idx = it.index() as int;
        proof {
            let t = vs.take(idx + 1);
            assert(t.drop_last() =~= vs.take(idx));
            assert(t.last() == x);
            if idx > 0 {
                assert(t[t.len() - 2] == vs[idx - 1]);
                lemma_chain(out@.last(), vs[idx - 1], x);
                lemma_chain(vs[idx - 1], out@.last(), x);
                lemma_trichotomy(out@.last(), vs[idx - 1]);
            }
        }
        let keep = out.len() == 0 || !crate::order::eq(&out[out.len() - 1], &x);
        if keep {
            let ghost before = out@;
            proof {
                assert(vs[idx] == x);
                if before.len() > 0 {
                    let last = before.last();
                    lemma_trichotomy(last, x);
                    lemma_chain(last, vs[idx - 1], x);
                    assert(!less(vs[idx], vs[idx - 1]));
                    lemma_trichotomy(vs[idx - 1], last);
                    if !less(last, x) {
                        lemma_chain(x, vs[idx - 1], last);
                    }
                    assert(less(last, x));
                }
                lemma_sorted_insert(before, before.len() as int, x, true);
                assert(before.insert(before.len() as int, x) =~= before.push(x));
            }
            out.push(x);
            proof {
                assert forall|k: int| 0 <= k <= idx implies has_equiv(out@, #[trigger] vs[k]) by {
                    if k < idx {
                        let w = choose|w: int| 0 <= w < before.len() && equiv(#[trigger] before[w], vs[k]);
                        assert(out@[w] == before[w]);
                    } else {
                        lemma_trichotomy(x, x);
                        assert(out@[before.len() as int] == x);
                    }
                }
                lemma_trichotomy(x, x);
                assert(vs.contains(vs[idx]));
            }
        } else {
            proof {
                assert(vs[idx] == x);
                let last = out@.last();
                lemma_trichotomy(last, x);
                assert forall|k: int| 0 <= k <= idx implies has_equiv(out@, #[trigger] vs[k]) by {
                    if k == idx {
                        assert(equiv(out@[out@.len() - 1], x));
                    }
                }
                lemma_chain(last, vs[idx - 1], x);
                assert(equiv(last, x));
            }
        }
    }
    assert(vs.take(vs.len() as int) =~= vs);
    out
}

} // verus!
