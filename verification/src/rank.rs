//! Sorted sequences and where a value falls in them.

use vstd::prelude::*;
use crate::counting::{count_where, lemma_count_difference, lemma_count_prefix};
use crate::order::{equiv, lemma_chain, lemma_trichotomy, less, total_order};

verus! {

/// `s` is in order: non-decreasing, or strictly increasing when `strict`.
pub open spec fn sorted<T: PartialOrd>(s: Seq<T>, strict: bool) -> bool {
    if strict {
        forall|i: int, j: int| 0 <= i < j < s.len() ==> less(#[trigger] s[i], #[trigger] s[j])
    } else {
        forall|i: int, j: int| 0 <= i < j < s.len() ==> !less(#[trigger] s[j], #[trigger] s[i])
    }
}

/// `y` sorts strictly before `x`.
pub open spec fn below<T: PartialOrd>(x: T) -> spec_fn(T) -> bool {
    |y: T| less(y, x)
}

/// `y` does not sort after `x`.
pub open spec fn not_above<T: PartialOrd>(x: T) -> spec_fn(T) -> bool {
    |y: T| !less(x, y)
}

/// `y` sorts neither before nor after `x`.
pub open spec fn equiv_to<T: PartialOrd>(x: T) -> spec_fn(T) -> bool {
    |y: T| equiv(y, x)
}

/// Number of items of `s` strictly less than `x`.
pub open spec fn count_less<T: PartialOrd>(s: Seq<T>, x: T) -> nat {
    count_where(s, below(x))
}

/// Number of items of `s` less than or equal to `x`.
pub open spec fn count_not_greater<T: PartialOrd>(s: Seq<T>, x: T) -> nat {
    count_where(s, not_above(x))
}

/// Number of items of `s` equal to `x` in the order.
pub open spec fn count_equiv<T: PartialOrd>(s: Seq<T>, x: T) -> nat {
    count_where(s, equiv_to(x))
}

/// Some item of `s` is equal to `x` in the order.
pub open spec fn has_equiv<T: PartialOrd>(s: Seq<T>, x: T) -> bool {
    exists|k: int| 0 <= k < s.len() && equiv(#[trigger] s[k], x)
}

/// The first `q` items of `s` are below `x` and the others are not.
pub open spec fn splits_below<T: PartialOrd>(s: Seq<T>, x: T, q: int) -> bool {
    &&& 0 <= q <= s.len()
    &&& forall|k: int| 0 <= k < q ==> less(#[trigger] s[k], x)
    &&& forall|k: int| q <= k < s.len() ==> !less(#[trigger] s[k], x)
}

/// The first `q` items of `s` are not above `x` and the others are.
pub open spec fn splits_not_above<T: PartialOrd>(s: Seq<T>, x: T, q: int) -> bool {
    &&& 0 <= q <= s.len()
    &&& forall|k: int| 0 <= k < q ==> !less(x, #[trigger] s[k])
    &&& forall|k: int| q <= k < s.len() ==> less(x, #[trigger] s[k])
}

pub proof fn lemma_splits_below_count<T: PartialOrd>(s: Seq<T>, x: T, q: int)
    requires
        splits_below(s, x, q),
    ensures
        count_less(s, x) == q,
{
    assert forall|k: int| 0 <= k < q implies #[trigger] below(x)(s[k]) by {}
    assert forall|k: int| q <= k < s.len() implies !#[trigger] below(x)(s[k]) by {}
    lemma_count_prefix(s, below(x), q);
}

pub proof fn lemma_splits_not_above_count<T: PartialOrd>(s: Seq<T>, x: T, q: int)
    requires
        splits_not_above(s, x, q),
    ensures
        count_not_greater(s, x) == q,
{
    assert forall|k: int| 0 <= k < q implies #[trigger] not_above(x)(s[k]) by {}
    assert forall|k: int| q <= k < s.len() implies !#[trigger] not_above(x)(s[k]) by {}
    lemma_count_prefix(s, not_above(x), q);
}

/// A strictly increasing sequence is non-decreasing.
pub proof fn lemma_strict_sorted<T: Ord>(s: Seq<T>, strict: bool)
    requires
        total_order::<T>(),
        sorted(s, strict),
    ensures
        sorted(s, false),
{
    if strict {
        assert forall|i: int, j: int| 0 <= i < j < s.len() implies !less(
            #[trigger] s[j],
            #[trigger] s[i],
        ) by {
            lemma_trichotomy(s[i], s[j]);
        }
    }
}

/// In a non-decreasing sequence, `q` counts the items below `x` when the
/// item before `q` is below `x` and the item at `q` is not.
pub proof fn lemma_rank_less<T: Ord>(s: Seq<T>, x: T, q: int)
    requires
        total_order::<T>(),
        sorted(s, false),
        0 <= q <= s.len(),
        q == 0 || less(s[q - 1], x),
        q == s.len() || !less(s[q], x),
    ensures
        count_less(s, x) == q,
        splits_below(s, x, q),
{
    assert forall|k: int| 0 <= k < q implies less(#[trigger] s[k], x) by {
        if k < q - 1 {
            lemma_chain(s[k], s[q - 1], x);
        }
    }
    assert forall|k: int| q <= k < s.len() implies !less(#[trigger] s[k], x) by {
        if k > q {
            lemma_chain(x, s[q], s[k]);
        }
    }
    lemma_splits_below_count(s, x, q);
}

/// In a non-decreasing sequence, `q` counts the items not above `x` when
/// the item before `q` is not above `x` and the item at `q` is.
pub proof fn lemma_rank_not_greater<T: Ord>(s: Seq<T>, x: T, q: int)
    requires
        total_order::<T>(),
        sorted(s, false),
        0 <= q <= s.len(),
        q == 0 || !less(x, s[q - 1]),
        q == s.len() || less(x, s[q]),
    ensures
        count_not_greater(s, x) == q,
        splits_not_above(s, x, q),
{
    assert forall|k: int| 0 <= k < q implies !less(x, #[trigger] s[k]) by {
        if k < q - 1 {
            lemma_chain(s[k], s[q - 1], x);
        }
    }
    assert forall|k: int| q <= k < s.len() implies less(x, #[trigger] s[k]) by {
        if k > q {
            lemma_chain(x, s[q], s[k]);
        }
    }
    lemma_splits_not_above_count(s, x, q);
}

/// The items equal to `x` are those not above it minus those below it.
pub proof fn lemma_count_equiv<T: Ord>(s: Seq<T>, x: T)
    requires
        total_order::<T>(),
    ensures
        count_not_greater(s, x) == count_less(s, x) + count_equiv(s, x),
{
    assert forall|y: T| #[trigger] below(x)(y) implies not_above(x)(y) by {
        lemma_trichotomy(y, x);
    }
    assert forall|y: T| #[trigger] equiv_to(x)(y) <==> (not_above(x)(y) && !below(x)(y)) by {}
    lemma_count_difference(s, below(x), not_above(x), equiv_to(x));
}

/// In a non-decreasing sequence with the items below `x` first, `x` has an
/// equal exactly when the first item not below it is equal to it.
pub proof fn lemma_has_equiv_at<T: Ord>(s: Seq<T>, x: T, q: int)
    requires
        total_order::<T>(),
        sorted(s, false),
        splits_below(s, x, q),
    ensures
        has_equiv(s, x) <==> (q < s.len() && equiv(s[q], x)),
{
    if has_equiv(s, x) {
        let k = choose|k: int| 0 <= k < s.len() && equiv(#[trigger] s[k], x);
        assert(k >= q);
        if k > q {
            lemma_chain(s[q], s[k], x);
        }
    }
    if q < s.len() && equiv(s[q], x) {
        assert(equiv(s[q], x));
    }
}

/// Inserting `x` where it keeps its neighbours in order keeps the
/// sequence sorted.
pub proof fn lemma_sorted_insert<T: Ord>(s: Seq<T>, q: int, x: T, strict: bool)
    requires
        total_order::<T>(),
        sorted(s, strict),
        0 <= q <= s.len(),
        q == 0 || less(s[q - 1], x),
        q == s.len() || (if strict {
            less(x, s[q])
        } else {
            !less(s[q], x)
        }),
    ensures
        sorted(s.insert(q, x), strict),
{
    let t = s.insert(q, x);
    lemma_strict_sorted(s, strict);
    assert forall|i: int, j: int| 0 <= i < j < t.len() implies (if strict {
        less(#[trigger] t[i], #[trigger] t[j])
    } else {
        !less(t[j], t[i])
    }) by {
        lemma_trichotomy(t[i], t[j]);
        if i < q && j == q {
            if i < q - 1 {
                lemma_chain(s[i], s[q - 1], x);
            }
        } else if i == q && j > q {
            if j > q + 1 {
                lemma_chain(x, s[q], s[j - 1]);
                if strict {
                    lemma_chain(x, s[q], s[j - 1]);
                }
            }
        } else if i < q && j > q {
            assert(t[i] == s[i]);
            assert(t[j] == s[j - 1]);
        } else if j < q {
        } else {
            assert(t[i] == s[i - 1]);
            assert(t[j] == s[j - 1]);
        }
    }
}

/// Removing an item keeps a sequence sorted.
pub proof fn lemma_sorted_remove<T: Ord>(s: Seq<T>, q: int, strict: bool)
    requires
        sorted(s, strict),
        0 <= q < s.len(),
    ensures
        sorted(s.remove(q), strict),
{
    let t = s.remove(q);
    assert forall|i: int, j: int| 0 <= i < j < t.len() implies (if strict {
        less(#[trigger] t[i], #[trigger] t[j])
    } else {
        !less(t[j], t[i])
    }) by {
        let oi = if i < q {
            i
        } else {
            i + 1
        };
        let oj = if j < q {
            j
        } else {
            j + 1
        };
        assert(t[i] == s[oi]);
        assert(t[j] == s[oj]);
    }
}

/// A sequence with no item below the one before it is non-decreasing.
pub proof fn lemma_adjacent_sorted<T: Ord>(s: Seq<T>)
    requires
        total_order::<T>(),
        forall|k: int| 0 <= k < s.len() - 1 ==> !less(#[trigger] s[k + 1], s[k]),
    ensures
        sorted(s, false),
    decreases s.len(),
{
    if s.len() > 1 {
        let init = s.drop_last();
        assert forall|k: int| 0 <= k < init.len() - 1 implies !less(#[trigger] init[k + 1], init[k]) by {
            assert(init[k + 1] == s[k + 1]);
        }
        lemma_adjacent_sorted(init);
        let n = s.len() - 1;
        let m = n - 1;
        assert(!less(s[m + 1], s[m]));
        assert(s[m + 1] == s[n]);
        assert forall|i: int, j: int| 0 <= i < j < s.len() implies !less(
            #[trigger] s[j],
            #[trigger] s[i],
        ) by {
            if j < n {
                assert(init[i] == s[i] && init[j] == s[j]);
            } else if i < n - 1 {
                assert(init[i] == s[i] && init[n - 1] == s[n - 1]);
                assert(!less(s[n], s[n - 1]));
                lemma_chain(s[i], s[n - 1], s[n]);
            } else {
                assert(!less(s[n], s[n - 1]));
            }
        }
    }
}

/// `s` after adding `x`: inserted before its equals, unless `s` is a set
/// (`multi == false`) that already holds an equal of `x`.
pub open spec fn with_value<T: PartialOrd>(s: Seq<T>, x: T, multi: bool) -> Seq<T> {
    if multi || !has_equiv(s, x) {
        s.insert(count_less(s, x) as int, x)
    } else {
        s
    }
}

/// `s` after adding the items of `xs` one by one, in order.
pub open spec fn with_values<T: PartialOrd>(s: Seq<T>, xs: Seq<T>, multi: bool) -> Seq<T>
    decreases xs.len(),
{
    if xs.len() == 0 {
        s
    } else {
        with_value(with_values(s, xs.drop_last(), multi), xs.last(), multi)
    }
}

/// The items of `s` that are not equal to the item just before them: the
/// first of each run of equal items.
pub open spec fn run_heads<T: PartialOrd>(s: Seq<T>) -> Seq<T>
    decreases s.len(),
{
    if s.len() == 0 {
        s
    } else if s.len() == 1 || !equiv(s[s.len() - 2], s.last()) {
        run_heads(s.drop_last()).push(s.last())
    } else {
        run_heads(s.drop_last())
    }
}

} // verus!
