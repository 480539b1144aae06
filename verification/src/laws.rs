//! Properties that hold across the operations of the containers, stated over
//! the same spec functions their contracts use.

use vstd::prelude::*;
use vstd::multiset::Multiset;
use crate::bucket_list::{insert_slot, resolve_index};
use crate::counting::{count_where, lemma_count_bound, lemma_count_insert, lemma_count_remove};
use crate::order::{equiv, lemma_chain, lemma_trichotomy, less, total_order};
use crate::rank::{
    below, count_equiv, count_less, count_not_greater, equiv_to, has_equiv, lemma_count_equiv,
    lemma_has_equiv_at, lemma_rank_less, lemma_sorted_insert, lemma_sorted_remove,
    lemma_strict_sorted, sorted, splits_below, with_value, with_values,
};

verus! {

/// A value is present exactly when it occurs at least once: `contains(x)`
/// is `count(x) > 0`.
pub proof fn law_contains_iff_counted<T: Ord>(s: Seq<T>, x: T)
    requires
        total_order::<T>(),
    ensures
        has_equiv(s, x) <==> count_equiv(s, x) > 0,
    decreases s.len(),
{
    if s.len() > 0 {
        let init = s.drop_last();
        law_contains_iff_counted(init, x);
        if has_equiv(s, x) && !has_equiv(init, x) {
            let k = choose|k: int| 0 <= k < s.len() && equiv(#[trigger] s[k], x);
            if k < s.len() - 1 {
                assert(init[k] == s[k]);
            }
            assert(equiv_to(x)(s.last()));
        }
        if has_equiv(init, x) {
            let k = choose|k: int| 0 <= k < init.len() && equiv(#[trigger] init[k], x);
            assert(s[k] == init[k]);
        }
        if equiv_to(x)(s.last()) {
            assert(equiv(s[s.len() - 1], x));
        }
    }
}

/// `count(x)` is `index_right(x) - index(x)`: the values not above `x` are
/// those below it and those equal to it.
pub proof fn law_count_is_difference<T: Ord>(s: Seq<T>, x: T)
    requires
        total_order::<T>(),
    ensures
        count_equiv(s, x) == count_not_greater(s, x) - count_less(s, x),
        count_less(s, x) <= count_not_greater(s, x),
{
    lemma_count_equiv(s, x);
}

/// After `add(x)` the collection is still in order and holds a value equal
/// to `x`, whether or not the value was added.
pub proof fn law_add_then_contains<T: Ord>(s: Seq<T>, x: T, multi: bool)
    requires
        total_order::<T>(),
        sorted(s, !multi),
    ensures
        sorted(with_value(s, x, multi), !multi),
        has_equiv(with_value(s, x, multi), x),
{
    lemma_strict_sorted(s, !multi);
    let q = rank_of(s, x);
    lemma_has_equiv_at(s, x, q);
    if multi || !has_equiv(s, x) {
        if q < s.len() {
            lemma_trichotomy(s[q], x);
        }
        lemma_sorted_insert(s, q, x, !multi);
        let t = s.insert(q, x);
        lemma_trichotomy(x, x);
        assert(equiv(t[q], x));
    }
}

/// A successful `add(x)` followed by `discard(&x)` gives back the collection
/// as it was: the added value is the first of its equals, and `discard`
/// removes exactly that one.
pub proof fn law_add_then_discard<T: Ord>(s: Seq<T>, x: T, multi: bool)
    requires
        total_order::<T>(),
        sorted(s, !multi),
        multi || !has_equiv(s, x),
    ensures
        has_equiv(with_value(s, x, multi), x),
        with_value(s, x, multi).remove(count_less(with_value(s, x, multi), x) as int) == s,
{
    law_add_then_contains(s, x, multi);
    lemma_strict_sorted(s, !multi);
    let q = rank_of(s, x);
    let t = s.insert(q, x);
    assert(t == with_value(s, x, multi));
    lemma_trichotomy(x, x);
    lemma_count_insert(s, below(x), q, x);
    assert(!below(x)(x));
    assert(t.remove(q) =~= s);
}

/// On a set, `discard(&x)` leaves no value equal to `x`.
pub proof fn law_set_discard_removes<T: Ord>(s: Seq<T>, x: T)
    requires
        total_order::<T>(),
        sorted(s, true),
        has_equiv(s, x),
    ensures
        !has_equiv(s.remove(count_less(s, x) as int), x),
        sorted(s.remove(count_less(s, x) as int), true),
{
    lemma_strict_sorted(s, true);
    let q = rank_of(s, x);
    lemma_has_equiv_at(s, x, q);
    let t = s.remove(q);
    lemma_sorted_remove(s, q, true);
    if has_equiv(t, x) {
        let k = choose|k: int| 0 <= k < t.len() && equiv(#[trigger] t[k], x);
        let ok = if k < q {
            k
        } else {
            k + 1
        };
        assert(t[k] == s[ok]);
        lemma_chain(s[q], x, s[ok]);
        lemma_chain(s[ok], x, s[q]);
        lemma_trichotomy(s[q], s[ok]);
        if ok < q {
            assert(less(s[ok], s[q]));
        } else {
            assert(less(s[q], s[ok]));
        }
    }
}

/// On a multiset, `discard(&x)` of a present value lowers `count(x)` by one
/// and changes no other count.
pub proof fn law_discard_removes_one<T: Ord>(s: Seq<T>, x: T, y: T)
    requires
        total_order::<T>(),
        sorted(s, false),
        has_equiv(s, x),
    ensures
        count_equiv(s.remove(count_less(s, x) as int), x) == count_equiv(s, x) - 1,
        !equiv(y, x) ==> count_equiv(s.remove(count_less(s, x) as int), y) == count_equiv(s, y),
{
    let q = rank_of(s, x);
    lemma_has_equiv_at(s, x, q);
    lemma_count_remove(s, equiv_to(x), q);
    lemma_count_remove(s, equiv_to(y), q);
    if !equiv(y, x) {
        lemma_chain(s[q], x, y);
        lemma_trichotomy(y, x);
        lemma_trichotomy(s[q], y);
        if equiv(s[q], y) {
            lemma_chain(x, s[q], y);
            lemma_chain(y, s[q], x);
        }
    }
}

/// `lt(x)` is the largest value below `x`: it is below `x`, no value below
/// `x` is above it, and there is none exactly when no value is below `x`.
pub proof fn law_lt_is_greatest_below<T: Ord>(s: Seq<T>, x: T)
    requires
        total_order::<T>(),
        sorted(s, false),
    ensures
        count_less(s, x) > 0 ==> less(s[count_less(s, x) - 1], x),
        count_less(s, x) > 0 ==> forall|k: int|
            0 <= k < s.len() && less(#[trigger] s[k], x) ==> !less(s[count_less(s, x) - 1], s[k]),
        count_less(s, x) == 0 <==> forall|k: int| 0 <= k < s.len() ==> !less(#[trigger] s[k], x),
{
    let q = rank_of(s, x);
    assert forall|k: int| 0 <= k < s.len() && less(#[trigger] s[k], x) implies !less(
        s[q - 1],
        s[k],
    ) by {
        if k < q - 1 {
            assert(!less(s[q - 1], s[k]));
        } else if k >= q {
            assert(!less(s[k], x));
        } else {
            lemma_trichotomy(s[k], s[k]);
        }
    }
    if q > 0 {
        assert(less(s[0], x));
    }
}

/// `le(x)` is the largest value not above `x`.
pub proof fn law_le_is_greatest_not_above<T: Ord>(s: Seq<T>, x: T)
    requires
        total_order::<T>(),
        sorted(s, false),
    ensures
        count_not_greater(s, x) > 0 ==> !less(x, s[count_not_greater(s, x) - 1]),
        count_not_greater(s, x) > 0 ==> forall|k: int|
            0 <= k < s.len() && !less(x, #[trigger] s[k]) ==> !less(
                s[count_not_greater(s, x) - 1],
                s[k],
            ),
        count_not_greater(s, x) == 0 <==> forall|k: int| 0 <= k < s.len() ==> less(x, #[trigger] s[k]),
{
    let q = rank_not_greater_of(s, x);
    assert forall|k: int| 0 <= k < s.len() && !less(x, #[trigger] s[k]) implies !less(
        s[q - 1],
        s[k],
    ) by {
        if k < q - 1 {
            assert(!less(s[q - 1], s[k]));
        } else if k >= q {
            assert(less(x, s[k]));
        } else {
            lemma_trichotomy(s[k], s[k]);
        }
    }
    if q > 0 {
        assert(!less(x, s[0]));
    }
}

/// `gt(x)` is the smallest value above `x`.
pub proof fn law_gt_is_least_above<T: Ord>(s: Seq<T>, x: T)
    requires
        total_order::<T>(),
        sorted(s, false),
    ensures
        count_not_greater(s, x) < s.len() ==> less(x, s[count_not_greater(s, x) as int]),
        count_not_greater(s, x) < s.len() ==> forall|k: int|
            0 <= k < s.len() && less(x, #[trigger] s[k]) ==> !less(
                s[k],
                s[count_not_greater(s, x) as int],
            ),
        count_not_greater(s, x) == s.len() <==> forall|k: int|
            0 <= k < s.len() ==> !less(x, #[trigger] s[k]),
{
    let q = rank_not_greater_of(s, x);
    assert forall|k: int| 0 <= k < s.len() && less(x, #[trigger] s[k]) implies !less(s[k], s[q]) by {
        if k > q {
            assert(!less(s[k], s[q]));
        } else if k < q {
            assert(!less(x, s[k]));
        } else {
            lemma_trichotomy(s[k], s[k]);
        }
    }
    if q < s.len() {
        let last = s.len() - 1;
        assert(less(x, s[last]));
    }
}

/// `ge(x)` is the smallest value not below `x`.
pub proof fn law_ge_is_least_not_below<T: Ord>(s: Seq<T>, x: T)
    requires
        total_order::<T>(),
        sorted(s, false),
    ensures
        count_less(s, x) < s.len() ==> !less(s[count_less(s, x) as int], x),
        count_less(s, x) < s.len() ==> forall|k: int|
            0 <= k < s.len() && !less(#[trigger] s[k], x) ==> !less(s[k], s[count_less(s, x) as int]),
        count_less(s, x) == s.len() <==> forall|k: int| 0 <= k < s.len() ==> less(#[trigger] s[k], x),
{
    let q = rank_of(s, x);
    assert forall|k: int| 0 <= k < s.len() && !less(#[trigger] s[k], x) implies !less(s[k], s[q]) by {
        if k > q {
            assert(!less(s[k], s[q]));
        } else if k < q {
            assert(less(s[k], x));
        } else {
            lemma_trichotomy(s[k], s[k]);
        }
    }
    if q < s.len() {
        let last = s.len() - 1;
        assert(!less(s[last], x));
    }
}

/// A negative index `-k` points at the same item as `len - k`.
pub proof fn law_negative_index(index: int, len: int)
    requires
        len >= 0,
        -len <= index < 0,
    ensures
        resolve_index(index, len) == resolve_index(index + len, len),
        resolve_index(index, len) is Some,
        resolve_index(index, len) == Some(index + len),
{
}

/// An index points at position `index` when `0 <= index < len`, at
/// position `len + index` when `-len <= index < 0`, and nowhere otherwise.
pub proof fn law_index_positions(index: int, len: int)
    requires
        len >= 0,
    ensures
        0 <= index < len ==> resolve_index(index, len) == Some(index),
        -len <= index < 0 ==> resolve_index(index, len) == Some(index + len),
        (index >= len || index < -len) ==> resolve_index(index, len) is None,
{
}

/// In a non-empty list, `insert(index, v)` with `-len <= index < len` puts
/// `v` right before the item `index` pointed at: the items before it stay,
/// `v` takes its place and that item now follows `v`. An index `-k` is
/// the position `len - k` (so `-1` inserts before the last item).
pub proof fn law_insert_before_pointed<T>(s: Seq<T>, index: int, v: T)
    requires
        s.len() > 0,
        -s.len() <= index < s.len(),
    ensures
        ({
            let p = if index < 0 {
                index + s.len()
            } else {
                index
            };
            &&& insert_slot(index, s.len() as int) == Some(p)
            &&& s.insert(p, v).len() == s.len() + 1
            &&& s.insert(p, v)[p] == v
            &&& s.insert(p, v)[p + 1] == s[p]
            &&& forall|k: int| 0 <= k < p ==> #[trigger] s.insert(p, v)[k] == s[k]
            &&& forall|k: int| p < k < s.len() ==> #[trigger] s.insert(p, v)[k + 1] == s[k]
        }),
{
}

/// `insert` accepts exactly the indices `-len..=len` of a non-empty list
/// (`-1` meaning before the last item, `len` after it), and only `0` and
/// `-1` on an empty one; out-of-range indices are refused, not clamped.
pub proof fn law_insert_range(index: int, len: int)
    requires
        len >= 0,
    ensures
        len > 0 ==> (insert_slot(index, len) is Some <==> -len <= index <= len),
        len == 0 ==> (insert_slot(index, len) is Some <==> (index == 0 || index == -1)),
        len > 0 ==> insert_slot(-1, len) == Some(len - 1),
        insert_slot(len, len) == Some(len),
{
}

/// Inserting at a position `0 <= i <= len` and then popping at `i` gives
/// back the inserted item and the sequence as it was.
pub proof fn law_insert_then_pop<T>(s: Seq<T>, i: int, x: T)
    requires
        0 <= i <= s.len(),
    ensures
        insert_slot(i, s.len() as int) == Some(i),
        resolve_index(i, s.len() + 1int) == Some(i),
        s.insert(i, x)[i] == x,
        s.insert(i, x).remove(i) == s,
{
    assert(s.insert(i, x).remove(i) =~= s);
}

/// Reversing twice gives back the original order.
pub proof fn law_reverse_twice<T>(s: Seq<T>)
    ensures
        s.reverse().reverse() == s,
{
    assert(s.reverse().reverse() =~= s);
}

/// `extend(xs)` is adding the items of `xs` one by one: extending by
/// `xs` followed by `x` is extending by `xs` and then adding `x`.
pub proof fn law_extend_then_add<T: Ord>(s: Seq<T>, xs: Seq<T>, x: T, multi: bool)
    ensures
        with_values(s, xs.push(x), multi) == with_value(with_values(s, xs, multi), x, multi),
{
    assert(xs.push(x).drop_last() =~= xs);
}

/// Extending a multiset adds every given value, duplicates included: the
/// values held afterwards are the old ones plus the given ones, and they are
/// still in order.
pub proof fn law_extend_multiset<T: Ord>(s: Seq<T>, xs: Seq<T>)
    requires
        total_order::<T>(),
        sorted(s, false),
    ensures
        with_values(s, xs, true).to_multiset() == s.to_multiset().add(xs.to_multiset()),
        with_values(s, xs, true).len() == s.len() + xs.len(),
        sorted(with_values(s, xs, true), false),
    decreases xs.len(),
{
    broadcast use vstd::seq_lib::group_to_multiset_ensures;

    if xs.len() == 0 {
        assert(xs.to_multiset() =~= Multiset::<T>::empty());
        assert(s.to_multiset().add(xs.to_multiset()) =~= s.to_multiset());
    } else {
        let init = xs.drop_last();
        let last = xs.last();
        law_extend_multiset(s, init);
        let w = with_values(s, init, true);
        lemma_count_bound(w, below(last));
        law_add_then_contains(w, last, true);
        let q = count_less(w, last) as int;
        assert(with_values(s, xs, true) == w.insert(q, last));
        assert(xs =~= init.push(last));
        assert(w.insert(q, last).to_multiset() == w.to_multiset().insert(last));
        assert(xs.to_multiset() == init.to_multiset().insert(last));
        assert(s.to_multiset().add(init.to_multiset()).insert(last) =~= s.to_multiset().add(
            init.to_multiset().insert(last),
        ));
    }
}

/// Extending a set leaves every old value and one value equal to each given
/// value, nothing else, still strictly increasing.
pub proof fn law_extend_set<T: Ord>(s: Seq<T>, xs: Seq<T>)
    requires
        total_order::<T>(),
        sorted(s, true),
    ensures
        sorted(with_values(s, xs, false), true),
        forall|k: int| 0 <= k < s.len() ==> with_values(s, xs, false).contains(#[trigger] s[k]),
        forall|k: int| 0 <= k < xs.len() ==> has_equiv(with_values(s, xs, false), #[trigger] xs[k]),
        forall|k: int|
            0 <= k < with_values(s, xs, false).len() ==> s.contains(
                #[trigger] with_values(s, xs, false)[k],
            ) || xs.contains(with_values(s, xs, false)[k]),
    decreases xs.len(),
{
    if xs.len() > 0 {
        let init = xs.drop_last();
        let last = xs.last();
        law_extend_set(s, init);
        let w = with_values(s, init, false);
        let r = with_values(s, xs, false);
        law_add_then_contains(w, last, false);
        lemma_count_bound(w, below(last));
        assert(r == with_value(w, last, false));
        let q = count_less(w, last) as int;
        // Every item of `w` is still in `r`, and `r` holds only `w`'s items and `last`.
        assert(forall|k: int| 0 <= k < w.len() ==> r.contains(#[trigger] w[k])) by {
            assert forall|k: int| 0 <= k < w.len() implies r.contains(#[trigger] w[k]) by {
                if !has_equiv(w, last) {
                    if k < q {
                        assert(r[k] == w[k]);
                    } else {
                        assert(r[k + 1] == w[k]);
                    }
                }
            }
        }
        assert forall|k: int| 0 <= k < s.len() implies r.contains(#[trigger] s[k]) by {
            assert(w.contains(s[k]));
            let j = choose|j: int| 0 <= j < w.len() && w[j] == s[k];
            assert(r.contains(w[j]));
        }
        assert forall|k: int| 0 <= k < xs.len() implies has_equiv(r, #[trigger] xs[k]) by {
            if k < xs.len() - 1 {
                assert(xs[k] == init[k]);
                assert(has_equiv(w, init[k]));
                let j = choose|j: int| 0 <= j < w.len() && equiv(#[trigger] w[j], init[k]);
                assert(r.contains(w[j]));
                let m = choose|m: int| 0 <= m < r.len() && r[m] == w[j];
                assert(equiv(r[m], xs[k]));
            }
        }
        assert forall|k: int| 0 <= k < r.len() implies s.contains(#[trigger] r[k]) || xs.contains(
            r[k],
        ) by {
            if !has_equiv(w, last) && k == q {
                assert(xs[xs.len() - 1] == last);
            } else {
                let j = if !has_equiv(w, last) && k > q {
                    k - 1
                } else {
                    k
                };
                assert(r[k] == w[j]);
                if init.contains(w[j]) {
                    let m = choose|m: int| 0 <= m < init.len() && init[m] == w[j];
                    assert(xs[m] == init[m]);
                }
            }
        }
    }
}

/// The position counting the values below `x` in a non-decreasing sequence,
/// with the values below it first.
proof fn rank_of<T: Ord>(s: Seq<T>, x: T) -> (q: int)
    requires
        total_order::<T>(),
        sorted(s, false),
    ensures
        q == count_less(s, x),
        splits_below(s, x, q),
    decreases s.len(),
{
    if s.len() == 0 {
        lemma_rank_less(s, x, 0);
        0
    } else {
        let init = s.drop_last();
        assert forall|i: int, j: int| 0 <= i < j < init.len() implies !less(
            #[trigger] init[j],
            #[trigger] init[i],
        ) by {
            assert(init[i] == s[i] && init[j] == s[j]);
        }
        let p = rank_of(init, x);
        let n = s.len() - 1;
        if p == n && less(s[n], x) {
            if p > 0 {
                assert(init[p - 1] == s[p - 1]);
            }
            lemma_rank_less(s, x, n + 1);
            n + 1
        } else {
            if p > 0 {
                assert(init[p - 1] == s[p - 1]);
            }
            if p < n {
                assert(init[p] == s[p]);
            }
            lemma_rank_less(s, x, p);
            p
        }
    }
}

/// The position counting the values not above `x` in a non-decreasing
/// sequence, with those values first.
proof fn rank_not_greater_of<T: Ord>(s: Seq<T>, x: T) -> (q: int)
    requires
        total_order::<T>(),
        sorted(s, false),
    ensures
        q == count_not_greater(s, x),
        0 <= q <= s.len(),
        forall|k: int| 0 <= k < q ==> !less(x, #[trigger] s[k]),
        forall|k: int| q <= k < s.len() ==> less(x, #[trigger] s[k]),
    decreases s.len(),
{
    if s.len() == 0 {
        crate::rank::lemma_rank_not_greater(s, x, 0);
        0
    } else {
        let init = s.drop_last();
        assert forall|i: int, j: int| 0 <= i < j < init.len() implies !less(
            #[trigger] init[j],
            #[trigger] init[i],
        ) by {
            assert(init[i] == s[i] && init[j] == s[j]);
        }
        let p = rank_not_greater_of(init, x);
        let n = s.len() - 1;
        if p == n && !less(x, s[n]) {
            if p > 0 {
                assert(init[p - 1] == s[p - 1]);
            }
            crate::rank::lemma_rank_not_greater(s, x, n + 1);
            n + 1
        } else {
            if p > 0 {
                assert(init[p - 1] == s[p - 1]);
            }
            if p < n {
                assert(init[p] == s[p]);
            }
            crate::rank::lemma_rank_not_greater(s, x, p);
            p
        }
    }
}

} // verus!
