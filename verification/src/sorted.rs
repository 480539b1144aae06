//! `SortedCollection`: a sorted set (`MULTI == false`) or a sorted multiset
//! (`MULTI == true`) kept in a `BucketList` in ascending order.

use vstd::prelude::*;
use vstd::std_specs::cmp::PartialEqSpec;
use crate::bucket_list::{grown, holds, resolve_index, shrunk, BucketList};
use crate::order::{le, lemma_chain, lemma_trichotomy, less, lt, total_order};
use crate::layout::{cut, is_initial_bucket_count};
use crate::pieces::{lemma_index, lemma_offset_zero, lemma_piece_end, lemma_take_all, offset};
use crate::rank::{
    count_equiv, count_less, count_not_greater, has_equiv, lemma_count_equiv, lemma_has_equiv_at,
    lemma_rank_less, lemma_rank_not_greater, lemma_sorted_insert, lemma_sorted_remove,
    lemma_splits_below_count, lemma_strict_sorted, run_heads, sorted, splits_below, with_value,
    with_values,
};
use crate::sorted_vec::{dedup, has_descent, lower_bound, sort_unstable, upper_bound};

verus! {

/// The first bucket from `b` on whose largest value is not below `x`, or
/// the last bucket when there is none.
pub open spec fn reaching_from<T: PartialOrd>(bs: Seq<Seq<T>>, x: T, b: int) -> int
    decreases bs.len() - b,
{
    if b >= bs.len() - 1 {
        bs.len() - 1
    } else if !less(bs[b].last(), x) {
        b
    } else {
        reaching_from(bs, x, b + 1)
    }
}

/// The bucket in which `x` is inserted or looked for: the first whose
/// largest value is not below `x`, or the last one.
pub open spec fn target_bucket<T: PartialOrd>(bs: Seq<Seq<T>>, x: T) -> int {
    reaching_from(bs, x, 0)
}

/// The buckets after `add(x)`: a first bucket when there is none, nothing
/// new when a set already holds an equal of `x`, else `x` is inserted into
/// its target bucket before the values not below it.
pub open spec fn added_pieces<T: PartialOrd>(bs: Seq<Seq<T>>, x: T, multi: bool) -> Seq<Seq<T>> {
    if bs.len() == 0 {
        seq![seq![x]]
    } else if !multi && has_equiv(bs.flatten(), x) {
        bs
    } else {
        let b = target_bucket(bs, x);
        grown(bs, b, count_less(bs.flatten(), x) - offset(bs, b), x)
    }
}

/// The buckets after adding the items of `xs` one by one.
pub open spec fn added_all_pieces<T: PartialOrd>(bs: Seq<Seq<T>>, xs: Seq<T>, multi: bool) -> Seq<
    Seq<T>,
>
    decreases xs.len(),
{
    if xs.len() == 0 {
        bs
    } else {
        added_pieces(added_all_pieces(bs, xs.drop_last(), multi), xs.last(), multi)
    }
}

/// The buckets after `discard(&x)`: the first value equal to `x` leaves its
/// bucket, which is dropped if left empty; nothing changes without one.
pub open spec fn discarded_pieces<T: PartialOrd>(bs: Seq<Seq<T>>, x: T) -> Seq<Seq<T>> {
    if has_equiv(bs.flatten(), x) {
        let b = target_bucket(bs, x);
        shrunk(bs, b, count_less(bs.flatten(), x) - offset(bs, b))
    } else {
        bs
    }
}

/// `b` is the first bucket from `start` on whose largest value is not below
/// `x`, or the last bucket.
proof fn lemma_reaching<T: PartialOrd>(bs: Seq<Seq<T>>, x: T, start: int, b: int)
    requires
        0 <= start <= b < bs.len(),
        forall|c: int| start <= c < b ==> less(#[trigger] bs[c].last(), x),
        b < bs.len() - 1 ==> !less(bs[b].last(), x),
    ensures
        reaching_from(bs, x, start) == b,
    decreases b - start,
{
    if start < b {
        assert(less(bs[start].last(), x));
        lemma_reaching(bs, x, start + 1, b);
    }
}

/// A set (`MULTI == false`) or multiset (`MULTI == true`) of ordered values,
/// kept in ascending order in buckets. Prefer the `SortedSet` and
/// `SortedMultiset` names.
#[derive(Clone, Debug)]
pub struct SortedCollection<T, const MULTI: bool> {
    pub(crate) data: BucketList<T>,
}

/// Ordered values without duplicates.
pub type SortedSet<T> = SortedCollection<T, false>;

/// Ordered values, duplicates allowed.
pub type SortedMultiset<T> = SortedCollection<T, true>;

impl<T, const MULTI: bool> View for SortedCollection<T, MULTI> {
    type V = Seq<T>;

    /// The values in ascending order.
    closed spec fn view(&self) -> Seq<T> {
        self.data@
    }
}

impl<T: Ord, const MULTI: bool> SortedCollection<T, MULTI> {
    /// The contents of the buckets.
    pub closed spec fn pieces(&self) -> Seq<Seq<T>> {
        self.data.pieces()
    }

    /// The buckets are well formed and the values are in order: strictly
    /// increasing for a set, non-decreasing for a multiset.
    pub closed spec fn wf(&self) -> bool {
        &&& self.data.wf()
        &&& sorted(self.data@, !MULTI)
    }

    /// Every well-formed collection holds its values in order: strictly
    /// increasing for a set, non-decreasing for a multiset.
    pub proof fn law_sorted(&self)
        requires
            self.wf(),
        ensures
            sorted(self@, !MULTI),
            total_order::<T>() ==> sorted(self@, false),
    {
        if total_order::<T>() {
            lemma_strict_sorted(self.data@, !MULTI);
        }
    }

    /// Each bucket is itself in order.
    proof fn lemma_bucket_sorted(&self, b: int)
        requires
            self.wf(),
            total_order::<T>(),
            0 <= b < self.data.pieces().len(),
        ensures
            sorted(self.data.pieces()[b], false),
    {
        let bs = self.data.pieces();
        lemma_strict_sorted(self.data@, !MULTI);
        assert forall|i: int, j: int| 0 <= i < j < bs[b].len() implies !less(
            #[trigger] bs[b][j],
            #[trigger] bs[b][i],
        ) by {
            lemma_index(bs, b, i);
            lemma_index(bs, b, j);
        }
    }

    /// Item `i` of bucket `b` is value `offset(b) + i`; the last item of
    /// bucket `b` is value `offset(b + 1) - 1`.
    proof fn lemma_locate_item(&self, b: int, i: int)
        requires
            self.wf(),
            0 <= b < self.data.pieces().len(),
            0 <= i < self.data.pieces()[b].len(),
        ensures
            0 <= offset(self.data.pieces(), b),
            offset(self.data.pieces(), b) + i < self@.len(),
            self@[offset(self.data.pieces(), b) + i] == self.data.pieces()[b][i],
            offset(self.data.pieces(), b + 1) == offset(self.data.pieces(), b)
                + self.data.pieces()[b].len(),
    {
        lemma_index(self.data.pieces(), b, i);
        lemma_piece_end(self.data.pieces(), b);
    }

    /// Creates an empty collection.
    pub fn new() -> (r: Self)
        ensures
            r.wf(),
            r@ == Seq::<T>::empty(),
            r.pieces() == Seq::<Seq<T>>::empty(),
    {
        SortedCollection { data: BucketList::new() }
    }

    /// Number of values, duplicates included.
    pub fn len(&self) -> (r: usize)
        requires
            self.wf(),
        ensures
            r == self@.len(),
    {
        self.data.len()
    }

    /// Whether there are no values.
    pub fn is_empty(&self) -> (r: bool)
        requires
            self.wf(),
        ensures
            r == (self@.len() == 0),
    {
        self.data.is_empty()
    }

    /// Read-only view of the buckets: none of them is empty, and together,
    /// in order, they hold the values in ascending order.
    pub fn buckets(&self) -> (r: &[Vec<T>])
        requires
            self.wf(),
        ensures
            r@.map_values(|v: Vec<T>| v@) == self.pieces(),
            r@.map_values(|v: Vec<T>| v@).flatten() == self@,
            forall|b: int| 0 <= b < r@.len() ==> #[trigger] r@[b]@.len() > 0,
    {
        self.data.buckets()
    }

    /// References to the values in ascending order.
    pub fn iter(&self) -> (r: Vec<&T>)
        ensures
            r@.len() == self@.len(),
            forall|k: int| 0 <= k < r@.len() ==> *#[trigger] r@[k] == self@[k],
    {
        self.data.iter()
    }

    /// Removes every value.
    pub fn clear(&mut self)
        ensures
            final(self).wf(),
            final(self)@ == Seq::<T>::empty(),
            final(self).pieces() == Seq::<Seq<T>>::empty(),
    {
        self.data.clear();
    }

    /// The value `index` points at in ascending order; negative indices
    /// count from the largest. `None` when the index is out of range.
    pub fn get(&self, index: isize) -> (r: Option<&T>)
        requires
            self.wf(),
        ensures
            r == match resolve_index(index as int, self@.len() as int) {
                Some(p) => Some(&self@[p]),
                None => None,
            },
            0 <= index < self@.len() ==> r == Some(&self@[index as int]),
            -self@.len() <= index < 0 ==> r == Some(&self@[index + self@.len()]),
            (index >= self@.len() || index < -self@.len()) ==> r is None,
    {
        self.data.get(index)
    }

    /// Removes and returns the value `index` points at; negative indices
    /// count from the largest. Out of range: `None`, and nothing changes.
    pub fn pop(&mut self, index: isize) -> (r: Option<T>)
        requires
            old(self).wf(),
        ensures
            final(self).wf(),
            match resolve_index(index as int, old(self)@.len() as int) {
                Some(p) => r == Some(old(self)@[p]) && final(self)@ == old(self)@.remove(p),
                None => r is None && final(self)@ == old(self)@,
            },
            0 <= index < old(self)@.len() ==> r == Some(old(self)@[index as int]) && final(self)@
                == old(self)@.remove(index as int),
            -old(self)@.len() <= index < 0 ==> r == Some(old(self)@[index + old(self)@.len()])
                && final(self)@ == old(self)@.remove(index + old(self)@.len()),
            (index >= old(self)@.len() || index < -old(self)@.len()) ==> r is None && final(self)@
                == old(self)@,
            match resolve_index(index as int, old(self)@.len() as int) {
                Some(p) => exists|b: int, i: int|
                    #[trigger] holds(old(self).pieces(), b, i, p) && final(self).pieces() == shrunk(
                        old(self).pieces(),
                        b,
                        i,
                    ),
                None => final(self).pieces() == old(self).pieces(),
            },
    {
        let r = self.data.pop(index);
        proof {
            if let Some(p) = resolve_index(index as int, old(self)@.len() as int) {
                lemma_sorted_remove(old(self).data@, p, !MULTI);
                let (b, i) = choose|b: int, i: int|
                    #[trigger] holds(old(self).data.pieces(), b, i, p) && self.data.pieces() == shrunk(
                        old(self).data.pieces(),
                        b,
                        i,
                    );
                assert(holds(old(self).pieces(), b, i, p));
            }
        }
        r
    }

    /// Removes and returns the largest value; `None` when empty.
    pub fn pop_last(&mut self) -> (r: Option<T>)
        requires
            old(self).wf(),
        ensures
            final(self).wf(),
            old(self)@.len() > 0 ==> r == Some(old(self)@.last()) && final(self)@ == old(
                self,
            )@.drop_last(),
            old(self)@.len() == 0 ==> r is None && final(self)@ == old(self)@,
            old(self)@.len() > 0 ==> exists|b: int, i: int|
                #[trigger] holds(old(self).pieces(), b, i, old(self)@.len() - 1)
                    && final(self).pieces() == shrunk(old(self).pieces(), b, i),
            old(self)@.len() == 0 ==> final(self).pieces() == old(self).pieces(),
    {
        let r = self.pop(-1);
        proof {
            if old(self)@.len() > 0 {
                assert(old(self)@.remove(old(self)@.len() - 1) =~= old(self)@.drop_last());
            }
        }
        r
    }

    /// The first bucket whose largest value is not below `x`, or the number
    /// of buckets when there is none.
    fn first_bucket_reaching(&self, x: &T) -> (b: usize)
        requires
            self.wf(),
            total_order::<T>(),
        ensures
            b <= self.data.pieces().len(),
            forall|c: int| 0 <= c < b ==> less(#[trigger] self.data.pieces()[c].last(), *x),
            b < self.data.pieces().len() ==> !less(self.data.pieces()[b as int].last(), *x),
    {
        let nb = self.data.buckets.len();
        let mut b: usize = 0;
        while b < nb
            invariant
                self.wf(),
                total_order::<T>(),
                nb == self.data.pieces().len(),
                b <= nb,
                forall|c: int| 0 <= c < b ==> less(#[trigger] self.data.pieces()[c].last(), *x),
            decreases nb - b,
        {
            let bucket = &self.data.buckets[b];
            assert(self.data.pieces()[b as int].len() > 0);
            assert(bucket@ == self.data.pieces()[b as int]);
            if le(x, &bucket[bucket.len() - 1]) {
                return b;
            }
            b += 1;
        }
        b
    }

    /// The first bucket whose largest value is above `x`, or the number of
    /// buckets when there is none.
    fn first_bucket_beyond(&self, x: &T) -> (b: usize)
        requires
            self.wf(),
            total_order::<T>(),
        ensures
            b <= self.data.pieces().len(),
            forall|c: int| 0 <= c < b ==> !less(*x, #[trigger] self.data.pieces()[c].last()),
            b < self.data.pieces().len() ==> less(*x, self.data.pieces()[b as int].last()),
    {
        let nb = self.data.buckets.len();
        let mut b: usize = 0;
        while b < nb
            invariant
                self.wf(),
                total_order::<T>(),
                nb == self.data.pieces().len(),
                b <= nb,
                forall|c: int| 0 <= c < b ==> !less(*x, #[trigger] self.data.pieces()[c].last()),
            decreases nb - b,
        {
            let bucket = &self.data.buckets[b];
            assert(self.data.pieces()[b as int].len() > 0);
            assert(bucket@ == self.data.pieces()[b as int]);
            if lt(x, &bucket[bucket.len() - 1]) {
                return b;
            }
            b += 1;
        }
        b
    }

    /// Where `x` belongs: a bucket and a place in it, at the position that
    /// counts the values below `x`. `None` when the collection is empty.
    fn position(&self, x: &T) -> (r: Option<(usize, usize)>)
        requires
            self.wf(),
            total_order::<T>(),
        ensures
            match r {
                None => self@.len() == 0,
                Some((b, i)) => {
                    &&& b < self.data.pieces().len()
                    &&& b == target_bucket(self.data.pieces(), *x)
                    &&& i <= self.data.pieces()[b as int].len()
                    &&& splits_below(self@, *x, offset(self.data.pieces(), b as int) + i)
                    &&& (i < self.data.pieces()[b as int].len() || offset(self.data.pieces(), b as int)
                        + i == self@.len())
                    &&& i < self.data.pieces()[b as int].len() ==> offset(self.data.pieces(), b as int)
                        + i < self@.len()
                    &&& i < self.data.pieces()[b as int].len() ==> self@[offset(
                        self.data.pieces(),
                        b as int,
                    ) + i] == self.data.pieces()[b as int][i as int]
                },
            },
    {
        if self.data.is_empty() {
            return None;
        }
        let ghost bs = self.data.pieces();
        let nb = self.data.buckets.len();
        proof {
            if nb == 0 {
                assert(bs =~= Seq::<Seq<T>>::empty());
            }
            lemma_strict_sorted(self.data@, !MULTI);
        }
        let reach = self.first_bucket_reaching(x);
        let b = if reach < nb {
            reach
        } else {
            nb - 1
        };
        proof {
            self.lemma_bucket_sorted(b as int);
        }
        let i = lower_bound(&self.data.buckets[b], x);
        proof {
            let q = offset(bs, b as int) + i;
            let v = bs[b as int];
            let blen = v.len() as int;
            assert(self.data.buckets@[b as int]@ == v);
            assert(blen > 0);
            self.lemma_locate_item(b as int, blen - 1);
            assert(v.last() == v[blen - 1]);
            if reach < nb {
                if i == blen {
                    assert(less(v[blen - 1], *x));
                }
                assert(i < blen);
            } else {
                assert(less(v.last(), *x));
                if i < blen {
                    assert(!less(v[i as int], *x));
                    if i < blen - 1 {
                        lemma_chain(v[i as int], v[blen - 1], *x);
                    }
                }
                assert(i == blen);
                lemma_take_all(bs);
            }
            if i > 0 {
                self.lemma_locate_item(b as int, i - 1);
                assert(less(v[i - 1], *x));
            } else if b > 0 {
                let pb = (b - 1) as int;
                let pv = bs[pb];
                self.lemma_locate_item(pb, pv.len() - 1);
                assert(less(pv.last(), *x));
                assert(pv.last() == pv[pv.len() - 1]);
            } else {
                lemma_offset_zero(bs);
            }
            if i < blen {
                self.lemma_locate_item(b as int, i as int);
                assert(!less(v[i as int], *x));
            }
            lemma_rank_less(self@, *x, q);
            lemma_reaching(bs, *x, 0, b as int);
        }
        Some((b, i))
    }

    /// Whether some value is equal to `x` in the order.
    pub fn contains(&self, x: &T) -> (r: bool)
        requires
            self.wf(),
            total_order::<T>(),
        ensures
            r == has_equiv(self@, *x),
    {
        proof {
            lemma_strict_sorted(self.data@, !MULTI);
        }
        match self.position(x) {
            Some((b, i)) => {
                let bucket = &self.data.buckets[b];
                proof {
                    assert(bucket@ == self.data.pieces()[b as int]);
                    lemma_has_equiv_at(self@, *x, offset(self.data.pieces(), b as int) + i);
                }
                i < bucket.len() && crate::order::eq(&bucket[i], x)
            },
            None => false,
        }
    }

    /// Inserts `x` before the values equal to it. A set refuses a value it
    /// already holds an equal of and returns `false`; otherwise `true`.
    pub fn add(&mut self, x: T) -> (r: bool)
        requires
            old(self).wf(),
            total_order::<T>(),
            old(self)@.len() < usize::MAX,
        ensures
            final(self).wf(),
            r == (MULTI || !has_equiv(old(self)@, x)),
            r ==> final(self)@ == old(self)@.insert(count_less(old(self)@, x) as int, x),
            !r ==> final(self)@ == old(self)@,
            final(self)@ == with_value(old(self)@, x, MULTI),
            final(self).pieces() == added_pieces(old(self).pieces(), x, MULTI),
    {
        proof {
            lemma_strict_sorted(self.data@, !MULTI);
        }
        let ghost s = self@;
        match self.position(&x) {
            Some((b, i)) => {
                let ghost q = offset(self.data.pieces(), b as int) + i;
                proof {
                    lemma_has_equiv_at(s, x, q);
                    lemma_splits_below_count(s, x, q);
                }
                if !MULTI {
                    let bucket = &self.data.buckets[b];
                    assert(bucket@ == self.data.pieces()[b as int]);
                    if i < bucket.len() && crate::order::eq(&bucket[i], &x) {
                        return false;
                    }
                }
                proof {
                    if q < s.len() {
                        lemma_trichotomy(s[q], x);
                    }
                    lemma_sorted_insert(s, q, x, !MULTI);
                }
                self.data.insert_at(b, i, x);
            },
            None => {
                proof {
                    self.data.lemma_empty_has_no_buckets();
                    assert(s =~= Seq::<T>::empty());
                    assert(count_less(s, x) == 0);
                    lemma_sorted_insert(s, 0, x, !MULTI);
                    assert(s.push(x) =~= s.insert(0, x));
                }
                self.data.append(x);
            },
        }
        true
    }

    /// Removes one value equal to `x` (the first of them) and returns
    /// `true`; `false`, and nothing changes, when there is none.
    pub fn discard(&mut self, x: &T) -> (r: bool)
        requires
            old(self).wf(),
            total_order::<T>(),
        ensures
            final(self).wf(),
            r == has_equiv(old(self)@, *x),
            r ==> final(self)@ == old(self)@.remove(count_less(old(self)@, *x) as int),
            !r ==> final(self)@ == old(self)@,
            final(self).pieces() == discarded_pieces(old(self).pieces(), *x),
    {
        proof {
            lemma_strict_sorted(self.data@, !MULTI);
        }
        let ghost s = self@;
        match self.position(x) {
            Some((b, i)) => {
                let ghost q = offset(self.data.pieces(), b as int) + i;
                proof {
                    lemma_has_equiv_at(s, *x, q);
                    lemma_splits_below_count(s, *x, q);
                }
                let found = {
                    let bucket = &self.data.buckets[b];
                    assert(bucket@ == self.data.pieces()[b as int]);
                    i < bucket.len() && crate::order::eq(&bucket[i], x)
                };
                if found {
                    proof {
                        lemma_sorted_remove(s, q, !MULTI);
                    }
                    self.data.remove_at(b, i);
                    return true;
                }
                false
            },
            None => false,
        }
    }

    /// The largest value below `x`, if any.
    pub fn lt(&self, x: &T) -> (r: Option<&T>)
        requires
            self.wf(),
            total_order::<T>(),
        ensures
            r == if count_less(self@, *x) > 0 {
                Some(&self@[count_less(self@, *x) - 1])
            } else {
                None
            },
    {
        let ghost bs = self.data.pieces();
        proof {
            lemma_strict_sorted(self.data@, !MULTI);
            lemma_take_all(bs);
            lemma_offset_zero(bs);
        }
        let nb = self.data.buckets.len();
        let mut b: usize = nb;
        while b > 0
            invariant
                self.wf(),
                total_order::<T>(),
                sorted(self@, false),
                bs == self.data.pieces(),
                nb == bs.len(),
                offset(bs, nb as int) == self@.len(),
                offset(bs, 0) == 0,
                b <= nb,
                forall|c: int| b <= c < nb ==> !less(#[trigger] bs[c][0], *x),
            decreases b,
        {
            b -= 1;
            let a = &self.data.buckets[b];
            proof {
                assert(a@ == bs[b as int]);
                assert(bs[b as int].len() > 0);
                self.lemma_locate_item(b as int, 0);
            }
            if lt(&a[0], x) {
                proof {
                    self.lemma_bucket_sorted(b as int);
                }
                let p = lower_bound(a, x);
                proof {
                    let q = offset(bs, b as int) + p;
                    assert(p >= 1);
                    self.lemma_locate_item(b as int, p - 1);
                    if p < a@.len() {
                        self.lemma_locate_item(b as int, p as int);
                    } else if b + 1 < nb {
                        self.lemma_locate_item(b + 1, 0);
                        assert(!less(bs[b + 1][0], *x));
                    }
                    lemma_rank_less(self@, *x, q);
                }
                return Some(&a[p - 1]);
            }
        }
        proof {
            if nb > 0 {
                self.lemma_locate_item(0, 0);
                assert(!less(bs[0][0], *x));
            }
            lemma_rank_less(self@, *x, 0);
        }
        None
    }

    /// The largest value not above `x`, if any.
    pub fn le(&self, x: &T) -> (r: Option<&T>)
        requires
            self.wf(),
            total_order::<T>(),
        ensures
            r == if count_not_greater(self@, *x) > 0 {
                Some(&self@[count_not_greater(self@, *x) - 1])
            } else {
                None
            },
    {
        let ghost bs = self.data.pieces();
        proof {
            lemma_strict_sorted(self.data@, !MULTI);
            lemma_take_all(bs);
            lemma_offset_zero(bs);
        }
        let nb = self.data.buckets.len();
        let mut b: usize = nb;
        while b > 0
            invariant
                self.wf(),
                total_order::<T>(),
                sorted(self@, false),
                bs == self.data.pieces(),
                nb == bs.len(),
                offset(bs, nb as int) == self@.len(),
                offset(bs, 0) == 0,
                b <= nb,
                forall|c: int| b <= c < nb ==> less(*x, #[trigger] bs[c][0]),
            decreases b,
        {
            b -= 1;
            let a = &self.data.buckets[b];
            proof {
                assert(a@ == bs[b as int]);
                assert(bs[b as int].len() > 0);
                self.lemma_locate_item(b as int, 0);
            }
            if le(&a[0], x) {
                proof {
                    self.lemma_bucket_sorted(b as int);
                }
                let p = upper_bound(a, x);
                proof {
                    let q = offset(bs, b as int) + p;
                    assert(p >= 1);
                    self.lemma_locate_item(b as int, p - 1);
                    if p < a@.len() {
                        self.lemma_locate_item(b as int, p as int);
                    } else if b + 1 < nb {
                        self.lemma_locate_item(b + 1, 0);
                        assert(less(*x, bs[b + 1][0]));
                    }
                    lemma_rank_not_greater(self@, *x, q);
                }
                return Some(&a[p - 1]);
            }
        }
        proof {
            if nb > 0 {
                self.lemma_locate_item(0, 0);
                assert(less(*x, bs[0][0]));
            }
            lemma_rank_not_greater(self@, *x, 0);
        }
        None
    }

    /// The smallest value above `x`, if any.
    pub fn gt(&self, x: &T) -> (r: Option<&T>)
        requires
            self.wf(),
            total_order::<T>(),
        ensures
            r == if count_not_greater(self@, *x) < self@.len() {
                Some(&self@[count_not_greater(self@, *x) as int])
            } else {
                None
            },
    {
        let ghost bs = self.data.pieces();
        proof {
            lemma_strict_sorted(self.data@, !MULTI);
            lemma_take_all(bs);
            lemma_offset_zero(bs);
        }
        let nb = self.data.buckets.len();
        let mut b: usize = 0;
        while b < nb
            invariant
                self.wf(),
                total_order::<T>(),
                sorted(self@, false),
                bs == self.data.pieces(),
                nb == bs.len(),
                offset(bs, nb as int) == self@.len(),
                offset(bs, 0) == 0,
                b <= nb,
                forall|c: int| 0 <= c < b ==> !less(*x, #[trigger] bs[c].last()),
            decreases nb - b,
        {
            let a = &self.data.buckets[b];
            proof {
                assert(a@ == bs[b as int]);
                assert(bs[b as int].len() > 0);
                self.lemma_locate_item(b as int, bs[b as int].len() - 1);
            }
            if lt(x, &a[a.len() - 1]) {
                proof {
                    self.lemma_bucket_sorted(b as int);
                }
                let p = upper_bound(a, x);
                proof {
                    let q = offset(bs, b as int) + p;
                    assert(p < a@.len());
                    self.lemma_locate_item(b as int, p as int);
                    if p > 0 {
                        self.lemma_locate_item(b as int, p - 1);
                    } else if b > 0 {
                        let pb = (b - 1) as int;
                        self.lemma_locate_item(pb, bs[pb].len() - 1);
                        assert(!less(*x, bs[pb].last()));
                    }
                    lemma_rank_not_greater(self@, *x, q);
                }
                return Some(&a[p]);
            }
            b += 1;
        }
        proof {
            if nb > 0 {
                let lb = (nb - 1) as int;
                self.lemma_locate_item(lb, bs[lb].len() - 1);
                assert(!less(*x, bs[lb].last()));
            }
            lemma_rank_not_greater(self@, *x, self@.len() as int);
        }
        None
    }

    /// The smallest value not below `x`, if any.
    pub fn ge(&self, x: &T) -> (r: Option<&T>)
        requires
            self.wf(),
            total_order::<T>(),
        ensures
            r == if count_less(self@, *x) < self@.len() {
                Some(&self@[count_less(self@, *x) as int])
            } else {
                None
            },
    {
        let ghost bs = self.data.pieces();
        proof {
            lemma_strict_sorted(self.data@, !MULTI);
            lemma_take_all(bs);
            lemma_offset_zero(bs);
        }
        let nb = self.data.buckets.len();
        let mut b: usize = 0;
        while b < nb
            invariant
                self.wf(),
                total_order::<T>(),
                sorted(self@, false),
                bs == self.data.pieces(),
                nb == bs.len(),
                offset(bs, nb as int) == self@.len(),
                offset(bs, 0) == 0,
                b <= nb,
                forall|c: int| 0 <= c < b ==> less(#[trigger] bs[c].last(), *x),
            decreases nb - b,
        {
            let a = &self.data.buckets[b];
            proof {
                assert(a@ == bs[b as int]);
                assert(bs[b as int].len() > 0);
                self.lemma_locate_item(b as int, bs[b as int].len() - 1);
            }
            if le(x, &a[a.len() - 1]) {
                proof {
                    self.lemma_bucket_sorted(b as int);
                }
                let p = lower_bound(a, x);
                proof {
                    let q = offset(bs, b as int) + p;
                    assert(p < a@.len());
                    self.lemma_locate_item(b as int, p as int);
                    if p > 0 {
                        self.lemma_locate_item(b as int, p - 1);
                    } else if b > 0 {
                        let pb = (b - 1) as int;
                        self.lemma_locate_item(pb, bs[pb].len() - 1);
                        assert(less(bs[pb].last(), *x));
                    }
                    lemma_rank_less(self@, *x, q);
                }
                return Some(&a[p]);
            }
            b += 1;
        }
        proof {
            if nb > 0 {
                let lb = (nb - 1) as int;
                self.lemma_locate_item(lb, bs[lb].len() - 1);
                assert(less(bs[lb].last(), *x));
            }
            lemma_rank_less(self@, *x, self@.len() as int);
        }
        None
    }

    /// Number of values below `x` (whether or not `x` itself is present).
    pub fn index(&self, x: &T) -> (r: usize)
        requires
            self.wf(),
            total_order::<T>(),
        ensures
            r == count_less(self@, *x),
    {
        let ghost bs = self.data.pieces();
        proof {
            lemma_strict_sorted(self.data@, !MULTI);
            lemma_take_all(bs);
            lemma_offset_zero(bs);
        }
        let nb = self.data.buckets.len();
        let mut n: usize = 0;
        let mut b: usize = 0;
        while b < nb
            invariant
                self.wf(),
                total_order::<T>(),
                sorted(self@, false),
                bs == self.data.pieces(),
                nb == bs.len(),
                offset(bs, nb as int) == self@.len(),
                b <= nb,
                n == offset(bs, b as int),
                forall|c: int| 0 <= c < b ==> less(#[trigger] bs[c].last(), *x),
            decreases nb - b,
        {
            let a = &self.data.buckets[b];
            proof {
                assert(a@ == bs[b as int]);
                assert(bs[b as int].len() > 0);
                self.lemma_locate_item(b as int, bs[b as int].len() - 1);
            }
            if le(x, &a[a.len() - 1]) {
                proof {
                    self.lemma_bucket_sorted(b as int);
                }
                let p = lower_bound(a, x);
                proof {
                    let q = offset(bs, b as int) + p;
                    assert(p < a@.len());
                    self.lemma_locate_item(b as int, p as int);
                    if p > 0 {
                        self.lemma_locate_item(b as int, p - 1);
                    } else if b > 0 {
                        let pb = (b - 1) as int;
                        self.lemma_locate_item(pb, bs[pb].len() - 1);
                        assert(less(bs[pb].last(), *x));
                    }
                    lemma_rank_less(self@, *x, q);
                }
                return n + p;
            }
            n += a.len();
            b += 1;
        }
        proof {
            if nb > 0 {
                let lb = (nb - 1) as int;
                self.lemma_locate_item(lb, bs[lb].len() - 1);
                assert(less(bs[lb].last(), *x));
            }
            lemma_rank_less(self@, *x, self@.len() as int);
        }
        n
    }

    /// Number of values not above `x` (whether or not `x` itself is present).
    pub fn index_right(&self, x: &T) -> (r: usize)
        requires
            self.wf(),
            total_order::<T>(),
        ensures
            r == count_not_greater(self@, *x),
    {
        let ghost bs = self.data.pieces();
        proof {
            lemma_strict_sorted(self.data@, !MULTI);
            lemma_take_all(bs);
            lemma_offset_zero(bs);
        }
        let nb = self.data.buckets.len();
        let mut n: usize = 0;
        let mut b: usize = 0;
        while b < nb
            invariant
                self.wf(),
                total_order::<T>(),
                sorted(self@, false),
                bs == self.data.pieces(),
                nb == bs.len(),
                offset(bs, nb as int) == self@.len(),
                b <= nb,
                n == offset(bs, b as int),
                forall|c: int| 0 <= c < b ==> !less(*x, #[trigger] bs[c].last()),
            decreases nb - b,
        {
            let a = &self.data.buckets[b];
            proof {
                assert(a@ == bs[b as int]);
                assert(bs[b as int].len() > 0);
                self.lemma_locate_item(b as int, bs[b as int].len() - 1);
            }
            if lt(x, &a[a.len() - 1]) {
                proof {
                    self.lemma_bucket_sorted(b as int);
                }
                let p = upper_bound(a, x);
                proof {
                    let q = offset(bs, b as int) + p;
                    assert(p < a@.len());
                    self.lemma_locate_item(b as int, p as int);
                    if p > 0 {
                        self.lemma_locate_item(b as int, p - 1);
                    } else if b > 0 {
                        let pb = (b - 1) as int;
                        self.lemma_locate_item(pb, bs[pb].len() - 1);
                        assert(!less(*x, bs[pb].last()));
                    }
                    lemma_rank_not_greater(self@, *x, q);
                }
                return n + p;
            }
            n += a.len();
            b += 1;
        }
        proof {
            if nb > 0 {
                let lb = (nb - 1) as int;
                self.lemma_locate_item(lb, bs[lb].len() - 1);
                assert(!less(*x, bs[lb].last()));
            }
            lemma_rank_not_greater(self@, *x, self@.len() as int);
        }
        n
    }

    /// Number of values equal to `x` in the order.
    pub fn count(&self, x: &T) -> (r: usize)
        requires
            self.wf(),
            total_order::<T>(),
        ensures
            r == count_equiv(self@, *x),
    {
        proof {
            lemma_count_equiv(self@, *x);
        }
        self.index_right(x) - self.index(x)
    }

    /// Builds a collection from `values`, sorting them only when they are
    /// not already in order, and keeping one of each group of equal values
    /// for a set. A multiset holds exactly the given values; a set holds
    /// values taken from them, one for each group of equal ones. Values
    /// already in order are kept as given by a multiset, and a set keeps the
    /// first of each run of equal ones. The values end up in buckets as
    /// `BucketList::from_vec` lays them out.
    pub fn from_vec(values: Vec<T>) -> (r: Self)
        requires
            total_order::<T>(),
        ensures
            r.wf(),
            MULTI ==> r@.to_multiset() == values@.to_multiset(),
            MULTI && sorted(values@, false) ==> r@ == values@,
            !MULTI && sorted(values@, false) ==> r@ == run_heads(values@),
            !MULTI ==> forall|k: int| 0 <= k < r@.len() ==> values@.contains(#[trigger] r@[k]),
            !MULTI ==> forall|k: int| 0 <= k < values@.len() ==> has_equiv(r@, #[trigger] values@[k]),
            r@.len() == 0 ==> r.pieces().len() == 0,
            r@.len() > 0 ==> is_initial_bucket_count(r@.len() as int, r.pieces().len() as int),
            forall|j: int|
                0 <= j < r.pieces().len() ==> #[trigger] r.pieces()[j] == r@.subrange(
                    cut(r@.len() as int, j, r.pieces().len() as int),
                    cut(r@.len() as int, j + 1, r.pieces().len() as int),
                ),
    {
        let ghost given = values@;
        let mut values = values;
        if has_descent(&values) {
            sort_unstable(&mut values);
        }
        let ghost ordered = values@;
        if !MULTI {
            values = dedup(values);
            proof {
                assert forall|k: int| 0 <= k < values@.len() implies given.contains(
                    #[trigger] values@[k],
                ) by {
                    assert(ordered.contains(values@[k]));
                    given.to_multiset_ensures();
                    ordered.to_multiset_ensures();
                    assert(ordered.to_multiset().count(values@[k]) > 0);
                }
                assert forall|k: int| 0 <= k < given.len() implies has_equiv(
                    values@,
                    #[trigger] given[k],
                ) by {
                    given.to_multiset_ensures();
                    ordered.to_multiset_ensures();
                    assert(given.to_multiset().count(given[k]) > 0);
                    assert(ordered.contains(given[k]));
                    let j = choose|j: int| 0 <= j < ordered.len() && ordered[j] == given[k];
                    assert(has_equiv(values@, ordered[j]));
                }
            }
        }
        let r = SortedCollection { data: BucketList::from_vec(values) };
        proof {
            lemma_strict_sorted(values@, !MULTI);
        }
        r
    }

    /// Adds the values of `values` one by one, in order, as `add` does.
    pub fn extend(&mut self, values: Vec<T>)
        requires
            old(self).wf(),
            total_order::<T>(),
            old(self)@.len() + values@.len() <= usize::MAX,
        ensures
            final(self).wf(),
            final(self)@ == with_values(old(self)@, values@, MULTI),
            final(self).pieces() == added_all_pieces(old(self).pieces(), values@, MULTI),
            MULTI ==> final(self)@.to_multiset() == old(self)@.to_multiset().add(
                values@.to_multiset(),
            ),
            MULTI ==> final(self)@.len() == old(self)@.len() + values@.len(),
            !MULTI ==> forall|k: int|
                0 <= k < values@.len() ==> has_equiv(final(self)@, #[trigger] values@[k]),
            !MULTI ==> forall|k: int|
                0 <= k < old(self)@.len() ==> final(self)@.contains(#[trigger] old(self)@[k]),
            !MULTI ==> forall|k: int|
                0 <= k < final(self)@.len() ==> old(self)@.contains(#[trigger] final(self)@[k])
                    || values@.contains(final(self)@[k]),
    {
        let ghost vs = values@;
        proof {
            if MULTI {
                lemma_strict_sorted(self@, !MULTI);
                crate::laws::law_extend_multiset(self@, vs);
            } else {
                crate::laws::law_extend_set(self@, vs);
            }
        }
        proof {
            assert(vs.take(0) =~= Seq::<T>::empty());
        }
        for x in it: values
            invariant
                self.wf(),
                total_order::<T>(),
                vs == it.seq(),
                old(self)@.len() + vs.len() <= usize::MAX,
                self@.len() <= old(self)@.len() + it.index(),
                self@ == with_values(old(self)@, vs.take(it.index() as int), MULTI),
                self.pieces() == added_all_pieces(old(self).pieces(), vs.take(it.index() as int), MULTI),
        {
            proof {
                assert(vs.take(it.index() + 1).drop_last() =~= vs.take(it.index() as int));
                assert(vs.take(it.index() + 1).last() == x);
                crate::counting::lemma_count_bound(self@, crate::rank::below(x));
            }
            self.add(x);
        }
        assert(vs.take(vs.len() as int) =~= vs);
    }
}

impl<T: Ord, const MULTI: bool> SortedCollection<T, MULTI> {

    /// In a well-formed collection, an index in range may be used with
    /// `[]`.
    pub proof fn lemma_points_in(&self, i: isize)
        requires
            self.wf(),
            resolve_index(i as int, self@.len() as int) is Some,
        ensures
            self.points_in(i),
    {
    }

    /// Two collections compare equal exactly when they hold the same number
    /// of values and, in ascending order, equal values; how the values are
    /// spread over buckets does not matter.
    pub proof fn law_equal_by_values(&self, other: &Self)
        requires
            self.wf(),
            other.wf(),
        ensures
            self.eq_spec(other) <==> (self@.len() == other@.len() && forall|k: int|
                0 <= k < self@.len() ==> #[trigger] self@[k].eq_spec(&other@[k])),
    {
        self.data.law_equal_by_items(&other.data);
    }
}

impl<T: PartialOrd, const MULTI: bool> SortedCollection<T, MULTI> {
    /// `i` points at a value of a well-formed collection.
    pub closed spec fn points_in(&self, i: isize) -> bool {
        &&& self.data.wf()
        &&& sorted(self.data@, !MULTI)
        &&& resolve_index(i as int, self@.len() as int) is Some
    }
}

impl<T: PartialOrd, const MULTI: bool> std::ops::Index<isize> for SortedCollection<T, MULTI> {
    type Output = T;

    /// The value `i` points at in ascending order, as `get(i)` finds it;
    /// negative indices count from the largest. The index must be in range
    /// (`get` returns `None` instead).
    fn index(&self, i: isize) -> (r: &T)
        ensures
            *r == self@[resolve_index(i as int, self@.len() as int)->0],
    {
        self.data.get(i).unwrap()
    }
}

impl<T: PartialOrd, const MULTI: bool> vstd::std_specs::core::IndexSpecImpl<isize> for SortedCollection<T, MULTI> {
    open spec fn index_req(&self, i: &isize) -> bool {
        self.points_in(*i)
    }
}

impl<T: Ord, const MULTI: bool> Default for SortedCollection<T, MULTI> {
    /// An empty collection.
    fn default() -> (r: Self)
        ensures
            r.wf(),
            r@ == Seq::<T>::empty(),
            r.pieces() == Seq::<Seq<T>>::empty(),
    {
        Self::new()
    }
}

impl<T: PartialEq, const MULTI: bool> SortedCollection<T, MULTI> {
    /// The two collections hold the same number of values and, position by
    /// position, equal values.
    pub closed spec fn same_values(&self, other: &Self) -> bool {
        self.data.same_items(&other.data)
    }
}

impl<T: PartialEq, const MULTI: bool> PartialEq for SortedCollection<T, MULTI> {
    /// Compares the values in order, whatever the bucket layouts.
    fn eq(&self, other: &Self) -> (r: bool) {
        self.data == other.data
    }
}

impl<T: PartialEq, const MULTI: bool> vstd::std_specs::cmp::PartialEqSpecImpl for SortedCollection<T, MULTI> {
    open spec fn obeys_eq_spec() -> bool {
        T::obeys_eq_spec()
    }

    open spec fn eq_spec(&self, other: &Self) -> bool {
        self.same_values(other)
    }
}

impl<T: Eq, const MULTI: bool> Eq for SortedCollection<T, MULTI> {
}

} // verus!
