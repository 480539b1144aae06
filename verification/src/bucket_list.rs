//! `BucketList`: a sequence stored as a list of non-empty buckets. A bucket
//! that grows longer than 24 times the number of buckets is cut in two, and
//! a bucket that becomes empty is dropped.

use vstd::prelude::*;
use vstd::std_specs::cmp::PartialEqSpec;
use crate::counting::{
    count_where, first_where, lemma_count_bound, lemma_count_empty_prefix, lemma_count_step,
    lemma_first_found, lemma_first_none,
};
use crate::layout::{
    cut, cut_point, initial_bucket_count, is_initial_bucket_count, lemma_cut_bounds, lemma_cut_gap,
};
use crate::pieces::{
    lemma_cut_piece, lemma_drop_empty_piece, lemma_flatten_one, lemma_index,
    lemma_insert_into_piece, lemma_mirrored, lemma_offset_monotone, lemma_offset_zero,
    lemma_piece_end, lemma_remove_from_piece, lemma_set_in_piece, lemma_take_all, lemma_take_step,
    mirrored, offset,
};

verus! {

/// Where `index` points in a sequence of `len` items: `0..len` from the
/// front, `-len..0` from the back; anything else points nowhere.
pub open spec fn resolve_index(index: int, len: int) -> Option<int> {
    if 0 <= index < len {
        Some(index)
    } else if -len <= index < 0 {
        Some(index + len)
    } else {
        None
    }
}

/// Where `insert(index, _)` puts a new item in a sequence of `len` items:
/// before the item `index` points at, or at the end for `index == len`.
/// An empty sequence accepts only `0` and `-1`.
pub open spec fn insert_slot(index: int, len: int) -> Option<int> {
    if len == 0 {
        if index == 0 || index == -1 {
            Some(0)
        } else {
            None
        }
    } else if index == len {
        Some(len)
    } else {
        resolve_index(index, len)
    }
}

/// The contents of a list of buckets.
pub open spec fn contents<T>(buckets: Seq<Vec<T>>) -> Seq<Seq<T>> {
    buckets.map_values(|v: Vec<T>| v@)
}

/// Place `i` of bucket `b` holds item `p` of the joined buckets.
pub open spec fn holds<T>(bs: Seq<Seq<T>>, b: int, i: int, p: int) -> bool {
    &&& 0 <= b < bs.len()
    &&& 0 <= i < bs[b].len()
    &&& offset(bs, b) + i == p
}

/// The buckets after `v` is inserted at place `i` of bucket `b`: a bucket
/// that grows longer than 24 times the number of buckets is cut in two at
/// half its length.
pub open spec fn grown<T>(bs: Seq<Seq<T>>, b: int, i: int, v: T) -> Seq<Seq<T>> {
    let bucket = bs[b].insert(i, v);
    if bucket.len() > 24 * bs.len() {
        let mid = (bucket.len() / 2) as int;
        bs.update(b, bucket.take(mid)).insert(b + 1, bucket.skip(mid))
    } else {
        bs.update(b, bucket)
    }
}

/// The buckets after `v` is added at the end: a first bucket when there is
/// none, else `v` goes at the end of the last bucket.
pub open spec fn appended<T>(bs: Seq<Seq<T>>, v: T) -> Seq<Seq<T>> {
    if bs.len() == 0 {
        seq![seq![v]]
    } else {
        grown(bs, bs.len() - 1, bs.last().len() as int, v)
    }
}

/// The buckets after the items of `xs` are added at the end one by one.
pub open spec fn appended_all<T>(bs: Seq<Seq<T>>, xs: Seq<T>) -> Seq<Seq<T>>
    decreases xs.len(),
{
    if xs.len() == 0 {
        bs
    } else {
        appended(appended_all(bs, xs.drop_last()), xs.last())
    }
}

/// The buckets after place `i` of bucket `b` is removed; a bucket left
/// empty is dropped.
pub open spec fn shrunk<T>(bs: Seq<Seq<T>>, b: int, i: int) -> Seq<Seq<T>> {
    let bucket = bs[b].remove(i);
    if bucket.len() == 0 {
        bs.remove(b)
    } else {
        bs.update(b, bucket)
    }
}

/// `y` is equal to `v` by `PartialEq`.
pub open spec fn equal_to<T: PartialEq>(v: T) -> spec_fn(T) -> bool {
    |y: T| y.eq_spec(&v)
}

/// An unsorted sequence backed by buckets that are cut in two as they grow.
#[derive(Clone, Debug)]
pub struct BucketList<T> {
    pub(crate) buckets: Vec<Vec<T>>,
    pub(crate) len: usize,
}

impl<T> View for BucketList<T> {
    type V = Seq<T>;

    /// The items, bucket after bucket.
    open spec fn view(&self) -> Seq<T> {
        self.pieces().flatten()
    }
}

impl<T> BucketList<T> {
    /// The contents of the buckets.
    pub open(crate) spec fn pieces(&self) -> Seq<Seq<T>> {
        contents(self.buckets@)
    }

    /// The stored length is the number of items, and no bucket is empty.
    pub open(crate) spec fn wf(&self) -> bool {
        &&& self.len == self.pieces().flatten().len()
        &&& forall|b: int| 0 <= b < self.pieces().len() ==> #[trigger] self.pieces()[b].len() > 0
    }

    /// A well-formed list without items has no buckets.
    pub(crate) proof fn lemma_empty_has_no_buckets(&self)
        requires
            self.wf(),
            self@.len() == 0,
        ensures
            self.pieces().len() == 0,
    {
        if self.pieces().len() > 0 {
            lemma_index(self.pieces(), 0, 0);
        }
    }

    /// The last bucket ends where the sequence ends.
    pub(crate) proof fn lemma_last_bucket(&self)
        requires
            self.wf(),
            self.pieces().len() > 0,
        ensures
            offset(self.pieces(), self.pieces().len() - 1) + self.pieces().last().len()
                == self@.len(),
    {
        let bs = self.pieces();
        lemma_piece_end(bs, bs.len() - 1);
        lemma_take_all(bs);
    }

    /// Overwriting one item through a reference into bucket `b` overwrites
    /// that item of the sequence and keeps the list well formed.
    proof fn lemma_overwrite(&self, b: int, i: int)
        requires
            self.wf(),
            0 <= b < self.pieces().len(),
            0 <= i < self.pieces()[b].len(),
        ensures
            holds(self.pieces(), b, i, offset(self.pieces(), b) + i),
            forall|bucket: Vec<T>, v: T|
                #![trigger self.buckets@.update(b, bucket), self.buckets@[b]@.update(i, v)]
                bucket@ == self.buckets@[b]@.update(i, v) ==> {
                    &&& contents(self.buckets@.update(b, bucket)).flatten() == self@.update(
                        offset(self.pieces(), b) + i,
                        v,
                    )
                    &&& contents(self.buckets@.update(b, bucket)) == self.pieces().update(
                        b,
                        self.pieces()[b].update(i, v),
                    )
                    &&& contents(self.buckets@.update(b, bucket)).len() == self.pieces().len()
                    &&& forall|c: int|
                        0 <= c < self.pieces().len() ==> #[trigger] contents(
                            self.buckets@.update(b, bucket),
                        )[c].len() == self.pieces()[c].len()
                },
    {
        let bs = self.pieces();
        assert forall|bucket: Vec<T>, v: T|
            #![trigger self.buckets@.update(b, bucket), self.buckets@[b]@.update(i, v)]
            bucket@ == self.buckets@[b]@.update(i, v) implies {
                &&& contents(self.buckets@.update(b, bucket)).flatten() == self@.update(
                    offset(self.pieces(), b) + i,
                    v,
                )
                &&& contents(self.buckets@.update(b, bucket)) == self.pieces().update(
                    b,
                    self.pieces()[b].update(i, v),
                )
                &&& contents(self.buckets@.update(b, bucket)).len() == self.pieces().len()
                &&& forall|c: int|
                    0 <= c < self.pieces().len() ==> #[trigger] contents(
                        self.buckets@.update(b, bucket),
                    )[c].len() == self.pieces()[c].len()
            } by {
            assert(contents(self.buckets@.update(b, bucket)) =~= bs.update(b, bs[b].update(i, v)));
            lemma_set_in_piece(bs, b, i, v);
        }
    }
}

impl<T> BucketList<T> {
    /// Creates an empty list.
    pub fn new() -> (r: Self)
        ensures
            r.wf(),
            r@ == Seq::<T>::empty(),
            r.pieces() == Seq::<Seq<T>>::empty(),
    {
        let r = BucketList { buckets: Vec::new(), len: 0 };
        assert(r.pieces() =~= Seq::<Seq<T>>::empty());
        r
    }

    /// Number of items, duplicates included.
    pub fn len(&self) -> (r: usize)
        requires
            self.wf(),
        ensures
            r == self@.len(),
    {
        self.len
    }

    /// Whether there are no items.
    pub fn is_empty(&self) -> (r: bool)
        requires
            self.wf(),
        ensures
            r == (self@.len() == 0),
    {
        self.len == 0
    }

    /// Read-only view of the buckets: none of them is empty, and together,
    /// in order, they hold the items.
    pub fn buckets(&self) -> (r: &[Vec<T>])
        requires
            self.wf(),
        ensures
            r@.map_values(|v: Vec<T>| v@) == self.pieces(),
            r@.map_values(|v: Vec<T>| v@).flatten() == self@,
            forall|b: int| 0 <= b < r@.len() ==> #[trigger] r@[b]@.len() > 0,
    {
        proof {
            assert forall|b: int| 0 <= b < self.buckets@.len() implies #[trigger] self.buckets@[b]@.len()
                > 0 by {
                assert(self.pieces()[b] == self.buckets@[b]@);
            }
            assert(self.buckets@.map_values(|v: Vec<T>| v@) =~= self.pieces());
        }
        self.buckets.as_slice()
    }

    /// References to the items, front to back.
    pub fn iter(&self) -> (r: Vec<&T>)
        ensures
            r@.len() == self@.len(),
            forall|k: int| 0 <= k < r@.len() ==> *#[trigger] r@[k] == self@[k],
    {
        let ghost bs = self.pieces();
        let mut out: Vec<&T> = Vec::new();
        let mut b: usize = 0;
        while b < self.buckets.len()
            invariant
                bs == self.pieces(),
                b <= bs.len(),
                out@.len() == offset(bs, b as int),
                forall|k: int| 0 <= k < out@.len() ==> *#[trigger] out@[k] == bs.take(b as int).flatten()[k],
            decreases bs.len() - b,
        {
            let bucket = &self.buckets[b];
            let ghost before = out@;
            let mut i: usize = 0;
            while i < bucket.len()
                invariant
                    bs == self.pieces(),
                    b < bs.len(),
                    *bucket == self.buckets@[b as int],
                    i <= bucket@.len(),
                    out@.len() == before.len() + i,
                    before.len() == offset(bs, b as int),
                    forall|k: int| 0 <= k < before.len() ==> #[trigger] out@[k] == before[k],
                    forall|k: int| 0 <= k < i ==> *#[trigger] out@[before.len() + k] == bucket@[k],
                decreases bucket@.len() - i,
            {
                out.push(&bucket[i]);
                i += 1;
            }
            proof {
                lemma_take_step(bs, b as int);
                assert forall|k: int| 0 <= k < out@.len() implies *#[trigger] out@[k] == bs.take(
                    b + 1,
                ).flatten()[k] by {
                    if k >= before.len() {
                        assert(*out@[before.len() + (k - before.len())] == bucket@[k - before.len()]);
                    }
                }
            }
            b += 1;
        }
        proof {
            lemma_take_all(bs);
        }
        out
    }

    /// Removes every item.
    pub fn clear(&mut self)
        ensures
            final(self).wf(),
            final(self)@ == Seq::<T>::empty(),
            final(self).pieces() == Seq::<Seq<T>>::empty(),
    {
        self.buckets.clear();
        self.len = 0;
        assert(self.pieces() =~= Seq::<Seq<T>>::empty());
    }

    /// Finds the bucket and the place in it of the item `index` points at.
    pub(crate) fn locate(&self, index: isize) -> (r: Option<(usize, usize)>)
        requires
            self.wf(),
        ensures
            match resolve_index(index as int, self@.len() as int) {
                Some(p) => r matches Some((b, i)) && b < self.pieces().len() && i < self.pieces()[b as int].len()
                    && offset(self.pieces(), b as int) + i == p,
                None => r is None,
            },
    {
        let ghost bs = self.pieces();
        let ghost total = self@.len() as int;
        let nb = self.buckets.len();
        proof {
            lemma_take_all(bs);
            lemma_offset_zero(bs);
        }
        if index < 0 {
            // Walk from the back; `k` is how far before the end of the
            // buckets not yet passed the wanted item lies.
            let mut k: usize = ((-(index + 1)) as usize) + 1;
            let mut b: usize = nb;
            while b > 0
                invariant
                    self.wf(),
                    bs == self.pieces(),
                    total == self@.len(),
                    nb == bs.len(),
                    b <= nb,
                    k >= 1,
                    offset(bs, b as int) - k == total + index,
                    offset(bs, 0) == 0,
                    index < 0,
                decreases b,
            {
                b -= 1;
                let blen = self.buckets[b].len();
                proof {
                    lemma_take_step(bs, b as int);
                }
                if k <= blen {
                    return Some((b, blen - k));
                }
                k -= blen;
            }
            None
        } else {
            let mut rem: usize = index as usize;
            let mut b: usize = 0;
            while b < nb
                invariant
                    self.wf(),
                    bs == self.pieces(),
                    total == self@.len(),
                    nb == bs.len(),
                    b <= nb,
                    rem + offset(bs, b as int) == index,
                    offset(bs, nb as int) == total,
                decreases nb - b,
            {
                let blen = self.buckets[b].len();
                proof {
                    lemma_take_step(bs, b as int);
                }
                if rem < blen {
                    proof {
                        lemma_offset_monotone(bs, b + 1, nb as int);
                    }
                    return Some((b, rem));
                }
                rem -= blen;
                b += 1;
            }
            None
        }
    }

    /// The item `index` points at; negative indices count from the back.
    /// `None` when the index is out of range.
    pub fn get(&self, index: isize) -> (r: Option<&T>)
        requires
            self.wf(),
        ensures
            r == match resolve_index(index as int, self@.len() as int) {
                Some(p) => Some(&self@[p]),
                None => None,
            },
            0 <= index < self@.len() ==> r == Some(&self@[index as int]),
            -self@.len() <= index < 0 ==> r == Some(&self@[index + self@.len()]),
            (index >= self@.len() || index < -self@.len()) ==> r is None,
    {
        match self.locate(index) {
            Some((b, i)) => {
                proof {
                    lemma_index(self.pieces(), b as int, i as int);
                }
                Some(&self.buckets[b][i])
            },
            None => None,
        }
    }

    /// A mutable reference to the item `index` points at; negative indices
    /// count from the back. `None` when the index is out of range.
    pub fn get_mut(&mut self, index: isize) -> (r: Option<&mut T>)
        requires
            old(self).wf(),
        ensures
            final(self).wf(),
            match resolve_index(index as int, old(self)@.len() as int) {
                Some(p) => r is Some && *r->0 == old(self)@[p] && final(self)@ == old(self)@.update(
                    p,
                    *final(r->0),
                ),
                None => r is None && final(self)@ == old(self)@,
            },
            match resolve_index(index as int, old(self)@.len() as int) {
                Some(p) => r is Some && exists|b: int, i: int|
                    #[trigger] holds(old(self).pieces(), b, i, p)
                        && final(self).pieces() == old(self).pieces().update(
                        b,
                        old(self).pieces()[b].update(i, *final(r->0)),
                    ),
                None => final(self).pieces() == old(self).pieces(),
            },
    {
        match self.locate(index) {
            Some((b, i)) => {
                let ghost bs = self.pieces();
                proof {
                    lemma_index(bs, b as int, i as int);
                    self.lemma_overwrite(b as int, i as int);
                }
                let bucket = &mut self.buckets[b];
                let item = &mut bucket[i];
                Some(item)
            },
            None => None,
        }
    }

    /// Inserts `value` at place `i` of bucket `b`, then cuts that bucket in
    /// two if it has grown longer than 24 times the number of buckets.
    pub(crate) fn insert_at(&mut self, b: usize, i: usize, value: T)
        requires
            old(self).wf(),
            b < old(self).pieces().len(),
            i <= old(self).pieces()[b as int].len(),
            old(self)@.len() < usize::MAX,
        ensures
            final(self).wf(),
            final(self)@ == old(self)@.insert(offset(old(self).pieces(), b as int) + i, value),
            final(self).pieces() == grown(old(self).pieces(), b as int, i as int, value),
    {
        let ghost bs0 = self.pieces();
        proof {
            lemma_piece_end(bs0, b as int);
        }
        self.buckets[b].insert(i, value);
        self.len = self.len + 1;
        let ghost bs1 = self.pieces();
        proof {
            assert(bs1 =~= bs0.update(b as int, bs0[b as int].insert(i as int, value)));
            lemma_insert_into_piece(bs0, b as int, i as int, value);
        }
        let nb = self.buckets.len();
        let blen = self.buckets[b].len();
        let too_long = match nb.checked_mul(24) {
            Some(limit) => blen > limit,
            None => false,
        };
        if too_long {
            let mid = blen / 2;
            let right = self.buckets[b].split_off(mid);
            self.buckets.insert(b + 1, right);
            proof {
                assert(self.pieces() =~= bs1.update(b as int, bs1[b as int].take(mid as int)).insert(
                    b + 1,
                    bs1[b as int].skip(mid as int),
                ));
                lemma_cut_piece(bs1, b as int, mid as int);
                assert forall|c: int| 0 <= c < self.pieces().len() implies #[trigger] self.pieces()[c].len()
                    > 0 by {
                    if c < b {
                        assert(self.pieces()[c] == bs1[c]);
                    } else if c > b + 1 {
                        assert(self.pieces()[c] == bs1[c - 1]);
                    }
                }
            }
        } else {
            proof {
                assert forall|c: int| 0 <= c < bs1.len() implies #[trigger] bs1[c].len() > 0 by {
                    if c != b {
                        assert(bs1[c] == bs0[c]);
                    }
                }
            }
        }
    }

    /// Adds `value` at the end.
    pub fn append(&mut self, value: T)
        requires
            old(self).wf(),
            old(self)@.len() < usize::MAX,
        ensures
            final(self).wf(),
            final(self)@ == old(self)@.push(value),
            final(self).pieces() == appended(old(self).pieces(), value),
    {
        if self.is_empty() {
            proof {
                self.lemma_empty_has_no_buckets();
            }
            let first = vec![value];
            assert(first@ =~= seq![value]);
            self.buckets.push(first);
            self.len = 1;
            proof {
                assert(self.buckets@ =~= seq![first]);
                assert(self.pieces() =~= seq![seq![value]]);
                lemma_flatten_one(seq![value]);
                assert(old(self)@ =~= Seq::<T>::empty());
            }
        } else {
            let b = self.buckets.len() - 1;
            proof {
                if self.pieces().len() == 0 {
                    assert(self.pieces() =~= Seq::<Seq<T>>::empty());
                }
                self.lemma_last_bucket();
            }
            let end = self.buckets[b].len();
            self.insert_at(b, end, value);
            proof {
                assert(old(self)@.insert(old(self)@.len() as int, value) =~= old(self)@.push(value));
            }
        }
    }

    /// Inserts `value` before the item `index` points at, or at the end when
    /// `index` is the length. An empty list accepts only `0` and `-1`.
    /// Any other index leaves the list unchanged and hands `value` back.
    pub fn insert(&mut self, index: isize, value: T) -> (r: Result<(), T>)
        requires
            old(self).wf(),
            old(self)@.len() < usize::MAX,
        ensures
            final(self).wf(),
            match insert_slot(index as int, old(self)@.len() as int) {
                Some(p) => r is Ok && final(self)@ == old(self)@.insert(p, value),
                None => r == Err::<(), T>(value) && final(self)@ == old(self)@,
            },
            0 <= index <= old(self)@.len() ==> r is Ok && final(self)@ == old(self)@.insert(
                index as int,
                value,
            ),
            old(self)@.len() > 0 && -old(self)@.len() <= index < 0 ==> r is Ok && final(self)@
                == old(self)@.insert(index + old(self)@.len(), value),
            old(self)@.len() == 0 && index == -1 ==> r is Ok && final(self)@ == seq![value],
            (index > old(self)@.len() || (old(self)@.len() > 0 && index < -old(self)@.len()) || (old(
                self,
            )@.len() == 0 && index < -1)) ==> r == Err::<(), T>(value) && final(self)@ == old(self)@,
            match insert_slot(index as int, old(self)@.len() as int) {
                Some(p) => if p == old(self)@.len() {
                    final(self).pieces() == appended(old(self).pieces(), value)
                } else {
                    exists|b: int, i: int|
                        #[trigger] holds(old(self).pieces(), b, i, p) && final(self).pieces()
                            == grown(old(self).pieces(), b, i, value)
                },
                None => final(self).pieces() == old(self).pieces(),
            },
    {
        if self.is_empty() {
            if index != 0 && index != -1 {
                return Err(value);
            }
            self.append(value);
            proof {
                assert(old(self)@.insert(0, value) =~= old(self)@.push(value));
            }
        } else if index >= 0 && index as usize == self.len {
            self.append(value);
            proof {
                assert(old(self)@.insert(index as int, value) =~= old(self)@.push(value));
            }
        } else {
            match self.locate(index) {
                Some((b, i)) => {
                    proof {
                        assert(holds(self.pieces(), b as int, i as int, offset(self.pieces(), b as int) + i));
                    }
                    self.insert_at(b, i, value);
                },
                None => {
                    return Err(value);
                },
            }
        }
        Ok(())
    }

    /// Removes and returns item `i` of bucket `b`, dropping the bucket if it
    /// becomes empty.
    pub(crate) fn remove_at(&mut self, b: usize, i: usize) -> (r: T)
        requires
            old(self).wf(),
            b < old(self).pieces().len(),
            i < old(self).pieces()[b as int].len(),
        ensures
            final(self).wf(),
            offset(old(self).pieces(), b as int) + i < old(self)@.len(),
            r == old(self)@[offset(old(self).pieces(), b as int) + i],
            final(self)@ == old(self)@.remove(offset(old(self).pieces(), b as int) + i),
            final(self).pieces() == shrunk(old(self).pieces(), b as int, i as int),
    {
        let ghost bs0 = self.pieces();
        proof {
            lemma_index(bs0, b as int, i as int);
        }
        let value = self.buckets[b].remove(i);
        self.len = self.len - 1;
        let ghost bs1 = self.pieces();
        proof {
            assert(bs1 =~= bs0.update(b as int, bs0[b as int].remove(i as int)));
            lemma_remove_from_piece(bs0, b as int, i as int);
        }
        if self.buckets[b].is_empty() {
            self.buckets.remove(b);
            proof {
                assert(self.pieces() =~= bs1.remove(b as int));
                lemma_drop_empty_piece(bs1, b as int);
                assert forall|c: int| 0 <= c < self.pieces().len() implies #[trigger] self.pieces()[c].len()
                    > 0 by {
                    if c < b {
                        assert(self.pieces()[c] == bs0[c]);
                    } else {
                        assert(self.pieces()[c] == bs0[c + 1]);
                    }
                }
            }
        } else {
            proof {
                assert forall|c: int| 0 <= c < bs1.len() implies #[trigger] bs1[c].len() > 0 by {
                    if c != b {
                        assert(bs1[c] == bs0[c]);
                    }
                }
            }
        }
        value
    }

    /// Removes and returns the item `index` points at; negative indices
    /// count from the back. Out of range: `None`, and nothing changes.
    pub fn pop(&mut self, index: isize) -> (r: Option<T>)
        requires
            old(self).wf(),
        ensures
            final(self).wf(),
            match resolve_index(index as int, old(self)@.len() as int) {
                Some(p) => r == Some(old(self)@[p]) && final(self)@ == old(self)@.remove(p),
                None => r is None && final(self)@ == old(self)@,
            },
            0 <= index < old(self)@.len() ==> r == Some(old(self)@[index as int]) && final(self)@
                == old(self)@.remove(index as int),
            -old(self)@.len() <= index < 0 ==> r == Some(old(self)@[index + old(self)@.len()])
                && final(self)@ == old(self)@.remove(index + old(self)@.len()),
            (index >= old(self)@.len() || index < -old(self)@.len()) ==> r is None && final(self)@
                == old(self)@,
            match resolve_index(index as int, old(self)@.len() as int) {
                Some(p) => exists|b: int, i: int|
                    #[trigger] holds(old(self).pieces(), b, i, p) && final(self).pieces() == shrunk(
                        old(self).pieces(),
                        b,
                        i,
                    ),
                None => final(self).pieces() == old(self).pieces(),
            },
    {
        match self.locate(index) {
            Some((b, i)) => {
                proof {
                    assert(holds(self.pieces(), b as int, i as int, offset(self.pieces(), b as int) + i));
                }
                Some(self.remove_at(b, i))
            },
            None => None,
        }
    }

    /// Removes and returns the last item; `None` when empty.
    pub fn pop_last(&mut self) -> (r: Option<T>)
        requires
            old(self).wf(),
        ensures
            final(self).wf(),
            old(self)@.len() > 0 ==> r == Some(old(self)@.last()) && final(self)@ == old(
                self,
            )@.drop_last(),
            old(self)@.len() == 0 ==> r is None && final(self)@ == old(self)@,
            old(self)@.len() > 0 ==> exists|b: int, i: int|
                #[trigger] holds(old(self).pieces(), b, i, old(self)@.len() - 1)
                    && final(self).pieces() == shrunk(old(self).pieces(), b, i),
            old(self)@.len() == 0 ==> final(self).pieces() == old(self).pieces(),
    {
        let r = self.pop(-1);
        proof {
            if old(self)@.len() > 0 {
                assert(old(self)@.remove(old(self)@.len() - 1) =~= old(self)@.drop_last());
            }
        }
        r
    }

    /// Reverses the order of the items in place.
    pub fn reverse(&mut self)
        requires
            old(self).wf(),
        ensures
            final(self).wf(),
            final(self)@ == old(self)@.reverse(),
            final(self).pieces() == mirrored(old(self).pieces()),
    {
        let ghost bs = self.pieces();
        let ghost n = bs.len() as int;
        let mut out: Vec<Vec<T>> = Vec::new();
        while self.buckets.len() > 0
            invariant
                self.len == old(self).len,
                contents(self.buckets@) == bs.take(self.buckets@.len() as int),
                self.buckets@.len() <= n,
                n == bs.len(),
                out@.len() == n - self.buckets@.len(),
                forall|k: int| 0 <= k < out@.len() ==> #[trigger] out@[k]@ == bs[n - 1 - k].reverse(),
            decreases self.buckets@.len(),
        {
            let ghost before = self.buckets@;
            let bucket = self.buckets.pop().unwrap();
            proof {
                assert(contents(self.buckets@) =~= bs.take(self.buckets@.len() as int));
                assert(bucket@ == bs[self.buckets@.len() as int]) by {
                    assert(contents(before)[before.len() - 1] == bs.take(before.len() as int)[before.len() - 1]);
                }
            }
            out.push(reversed(bucket));
        }
        self.buckets = out;
        proof {
            assert(self.pieces() =~= mirrored(bs));
            lemma_mirrored(bs);
        }
    }
    /// Builds a list holding `values` in order, spread as evenly as the
    /// integers allow over `max(1, ceil(sqrt(n / 16)))` buckets (none when
    /// `values` is empty).
    pub fn from_vec(values: Vec<T>) -> (r: Self)
        ensures
            r.wf(),
            r@ == values@,
            values@.len() == 0 ==> r.pieces().len() == 0,
            values@.len() > 0 ==> is_initial_bucket_count(
                values@.len() as int,
                r.pieces().len() as int,
            ),
            forall|j: int|
                0 <= j < r.pieces().len() ==> #[trigger] r.pieces()[j] == values@.subrange(
                    cut(values@.len() as int, j, r.pieces().len() as int),
                    cut(values@.len() as int, j + 1, r.pieces().len() as int),
                ),
    {
        let n = values.len();
        if n == 0 {
            let r = Self::new();
            assert(values@ =~= Seq::<T>::empty());
            return r;
        }
        let count = initial_bucket_count(n);
        let ghost orig = values@;
        let mut rest = values;
        let mut stack: Vec<Vec<T>> = Vec::new();
        let mut i = count;
        proof {
            lemma_cut_bounds(n as int, count as int, count as int);
            assert(orig.take(n as int) =~= orig);
        }
        while i > 0
            invariant
                1 <= count <= n,
                n == orig.len(),
                i <= count,
                rest@ == orig.take(cut(n as int, i as int, count as int)),
                stack@.len() == count - i,
                forall|k: int|
                    0 <= k < stack@.len() ==> #[trigger] stack@[k]@ == orig.subrange(
                        cut(n as int, count - 1 - k, count as int),
                        cut(n as int, count - k, count as int),
                    ),
            decreases i,
        {
            i -= 1;
            proof {
                lemma_cut_bounds(n as int, i as int, count as int);
                lemma_cut_bounds(n as int, i + 1, count as int);
                lemma_cut_gap(n as int, i as int, count as int);
            }
            let start = cut_point(n, i, count);
            let piece = rest.split_off(start);
            proof {
                assert(rest@ =~= orig.take(cut(n as int, i as int, count as int)));
                assert(piece@ =~= orig.subrange(
                    cut(n as int, i as int, count as int),
                    cut(n as int, i + 1, count as int),
                ));
            }
            stack.push(piece);
        }
        let buckets = reversed(stack);
        let ghost bs = contents(buckets@);
        proof {
            assert forall|j: int| 0 <= j < count implies #[trigger] bs[j] == orig.subrange(
                cut(n as int, j, count as int),
                cut(n as int, j + 1, count as int),
            ) by {
                assert(buckets@[j] == stack@[count - 1 - j]);
            }
            lemma_join_cuts(bs, orig, count as int, count as int);
            lemma_take_all(bs);
            lemma_cut_bounds(n as int, count as int, count as int);
            assert(orig.take(n as int) =~= orig);
            assert forall|j: int| 0 <= j < bs.len() implies #[trigger] bs[j].len() > 0 by {
                lemma_cut_gap(n as int, j, count as int);
                lemma_cut_bounds(n as int, j, count as int);
                lemma_cut_bounds(n as int, j + 1, count as int);
            }
        }
        BucketList { buckets, len: n }
    }

    /// Adds the items of `values` at the end, in order.
    pub fn extend(&mut self, values: Vec<T>)
        requires
            old(self).wf(),
            old(self)@.len() + values@.len() <= usize::MAX,
        ensures
            final(self).wf(),
            final(self)@ == old(self)@ + values@,
            final(self).pieces() == appended_all(old(self).pieces(), values@),
    {
        let ghost vs = values@;
        for x in it: values
            invariant
                self.wf(),
                vs == it.seq(),
                old(self)@.len() + vs.len() <= usize::MAX,
                self@ == old(self)@ + vs.take(it.index() as int),
                self.pieces() == appended_all(old(self).pieces(), vs.take(it.index() as int)),
        {
            proof {
                assert(vs.take(it.index() + 1) =~= vs.take(it.index() as int).push(x));
                assert(vs.take(it.index() + 1).drop_last() =~= vs.take(it.index() as int));
            }
            self.append(x);
        }
        assert(vs.take(vs.len() as int) =~= vs);
    }
}

impl<T: PartialEq> BucketList<T> {
    /// The first item equal to `value`: its bucket, its place in the bucket
    /// and its position in the sequence.
    fn find(&self, value: &T) -> (r: Option<(usize, usize, usize)>)
        requires
            self.wf(),
            T::obeys_eq_spec(),
        ensures
            match first_where(self@, equal_to(*value)) {
                Some(k) => r matches Some((b, i, pos)) && pos == k && b < self.pieces().len() && i
                    < self.pieces()[b as int].len() && offset(self.pieces(), b as int) + i == k,
                None => r is None,
            },
    {
        let ghost bs = self.pieces();
        let ghost p = equal_to(*value);
        let nb = self.buckets.len();
        let mut pos: usize = 0;
        let mut b: usize = 0;
        proof {
            lemma_offset_zero(bs);
            lemma_take_all(bs);
        }
        while b < nb
            invariant
                self.wf(),
                T::obeys_eq_spec(),
                bs == self.pieces(),
                p == equal_to(*value),
                nb == bs.len(),
                b <= nb,
                pos == offset(bs, b as int),
                offset(bs, nb as int) == self@.len(),
                forall|k: int| 0 <= k < pos ==> !p(#[trigger] self@[k]),
            decreases nb - b,
        {
            let bucket = &self.buckets[b];
            let mut i: usize = 0;
            while i < bucket.len()
                invariant
                    self.wf(),
                    T::obeys_eq_spec(),
                    bs == self.pieces(),
                    p == equal_to(*value),
                    nb == bs.len(),
                    b < nb,
                    *bucket == self.buckets@[b as int],
                    i <= bucket@.len(),
                    pos == offset(bs, b as int) + i,
                    offset(bs, nb as int) == self@.len(),
                    forall|k: int| 0 <= k < pos ==> !p(#[trigger] self@[k]),
                decreases bucket@.len() - i,
            {
                proof {
                    lemma_index(bs, b as int, i as int);
                }
                if bucket[i] == *value {
                    proof {
                        lemma_first_found(self@, p, pos as int);
                    }
                    return Some((b, i, pos));
                }
                i += 1;
                pos += 1;
            }
            proof {
                lemma_piece_end(bs, b as int);
            }
            b += 1;
        }
        proof {
            lemma_first_none(self@, p);
        }
        None
    }

    /// Whether some item is equal to `value`.
    pub fn contains(&self, value: &T) -> (r: bool)
        requires
            self.wf(),
            T::obeys_eq_spec(),
        ensures
            r == (first_where(self@, equal_to(*value)) is Some),
    {
        self.find(value).is_some()
    }

    /// How many items are equal to `value`.
    pub fn count(&self, value: &T) -> (r: usize)
        requires
            self.wf(),
            T::obeys_eq_spec(),
        ensures
            r == count_where(self@, equal_to(*value)),
    {
        let ghost bs = self.pieces();
        let ghost p = equal_to(*value);
        let nb = self.buckets.len();
        let mut n: usize = 0;
        let mut pos: usize = 0;
        let mut b: usize = 0;
        proof {
            lemma_offset_zero(bs);
            lemma_take_all(bs);
            lemma_count_empty_prefix(self@, p);
        }
        while b < nb
            invariant
                self.wf(),
                T::obeys_eq_spec(),
                bs == self.pieces(),
                p == equal_to(*value),
                nb == bs.len(),
                b <= nb,
                pos == offset(bs, b as int),
                offset(bs, nb as int) == self@.len(),
                pos <= self@.len(),
                n == count_where(self@.take(pos as int), p),
            decreases nb - b,
        {
            let bucket = &self.buckets[b];
            let mut i: usize = 0;
            while i < bucket.len()
                invariant
                    self.wf(),
                    T::obeys_eq_spec(),
                    bs == self.pieces(),
                    p == equal_to(*value),
                    nb == bs.len(),
                    b < nb,
                    *bucket == self.buckets@[b as int],
                    i <= bucket@.len(),
                    pos == offset(bs, b as int) + i,
                    offset(bs, nb as int) == self@.len(),
                    pos <= self@.len(),
                    n == count_where(self@.take(pos as int), p),
                decreases bucket@.len() - i,
            {
                proof {
                    lemma_index(bs, b as int, i as int);
                    lemma_count_step(self@, p, pos as int);
                    lemma_count_bound(self@.take(pos as int), p);
                }
                if bucket[i] == *value {
                    n += 1;
                }
                i += 1;
                pos += 1;
            }
            proof {
                lemma_piece_end(bs, b as int);
            }
            b += 1;
        }
        proof {
            lemma_count_empty_prefix(self@, p);
        }
        n
    }

    /// The position of the first item equal to `value`, if any.
    pub fn index(&self, value: &T) -> (r: Option<usize>)
        requires
            self.wf(),
            T::obeys_eq_spec(),
        ensures
            match first_where(self@, equal_to(*value)) {
                Some(k) => r == Some(k as usize),
                None => r is None,
            },
    {
        match self.find(value) {
            Some((_, _, pos)) => Some(pos),
            None => None,
        }
    }

    /// Removes and returns the first item equal to `value`; `None`, and
    /// nothing changes, when there is none.
    pub fn remove(&mut self, value: &T) -> (r: Option<T>)
        requires
            old(self).wf(),
            T::obeys_eq_spec(),
        ensures
            final(self).wf(),
            match first_where(old(self)@, equal_to(*value)) {
                Some(k) => r == Some(old(self)@[k]) && final(self)@ == old(self)@.remove(k),
                None => r is None && final(self)@ == old(self)@,
            },
            match first_where(old(self)@, equal_to(*value)) {
                Some(k) => exists|b: int, i: int|
                    #[trigger] holds(old(self).pieces(), b, i, k) && final(self).pieces() == shrunk(
                        old(self).pieces(),
                        b,
                        i,
                    ),
                None => final(self).pieces() == old(self).pieces(),
            },
    {
        match self.find(value) {
            Some((b, i, _)) => {
                proof {
                    assert(holds(self.pieces(), b as int, i as int, offset(self.pieces(), b as int) + i));
                }
                Some(self.remove_at(b, i))
            },
            None => None,
        }
    }
}

impl<T> Default for BucketList<T> {
    /// An empty list.
    fn default() -> (r: Self)
        ensures
            r.wf(),
            r@ == Seq::<T>::empty(),
            r.pieces() == Seq::<Seq<T>>::empty(),
    {
        Self::new()
    }
}

impl<T: PartialEq> BucketList<T> {
    /// The two lists hold the same number of items and, position by
    /// position, equal items.
    pub closed spec fn same_items(&self, other: &Self) -> bool {
        &&& self.len == other.len
        &&& self@.len() == other@.len()
        &&& forall|k: int| 0 <= k < self@.len() ==> #[trigger] self@[k].eq_spec(&other@[k])
    }

    /// Two lists compare equal exactly when they hold the same number of
    /// items and, position by position, equal items; how the items are
    /// spread over buckets does not matter.
    pub proof fn law_equal_by_items(&self, other: &Self)
        requires
            self.wf(),
            other.wf(),
        ensures
            self.eq_spec(other) <==> (self@.len() == other@.len() && forall|k: int|
                0 <= k < self@.len() ==> #[trigger] self@[k].eq_spec(&other@[k])),
    {
    }
}

impl<T: PartialEq> PartialEq for BucketList<T> {
    /// Compares the items in order, whatever the bucket layouts.
    fn eq(&self, other: &Self) -> (r: bool) {
        if self.len != other.len {
            return false;
        }
        let mine = self.iter();
        let theirs = other.iter();
        if mine.len() != theirs.len() {
            return false;
        }
        let mut k: usize = 0;
        while k < mine.len()
            invariant
                self.len == other.len,
                mine@.len() == self@.len(),
                theirs@.len() == other@.len(),
                mine@.len() == theirs@.len(),
                forall|j: int| 0 <= j < mine@.len() ==> *#[trigger] mine@[j] == self@[j],
                forall|j: int| 0 <= j < theirs@.len() ==> *#[trigger] theirs@[j] == other@[j],
                k <= mine@.len(),
                T::obeys_eq_spec() ==> forall|j: int| 0 <= j < k ==> #[trigger] self@[j].eq_spec(&other@[j]),
            decreases mine@.len() - k,
        {
            let same = *mine[k] == *theirs[k];
            if !same {
                proof {
                    assert(T::obeys_eq_spec() ==> !self@[k as int].eq_spec(&other@[k as int]));
                }
                return false;
            }
            k += 1;
        }
        true
    }
}

impl<T: PartialEq> vstd::std_specs::cmp::PartialEqSpecImpl for BucketList<T> {
    open spec fn obeys_eq_spec() -> bool {
        T::obeys_eq_spec()
    }

    open spec fn eq_spec(&self, other: &Self) -> bool {
        self.same_items(other)
    }
}

impl<T: Eq> Eq for BucketList<T> {
}

impl<T> std::ops::Index<isize> for BucketList<T> {
    type Output = T;

    /// The item `index` points at; negative indices count from the back.
    /// The index must be in range (`get` returns `None` instead).
    fn index(&self, index: isize) -> (r: &T)
        ensures
            *r == self@[resolve_index(index as int, self@.len() as int)->0],
    {
        self.get(index).unwrap()
    }
}

impl<T> vstd::std_specs::core::IndexSpecImpl<isize> for BucketList<T> {
    open spec fn index_req(&self, index: &isize) -> bool {
        self.wf() && resolve_index(*index as int, self@.len() as int) is Some
    }
}

/// `v` with its items in the opposite order.
fn reversed<T>(v: Vec<T>) -> (r: Vec<T>)
    ensures
        r@ == v@.reverse(),
{
    let ghost orig = v@;
    let mut v = v;
    let mut out: Vec<T> = Vec::new();
    while v.len() > 0
        invariant
            v@ == orig.take(v@.len() as int),
            v@.len() <= orig.len(),
            out@.len() == orig.len() - v@.len(),
            forall|k: int| 0 <= k < out@.len() ==> #[trigger] out@[k] == orig[orig.len() - 1 - k],
        decreases v@.len(),
    {
        let ghost before = v@;
        let x = v.pop().unwrap();
        proof {
            assert(v@ =~= orig.take(v@.len() as int));
            assert(x == orig[v@.len() as int]) by {
                assert(before[before.len() - 1] == orig.take(before.len() as int)[before.len() - 1]);
            }
        }
        out.push(x);
    }
    assert(out@ =~= orig.reverse());
    out
}

/// Consecutive slices of `orig` cut at the points `cut(n, j, count)` join
/// back into its prefix.
proof fn lemma_join_cuts<T>(bs: Seq<Seq<T>>, orig: Seq<T>, count: int, j: int)
    requires
        count >= 1,
        orig.len() >= count,
        bs.len() == count,
        0 <= j <= count,
        forall|k: int|
            0 <= k < count ==> #[trigger] bs[k] == orig.subrange(
                cut(orig.len() as int, k, count),
                cut(orig.len() as int, k + 1, count),
            ),
    ensures
        bs.take(j).flatten() == orig.take(cut(orig.len() as int, j, count)),
    decreases j,
{
    let n = orig.len() as int;
    if j == 0 {
        lemma_cut_bounds(n, 0, count);
        assert(bs.take(0) =~= Seq::<Seq<T>>::empty());
        assert(orig.take(0) =~= Seq::<T>::empty());
    } else {
        lemma_join_cuts(bs, orig, count, j - 1);
        lemma_take_step(bs, j - 1);
        lemma_cut_gap(n, j - 1, count);
        lemma_cut_bounds(n, j - 1, count);
        lemma_cut_bounds(n, j, count);
        assert(orig.take(cut(n, j - 1, count)) + orig.subrange(cut(n, j - 1, count), cut(n, j, count))
            =~= orig.take(cut(n, j, count)));
    }
}

} // verus!
