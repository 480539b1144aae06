//! Facts about a sequence cut into consecutive pieces (`Seq<Seq<T>>`) and
//! the sequence obtained by joining the pieces back together.

use vstd::prelude::*;
use vstd::seq_lib::lemma_flatten_concat;

verus! {

/// Number of items held by the first `b` pieces, i.e. the position in the
/// joined sequence at which piece `b` starts.
pub open spec fn offset<T>(bs: Seq<Seq<T>>, b: int) -> int {
    bs.take(b).flatten().len() as int
}

/// The pieces in the opposite order, each of them reversed.
pub open spec fn mirrored<T>(bs: Seq<Seq<T>>) -> Seq<Seq<T>> {
    Seq::new(bs.len(), |k: int| bs[bs.len() - 1 - k].reverse())
}

pub proof fn lemma_flatten_one<T>(s: Seq<T>)
    ensures
        seq![s].flatten() == s,
{
    let one = seq![s];
    assert(one.drop_first() =~= Seq::<Seq<T>>::empty());
    assert(one.flatten() =~= s + Seq::<Seq<T>>::empty().flatten());
    assert(s + Seq::<T>::empty() =~= s);
}

/// Joining the first `b + 1` pieces adds piece `b` to the join of the first `b`.
pub proof fn lemma_take_step<T>(bs: Seq<Seq<T>>, b: int)
    requires
        0 <= b < bs.len(),
    ensures
        bs.take(b + 1).flatten() == bs.take(b).flatten() + bs[b],
        offset(bs, b + 1) == offset(bs, b) + bs[b].len(),
{
    broadcast use Seq::lemma_flatten_push;

    assert(bs.take(b + 1) =~= bs.take(b).push(bs[b]));
}

pub proof fn lemma_take_all<T>(bs: Seq<Seq<T>>)
    ensures
        bs.take(bs.len() as int) == bs,
        offset(bs, bs.len() as int) == bs.flatten().len(),
{
    assert(bs.take(bs.len() as int) =~= bs);
}

pub proof fn lemma_offset_zero<T>(bs: Seq<Seq<T>>)
    ensures
        offset(bs, 0) == 0,
{
    assert(bs.take(0) =~= Seq::<Seq<T>>::empty());
}

/// Offsets never decrease.
pub proof fn lemma_offset_monotone<T>(bs: Seq<Seq<T>>, a: int, b: int)
    requires
        0 <= a <= b <= bs.len(),
    ensures
        offset(bs, a) <= offset(bs, b),
    decreases b - a,
{
    if a < b {
        lemma_take_step(bs, b - 1);
        lemma_offset_monotone(bs, a, b - 1);
    }
}

/// The join is the join of the pieces before `b`, piece `b`, then the join of
/// the pieces after `b`.
pub proof fn lemma_split_at<T>(bs: Seq<Seq<T>>, b: int)
    requires
        0 <= b < bs.len(),
    ensures
        bs.flatten() == bs.take(b).flatten() + bs[b] + bs.skip(b + 1).flatten(),
{
    let rest = seq![bs[b]] + bs.skip(b + 1);
    assert(bs =~= bs.take(b) + rest);
    lemma_flatten_concat(bs.take(b), rest);
    lemma_flatten_concat(seq![bs[b]], bs.skip(b + 1));
    lemma_flatten_one(bs[b]);
    assert(bs.take(b).flatten() + (bs[b] + bs.skip(b + 1).flatten()) =~= bs.take(b).flatten()
        + bs[b] + bs.skip(b + 1).flatten());
}

/// Item `i` of piece `b` sits at position `offset(b) + i` of the join.
pub proof fn lemma_index<T>(bs: Seq<Seq<T>>, b: int, i: int)
    requires
        0 <= b < bs.len(),
        0 <= i < bs[b].len(),
    ensures
        0 <= offset(bs, b),
        offset(bs, b) + i < bs.flatten().len(),
        bs.flatten()[offset(bs, b) + i] == bs[b][i],
{
    lemma_split_at(bs, b);
}

/// Where piece `b` ends, relative to the whole join.
pub proof fn lemma_piece_end<T>(bs: Seq<Seq<T>>, b: int)
    requires
        0 <= b < bs.len(),
    ensures
        offset(bs, b) + bs[b].len() <= bs.flatten().len(),
        offset(bs, b + 1) == offset(bs, b) + bs[b].len(),
{
    lemma_split_at(bs, b);
    lemma_take_step(bs, b);
}

/// Replacing piece `b` by `s` replaces its items in the join.
pub proof fn lemma_update<T>(bs: Seq<Seq<T>>, b: int, s: Seq<T>)
    requires
        0 <= b < bs.len(),
    ensures
        bs.update(b, s).flatten() == bs.take(b).flatten() + s + bs.skip(b + 1).flatten(),
        offset(bs.update(b, s), b) == offset(bs, b),
{
    let nb = bs.update(b, s);
    lemma_split_at(nb, b);
    assert(nb.take(b) =~= bs.take(b));
    assert(nb.skip(b + 1) =~= bs.skip(b + 1));
}

/// Inserting an item into piece `b` inserts it into the join.
pub proof fn lemma_insert_into_piece<T>(bs: Seq<Seq<T>>, b: int, i: int, v: T)
    requires
        0 <= b < bs.len(),
        0 <= i <= bs[b].len(),
    ensures
        bs.update(b, bs[b].insert(i, v)).flatten() == bs.flatten().insert(offset(bs, b) + i, v),
{
    lemma_update(bs, b, bs[b].insert(i, v));
    lemma_split_at(bs, b);
    let pre = bs.take(b).flatten();
    let post = bs.skip(b + 1).flatten();
    assert(pre + bs[b].insert(i, v) + post =~= (pre + bs[b] + post).insert(pre.len() + i, v));
}

/// Removing an item from piece `b` removes it from the join.
pub proof fn lemma_remove_from_piece<T>(bs: Seq<Seq<T>>, b: int, i: int)
    requires
        0 <= b < bs.len(),
        0 <= i < bs[b].len(),
    ensures
        bs.update(b, bs[b].remove(i)).flatten() == bs.flatten().remove(offset(bs, b) + i),
{
    lemma_update(bs, b, bs[b].remove(i));
    lemma_split_at(bs, b);
    let pre = bs.take(b).flatten();
    let post = bs.skip(b + 1).flatten();
    assert(pre + bs[b].remove(i) + post =~= (pre + bs[b] + post).remove(pre.len() + i));
}

/// Overwriting an item of piece `b` overwrites it in the join.
pub proof fn lemma_set_in_piece<T>(bs: Seq<Seq<T>>, b: int, i: int, v: T)
    requires
        0 <= b < bs.len(),
        0 <= i < bs[b].len(),
    ensures
        bs.update(b, bs[b].update(i, v)).flatten() == bs.flatten().update(offset(bs, b) + i, v),
{
    lemma_update(bs, b, bs[b].update(i, v));
    lemma_split_at(bs, b);
    let pre = bs.take(b).flatten();
    let post = bs.skip(b + 1).flatten();
    assert(pre + bs[b].update(i, v) + post =~= (pre + bs[b] + post).update(pre.len() + i, v));
}

/// Cutting piece `b` in two at `mid` leaves the join unchanged.
pub proof fn lemma_cut_piece<T>(bs: Seq<Seq<T>>, b: int, mid: int)
    requires
        0 <= b < bs.len(),
        0 <= mid <= bs[b].len(),
    ensures
        bs.update(b, bs[b].take(mid)).insert(b + 1, bs[b].skip(mid)).flatten() == bs.flatten(),
{
    let left = bs[b].take(mid);
    let right = bs[b].skip(mid);
    let cut = bs.update(b, left).insert(b + 1, right);
    assert(cut =~= bs.take(b) + (seq![left, right] + bs.skip(b + 1)));
    lemma_flatten_concat(bs.take(b), seq![left, right] + bs.skip(b + 1));
    lemma_flatten_concat(seq![left, right], bs.skip(b + 1));
    assert(seq![left, right] =~= seq![left] + seq![right]);
    lemma_flatten_concat(seq![left], seq![right]);
    lemma_flatten_one(left);
    lemma_flatten_one(right);
    assert(left + right =~= bs[b]);
    lemma_split_at(bs, b);
    assert(bs.take(b).flatten() + (left + right + bs.skip(b + 1).flatten()) =~= bs.take(b).flatten()
        + bs[b] + bs.skip(b + 1).flatten());
}

/// Dropping an empty piece leaves the join unchanged.
pub proof fn lemma_drop_empty_piece<T>(bs: Seq<Seq<T>>, b: int)
    requires
        0 <= b < bs.len(),
        bs[b].len() == 0,
    ensures
        bs.remove(b).flatten() == bs.flatten(),
{
    let rest = bs.remove(b);
    assert(rest =~= bs.take(b) + bs.skip(b + 1));
    lemma_flatten_concat(bs.take(b), bs.skip(b + 1));
    lemma_split_at(bs, b);
    assert(bs.take(b).flatten() + bs[b] =~= bs.take(b).flatten());
}

/// Joining the mirrored pieces gives the reversed join.
pub proof fn lemma_mirrored<T>(bs: Seq<Seq<T>>)
    ensures
        mirrored(bs).flatten() == bs.flatten().reverse(),
    decreases bs.len(),
{
    if bs.len() == 0 {
        assert(mirrored(bs) =~= Seq::<Seq<T>>::empty());
        assert(bs.flatten().reverse() =~= Seq::<T>::empty());
    } else {
        let init = bs.drop_last();
        let last = bs.last();
        lemma_mirrored(init);
        assert(bs =~= init.push(last));
        assert(mirrored(bs) =~= seq![last.reverse()] + mirrored(init));
        lemma_flatten_concat(seq![last.reverse()], mirrored(init));
        lemma_flatten_one(last.reverse());
        assert(bs.flatten() == init.flatten() + last) by {
            broadcast use Seq::lemma_flatten_push;

        }
        let a = init.flatten();
        assert(last.reverse() + a.reverse() =~= (a + last).reverse());
    }
}

} // verus!
