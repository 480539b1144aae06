//! Arithmetic of the bucket layout a list is built with: how many buckets,
//! and where each one starts.

use vstd::prelude::*;
use vstd::arithmetic::div_mod::{lemma_div_by_multiple, lemma_div_is_ordered, lemma_div_plus_one};
use vstd::arithmetic::mul::{lemma_mul_inequality, lemma_mul_is_distributive_add};

verus! {

/// `c` is the number of buckets `n > 0` items start in: the least `c >= 1`
/// with `16 * c * c >= n`, i.e. `max(1, ceil(sqrt(n / 16)))`.
pub open spec fn is_initial_bucket_count(n: int, c: int) -> bool {
    &&& c >= 1
    &&& 16 * c * c >= n
    &&& (c == 1 || 16 * (c - 1) * (c - 1) < n)
}

/// Where bucket `i` of `c` starts when `n` items are spread over them.
pub open spec fn cut(n: int, i: int, c: int) -> int {
    (n * i) / c
}

pub proof fn lemma_square_step(c: int)
    ensures
        (c + 1) * (c + 1) == c * c + 2 * c + 1,
{
    assert((c + 1) * (c + 1) == c * c + 2 * c + 1) by (nonlinear_arith);
}

pub proof fn lemma_square_at_least(c: int)
    requires
        c >= 1,
    ensures
        c <= c * c,
{
    assert(c <= c * c) by (nonlinear_arith)
        requires
            c >= 1,
    ;
}

/// The starting points run from `0` to `n` without going down.
pub proof fn lemma_cut_bounds(n: int, i: int, c: int)
    requires
        n >= 0,
        c >= 1,
        0 <= i <= c,
    ensures
        0 <= cut(n, i, c) <= n,
        cut(n, 0, c) == 0,
        cut(n, c, c) == n,
        0 <= n * i <= n * c,
{
    assert(0 <= n * i <= n * c) by (nonlinear_arith)
        requires
            n >= 0,
            0 <= i <= c,
    ;
    lemma_div_is_ordered(0, n * i, c);
    lemma_div_is_ordered(n * i, n * c, c);
    lemma_div_by_multiple(n, c);
    assert(n * c == c * n) by (nonlinear_arith);
    assert(n * 0 == 0);
}

/// With at least as many items as buckets, no bucket is empty.
pub proof fn lemma_cut_gap(n: int, i: int, c: int)
    requires
        n >= c,
        c >= 1,
        0 <= i < c,
    ensures
        cut(n, i, c) + 1 <= cut(n, i + 1, c),
{
    lemma_mul_is_distributive_add(n, i, 1);
    assert(n * (i + 1) == n * i + n);
    assert(0 <= n * i) by (nonlinear_arith)
        requires
            n >= 0,
            i >= 0,
    ;
    lemma_div_plus_one(n * i, c);
    lemma_div_is_ordered(c + n * i, n * (i + 1), c);
}

/// Products of two 64-bit-or-smaller values fit in 128 bits.
pub proof fn lemma_product_fits(a: int, b: int)
    requires
        0 <= a <= usize::MAX,
        0 <= b <= usize::MAX,
    ensures
        0 <= a * b <= u128::MAX,
{
    lemma_mul_inequality(a, usize::MAX as int, b);
    assert(usize::MAX as int * b <= usize::MAX as int * usize::MAX as int) by (nonlinear_arith)
        requires
            0 <= b <= usize::MAX,
    ;
    assert(0 <= a * b) by (nonlinear_arith)
        requires
            0 <= a,
            0 <= b,
    ;
    assert(usize::MAX as int * usize::MAX as int <= u128::MAX) by (nonlinear_arith)
        requires
            usize::MAX <= u64::MAX,
    ;
}

/// Where bucket `i` of `c` starts when `n` items are spread over them.
pub fn cut_point(n: usize, i: usize, c: usize) -> (r: usize)
    requires
        c >= 1,
        i <= c,
    ensures
        r == cut(n as int, i as int, c as int),
{
    proof {
        lemma_product_fits(n as int, i as int);
        lemma_cut_bounds(n as int, i as int, c as int);
    }
    let wide = (n as u128) * (i as u128) / (c as u128);
    wide as usize
}

/// The number of buckets `n > 0` items start in.
pub fn initial_bucket_count(n: usize) -> (c: usize)
    requires
        n > 0,
    ensures
        is_initial_bucket_count(n as int, c as int),
        c <= n,
{
    let mut c: usize = 1;
    let mut square: usize = 1;
    // Grow `c` while `16 * c * c < n`, i.e. while `c * c <= (n - 1) / 16`.
    while square <= (n - 1) / 16
        invariant
            n > 0,
            1 <= c <= n,
            square == c * c,
            c == 1 || 16 * (c - 1) * (c - 1) < n,
        decreases n - c,
    {
        proof {
            lemma_square_step(c as int);
            lemma_square_at_least(c as int);
        }
        assert(16 * square < n);
        assert(16 * c * c == 16 * square) by (nonlinear_arith)
            requires
                square == c * c,
        ;
        square = square + 2 * c + 1;
        c = c + 1;
    }
    proof {
        assert(16 * c * c == 16 * square) by (nonlinear_arith)
            requires
                square == c * c,
        ;
    }
    c
}

} // verus!
