//! The order of the stored values, as the sorted containers see it.
//!
//! The containers are generic over `T: Ord`. Their contracts speak of the
//! spec-level comparison that vstd attaches to `Ord`, and they ask that this
//! comparison behave as a total order (`total_order`), which is what `Ord`
//! documents of every implementation.

use vstd::prelude::*;
use core::cmp::Ordering;
use vstd::std_specs::cmp::{OrdSpec, PartialEqSpec, PartialOrdSpec};

verus! {

/// `<`, `==` and `cmp` on `T` agree with one another and form a total order.
pub open spec fn total_order<T: Ord>() -> bool {
    vstd::laws_cmp::obeys_cmp::<T>()
}

/// `a` sorts strictly before `b`.
pub open spec fn less<T: PartialOrd>(a: T, b: T) -> bool {
    a.partial_cmp_spec(&b) == Some(Ordering::Less)
}

/// Neither of `a` and `b` sorts before the other.
pub open spec fn equiv<T: PartialOrd>(a: T, b: T) -> bool {
    !less(a, b) && !less(b, a)
}

proof fn lemma_traits<T: Ord>()
    requires
        total_order::<T>(),
    ensures
        T::obeys_eq_spec(),
        T::obeys_partial_cmp_spec(),
        T::obeys_cmp_spec(),
        forall|x: T, y: T| #[trigger] x.partial_cmp_spec(&y) == Some(x.cmp_spec(&y)),
        forall|x: T, y: T| x.eq_spec(&y) <==> #[trigger] x.partial_cmp_spec(&y) == Some(Ordering::Equal),
{
    reveal(vstd::laws_cmp::obeys_cmp_partial_ord);
    reveal(vstd::laws_cmp::obeys_cmp_ord);
}

proof fn lemma_properties<T: Ord>()
    requires
        total_order::<T>(),
    ensures
        forall|x: T, y: T| #[trigger]
            x.partial_cmp_spec(&y) == Some(Ordering::Equal) <==> x.eq_spec(&y),
        forall|x: T, y: T| #[trigger]
            x.partial_cmp_spec(&y) == Some(Ordering::Less) <==> y.partial_cmp_spec(&x) == Some(
                Ordering::Greater,
            ),
        forall|x: T, y: T, z: T|
            x.partial_cmp_spec(&y) == Some(Ordering::Less) && #[trigger] y.partial_cmp_spec(&z)
                == Some(Ordering::Less) ==> #[trigger] x.partial_cmp_spec(&z) == Some(
                Ordering::Less,
            ),
        forall|x: T, y: T| #[trigger] x.eq_spec(&y) <==> y.eq_spec(&x),
        forall|x: T, y: T, z: T| x.eq_spec(&y) && #[trigger] y.eq_spec(&z) ==> #[trigger] x.eq_spec(&z),
{
    reveal(vstd::laws_cmp::obeys_partial_cmp_spec_properties);
    reveal(vstd::laws_eq::obeys_eq_spec_properties);
}

/// The comparison of two values is exactly one of: less, equivalent, greater.
pub proof fn lemma_trichotomy<T: Ord>(a: T, b: T)
    requires
        total_order::<T>(),
    ensures
        !less(a, a),
        less(a, b) ==> !less(b, a),
        less(a, b) || less(b, a) || equiv(a, b),
        equiv(a, b) <==> a.eq_spec(&b),
{
    lemma_cases(a, b);
}

/// How `less` and `equiv` read in terms of `partial_cmp_spec`.
proof fn lemma_cases<T: Ord>(a: T, b: T)
    requires
        total_order::<T>(),
    ensures
        !less(a, a),
        less(a, b) ==> !less(b, a),
        less(a, b) || less(b, a) || equiv(a, b),
        equiv(a, b) <==> a.eq_spec(&b),
        equiv(a, b) <==> a.partial_cmp_spec(&b) == Some(Ordering::Equal),
        !less(b, a) <==> (a.partial_cmp_spec(&b) matches Some(Ordering::Less | Ordering::Equal)),
        !less(a, b) <==> (a.partial_cmp_spec(&b) matches Some(Ordering::Greater | Ordering::Equal)),
        less(b, a) <==> a.partial_cmp_spec(&b) == Some(Ordering::Greater),
{
    lemma_traits::<T>();
    lemma_properties::<T>();
    assert(a.partial_cmp_spec(&b) == Some(a.cmp_spec(&b)));
    assert(b.partial_cmp_spec(&a) == Some(b.cmp_spec(&a)));
    assert(a.partial_cmp_spec(&a) == Some(a.cmp_spec(&a)));
    assert(a.eq_spec(&a) <==> a.partial_cmp_spec(&a) == Some(Ordering::Equal));
    if a.partial_cmp_spec(&a) == Some(Ordering::Less) {
        assert(a.partial_cmp_spec(&a) == Some(Ordering::Greater));
    }
    if a.eq_spec(&b) {
        assert(b.eq_spec(&a));
    }
}

/// Chaining `a <= b` and `b <= c` (in either strength) gives the expected result.
pub proof fn lemma_chain<T: Ord>(a: T, b: T, c: T)
    requires
        total_order::<T>(),
    ensures
        less(a, b) && less(b, c) ==> less(a, c),
        less(a, b) && !less(c, b) ==> less(a, c),
        !less(b, a) && less(b, c) ==> less(a, c),
        !less(b, a) && !less(c, b) ==> !less(c, a),
        equiv(a, b) && equiv(b, c) ==> equiv(a, c),
{
    lemma_traits::<T>();
    lemma_properties::<T>();
    lemma_trichotomy(a, b);
    lemma_trichotomy(b, c);
    lemma_trichotomy(a, c);
    if a.eq_spec(&b) && b.eq_spec(&c) {
        assert(a.eq_spec(&c));
    }
    if less(a, b) && !less(c, b) {
        if !less(b, c) {
            assert(b.eq_spec(&c));
            if !less(a, c) {
                if less(c, a) {
                    assert(less(c, b));
                } else {
                    assert(a.eq_spec(&c));
                    assert(c.eq_spec(&b));
                    assert(a.eq_spec(&b));
                }
            }
        }
    }
    if !less(b, a) && less(b, c) {
        if !less(a, b) {
            assert(a.eq_spec(&b));
            if !less(a, c) {
                if less(c, a) {
                    assert(less(b, a));
                } else {
                    assert(a.eq_spec(&c));
                    assert(b.eq_spec(&a));
                    assert(b.eq_spec(&c));
                }
            }
        }
    }
    if !less(b, a) && !less(c, b) && less(c, a) {
        if less(a, b) {
            assert(less(c, b));
        } else {
            assert(a.eq_spec(&b));
            assert(less(c, b) || c.eq_spec(&b));
            if c.eq_spec(&b) {
                assert(b.eq_spec(&a));
                assert(c.eq_spec(&a));
            }
        }
    }
}

/// `*a < *b`, as the containers use it.
pub fn lt<T: Ord>(a: &T, b: &T) -> (r: bool)
    requires
        total_order::<T>(),
    ensures
        r == less(*a, *b),
{
    proof {
        lemma_traits::<T>();
    }
    *a < *b
}

/// `*a <= *b`, as the containers use it.
pub fn le<T: Ord>(a: &T, b: &T) -> (r: bool)
    requires
        total_order::<T>(),
    ensures
        r == !less(*b, *a),
{
    proof {
        lemma_traits::<T>();
        lemma_cases(*a, *b);
    }
    *a <= *b
}

/// `*a == *b`, as the containers use it.
pub fn eq<T: Ord>(a: &T, b: &T) -> (r: bool)
    requires
        total_order::<T>(),
    ensures
        r == equiv(*a, *b),
{
    proof {
        lemma_traits::<T>();
        lemma_cases(*a, *b);
    }
    *a == *b
}

} // verus!
