//! The ordering that a heap relies on, stated once over the comparison
//! operators of the element type.

use core::cmp::Ordering;
use vstd::prelude::*;
use vstd::std_specs::cmp::PartialOrdSpec;

verus! {

/// `a` is not above `b`: comparing them yields `Less` or `Equal`.
pub open spec fn le<T: PartialOrd>(a: T, b: T) -> bool {
    a.partial_cmp_spec(&b) == Some(Ordering::Less) || a.partial_cmp_spec(&b) == Some(
        Ordering::Equal,
    )
}

/// `a` and `b` hold the same rank: each is not above the other.
pub open spec fn same_rank<T: PartialOrd>(a: T, b: T) -> bool {
    le(a, b) && le(b, a)
}

/// The comparison operators of `T` behave as the operators of a total order
/// must: every two values compare, the three outcomes mirror each other when
/// the operands are exchanged, and "not above" is transitive.
pub open spec fn total_order<T: PartialOrd>() -> bool {
    &&& T::obeys_partial_cmp_spec()
    &&& forall|a: T, b: T| (#[trigger] a.partial_cmp_spec(&b)) is Some
    &&& forall|a: T, b: T|
        (#[trigger] a.partial_cmp_spec(&b)) == Some(Ordering::Less) <==> b.partial_cmp_spec(&a)
            == Some(Ordering::Greater)
    &&& forall|a: T, b: T|
        (#[trigger] a.partial_cmp_spec(&b)) == Some(Ordering::Equal) <==> b.partial_cmp_spec(&a)
            == Some(Ordering::Equal)
    &&& forall|a: T, b: T, c: T| #[trigger] le(a, b) && #[trigger] le(b, c) ==> le(a, c)
}

/// What a mutator that has turned `before` into `after` may answer: `Greater`
/// if the element did not sink in rank, `Less` if it did not rise, `Equal`
/// if it kept its rank.
pub open spec fn truthful<T: PartialOrd>(before: T, after: T, answer: Ordering) -> bool {
    match answer {
        Ordering::Greater => le(before, after),
        Ordering::Less => le(after, before),
        Ordering::Equal => same_rank(before, after),
    }
}

/// What the three outcomes of a comparison say in terms of [`le`].
pub proof fn lemma_outcomes<T: PartialOrd>(a: T, b: T)
    requires
        total_order::<T>(),
    ensures
        le(a, b) || le(b, a),
        le(a, a),
        a.partial_cmp_spec(&b) == Some(Ordering::Less) <==> !le(b, a),
        a.partial_cmp_spec(&b) == Some(Ordering::Greater) <==> !le(a, b),
        a.partial_cmp_spec(&b) == Some(Ordering::Equal) <==> same_rank(a, b),
        (a.partial_cmp_spec(&b) == Some(Ordering::Greater) || a.partial_cmp_spec(&b) == Some(
            Ordering::Equal,
        )) <==> le(b, a),
{
    let ab = a.partial_cmp_spec(&b);
    let ba = b.partial_cmp_spec(&a);
    let aa = a.partial_cmp_spec(&a);
    assert(ab is Some && ba is Some && aa is Some);
    assert(ab->0 is Less || ab->0 is Equal || ab->0 is Greater);
    assert(ba->0 is Less || ba->0 is Equal || ba->0 is Greater);
    assert(aa->0 is Less || aa->0 is Equal || aa->0 is Greater);
}

/// "Not above" is transitive in a total order.
pub proof fn lemma_le_transitive<T: PartialOrd>(a: T, b: T, c: T)
    requires
        total_order::<T>(),
        le(a, b),
        le(b, c),
    ensures
        le(a, c),
{
}

/// Every value is not above itself, and of two values one is not above the
/// other.
pub proof fn lemma_le_total<T: PartialOrd>(a: T, b: T)
    requires
        total_order::<T>(),
    ensures
        le(a, a),
        le(a, b) || le(b, a),
{
    lemma_outcomes(a, b);
}

/// `a <= b`, with the meaning of the result stated over [`le`].
pub fn not_above<T: Ord>(a: &T, b: &T) -> (r: bool)
    requires
        total_order::<T>(),
    ensures
        r == le(*a, *b),
{
    *a <= *b
}

/// `a >= b`, with the meaning of the result stated over [`le`].
pub fn not_below<T: Ord>(a: &T, b: &T) -> (r: bool)
    requires
        total_order::<T>(),
    ensures
        r == le(*b, *a),
{
    proof {
        lemma_outcomes(*a, *b);
    }
    *a >= *b
}

/// `a < b`, with the meaning of the result stated over [`le`].
pub fn below<T: Ord>(a: &T, b: &T) -> (r: bool)
    requires
        total_order::<T>(),
    ensures
        r == !le(*b, *a),
{
    proof {
        lemma_outcomes(*a, *b);
    }
    *a < *b
}

/// Pairs of totally ordered values are totally ordered, first component
/// first.
pub proof fn lemma_pair_total_order<A: PartialOrd, B: PartialOrd>()
    requires
        total_order::<A>(),
        total_order::<B>(),
    ensures
        total_order::<(A, B)>(),
{
    assert forall|x: (A, B), y: (A, B)| (#[trigger] x.partial_cmp_spec(&y)) is Some by {
        lemma_outcomes(x.0, y.0);
        lemma_outcomes(x.1, y.1);
    }
    assert forall|x: (A, B), y: (A, B)|
        (#[trigger] x.partial_cmp_spec(&y)) == Some(Ordering::Less) <==> y.partial_cmp_spec(&x)
            == Some(Ordering::Greater) by {
        lemma_outcomes(x.0, y.0);
        lemma_outcomes(x.1, y.1);
        lemma_outcomes(y.0, x.0);
        lemma_outcomes(y.1, x.1);
    }
    assert forall|x: (A, B), y: (A, B)|
        (#[trigger] x.partial_cmp_spec(&y)) == Some(Ordering::Equal) <==> y.partial_cmp_spec(&x)
            == Some(Ordering::Equal) by {
        lemma_outcomes(x.0, y.0);
        lemma_outcomes(x.1, y.1);
        lemma_outcomes(y.0, x.0);
        lemma_outcomes(y.1, x.1);
    }
    assert forall|x: (A, B), y: (A, B), z: (A, B)| #[trigger] le(x, y) && #[trigger] le(y, z) implies le(
        x,
        z,
    ) by {
        lemma_outcomes(x.0, y.0);
        lemma_outcomes(y.0, z.0);
        lemma_outcomes(x.0, z.0);
        lemma_outcomes(y.0, x.0);
        lemma_outcomes(z.0, y.0);
        lemma_outcomes(z.0, x.0);
        lemma_outcomes(x.1, y.1);
        lemma_outcomes(y.1, z.1);
        lemma_outcomes(x.1, z.1);
        if le(x.0, y.0) && le(y.0, z.0) {
            lemma_le_transitive(x.0, y.0, z.0);
        }
        if le(z.0, x.0) && le(x.0, y.0) {
            lemma_le_transitive(z.0, x.0, y.0);
        }
        if le(y.0, z.0) && le(z.0, x.0) {
            lemma_le_transitive(y.0, z.0, x.0);
        }
        if le(x.1, y.1) && le(y.1, z.1) {
            lemma_le_transitive(x.1, y.1, z.1);
        }
    }
}

/// The unsigned 64-bit integers are totally ordered by their operators.
pub proof fn lemma_u64_total_order()
    ensures
        total_order::<u64>(),
{
}

/// The pointer-sized unsigned integers are totally ordered by their operators.
pub proof fn lemma_usize_total_order()
    ensures
        total_order::<usize>(),
{
}

/// The signed 32-bit integers are totally ordered by their operators.
pub proof fn lemma_i32_total_order()
    ensures
        total_order::<i32>(),
{
}

/// The signed 64-bit integers are totally ordered by their operators.
pub proof fn lemma_i64_total_order()
    ensures
        total_order::<i64>(),
{
}

} // verus!
