//! Total orders as the treap needs them.
//!
//! Keys and priorities are compared through `Ord`. Everything proved about a
//! treap rests on that comparison being a strict total order whose `Equal`
//! coincides with equality of values; `lawful` says so, and the lemmas below
//! draw the usual consequences from it.

use std::cmp::Ordering;
use vstd::prelude::*;
use vstd::std_specs::cmp::OrdSpec;
use vstd::std_specs::cmp::PartialEqSpec;
use vstd::std_specs::cmp::PartialOrdSpec;

verus! {

/// `T`'s comparison is a total order and agrees with equality of values.
pub open spec fn lawful<T: Ord>() -> bool {
    &&& vstd::laws_cmp::obeys_cmp::<T>()
    &&& vstd::laws_eq::obeys_concrete_eq::<T>()
}

/// `a` is ordered strictly before `b`.
pub open spec fn lt<T: Ord>(a: T, b: T) -> bool {
    a.cmp_spec(&b) == Ordering::Less
}

/// `a` is ordered before `b`, or is `b`.
pub open spec fn le<T: Ord>(a: T, b: T) -> bool {
    a.cmp_spec(&b) != Ordering::Greater
}

/// What `Ord::cmp`, `<` and `==` compute on a lawful type.
pub proof fn lemma_comparison<T: Ord>(a: T, b: T)
    requires
        lawful::<T>(),
    ensures
        T::obeys_cmp_spec(),
        T::obeys_partial_cmp_spec(),
        T::obeys_eq_spec(),
        a.partial_cmp_spec(&b) == Some(a.cmp_spec(&b)),
        a.cmp_spec(&b) == Ordering::Equal <==> a == b,
        a.cmp_spec(&b) == Ordering::Greater <==> lt(b, a),
        a.eq_spec(&b) <==> a == b,
{
    reveal(vstd::laws_cmp::obeys_cmp_ord);
    reveal(vstd::laws_cmp::obeys_cmp_partial_ord);
    reveal(vstd::laws_cmp::obeys_partial_cmp_spec_properties);
    reveal(vstd::laws_eq::obeys_concrete_eq);
    assert(a.partial_cmp_spec(&b) == Some(a.cmp_spec(&b)));
    assert(b.partial_cmp_spec(&a) == Some(b.cmp_spec(&a)));
}

/// Exactly one of `a < b`, `a == b`, `b < a` holds.
pub proof fn lemma_trichotomy<T: Ord>(a: T, b: T)
    requires
        lawful::<T>(),
    ensures
        lt(a, b) || a == b || lt(b, a),
        !(lt(a, b) && a == b),
        !(lt(b, a) && a == b),
        !(lt(a, b) && lt(b, a)),
        le(a, b) <==> !lt(b, a),
{
    lemma_comparison(a, b);
    lemma_comparison(b, a);
}

/// `<` is transitive.
pub proof fn lemma_lt_transitive<T: Ord>(a: T, b: T, c: T)
    requires
        lawful::<T>(),
        lt(a, b),
        lt(b, c),
    ensures
        lt(a, c),
{
    reveal(vstd::laws_cmp::obeys_partial_cmp_spec_properties);
    lemma_comparison(a, b);
    lemma_comparison(b, c);
    lemma_comparison(a, c);
}

/// `<=` followed by `<`, and `<` followed by `<=`, give `<`; `<=` is transitive.
pub proof fn lemma_le_chain<T: Ord>(a: T, b: T, c: T)
    requires
        lawful::<T>(),
    ensures
        le(a, b) && lt(b, c) ==> lt(a, c),
        lt(a, b) && le(b, c) ==> lt(a, c),
        le(a, b) && le(b, c) ==> le(a, c),
{
    lemma_trichotomy(a, b);
    lemma_trichotomy(b, c);
    lemma_trichotomy(a, c);
    if lt(a, b) && lt(b, c) {
        lemma_lt_transitive(a, b, c);
    }
    if lt(c, a) && lt(a, b) {
        lemma_lt_transitive(c, a, b);
    }
    if lt(b, c) && lt(c, a) {
        lemma_lt_transitive(b, c, a);
    }
}

/// The integer types are lawfully ordered.
pub proof fn lemma_integers_lawful()
    ensures
        lawful::<u8>(),
        lawful::<u16>(),
        lawful::<u32>(),
        lawful::<u64>(),
        lawful::<u128>(),
        lawful::<usize>(),
        lawful::<i8>(),
        lawful::<i16>(),
        lawful::<i32>(),
        lawful::<i64>(),
        lawful::<i128>(),
        lawful::<isize>(),
{
    broadcast use vstd::laws_cmp::group_laws_cmp;
    broadcast use vstd::laws_eq::group_laws_eq;

}

/// Each element of `s` is ordered strictly before every later one.
pub open spec fn ascending<T: Ord>(s: Seq<T>) -> bool {
    forall|i: int, j: int| 0 <= i < j < s.len() ==> lt(#[trigger] s[i], #[trigger] s[j])
}

} // verus!
