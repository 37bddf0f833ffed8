//! The order of keys.
//!
//! Keys are compared with the operators of `Ord`. The contracts speak of
//! one relation, "is before", and hold for every key type whose comparisons
//! form a total order that agrees with equality.

use vstd::prelude::*;
use vstd::laws_cmp::obeys_cmp;
use vstd::laws_eq::obeys_concrete_eq;
use vstd::std_specs::cmp::PartialOrdSpec;
use vstd::std_specs::cmp::PartialEqSpec;
use core::cmp::Ordering;

verus! {

/// The comparisons of `K` form a total order, and two keys compare equal
/// exactly when they are the same key.
pub open spec fn total_order<K: Ord>() -> bool {
    obeys_cmp::<K>() && obeys_concrete_eq::<K>()
}

/// `a` is before `b`.
pub open spec fn lt<K: Ord>(a: K, b: K) -> bool {
    a.partial_cmp_spec(&b) == Some(Ordering::Less)
}

/// Whether `a` is before `b`.
pub fn less<K: Ord>(a: &K, b: &K) -> (r: bool)
    requires
        total_order::<K>(),
    ensures
        r == lt(*a, *b),
{
    proof {
        reveal(vstd::laws_cmp::obeys_cmp_partial_ord);
    }
    *a < *b
}

/// Whether `a` and `b` are the same key.
pub fn same<K: Ord>(a: &K, b: &K) -> (r: bool)
    requires
        total_order::<K>(),
    ensures
        r == (*a == *b),
{
    proof {
        reveal(vstd::laws_cmp::obeys_cmp_partial_ord);
        reveal(vstd::laws_eq::obeys_concrete_eq);
    }
    *a == *b
}

/// What is before a key that is before another is before that other.
pub proof fn lemma_lt_transitive<K: Ord>(a: K, b: K, c: K)
    requires
        total_order::<K>(),
        lt(a, b),
        lt(b, c),
    ensures
        lt(a, c),
{
    reveal(vstd::laws_cmp::obeys_partial_cmp_spec_properties);
}

/// No key is before itself.
pub proof fn lemma_lt_irreflexive<K: Ord>(a: K)
    requires
        total_order::<K>(),
    ensures
        !lt(a, a),
{
    reveal(vstd::laws_cmp::obeys_partial_cmp_spec_properties);
    reveal(vstd::laws_cmp::obeys_cmp_partial_ord);
    reveal(vstd::laws_eq::obeys_concrete_eq);
}

/// Of two keys exactly one holds: the first is before the second, they are
/// the same, or the second is before the first.
pub proof fn lemma_trichotomy<K: Ord>(a: K, b: K)
    requires
        total_order::<K>(),
    ensures
        lt(a, b) || a == b || lt(b, a),
        !(lt(a, b) && lt(b, a)),
        !(lt(a, b) && a == b),
        !(lt(b, a) && a == b),
{
    reveal(vstd::laws_cmp::obeys_partial_cmp_spec_properties);
    reveal(vstd::laws_cmp::obeys_cmp_partial_ord);
    reveal(vstd::laws_cmp::obeys_cmp_ord);
    reveal(vstd::laws_eq::obeys_concrete_eq);
}

/// The built-in integer types are totally ordered.
pub proof fn lemma_integers_total()
    ensures
        total_order::<u8>(),
        total_order::<u16>(),
        total_order::<u32>(),
        total_order::<u64>(),
        total_order::<u128>(),
        total_order::<usize>(),
        total_order::<i8>(),
        total_order::<i16>(),
        total_order::<i32>(),
        total_order::<i64>(),
        total_order::<i128>(),
        total_order::<isize>(),
{
    broadcast use vstd::laws_cmp::group_laws_cmp;
    broadcast use vstd::laws_eq::group_laws_eq;

}

} // verus!
