//! The total order on keys that every other module is stated over.

use std::cmp::Ordering;
use vstd::prelude::*;
use vstd::std_specs::cmp::OrdSpec;

verus! {

/// `a` sorts strictly before `b`.
pub open spec fn lt<T: Ord>(a: T, b: T) -> bool {
    a.cmp_spec(&b) == Ordering::Less
}

/// The key type's comparison is a strict total order whose equality is
/// equality of values, and the executable comparison computes it.
pub open spec fn total_order<T: Ord>() -> bool {
    &&& T::obeys_cmp_spec()
    &&& forall|a: T, b: T| #[trigger] lt(a, b) ==> !lt(b, a)
    &&& forall|a: T, b: T| !#[trigger] lt(a, b) && !lt(b, a) ==> a == b
    &&& forall|a: T, b: T, c: T| #[trigger] lt(a, b) && #[trigger] lt(b, c) ==> lt(a, c)
    &&& forall|a: T, b: T| (#[trigger] a.cmp_spec(&b)) == Ordering::Equal <==> a == b
}

/// `k` is not below the lower bound `lo`; no bound admits every key.
pub open spec fn above<T: Ord>(lo: Option<T>, k: T) -> bool {
    lo matches Some(l) ==> !lt(k, l)
}

/// `k` is below the upper bound `hi`; no bound admits every key.
pub open spec fn below<T: Ord>(k: T, hi: Option<T>) -> bool {
    hi matches Some(h) ==> lt(k, h)
}

/// The lower bound `lo` is below the upper bound `hi`.
pub open spec fn apart<T: Ord>(lo: Option<T>, hi: Option<T>) -> bool {
    lo matches Some(l) ==> below(l, hi)
}

/// Whether `a` sorts strictly before `b`.
pub fn less<T: Ord>(a: &T, b: &T) -> (r: bool)
    requires
        total_order::<T>(),
    ensures
        r == lt(*a, *b),
{
    match a.cmp(b) {
        Ordering::Less => true,
        _ => false,
    }
}

/// Whether `a` and `b` are the same key.
pub fn same<T: Ord>(a: &T, b: &T) -> (r: bool)
    requires
        total_order::<T>(),
    ensures
        r == (*a == *b),
{
    match a.cmp(b) {
        Ordering::Equal => true,
        _ => false,
    }
}

/// The unsigned 64-bit integers are keys: `<` orders them totally.
pub proof fn law_u64_keys()
    ensures
        total_order::<u64>(),
        forall|a: u64, b: u64| lt(a, b) <==> a < b,
{
}

/// The pointer-sized unsigned integers are keys: `<` orders them totally.
pub proof fn law_usize_keys()
    ensures
        total_order::<usize>(),
        forall|a: usize, b: usize| lt(a, b) <==> a < b,
{
}

} // verus!
