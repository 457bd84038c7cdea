//! Ordering relations of items compared with their own `PartialOrd`.
use vstd::prelude::*;
use vstd::std_specs::cmp::{PartialOrdSpec, PartialEqSpec, OrdSpec};
use core::cmp::Ordering;

verus! {

/// `a` and `b` are equal by their own `PartialEq`.
pub open spec fn same<T: PartialEq>(a: T, b: T) -> bool {
    a.eq_spec(&b)
}

/// `a` is ordered before or equal to `b`.
pub open spec fn le<T: PartialOrd>(a: T, b: T) -> bool {
    a.partial_cmp_spec(&b) matches Some(Ordering::Less) || a.partial_cmp_spec(&b) matches Some(
        Ordering::Equal,
    )
}

/// `a` is ordered strictly before `b`.
pub open spec fn lt<T: PartialOrd>(a: T, b: T) -> bool {
    a.partial_cmp_spec(&b) matches Some(Ordering::Less)
}

/// The comparison operators of `T` answer as its specified `partial_cmp` does.
pub open spec fn comparisons_specified<T: PartialOrd>() -> bool {
    T::obeys_partial_cmp_spec()
}

/// The items' comparison is a total preorder that the comparison operators follow.
pub open spec fn total_order<T: PartialOrd>() -> bool {
    &&& T::obeys_partial_cmp_spec()
    &&& forall|a: T, b: T| #[trigger] a.partial_cmp_spec(&b) is Some
    &&& forall|a: T, b: T| #[trigger] lt(a, b) <==> !le(b, a)
    &&& forall|a: T, b: T, c: T| #[trigger] le(a, b) && #[trigger] le(b, c) ==> le(a, c)
}

/// `T`'s `cmp` answers as specified, and its specified `cmp` orders as its
/// specified `partial_cmp` does.
pub open spec fn ord_agrees<T: Ord>() -> bool {
    &&& T::obeys_cmp_spec()
    &&& forall|a: T, b: T| #[trigger] a.partial_cmp_spec(&b) == Some(a.cmp_spec(&b))
}

pub proof fn lemma_le_reflexive<T: PartialOrd>(a: T)
    requires
        total_order::<T>(),
    ensures
        le(a, a),
{
    assert(lt(a, a) <==> !le(a, a));
}

} // verus!
