//! The ordering and duplication that the heaps ask of their elements.

use vstd::prelude::*;
use vstd::laws_cmp::obeys_cmp;
use vstd::std_specs::cmp::OrdSpec;
use vstd::std_specs::cmp::PartialOrdSpec;
use vstd::multiset::Multiset;
use core::cmp::Ordering;

verus! {

/// `a` is ordered before `b` or ranks equal to it.
pub open spec fn le<T: Ord>(a: T, b: T) -> bool {
    a.cmp_spec(&b) != Ordering::Greater
}

/// The comparison of `T` is a total order that its operators compute.
pub open spec fn total_order<T: Ord>() -> bool {
    obeys_cmp::<T>()
}

/// Cloning an element gives back the same element.
pub open spec fn faithful_clone<T: Clone>() -> bool {
    forall|a: T, b: T| #[trigger] cloned::<T>(a, b) ==> a == b
}

/// Elements that rank equal in the order are the same element.
pub open spec fn antisymmetric<T: Ord>() -> bool {
    forall|a: T, b: T| #[trigger] le(a, b) && le(b, a) ==> a == b
}

/// What the heaps need of an element type.
pub open spec fn lawful<T: Ord + Clone>() -> bool {
    total_order::<T>() && faithful_clone::<T>()
}

/// No element of `s` is ordered strictly before `m`.
pub open spec fn lower_bound<T: Ord>(m: T, s: Multiset<T>) -> bool {
    forall|x: T| s.contains(x) ==> le(m, x)
}

/// `m` is an element of `s`, and none of `s` is ordered strictly before it.
pub open spec fn is_min<T: Ord>(m: T, s: Multiset<T>) -> bool {
    s.contains(m) && lower_bound(m, s)
}

/// Every element is ordered before or equal to itself.
pub proof fn le_reflexive<T: Ord>(a: T)
    requires
        total_order::<T>(),
    ensures
        le(a, a),
{
    reveal(vstd::laws_cmp::obeys_cmp_partial_ord);
    reveal(vstd::laws_cmp::obeys_cmp_ord);
    reveal(vstd::laws_cmp::obeys_partial_cmp_spec_properties);
    reveal(vstd::laws_eq::obeys_eq_spec_properties);
    assert(a.partial_cmp_spec(&a) == Some(a.cmp_spec(&a)));
}

/// Of two elements one is ordered before or equal to the other.
pub proof fn le_total<T: Ord>(a: T, b: T)
    requires
        total_order::<T>(),
    ensures
        le(a, b) || le(b, a),
{
    reveal(vstd::laws_cmp::obeys_cmp_partial_ord);
    reveal(vstd::laws_cmp::obeys_cmp_ord);
    reveal(vstd::laws_cmp::obeys_partial_cmp_spec_properties);
    assert(a.partial_cmp_spec(&b) == Some(a.cmp_spec(&b)));
    assert(b.partial_cmp_spec(&a) == Some(b.cmp_spec(&a)));
}

/// The order is transitive.
pub proof fn le_transitive<T: Ord>(a: T, b: T, c: T)
    requires
        total_order::<T>(),
        le(a, b),
        le(b, c),
    ensures
        le(a, c),
{
    reveal(vstd::laws_cmp::obeys_cmp_partial_ord);
    reveal(vstd::laws_cmp::obeys_cmp_ord);
    reveal(vstd::laws_cmp::obeys_partial_cmp_spec_properties);
    reveal(vstd::laws_eq::obeys_eq_spec_properties);
    assert(a.partial_cmp_spec(&b) == Some(a.cmp_spec(&b)));
    assert(b.partial_cmp_spec(&c) == Some(b.cmp_spec(&c)));
    assert(a.partial_cmp_spec(&c) == Some(a.cmp_spec(&c)));
    assert(c.partial_cmp_spec(&a) == Some(c.cmp_spec(&a)));
    assert(c.partial_cmp_spec(&b) == Some(c.cmp_spec(&b)));
    assert(b.partial_cmp_spec(&a) == Some(b.cmp_spec(&a)));
}

/// Whether `a` is strictly before `b`.
pub fn less<T: Ord>(a: &T, b: &T) -> (r: bool)
    requires
        total_order::<T>(),
    ensures
        r == !le(*b, *a),
{
    proof {
        reveal(vstd::laws_cmp::obeys_cmp_partial_ord);
        reveal(vstd::laws_cmp::obeys_cmp_ord);
        reveal(vstd::laws_cmp::obeys_partial_cmp_spec_properties);
        assert(a.partial_cmp_spec(b) == Some(a.cmp_spec(b)));
        assert(b.partial_cmp_spec(a) == Some(b.cmp_spec(a)));
    }
    *a < *b
}

/// Whether `a` is before `b` or ranks equal to it.
pub fn at_most<T: Ord>(a: &T, b: &T) -> (r: bool)
    requires
        total_order::<T>(),
    ensures
        r == le(*a, *b),
{
    proof {
        reveal(vstd::laws_cmp::obeys_cmp_partial_ord);
        reveal(vstd::laws_cmp::obeys_cmp_ord);
        reveal(vstd::laws_cmp::obeys_partial_cmp_spec_properties);
        assert(a.partial_cmp_spec(b) == Some(a.cmp_spec(b)));
    }
    *a <= *b
}

/// A copy of `a`.
pub fn duplicate<T: Clone>(a: &T) -> (r: T)
    requires
        faithful_clone::<T>(),
    ensures
        r == *a,
{
    let r = a.clone();
    assert(cloned::<T>(*a, r));
    r
}

} // verus!
