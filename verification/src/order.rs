//! The model of a comparator: a spec function from two items to an
//! `Ordering` that behaves as a total preorder, and the executable closure
//! that agrees with it.
use vstd::prelude::*;
use core::cmp::Ordering;
use vstd::std_specs::cmp::{OrdSpec, PartialOrdSpec};

verus! {

/// `a` is not greater than `b` under `r`.
pub open spec fn le<T>(r: spec_fn(T, T) -> Ordering, a: T, b: T) -> bool {
    r(a, b) != Ordering::Greater
}

/// `a` is strictly less than `b` under `r`.
pub open spec fn lt<T>(r: spec_fn(T, T) -> Ordering, a: T, b: T) -> bool {
    r(a, b) == Ordering::Less
}

/// `r` orders every pair of items consistently: what is less one way is
/// greater the other way, and "not greater" is transitive.
pub open spec fn is_total_preorder<T>(r: spec_fn(T, T) -> Ordering) -> bool {
    &&& forall|a: T, b: T| #[trigger] r(a, b) == Ordering::Less <==> r(b, a) == Ordering::Greater
    &&& forall|a: T, b: T, c: T|
        #[trigger] le(r, a, b) && #[trigger] le(r, b, c) ==> le(r, a, c)
}

/// The closure `f` can be called on any two items and always answers what
/// `r` says.
pub open spec fn agrees<T, F: Fn(&T, &T) -> Ordering>(f: F, r: spec_fn(T, T) -> Ordering) -> bool {
    &&& forall|a: T, b: T| #[trigger] f.requires((&a, &b))
    &&& forall|a: T, b: T, o: Ordering| #[trigger] f.ensures((&a, &b), o) ==> o == r(a, b)
}

/// `f` is a comparator: it agrees with some total preorder.
pub open spec fn is_comparator<T, F: Fn(&T, &T) -> Ordering>(f: F) -> bool {
    exists|r: spec_fn(T, T) -> Ordering| #[trigger] agrees(f, r) && is_total_preorder(r)
}

/// One total preorder that the comparator agrees with, picked by `choose`.
/// Where several agree (they can differ on pairs the comparator is never
/// seen to answer), callers cannot tell which one this is: contracts meant
/// for callers speak of every `r` with `compares_by(f, r)` instead.
pub open spec fn chosen_order<T, F: Fn(&T, &T) -> Ordering>(f: F) -> spec_fn(T, T) -> Ordering {
    choose|r: spec_fn(T, T) -> Ordering| #[trigger] agrees(f, r) && is_total_preorder(r)
}

/// What a verified function needs of a comparator.
pub open spec fn valid_comparator<T, F: Fn(&T, &T) -> Ordering>(f: F) -> bool {
    agrees(f, chosen_order(f)) && is_total_preorder(chosen_order(f))
}

/// `f` computes the total preorder `r`: it can be called on any two items
/// and answers what `r` says.
pub open spec fn compares_by<T, F: Fn(&T, &T) -> Ordering>(f: F, r: spec_fn(T, T) -> Ordering) -> bool {
    agrees(f, r) && is_total_preorder(r)
}

pub proof fn lemma_comparator<T, F: Fn(&T, &T) -> Ordering>(f: F)
    requires
        is_comparator(f),
    ensures
        valid_comparator(f),
        compares_by(f, chosen_order(f)),
{
}

/// Each item is equivalent to itself.
pub proof fn lemma_reflexive<T>(r: spec_fn(T, T) -> Ordering, a: T)
    requires
        is_total_preorder(r),
    ensures
        r(a, a) == Ordering::Equal,
{
    assert(r(a, a) == Ordering::Less <==> r(a, a) == Ordering::Greater);
}

/// Consequences of a total preorder that proofs use.
pub proof fn lemma_order_facts<T>(r: spec_fn(T, T) -> Ordering)
    requires
        is_total_preorder(r),
    ensures
        forall|a: T| #[trigger] r(a, a) == Ordering::Equal,
        forall|a: T, b: T| #[trigger] lt(r, a, b) <==> !le(r, b, a),
        forall|a: T, b: T| #[trigger] le(r, a, b) || le(r, b, a),
        forall|a: T, b: T, c: T| #[trigger] lt(r, a, b) && #[trigger] le(r, b, c) ==> lt(r, a, c),
        forall|a: T, b: T, c: T| #[trigger] le(r, a, b) && #[trigger] lt(r, b, c) ==> lt(r, a, c),
{
    assert forall|a: T| #[trigger] r(a, a) == Ordering::Equal by {
        lemma_reflexive(r, a);
    }
    assert forall|a: T, b: T| #[trigger] lt(r, a, b) <==> !le(r, b, a) by {
        assert(r(a, b) == Ordering::Less <==> r(b, a) == Ordering::Greater);
    }
    assert forall|a: T, b: T| #[trigger] le(r, a, b) || le(r, b, a) by {
        assert(r(a, b) == Ordering::Less <==> r(b, a) == Ordering::Greater);
    }
    assert forall|a: T, b: T, c: T| #[trigger] lt(r, a, b) && #[trigger] le(r, b, c) implies lt(r, a, c) by {
        assert(r(a, b) == Ordering::Less <==> r(b, a) == Ordering::Greater);
        assert(r(a, c) == Ordering::Less <==> r(c, a) == Ordering::Greater);
        if !lt(r, a, c) {
            assert(le(r, c, a));
            assert(le(r, b, a));
        }
    }
    assert forall|a: T, b: T, c: T| #[trigger] le(r, a, b) && #[trigger] lt(r, b, c) implies lt(r, a, c) by {
        assert(r(b, c) == Ordering::Less <==> r(c, b) == Ordering::Greater);
        assert(r(a, c) == Ordering::Less <==> r(c, a) == Ordering::Greater);
        if !lt(r, a, c) {
            assert(le(r, c, a));
            assert(le(r, c, b));
        }
    }
}

/// The order that `Ord::cmp` computes on `T`.
pub open spec fn ord_order<T: Ord>() -> spec_fn(T, T) -> Ordering {
    |a: T, b: T| a.cmp_spec(&b)
}

/// A lawful `Ord` orders its items as a total preorder.
pub proof fn lemma_ord_total_preorder<T: Ord>()
    requires
        vstd::laws_cmp::obeys_cmp::<T>(),
    ensures
        T::obeys_cmp_spec(),
        is_total_preorder(ord_order::<T>()),
{
    reveal(vstd::laws_cmp::obeys_partial_cmp_spec_properties);
    reveal(vstd::laws_cmp::obeys_cmp_partial_ord);
    reveal(vstd::laws_cmp::obeys_cmp_ord);
    reveal(vstd::laws_eq::obeys_eq_spec_properties);
    let r = ord_order::<T>();
    assert forall|a: T, b: T| #[trigger] r(a, b) == Ordering::Less <==> r(b, a) == Ordering::Greater by {
        assert(a.partial_cmp_spec(&b) == Some(a.cmp_spec(&b)));
        assert(b.partial_cmp_spec(&a) == Some(b.cmp_spec(&a)));
    }
    assert forall|a: T, b: T, c: T| #[trigger] le(r, a, b) && #[trigger] le(r, b, c) implies le(r, a, c) by {
        assert(a.partial_cmp_spec(&b) == Some(a.cmp_spec(&b)));
        assert(b.partial_cmp_spec(&a) == Some(b.cmp_spec(&a)));
        assert(b.partial_cmp_spec(&c) == Some(b.cmp_spec(&c)));
        assert(c.partial_cmp_spec(&b) == Some(c.cmp_spec(&b)));
        assert(a.partial_cmp_spec(&c) == Some(a.cmp_spec(&c)));
        assert(c.partial_cmp_spec(&a) == Some(c.cmp_spec(&a)));
    }
}

} // verus!
