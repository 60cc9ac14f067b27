//! The total order that dictionary values are compared by, stated over
//! `cmp_spec`, and the facts about it that the proofs use.
use core::cmp::Ordering;
use vstd::laws_cmp::obeys_cmp;
use vstd::prelude::*;
use vstd::std_specs::cmp::OrdSpec;

verus! {

/// `a` sorts strictly before `b`.
pub open spec fn lt<T: Ord>(a: T, b: T) -> bool {
    a.cmp_spec(&b) == Ordering::Less
}

/// `a` sorts before `b` or equal to it.
pub open spec fn le<T: Ord>(a: T, b: T) -> bool {
    a.cmp_spec(&b) != Ordering::Greater
}

/// `a` and `b` compare equal.
pub open spec fn equiv<T: Ord>(a: T, b: T) -> bool {
    a.cmp_spec(&b) == Ordering::Equal
}

/// `<=` is transitive.
#[verifier::opaque]
pub open spec fn le_transitive<T: Ord>() -> bool {
    forall|x: T, y: T, z: T| #[trigger] le(x, y) && #[trigger] le(y, z) ==> le(x, z)
}

/// `T`'s comparisons are lawful: `cmp`, `partial_cmp` and `==` agree with their
/// specifications and with each other (`partial_cmp(a, b) == Some(cmp(a, b))`),
/// and the order is total: `Less` one way is `Greater` the other way, and
/// `<=` is transitive.
pub open spec fn lawful_order<T: Ord>() -> bool {
    &&& obeys_cmp::<T>()
    &&& T::obeys_cmp_spec()
    &&& forall|x: T, y: T|
        #[trigger] x.cmp_spec(&y) == Ordering::Less <==> y.cmp_spec(&x) == Ordering::Greater
    &&& le_transitive::<T>()
}

pub proof fn lemma_le_trans<T: Ord>(x: T, y: T, z: T)
    requires
        lawful_order::<T>(),
        le(x, y),
        le(y, z),
    ensures
        le(x, z),
{
    reveal(le_transitive);
}

pub proof fn lemma_lt_le<T: Ord>(x: T, y: T, z: T)
    requires
        lawful_order::<T>(),
    ensures
        lt(x, y) && le(y, z) ==> lt(x, z),
        le(x, y) && lt(y, z) ==> lt(x, z),
{
    reveal(le_transitive);
    assert(y.cmp_spec(&x) == Ordering::Less <==> x.cmp_spec(&y) == Ordering::Greater);
    assert(z.cmp_spec(&y) == Ordering::Less <==> y.cmp_spec(&z) == Ordering::Greater);
    assert(z.cmp_spec(&x) == Ordering::Less <==> x.cmp_spec(&z) == Ordering::Greater);
    assert(x.cmp_spec(&z) == Ordering::Less <==> z.cmp_spec(&x) == Ordering::Greater);
    assert(x.cmp_spec(&y) == Ordering::Less <==> y.cmp_spec(&x) == Ordering::Greater);
    assert(y.cmp_spec(&z) == Ordering::Less <==> z.cmp_spec(&y) == Ordering::Greater);
    if lt(x, y) && le(y, z) {
        if !lt(x, z) {
            // z <= x <= y contradicts x < y
            assert(le(z, x));
            assert(le(z, y));
        }
    }
    if le(x, y) && lt(y, z) {
        if !lt(x, z) {
            assert(le(z, x));
            assert(le(z, y));
        }
    }
}

pub proof fn lemma_lt_trans<T: Ord>(x: T, y: T, z: T)
    requires
        lawful_order::<T>(),
        lt(x, y),
        lt(y, z),
    ensures
        lt(x, z),
{
    lemma_lt_le(x, y, z);
}

pub proof fn lemma_equiv_symmetric<T: Ord>(x: T, y: T)
    requires
        lawful_order::<T>(),
    ensures
        equiv(x, y) <==> equiv(y, x),
        lt(x, y) <==> !le(y, x),
{
    assert(x.cmp_spec(&y) == Ordering::Less <==> y.cmp_spec(&x) == Ordering::Greater);
    assert(y.cmp_spec(&x) == Ordering::Less <==> x.cmp_spec(&y) == Ordering::Greater);
}

} // verus!
