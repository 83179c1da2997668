use core::cmp::Ordering;
use vstd::laws_cmp::{
    obeys_cmp, obeys_cmp_ord, obeys_cmp_partial_ord, obeys_partial_cmp_spec_properties,
};
use vstd::laws_eq::{obeys_concrete_eq, obeys_eq_spec_properties};
use vstd::prelude::*;
use vstd::std_specs::cmp::{OrdSpec, PartialOrdSpec};

verus! {

/// The keys' `Ord` is a total order whose `Equal` is equality of values.
pub open spec fn total_order<K: Ord>() -> bool {
    obeys_cmp::<K>() && obeys_concrete_eq::<K>()
}

/// `a` orders strictly before `b`.
pub open spec fn lt<K: Ord>(a: K, b: K) -> bool {
    a.cmp_spec(&b) == Ordering::Less
}

/// `a` orders before `b` or is `b`.
pub open spec fn le<K: Ord>(a: K, b: K) -> bool {
    lt(a, b) || a == b
}

/// The order facts that the tree's proofs use: `cmp` follows `cmp_spec`, `Equal`
/// is equality, `Greater` is `lt` the other way round, and `lt` is transitive.
pub proof fn lemma_total_order<K: Ord>()
    requires
        total_order::<K>(),
    ensures
        K::obeys_cmp_spec(),
        forall|a: K, b: K| #[trigger] a.cmp_spec(&b) == Ordering::Equal <==> a == b,
        forall|a: K, b: K| #[trigger] a.cmp_spec(&b) == Ordering::Greater <==> lt(b, a),
        forall|a: K, b: K, c: K| #![trigger lt(a, b), lt(b, c)] lt(a, b) && lt(b, c) ==> lt(a, c),
{
    reveal(obeys_cmp_ord);
    reveal(obeys_cmp_partial_ord);
    reveal(obeys_partial_cmp_spec_properties);
    reveal(obeys_eq_spec_properties);
    reveal(obeys_concrete_eq);
    assert forall|a: K, b: K| #[trigger] a.cmp_spec(&b) == Ordering::Greater <==> lt(b, a) by {
        assert(a.partial_cmp_spec(&b) == Some(a.cmp_spec(&b)));
        assert(b.partial_cmp_spec(&a) == Some(b.cmp_spec(&a)));
    }
    assert forall|a: K, b: K, c: K| #![trigger lt(a, b), lt(b, c)] lt(a, b) && lt(b, c) implies lt(a, c) by {
        assert(a.partial_cmp_spec(&b) == Some(a.cmp_spec(&b)));
        assert(b.partial_cmp_spec(&c) == Some(b.cmp_spec(&c)));
        assert(a.partial_cmp_spec(&c) == Some(a.cmp_spec(&c)));
    }
    assert forall|a: K, b: K| #[trigger] a.cmp_spec(&b) == Ordering::Equal <==> a == b by {
        assert(a.partial_cmp_spec(&b) == Some(a.cmp_spec(&b)));
    }
}

/// Three-way comparison of two keys, stated over `lt`.
pub fn compare<K: Ord>(a: &K, b: &K) -> (c: Ordering)
    requires
        total_order::<K>(),
    ensures
        c == Ordering::Less <==> lt(*a, *b),
        c == Ordering::Equal <==> *a == *b,
        c == Ordering::Greater <==> lt(*b, *a),
{
    proof {
        lemma_total_order::<K>();
    }
    a.cmp(b)
}

} // verus!
