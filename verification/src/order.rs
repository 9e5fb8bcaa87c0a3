use core::cmp::Ordering;
use vstd::laws_cmp::obeys_cmp;
use vstd::laws_eq::obeys_concrete_eq;
use vstd::prelude::*;
use vstd::std_specs::cmp::{OrdSpec, PartialEqSpec, PartialOrdSpec};

verus! {

/// The comparison operators of `V` decide a total order, and `==` on `V`
/// decides equality of values.
pub open spec fn lawful_order<V: Ord>() -> bool {
    obeys_cmp::<V>() && obeys_concrete_eq::<V>()
}

/// `==` on `K` decides equality of values.
pub open spec fn lawful_eq<K: PartialEq>() -> bool {
    obeys_concrete_eq::<K>()
}

/// `a` comes strictly before `b` in the order of `V`.
pub open spec fn value_lt<V: Ord>(a: V, b: V) -> bool {
    a.cmp_spec(&b) == Ordering::Less
}

/// Cloning a `V` yields an equal value.
pub open spec fn lawful_clone<V: Clone>() -> bool {
    forall|a: V, b: V| #[trigger] cloned::<V>(a, b) ==> a == b
}

/// No value comes before itself.
pub proof fn lemma_lt_irreflexive<V: Ord>(a: V)
    requires
        lawful_order::<V>(),
    ensures
        !value_lt(a, a),
{
    reveal(vstd::laws_cmp::obeys_cmp_partial_ord);
    reveal(vstd::laws_cmp::obeys_cmp_ord);
    reveal(obeys_concrete_eq);
    assert(a.eq_spec(&a));
    assert(a.partial_cmp_spec(&a) == Some(a.cmp_spec(&a)));
}

/// Of two values that differ, one comes before the other.
pub proof fn lemma_lt_total<V: Ord>(a: V, b: V)
    requires
        lawful_order::<V>(),
    ensures
        value_lt(a, b) || a == b || value_lt(b, a),
{
    reveal(vstd::laws_cmp::obeys_cmp_partial_ord);
    reveal(vstd::laws_cmp::obeys_cmp_ord);
    reveal(vstd::laws_cmp::obeys_partial_cmp_spec_properties);
    reveal(obeys_concrete_eq);
    assert(a.partial_cmp_spec(&b) == Some(a.cmp_spec(&b)));
    assert(b.partial_cmp_spec(&a) == Some(b.cmp_spec(&a)));
}

/// Two values are never each before the other.
pub proof fn lemma_lt_asymmetric<V: Ord>(a: V, b: V)
    requires
        lawful_order::<V>(),
    ensures
        !(value_lt(a, b) && value_lt(b, a)),
{
    reveal(vstd::laws_cmp::obeys_cmp_partial_ord);
    reveal(vstd::laws_cmp::obeys_cmp_ord);
    reveal(vstd::laws_cmp::obeys_partial_cmp_spec_properties);
    assert(a.partial_cmp_spec(&b) == Some(a.cmp_spec(&b)));
    assert(b.partial_cmp_spec(&a) == Some(b.cmp_spec(&a)));
}

/// The order is transitive.
pub proof fn lemma_lt_transitive<V: Ord>(a: V, b: V, c: V)
    requires
        lawful_order::<V>(),
        value_lt(a, b),
        value_lt(b, c),
    ensures
        value_lt(a, c),
{
    reveal(vstd::laws_cmp::obeys_cmp_partial_ord);
    reveal(vstd::laws_cmp::obeys_cmp_ord);
    reveal(vstd::laws_cmp::obeys_partial_cmp_spec_properties);
    assert(a.partial_cmp_spec(&b) == Some(a.cmp_spec(&b)));
    assert(b.partial_cmp_spec(&c) == Some(b.cmp_spec(&c)));
    assert(a.partial_cmp_spec(&c) == Some(a.cmp_spec(&c)));
}

/// Decides whether `a` comes strictly before `b`.
pub fn less<V: Ord>(a: &V, b: &V) -> (r: bool)
    requires
        lawful_order::<V>(),
    ensures
        r == value_lt(*a, *b),
{
    proof {
        reveal(vstd::laws_cmp::obeys_cmp_partial_ord);
        reveal(vstd::laws_cmp::obeys_cmp_ord);
        assert(a.partial_cmp_spec(b) == Some(a.cmp_spec(b)));
    }
    *a < *b
}

/// Decides whether `a` and `b` are the same value.
pub fn same<V: Ord>(a: &V, b: &V) -> (r: bool)
    requires
        lawful_order::<V>(),
    ensures
        r == (*a == *b),
{
    proof {
        reveal(obeys_concrete_eq);
    }
    *a == *b
}

/// Decides whether `a` and `b` are the same key.
pub fn same_key<K: PartialEq>(a: &K, b: &K) -> (r: bool)
    requires
        lawful_eq::<K>(),
    ensures
        r == (*a == *b),
{
    proof {
        reveal(obeys_concrete_eq);
    }
    *a == *b
}

/// A copy of `a`.
pub fn duplicate<V: Clone>(a: &V) -> (r: V)
    requires
        lawful_clone::<V>(),
    ensures
        r == *a,
{
    let r = a.clone();
    assert(cloned::<V>(*a, r));
    r
}

/// The unsigned integers, in their usual order, meet the laws.
pub proof fn lemma_u64_lawful()
    ensures
        lawful_eq::<u64>(),
        lawful_order::<u64>(),
        lawful_clone::<u64>(),
{
    broadcast use vstd::laws_cmp::group_laws_cmp;
    broadcast use vstd::laws_eq::group_laws_eq;
}

} // verus!
