//! Tries: ordered trees managing a set of keys, where a key is a sequence
//! of labels over a totally ordered alphabet.

use vstd::prelude::*;
use vstd::laws_cmp::obeys_cmp;
use vstd::laws_eq::obeys_concrete_eq;
use vstd::std_specs::cmp::OrdSpec;
use vstd::std_specs::cmp::PartialOrdSpec;
use vstd::std_specs::cmp::PartialEqSpec;
use core::cmp::Ordering;

verus! {

/// The alphabet's `Ord` implementation is a consistent total order whose
/// `Equal` case coincides with logical equality.
pub open spec fn label_order<T: Ord>() -> bool {
    obeys_cmp::<T>() && obeys_concrete_eq::<T>()
}

/// `a` sorts strictly before `b`.
pub open spec fn label_lt<T: Ord>(a: T, b: T) -> bool {
    a.cmp_spec(&b) == Ordering::Less
}

/// The facts about three-way comparison that the trie proofs use.
pub proof fn lemma_label_order<T: Ord>()
    requires
        label_order::<T>(),
    ensures
        T::obeys_cmp_spec(),
        forall|x: T, y: T| (#[trigger] x.cmp_spec(&y) == Ordering::Equal) <==> x == y,
        forall|x: T, y: T| (#[trigger] x.cmp_spec(&y) == Ordering::Less) <==> y.cmp_spec(&x)
            == Ordering::Greater,
        forall|x: T, y: T, z: T|
            #[trigger] label_lt(x, y) && #[trigger] label_lt(y, z) ==> label_lt(x, z),
{
    reveal(vstd::laws_cmp::obeys_cmp_partial_ord);
    reveal(vstd::laws_cmp::obeys_cmp_ord);
    reveal(vstd::laws_cmp::obeys_partial_cmp_spec_properties);
    reveal(vstd::laws_eq::obeys_concrete_eq);
    assert forall|x: T, y: T| (#[trigger] x.cmp_spec(&y) == Ordering::Equal) <==> x == y by {
        assert(x.partial_cmp_spec(&y) == Some(x.cmp_spec(&y)));
        assert(x.partial_cmp_spec(&y) == Some(Ordering::Equal) <==> x.eq_spec(&y));
    }
    assert forall|x: T, y: T|
        (#[trigger] x.cmp_spec(&y) == Ordering::Less) <==> y.cmp_spec(&x)
            == Ordering::Greater by {
        assert(x.partial_cmp_spec(&y) == Some(x.cmp_spec(&y)));
        assert(y.partial_cmp_spec(&x) == Some(y.cmp_spec(&x)));
    }
    assert forall|x: T, y: T, z: T|
        #[trigger] label_lt(x, y) && #[trigger] label_lt(y, z) implies label_lt(x, z) by {
        assert(x.partial_cmp_spec(&y) == Some(x.cmp_spec(&y)));
        assert(y.partial_cmp_spec(&z) == Some(y.cmp_spec(&z)));
        assert(x.partial_cmp_spec(&z) == Some(x.cmp_spec(&z)));
    }
}

/// The order is total: two labels compare, or they are equal.
pub proof fn lemma_label_total<T: Ord>(x: T, y: T)
    requires
        label_order::<T>(),
    ensures
        label_lt(x, y) || label_lt(y, x) || x == y,
{
    lemma_label_order::<T>();
    match x.cmp_spec(&y) {
        Ordering::Less => {
        },
        Ordering::Equal => {
        },
        Ordering::Greater => {
        },
    }
}

/// An ordered tree managing a set of keys: it can answer whether it
/// contains a given key.
pub trait Trie<T: Ord> {
    /// Structural well-formedness.
    spec fn wf(&self) -> bool;

    /// The set of keys held.
    spec fn key_set(&self) -> Set<Seq<T>>;

    /// Returns `true` if the trie contains `key`.
    fn has(&self, key: &[T]) -> (r: bool)
        requires
            label_order::<T>(),
            self.wf(),
        ensures
            r == self.key_set().contains(key@),
    ;
}

} // verus!
