//! Ordering strategies: how the shape of a key becomes the sort key under
//! which a collection stores it.

use core::cmp::Ordering;
use core::fmt::Debug;
use vstd::laws_cmp::{
    obeys_cmp, obeys_cmp_ord, obeys_cmp_partial_ord, obeys_partial_cmp_spec_properties,
};
use vstd::laws_eq::obeys_eq_spec_properties;
use vstd::prelude::*;
use vstd::std_specs::cmp::{OrdSpec, PartialOrdSpec};

verus! {

/// `a` sorts strictly before `b`.
pub open spec fn sorts_before<S: Ord>(a: S, b: S) -> bool {
    a.cmp_spec(&b) == Ordering::Less
}

/// `a` and `b` take the same place in the order.
pub open spec fn sorts_equal<S: Ord>(a: S, b: S) -> bool {
    a.cmp_spec(&b) == Ordering::Equal
}

/// The comparison that `S` implements is a total order, and all of
/// its comparison operators agree with it.
pub open spec fn totally_ordered<S: Ord>() -> bool {
    obeys_cmp::<S>()
}

/// What a total order gives: every value equals itself, a value that sorts
/// before another is neither equal to it nor after it, any two values are
/// comparable, and sorting before is transitive.
pub proof fn lemma_order_laws<S: Ord>()
    requires
        totally_ordered::<S>(),
    ensures
        forall|a: S| #[trigger] sorts_equal(a, a),
        forall|a: S, b: S| #[trigger]
            sorts_before(a, b) ==> !sorts_before(b, a) && !sorts_equal(a, b) && !sorts_equal(b, a),
        forall|a: S, b: S| #[trigger] sorts_before(a, b) || sorts_equal(a, b) || sorts_before(b, a),
        forall|a: S, b: S, c: S|
            sorts_before(a, b) && #[trigger] sorts_before(b, c) ==> #[trigger] sorts_before(a, c),
{
    reveal(obeys_cmp_partial_ord);
    reveal(obeys_cmp_ord);
    reveal(obeys_partial_cmp_spec_properties);
    reveal(obeys_eq_spec_properties);
    assert forall|a: S, b: S| #[trigger] sorts_before(a, b) implies !sorts_before(b, a)
        && !sorts_equal(a, b) && !sorts_equal(b, a) by {
    }
    assert forall|a: S, b: S| #[trigger]
        sorts_before(a, b) || sorts_equal(a, b) || sorts_before(b, a) by {
    }
    assert forall|a: S| #[trigger] sorts_equal(a, a) by {
    }
    assert forall|a: S, b: S, c: S|
        sorts_before(a, b) && #[trigger] sorts_before(b, c) implies #[trigger] sorts_before(
        a,
        c,
    ) by {
    }
}

/// Where one sort key stands relative to another.
pub(crate) enum Place {
    Before,
    Same,
    After,
}

/// Compares two sort keys.
pub(crate) fn place_of<S: Ord>(a: &S, b: &S) -> (place: Place)
    requires
        totally_ordered::<S>(),
    ensures
        place is Before <==> sorts_before(*a, *b),
        place is Same <==> sorts_equal(*a, *b),
        place is After <==> sorts_before(*b, *a),
{
    proof {
        lemma_order_laws::<S>();
        reveal(obeys_cmp_ord);
        reveal(obeys_partial_cmp_spec_properties);
    }
    match a.cmp(b) {
        Ordering::Less => Place::Before,
        Ordering::Equal => Place::Same,
        Ordering::Greater => Place::After,
    }
}

/// A stateless policy that turns a shape into a totally ordered sort key.
///
/// An implementation chooses which dimension of the shape is compared first.
/// Whatever it chooses, distinct shapes get distinct sort keys, and a shape
/// never sorts before a shape that it dominates.
pub trait KeyOrder {
    /// What a shape is filed under. Its `Ord` decides the order of a
    /// collection.
    type SortKey: Ord + Debug;

    /// The sort key of a shape.
    spec fn spec_sort_key(num_inputs: usize, num_outputs: usize) -> Self::SortKey;

    fn sort_key(num_inputs: usize, num_outputs: usize) -> (key: Self::SortKey)
        ensures
            key == Self::spec_sort_key(num_inputs, num_outputs),
    ;

    /// The comparison of sort keys is a total order.
    proof fn lemma_total_order()
        ensures
            totally_ordered::<Self::SortKey>(),
    ;

    /// Shapes with equal sort keys are equal.
    proof fn lemma_injective(i1: usize, o1: usize, i2: usize, o2: usize)
        requires
            sorts_equal(Self::spec_sort_key(i1, o1), Self::spec_sort_key(i2, o2)),
        ensures
            i1 == i2,
            o1 == o2,
    ;

    /// A shape that is at least as large in both dimensions does not sort
    /// before the smaller one.
    proof fn lemma_monotonic(i1: usize, o1: usize, i2: usize, o2: usize)
        requires
            i1 <= i2,
            o1 <= o2,
        ensures
            !sorts_before(Self::spec_sort_key(i2, o2), Self::spec_sort_key(i1, o1)),
    ;
}

/// Inputs first: the sort key is (inputs, outputs).
#[derive(Debug, Clone, Copy, PartialEq, Eq)]
pub struct OrderByInputs;

impl KeyOrder for OrderByInputs {
    type SortKey = (usize, usize);

    open spec fn spec_sort_key(num_inputs: usize, num_outputs: usize) -> (usize, usize) {
        (num_inputs, num_outputs)
    }

    fn sort_key(num_inputs: usize, num_outputs: usize) -> (key: (usize, usize)) {
        (num_inputs, num_outputs)
    }

    proof fn lemma_total_order() {
        broadcast use vstd::laws_cmp::group_laws_cmp;
    }

    proof fn lemma_injective(i1: usize, o1: usize, i2: usize, o2: usize) {
    }

    proof fn lemma_monotonic(i1: usize, o1: usize, i2: usize, o2: usize) {
    }
}

impl OrderByInputs {
    /// One shape sorts before another when it has fewer inputs, or as many
    /// inputs and fewer outputs.
    pub proof fn lemma_sorts_before(i1: usize, o1: usize, i2: usize, o2: usize)
        ensures
            sorts_before(Self::spec_sort_key(i1, o1), Self::spec_sort_key(i2, o2)) <==> (i1 < i2
                || (i1 == i2 && o1 < o2)),
    {
    }
}

/// Outputs first: the sort key is (outputs, inputs).
#[derive(Debug, Clone, Copy, PartialEq, Eq)]
pub struct OrderByOutputs;

impl KeyOrder for OrderByOutputs {
    type SortKey = (usize, usize);

    open spec fn spec_sort_key(num_inputs: usize, num_outputs: usize) -> (usize, usize) {
        (num_outputs, num_inputs)
    }

    fn sort_key(num_inputs: usize, num_outputs: usize) -> (key: (usize, usize)) {
        (num_outputs, num_inputs)
    }

    proof fn lemma_total_order() {
        broadcast use vstd::laws_cmp::group_laws_cmp;
    }

    proof fn lemma_injective(i1: usize, o1: usize, i2: usize, o2: usize) {
    }

    proof fn lemma_monotonic(i1: usize, o1: usize, i2: usize, o2: usize) {
    }
}

impl OrderByOutputs {
    /// One shape sorts before another when it has fewer outputs, or as many
    /// outputs and fewer inputs.
    pub proof fn lemma_sorts_before(i1: usize, o1: usize, i2: usize, o2: usize)
        ensures
            sorts_before(Self::spec_sort_key(i1, o1), Self::spec_sort_key(i2, o2)) <==> (o1 < o2
                || (o1 == o2 && i1 < i2)),
    {
    }
}

} // verus!
