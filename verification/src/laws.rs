//! What holds of every key collection, whatever keys it was built from.

use crate::key_order::{lemma_order_laws, sorts_before, KeyOrder, OrderByInputs, OrderByOutputs};
use crate::key_set::{
    ascending, distinct_shapes, is_best_fit, is_exact_fit, none_dominates, sort_key_of,
};
use crate::sized_key::{dominates, shape_of, SizedKey};
use vstd::prelude::*;

verus! {

/// The key at `at` dominates the request, and every key that dominates the
/// request is at least as large as it in both dimensions.
pub open spec fn is_least_dominating<K: SizedKey>(
    keys: Seq<K>,
    at: int,
    num_inputs: usize,
    num_outputs: usize,
) -> bool {
    &&& 0 <= at < keys.len()
    &&& dominates(shape_of(keys[at]), num_inputs, num_outputs)
    &&& forall|other: int|
        0 <= other < keys.len() && dominates(
            shape_of(#[trigger] keys[other]),
            num_inputs,
            num_outputs,
        ) ==> dominates(
            shape_of(keys[other]),
            keys[at].spec_num_inputs(),
            keys[at].spec_num_outputs(),
        )
}

/// Sequences with the same keys: each key of one stands somewhere in the other.
proof fn lemma_shared_key<K>(x: Seq<K>, y: Seq<K>, a: int) -> (b: int)
    requires
        x.to_multiset() == y.to_multiset(),
        0 <= a < x.len(),
    ensures
        0 <= b < y.len(),
        y[b] == x[a],
{
    vstd::seq_lib::to_multiset_contains(x, x[a]);
    vstd::seq_lib::to_multiset_contains(y, x[a]);
    choose|b: int| 0 <= b < y.len() && y[b] == x[a]
}

/// Keys in ascending order have pairwise distinct shapes.
pub proof fn lemma_ascending_shapes_differ<K: SizedKey, Order: KeyOrder>(keys: Seq<K>)
    requires
        ascending::<K, Order>(keys),
    ensures
        distinct_shapes(keys),
{
    Order::lemma_total_order();
    lemma_order_laws::<Order::SortKey>();
    assert forall|a: int, b: int|
        #![trigger keys[a], keys[b]]
        0 <= a < b < keys.len() implies shape_of(keys[a]) != shape_of(keys[b]) by {
        assert(sorts_before(
            sort_key_of::<K, Order>(keys[a]),
            sort_key_of::<K, Order>(keys[b]),
        ));
    }
}

/// A set of keys has one ascending arrangement only: two ascending
/// sequences of the same keys are the same sequence. So a collection does
/// not depend on the order in which its keys came, and building one again
/// from the keys that another yields gives that collection back.
pub proof fn lemma_ascending_is_unique<K: SizedKey, Order: KeyOrder>(x: Seq<K>, y: Seq<K>)
    requires
        ascending::<K, Order>(x),
        ascending::<K, Order>(y),
        x.to_multiset() == y.to_multiset(),
    ensures
        x == y,
    decreases x.len(),
{
    broadcast use vstd::multiset::group_multiset_axioms;

    Order::lemma_total_order();
    lemma_order_laws::<Order::SortKey>();
    vstd::seq_lib::to_multiset_len(x);
    vstd::seq_lib::to_multiset_len(y);
    if x.len() > 0 {
        let last = x.len() - 1;
        // The last key of each sequence stands somewhere in the other. If
        // both stood before the end, each would sort before the other.
        let in_y = lemma_shared_key(x, y, last);
        let in_x = lemma_shared_key(y, x, last);
        assert(x[last] == y[last]);
        // Without their last key, the two are ascending and still hold the
        // same keys.
        let x_front = x.drop_last();
        let y_front = y.drop_last();
        assert(x =~= x_front.push(x[last]));
        assert(y =~= y_front.push(y[last]));
        vstd::seq_lib::to_multiset_build(x_front, x[last]);
        vstd::seq_lib::to_multiset_build(y_front, y[last]);
        assert(x_front.to_multiset() =~= x.to_multiset().remove(x[last]));
        assert(y_front.to_multiset() =~= y.to_multiset().remove(y[last]));
        lemma_ascending_is_unique::<K, Order>(x_front, y_front);
    }
}

/// A stored key always fits its own shape: asked for the shape of the key
/// at `at`, both the exact search and the best-fit search find that key and
/// no other.
pub proof fn lemma_stored_key_fits_itself<K: SizedKey, Order: KeyOrder>(keys: Seq<K>, at: int)
    requires
        ascending::<K, Order>(keys),
        0 <= at < keys.len(),
    ensures
        is_exact_fit(keys, at, keys[at].spec_num_inputs(), keys[at].spec_num_outputs()),
        is_best_fit(keys, at, keys[at].spec_num_inputs(), keys[at].spec_num_outputs()),
        forall|other: int|
            #[trigger] is_exact_fit(
                keys,
                other,
                keys[at].spec_num_inputs(),
                keys[at].spec_num_outputs(),
            ) ==> other == at,
        forall|other: int|
            #[trigger] is_best_fit(
                keys,
                other,
                keys[at].spec_num_inputs(),
                keys[at].spec_num_outputs(),
            ) ==> other == at,
{
    let num_inputs = keys[at].spec_num_inputs();
    let num_outputs = keys[at].spec_num_outputs();
    lemma_ascending_shapes_differ::<K, Order>(keys);
    assert forall|before: int| 0 <= before < at implies !dominates(
        shape_of(#[trigger] keys[before]),
        num_inputs,
        num_outputs,
    ) by {
        assert(sorts_before(
            sort_key_of::<K, Order>(keys[before]),
            sort_key_of::<K, Order>(keys[at]),
        ));
        if dominates(shape_of(keys[before]), num_inputs, num_outputs) {
            Order::lemma_monotonic(
                num_inputs,
                num_outputs,
                keys[before].spec_num_inputs(),
                keys[before].spec_num_outputs(),
            );
        }
    }
}

/// The best fit is the least key that is large enough: every key that
/// dominates the request is the best fit itself or sorts after it.
pub proof fn lemma_best_fit_is_least<K: SizedKey, Order: KeyOrder>(
    keys: Seq<K>,
    at: int,
    other: int,
    num_inputs: usize,
    num_outputs: usize,
)
    requires
        ascending::<K, Order>(keys),
        is_best_fit(keys, at, num_inputs, num_outputs),
        0 <= other < keys.len(),
        dominates(shape_of(keys[other]), num_inputs, num_outputs),
    ensures
        other == at || sorts_before(
            sort_key_of::<K, Order>(keys[at]),
            sort_key_of::<K, Order>(keys[other]),
        ),
{
    if at < other {
        assert(sorts_before(
            sort_key_of::<K, Order>(keys[at]),
            sort_key_of::<K, Order>(keys[other]),
        ));
    }
}

/// Under every ordering strategy, a key that is the least of those that
/// dominate the request is the best fit.
pub proof fn lemma_least_dominating_is_best_fit<K: SizedKey, Order: KeyOrder>(
    keys: Seq<K>,
    at: int,
    num_inputs: usize,
    num_outputs: usize,
)
    requires
        ascending::<K, Order>(keys),
        is_least_dominating(keys, at, num_inputs, num_outputs),
    ensures
        is_best_fit(keys, at, num_inputs, num_outputs),
{
    assert forall|before: int| 0 <= before < at implies !dominates(
        shape_of(#[trigger] keys[before]),
        num_inputs,
        num_outputs,
    ) by {
        assert(sorts_before(
            sort_key_of::<K, Order>(keys[before]),
            sort_key_of::<K, Order>(keys[at]),
        ));
        if dominates(shape_of(keys[before]), num_inputs, num_outputs) {
            Order::lemma_monotonic(
                keys[at].spec_num_inputs(),
                keys[at].spec_num_outputs(),
                keys[before].spec_num_inputs(),
                keys[before].spec_num_outputs(),
            );
        }
    }
}

/// Two collections of the same keys under two ordering strategies give the
/// same answer to every exact search: where one finds a key the other finds
/// the same key, and where one finds none the other finds none.
pub proof fn lemma_exact_fit_agrees<K: SizedKey, First: KeyOrder, Second: KeyOrder>(
    x: Seq<K>,
    y: Seq<K>,
    num_inputs: usize,
    num_outputs: usize,
)
    requires
        ascending::<K, First>(x),
        ascending::<K, Second>(y),
        x.to_multiset() == y.to_multiset(),
    ensures
        forall|a: int, b: int|
            #[trigger] is_exact_fit(x, a, num_inputs, num_outputs) && #[trigger] is_exact_fit(
                y,
                b,
                num_inputs,
                num_outputs,
            ) ==> x[a] == y[b],
        (exists|a: int| is_exact_fit(x, a, num_inputs, num_outputs)) <==> (exists|b: int|
            is_exact_fit(y, b, num_inputs, num_outputs)),
{
    lemma_ascending_shapes_differ::<K, First>(x);
    lemma_ascending_shapes_differ::<K, Second>(y);
    assert forall|a: int, b: int|
        #[trigger] is_exact_fit(x, a, num_inputs, num_outputs) && #[trigger] is_exact_fit(
            y,
            b,
            num_inputs,
            num_outputs,
        ) implies x[a] == y[b] by {
        // The key found in `x` stands in `y` too, and only one key of
        // `y` has this shape.
        let in_y = lemma_shared_key(x, y, a);
        assert(in_y == b);
    }
    if exists|a: int| is_exact_fit(x, a, num_inputs, num_outputs) {
        let a = choose|a: int| is_exact_fit(x, a, num_inputs, num_outputs);
        let b = lemma_shared_key(x, y, a);
        assert(is_exact_fit(y, b, num_inputs, num_outputs));
    }
    if exists|b: int| is_exact_fit(y, b, num_inputs, num_outputs) {
        let b = choose|b: int| is_exact_fit(y, b, num_inputs, num_outputs);
        let a = lemma_shared_key(y, x, b);
        assert(is_exact_fit(x, a, num_inputs, num_outputs));
    }
}

/// Two collections of the same keys under two ordering strategies agree on
/// whether a best-fit search succeeds: a request that no key of one
/// dominates, no key of the other dominates.
pub proof fn lemma_best_fit_success_agrees<K: SizedKey>(
    x: Seq<K>,
    y: Seq<K>,
    num_inputs: usize,
    num_outputs: usize,
)
    requires
        x.to_multiset() == y.to_multiset(),
    ensures
        none_dominates(x, num_inputs, num_outputs) <==> none_dominates(y, num_inputs, num_outputs),
{
    if none_dominates(x, num_inputs, num_outputs) {
        assert forall|b: int| 0 <= b < y.len() implies !dominates(
            shape_of(#[trigger] y[b]),
            num_inputs,
            num_outputs,
        ) by {
            let in_x = lemma_shared_key(y, x, b);
            assert(!dominates(shape_of(x[in_x]), num_inputs, num_outputs));
        }
    }
    if none_dominates(y, num_inputs, num_outputs) {
        assert forall|a: int| 0 <= a < x.len() implies !dominates(
            shape_of(#[trigger] x[a]),
            num_inputs,
            num_outputs,
        ) by {
            let in_y = lemma_shared_key(x, y, a);
            assert(!dominates(shape_of(y[in_y]), num_inputs, num_outputs));
        }
    }
}

/// Two collections of the same keys under two ordering strategies find the
/// same best fit wherever the keys that dominate the request have a least
/// one among them.
pub proof fn lemma_best_fit_agrees<K: SizedKey, First: KeyOrder, Second: KeyOrder>(
    x: Seq<K>,
    y: Seq<K>,
    a: int,
    b: int,
    num_inputs: usize,
    num_outputs: usize,
)
    requires
        ascending::<K, First>(x),
        ascending::<K, Second>(y),
        x.to_multiset() == y.to_multiset(),
        is_best_fit(x, a, num_inputs, num_outputs),
        is_best_fit(y, b, num_inputs, num_outputs),
        exists|least: int| is_least_dominating(x, least, num_inputs, num_outputs),
    ensures
        x[a] == y[b],
{
    // In `x` the least dominating key is the best fit, so it stands at `a`.
    let least = choose|least: int| is_least_dominating(x, least, num_inputs, num_outputs);
    lemma_least_dominating_is_best_fit::<K, First>(x, least, num_inputs, num_outputs);
    assert(least == a);
    // The same key is the least dominating key of `y`, so it stands at `b`.
    let in_y = lemma_shared_key(x, y, a);
    assert(is_least_dominating(y, in_y, num_inputs, num_outputs)) by {
        assert forall|other: int|
            0 <= other < y.len() && dominates(
                shape_of(#[trigger] y[other]),
                num_inputs,
                num_outputs,
            ) implies dominates(
            shape_of(y[other]),
            y[in_y].spec_num_inputs(),
            y[in_y].spec_num_outputs(),
        ) by {
            let in_x = lemma_shared_key(y, x, other);
            assert(dominates(shape_of(x[in_x]), num_inputs, num_outputs));
        }
    }
    lemma_least_dominating_is_best_fit::<K, Second>(y, in_y, num_inputs, num_outputs);
    assert(in_y == b);
}

/// Inputs first and outputs first find best fits of the same shape only
/// where the keys that dominate the request have a least one among them.
pub proof fn lemma_axes_agree_only_on_least<K: SizedKey>(
    x: Seq<K>,
    y: Seq<K>,
    a: int,
    b: int,
    num_inputs: usize,
    num_outputs: usize,
)
    requires
        ascending::<K, OrderByInputs>(x),
        ascending::<K, OrderByOutputs>(y),
        x.to_multiset() == y.to_multiset(),
        is_best_fit(x, a, num_inputs, num_outputs),
        is_best_fit(y, b, num_inputs, num_outputs),
        shape_of(x[a]) == shape_of(y[b]),
    ensures
        is_least_dominating(x, a, num_inputs, num_outputs),
{
    assert forall|other: int|
        0 <= other < x.len() && dominates(
            shape_of(#[trigger] x[other]),
            num_inputs,
            num_outputs,
        ) implies dominates(
        shape_of(x[other]),
        x[a].spec_num_inputs(),
        x[a].spec_num_outputs(),
    ) by {
        // The other key is no earlier than the best fit by inputs, nor by
        // outputs: it has at least its inputs and at least its outputs.
        lemma_best_fit_is_least::<K, OrderByInputs>(x, a, other, num_inputs, num_outputs);
        OrderByInputs::lemma_sorts_before(
            x[a].spec_num_inputs(),
            x[a].spec_num_outputs(),
            x[other].spec_num_inputs(),
            x[other].spec_num_outputs(),
        );
        let in_y = lemma_shared_key(x, y, other);
        lemma_best_fit_is_least::<K, OrderByOutputs>(y, b, in_y, num_inputs, num_outputs);
        OrderByOutputs::lemma_sorts_before(
            y[b].spec_num_inputs(),
            y[b].spec_num_outputs(),
            y[in_y].spec_num_inputs(),
            y[in_y].spec_num_outputs(),
        );
    }
}

} // verus!
