//! The collection itself: keys of pairwise distinct shapes, kept in the
//! ascending order of their sort keys.

use crate::error::Error;
use crate::key_order::{
    lemma_order_laws, place_of, sorts_before, sorts_equal, totally_ordered, KeyOrder,
    OrderByInputs, Place,
};
use crate::sized_key::{dominates, shape_of, SizedKey};
use vstd::prelude::*;

verus! {

/// The sort key under which `Order` files `key`.
pub open spec fn sort_key_of<K: SizedKey, Order: KeyOrder>(key: K) -> Order::SortKey {
    Order::spec_sort_key(key.spec_num_inputs(), key.spec_num_outputs())
}

/// Each key sorts strictly before every key behind it.
pub open spec fn ascending<K: SizedKey, Order: KeyOrder>(keys: Seq<K>) -> bool {
    forall|a: int, b: int|
        #![trigger keys[a], keys[b]]
        0 <= a < b < keys.len() ==> sorts_before(
            sort_key_of::<K, Order>(keys[a]),
            sort_key_of::<K, Order>(keys[b]),
        )
}

/// No two keys have the same shape.
pub open spec fn distinct_shapes<K: SizedKey>(keys: Seq<K>) -> bool {
    forall|a: int, b: int|
        #![trigger keys[a], keys[b]]
        0 <= a < b < keys.len() ==> shape_of(keys[a]) != shape_of(keys[b])
}

/// The key at `later` has the shape of a key that stands before it.
pub open spec fn repeats_earlier_shape<K: SizedKey>(keys: Seq<K>, later: int) -> bool {
    exists|earlier: int|
        0 <= earlier < later && shape_of(#[trigger] keys[earlier]) == shape_of(keys[later])
}

/// The key at `at` has exactly the shape asked for.
pub open spec fn is_exact_fit<K: SizedKey>(
    keys: Seq<K>,
    at: int,
    num_inputs: usize,
    num_outputs: usize,
) -> bool {
    0 <= at < keys.len() && shape_of(keys[at]) == (num_inputs, num_outputs)
}

/// The key at `at` dominates the request, and no key before it does.
pub open spec fn is_best_fit<K: SizedKey>(
    keys: Seq<K>,
    at: int,
    num_inputs: usize,
    num_outputs: usize,
) -> bool {
    &&& 0 <= at < keys.len()
    &&& dominates(shape_of(keys[at]), num_inputs, num_outputs)
    &&& forall|before: int|
        0 <= before < at ==> !dominates(shape_of(#[trigger] keys[before]), num_inputs, num_outputs)
}

/// No key at all dominates the request.
pub open spec fn none_dominates<K: SizedKey>(
    keys: Seq<K>,
    num_inputs: usize,
    num_outputs: usize,
) -> bool {
    forall|at: int|
        0 <= at < keys.len() ==> !dominates(shape_of(#[trigger] keys[at]), num_inputs, num_outputs)
}

/// A non-empty set of keys, no two of the same shape, held in the ascending
/// order that `Order` gives their shapes. Its view is that sequence of keys.
#[derive(Debug, PartialEq)]
pub struct KeySet<K: SizedKey, Order: KeyOrder = OrderByInputs> {
    entries: Vec<(Order::SortKey, K)>,
}

impl<K: SizedKey, Order: KeyOrder> View for KeySet<K, Order> {
    type V = Seq<K>;

    closed spec fn view(&self) -> Seq<K> {
        Self::keys_of(self.entries@)
    }
}

impl<K: SizedKey, Order: KeyOrder> KeySet<K, Order> {
    spec fn keys_of(entries: Seq<(Order::SortKey, K)>) -> Seq<K> {
        entries.map_values(|entry: (Order::SortKey, K)| entry.1)
    }

    /// Every entry is filed under the sort key of its key, in strictly
    /// ascending order.
    spec fn filed_in_order(entries: Seq<(Order::SortKey, K)>) -> bool {
        &&& forall|j: int|
            0 <= j < entries.len() ==> (#[trigger] entries[j]).0 == sort_key_of::<K, Order>(
                entries[j].1,
            )
        &&& forall|a: int, b: int|
            #![trigger entries[a], entries[b]]
            0 <= a < b < entries.len() ==> sorts_before(entries[a].0, entries[b].0)
    }

    #[verifier::type_invariant]
    spec fn well_formed(&self) -> bool {
        self.entries@.len() > 0 && Self::filed_in_order(self.entries@)
    }

    /// The number of entries that sort strictly before `probe`, which is
    /// also the position of the first entry at or after it.
    fn lower_bound(entries: &Vec<(Order::SortKey, K)>, probe: &Order::SortKey) -> (pos: usize)
        requires
            Self::filed_in_order(entries@),
        ensures
            pos <= entries@.len(),
            forall|j: int| 0 <= j < pos ==> sorts_before((#[trigger] entries@[j]).0, *probe),
            forall|j: int|
                pos <= j < entries@.len() ==> !sorts_before((#[trigger] entries@[j]).0, *probe),
    {
        proof {
            Order::lemma_total_order();
            lemma_order_laws::<Order::SortKey>();
        }
        let mut lo: usize = 0;
        let mut hi: usize = entries.len();
        while lo < hi
            invariant
                lo <= hi <= entries@.len(),
                Self::filed_in_order(entries@),
                totally_ordered::<Order::SortKey>(),
                forall|a: Order::SortKey, b: Order::SortKey, c: Order::SortKey|
                    sorts_before(a, b) && #[trigger] sorts_before(b, c) ==> #[trigger] sorts_before(
                        a,
                        c,
                    ),
                forall|j: int| 0 <= j < lo ==> sorts_before((#[trigger] entries@[j]).0, *probe),
                forall|j: int|
                    hi <= j < entries@.len() ==> !sorts_before((#[trigger] entries@[j]).0, *probe),
            decreases hi - lo,
        {
            let mid: usize = lo + (hi - lo) / 2;
            match place_of(&entries[mid].0, probe) {
                Place::Before => {
                    lo = mid + 1;
                },
                _ => {
                    hi = mid;
                },
            }
        }
        lo
    }

    /// Builds the collection from a batch of keys, in whatever order they come.
    ///
    /// The batch must hold at least one key, and no two keys of the same
    /// shape. The keys are taken one after the other: the first one whose
    /// shape an earlier key already has ends the construction, and the error
    /// names that shape.
    pub fn new(keys: Vec<K>) -> (result: Result<Self, Error>)
        ensures
            result is Ok <==> keys@.len() > 0 && distinct_shapes(keys@),
            result matches Err(Error::NoKeys) <==> keys@.len() == 0,
            match result {
                Ok(set) => {
                    &&& keys@.len() > 0
                    &&& distinct_shapes(keys@)
                    &&& ascending::<K, Order>(set@)
                    &&& set@.to_multiset() == keys@.to_multiset()
                },
                Err(Error::NoKeys) => keys@.len() == 0,
                Err(Error::DuplicateKeys { num_inputs, num_outputs }) => exists|at: int|
                    {
                        &&& 0 <= at < keys@.len()
                        &&& distinct_shapes(keys@.take(at))
                        &&& #[trigger] repeats_earlier_shape(keys@, at)
                        &&& shape_of(keys@[at]) == (num_inputs, num_outputs)
                    },
            },
    {
        let ghost batch = keys@;
        let mut entries: Vec<(Order::SortKey, K)> = Vec::new();
        proof {
            Order::lemma_total_order();
            lemma_order_laws::<Order::SortKey>();
            assert(batch.take(0) =~= Seq::<K>::empty());
            assert(Self::keys_of(entries@) =~= Seq::<K>::empty());
        }
        for key in it: keys
            invariant
                it.seq() == batch,
                totally_ordered::<Order::SortKey>(),
                Self::filed_in_order(entries@),
                Self::keys_of(entries@).to_multiset() == batch.take(it.index()).to_multiset(),
                distinct_shapes(batch.take(it.index())),
        {
            let ghost at = it.index();
            let num_inputs = key.num_inputs();
            let num_outputs = key.num_outputs();
            let sort_key = Order::sort_key(num_inputs, num_outputs);
            let pos = Self::lower_bound(&entries, &sort_key);
            if pos < entries.len() {
                match place_of(&entries[pos].0, &sort_key) {
                    Place::Same => {
                        proof {
                            Self::lemma_repeat(batch, at, entries@, pos as int);
                        }
                        return Err(Error::DuplicateKeys { num_inputs, num_outputs });
                    },
                    _ => {},
                }
            }
            proof {
                Self::lemma_insert(batch, at, entries@, pos as int);
            }
            entries.insert(pos, (sort_key, key));
        }
        if entries.is_empty() {
            proof {
                assert(batch.take(batch.len() as int) =~= batch);
                batch.to_multiset_ensures();
                Self::keys_of(entries@).to_multiset_ensures();
            }
            return Err(Error::NoKeys);
        }
        proof {
            assert(batch.take(batch.len() as int) =~= batch);
            batch.to_multiset_ensures();
            Self::keys_of(entries@).to_multiset_ensures();
            Self::lemma_keys_ascend(entries@);
        }
        Ok(KeySet { entries })
    }

    /// Entries filed in order hold their keys in ascending order.
    proof fn lemma_keys_ascend(entries: Seq<(Order::SortKey, K)>)
        requires
            Self::filed_in_order(entries),
        ensures
            ascending::<K, Order>(Self::keys_of(entries)),
    {
    }

    /// The key at `at` of the batch has the sort key of the entry at `pos`:
    /// it repeats the shape of an earlier key of the batch.
    proof fn lemma_repeat(batch: Seq<K>, at: int, entries: Seq<(Order::SortKey, K)>, pos: int)
        requires
            0 <= at < batch.len(),
            0 <= pos < entries.len(),
            Self::filed_in_order(entries),
            Self::keys_of(entries).to_multiset() == batch.take(at).to_multiset(),
            sorts_equal(entries[pos].0, sort_key_of::<K, Order>(batch[at])),
        ensures
            repeats_earlier_shape(batch, at),
    {
        let stored = entries[pos].1;
        assert(Self::keys_of(entries)[pos] == stored);
        vstd::seq_lib::to_multiset_contains(Self::keys_of(entries), stored);
        vstd::seq_lib::to_multiset_contains(batch.take(at), stored);
        Order::lemma_injective(
            stored.spec_num_inputs(),
            stored.spec_num_outputs(),
            batch[at].spec_num_inputs(),
            batch[at].spec_num_outputs(),
        );
    }

    /// Filing the key at `at` of the batch at `pos`, where it belongs,
    /// keeps the entries in order and accounts for one more key of the batch.
    proof fn lemma_insert(batch: Seq<K>, at: int, entries: Seq<(Order::SortKey, K)>, pos: int)
        requires
            0 <= at < batch.len(),
            0 <= pos <= entries.len(),
            Self::filed_in_order(entries),
            Self::keys_of(entries).to_multiset() == batch.take(at).to_multiset(),
            distinct_shapes(batch.take(at)),
            forall|j: int|
                0 <= j < pos ==> sorts_before(
                    (#[trigger] entries[j]).0,
                    sort_key_of::<K, Order>(batch[at]),
                ),
            forall|j: int|
                pos <= j < entries.len() ==> !sorts_before(
                    (#[trigger] entries[j]).0,
                    sort_key_of::<K, Order>(batch[at]),
                ),
            pos < entries.len() ==> !sorts_equal(
                entries[pos].0,
                sort_key_of::<K, Order>(batch[at]),
            ),
        ensures
            ({
                let filed = entries.insert(pos, (sort_key_of::<K, Order>(batch[at]), batch[at]));
                &&& Self::filed_in_order(filed)
                &&& Self::keys_of(filed).to_multiset() == batch.take(at + 1).to_multiset()
                &&& distinct_shapes(batch.take(at + 1))
            }),
    {
        Order::lemma_total_order();
        lemma_order_laws::<Order::SortKey>();
        let key = batch[at];
        let sort_key = sort_key_of::<K, Order>(key);
        let filed = entries.insert(pos, (sort_key, key));
        assert(Self::keys_of(filed) =~= Self::keys_of(entries).insert(pos, key));
        vstd::seq_lib::to_multiset_insert(Self::keys_of(entries), pos, key);
        assert(batch.take(at + 1) =~= batch.take(at).push(key));
        vstd::seq_lib::to_multiset_build(batch.take(at), key);
        let earlier_keys = batch.take(at);
        assert forall|a: int, b: int|
            #![trigger batch.take(at + 1)[a], batch.take(at + 1)[b]]
            0 <= a < b < at + 1 implies shape_of(batch.take(at + 1)[a]) != shape_of(
            batch.take(at + 1)[b],
        ) by {
            if b == at {
                // An earlier key is filed under its own sort key, which
                // stands strictly before or strictly after the new one.
                let seen = earlier_keys[a];
                vstd::seq_lib::to_multiset_contains(earlier_keys, seen);
                vstd::seq_lib::to_multiset_contains(Self::keys_of(entries), seen);
            }
        }
    }

    /// Builds the collection from a batch that is known to hold at least one
    /// key and no two keys of the same shape.
    pub fn from_iter(keys: Vec<K>) -> (set: Self)
        requires
            keys@.len() > 0,
            distinct_shapes(keys@),
        ensures
            ascending::<K, Order>(set@),
            set@.to_multiset() == keys@.to_multiset(),
    {
        match Self::new(keys) {
            Ok(set) => set,
            Err(Error::NoKeys) => vstd::pervasive::unreached(),
            Err(Error::DuplicateKeys { .. }) => {
                vstd::pervasive::unreached()
            },
        }
    }

    /// The largest shape that the collection supports: that of its last
    /// key, which has the greatest sort key.
    pub fn max_size(&self) -> (max: (usize, usize))
        ensures
            self@.len() > 0,
            ascending::<K, Order>(self@),
            max == shape_of(self@.last()),
    {
        proof {
            use_type_invariant(self);
            Self::lemma_keys_ascend(self.entries@);
        }
        let last = &self.entries[self.entries.len() - 1].1;
        (last.num_inputs(), last.num_outputs())
    }

    /// The key of exactly this shape, if the collection holds one.
    pub fn key_for_size(&self, num_inputs: usize, num_outputs: usize) -> (found: Option<&K>)
        ensures
            self@.len() > 0,
            ascending::<K, Order>(self@),
            match found {
                Some(key) => exists|at: int|
                    #[trigger] is_exact_fit(self@, at, num_inputs, num_outputs) && self@[at]
                        == *key,
                None => forall|at: int| !is_exact_fit(self@, at, num_inputs, num_outputs),
            },
    {
        proof {
            use_type_invariant(self);
            Self::lemma_keys_ascend(self.entries@);
            Order::lemma_total_order();
            lemma_order_laws::<Order::SortKey>();
        }
        let probe = Order::sort_key(num_inputs, num_outputs);
        let pos = Self::lower_bound(&self.entries, &probe);
        if pos < self.entries.len() {
            match place_of(&self.entries[pos].0, &probe) {
                Place::Same => {
                    let key = &self.entries[pos].1;
                    proof {
                        Order::lemma_injective(
                            key.spec_num_inputs(),
                            key.spec_num_outputs(),
                            num_inputs,
                            num_outputs,
                        );
                        assert(is_exact_fit(self@, pos as int, num_inputs, num_outputs));
                    }
                    return Some(key);
                },
                _ => {},
            }
        }
        None
    }

    /// The key of exactly this shape, if the collection holds one.
    pub fn exact_fit_key(&self, num_inputs: usize, num_outputs: usize) -> (found: Option<&K>)
        ensures
            self@.len() > 0,
            ascending::<K, Order>(self@),
            match found {
                Some(key) => exists|at: int|
                    #[trigger] is_exact_fit(self@, at, num_inputs, num_outputs) && self@[at]
                        == *key,
                None => forall|at: int| !is_exact_fit(self@, at, num_inputs, num_outputs),
            },
    {
        self.key_for_size(num_inputs, num_outputs)
    }

    /// The smallest key that can serve a request of this shape: the first
    /// key, in ascending order, that has at least as many inputs and at least
    /// as many outputs, together with its shape. Where no key is large enough,
    /// the error is the largest shape that the collection supports.
    pub fn best_fit_key(&self, num_inputs: usize, num_outputs: usize) -> (fit: Result<
        (usize, usize, &K),
        (usize, usize),
    >)
        ensures
            self@.len() > 0,
            ascending::<K, Order>(self@),
            match fit {
                Ok((matched_inputs, matched_outputs, key)) => {
                    &&& (matched_inputs, matched_outputs) == shape_of(*key)
                    &&& exists|at: int|
                        #[trigger] is_best_fit(self@, at, num_inputs, num_outputs) && self@[at]
                            == *key
                },
                Err(max) => {
                    &&& none_dominates(self@, num_inputs, num_outputs)
                    &&& max == shape_of(self@.last())
                },
            },
    {
        proof {
            use_type_invariant(self);
            Self::lemma_keys_ascend(self.entries@);
        }
        let probe = Order::sort_key(num_inputs, num_outputs);
        let start = Self::lower_bound(&self.entries, &probe);
        proof {
            assert forall|before: int| 0 <= before < start implies !dominates(
                shape_of(#[trigger] self@[before]),
                num_inputs,
                num_outputs,
            ) by {
                let key = self@[before];
                if dominates(shape_of(key), num_inputs, num_outputs) {
                    Order::lemma_monotonic(
                        num_inputs,
                        num_outputs,
                        key.spec_num_inputs(),
                        key.spec_num_outputs(),
                    );
                }
            }
        }
        let mut at: usize = start;
        while at < self.entries.len()
            invariant
                start <= at <= self.entries@.len(),
                self@.len() == self.entries@.len(),
                self@.len() > 0,
                ascending::<K, Order>(self@),
                forall|j: int| 0 <= j < self@.len() ==> self@[j] == (#[trigger] self.entries@[j]).1,
                forall|before: int|
                    0 <= before < at ==> !dominates(
                        shape_of(#[trigger] self@[before]),
                        num_inputs,
                        num_outputs,
                    ),
            decreases self.entries@.len() - at,
        {
            let key = &self.entries[at].1;
            let key_inputs = key.num_inputs();
            let key_outputs = key.num_outputs();
            if key_inputs >= num_inputs && key_outputs >= num_outputs {
                proof {
                    assert(is_best_fit(self@, at as int, num_inputs, num_outputs));
                }
                return Ok((key_inputs, key_outputs, key));
            }
            at = at + 1;
        }
        Err(self.max_size())
    }

    /// The keys, in ascending order of their sort keys.
    pub fn iter(&self) -> (keys: Vec<&K>)
        ensures
            self@.len() > 0,
            ascending::<K, Order>(self@),
            keys@.len() == self@.len(),
            forall|at: int| 0 <= at < keys@.len() ==> *(#[trigger] keys@[at]) == self@[at],
    {
        proof {
            use_type_invariant(self);
            Self::lemma_keys_ascend(self.entries@);
        }
        let mut keys: Vec<&K> = Vec::new();
        let mut at: usize = 0;
        while at < self.entries.len()
            invariant
                at <= self.entries@.len(),
                keys@.len() == at,
                self@.len() == self.entries@.len(),
                forall|j: int| 0 <= j < at ==> *(#[trigger] keys@[j]) == self.entries@[j].1,
            decreases self.entries@.len() - at,
        {
            keys.push(&self.entries[at].1);
            at = at + 1;
        }
        keys
    }
}

} // verus!
