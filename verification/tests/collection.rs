use key_set::{Error, KeyOrder, KeySet, OrderByInputs, OrderByOutputs, SizedKey};

#[derive(Debug, Clone, PartialEq)]
struct TestKey {
    inputs: usize,
    outputs: usize,
    label: u32,
}

// Compiled, the ghost items of a trait are ordinary functions: an
// implementation outside verified code has to give them a body too.
impl SizedKey for TestKey {
    fn spec_num_inputs(&self) -> usize {
        self.inputs
    }

    fn spec_num_outputs(&self) -> usize {
        self.outputs
    }

    fn num_inputs(&self) -> usize {
        self.inputs
    }

    fn num_outputs(&self) -> usize {
        self.outputs
    }
}

/// Orders shapes by their total size, then by their inputs.
#[derive(Debug, PartialEq)]
struct OrderByTotal;

impl KeyOrder for OrderByTotal {
    type SortKey = (usize, usize);

    fn spec_sort_key(num_inputs: usize, num_outputs: usize) -> (usize, usize) {
        (num_inputs + num_outputs, num_inputs)
    }

    fn sort_key(num_inputs: usize, num_outputs: usize) -> (usize, usize) {
        (num_inputs + num_outputs, num_inputs)
    }

    fn lemma_total_order() {}

    fn lemma_injective(_: usize, _: usize, _: usize, _: usize) {}

    fn lemma_monotonic(_: usize, _: usize, _: usize, _: usize) {}
}

fn key(inputs: usize, outputs: usize) -> TestKey {
    TestKey { inputs, outputs, label: 0 }
}

fn labelled(inputs: usize, outputs: usize, label: u32) -> TestKey {
    TestKey { inputs, outputs, label }
}

fn keys_of(shapes: &[(usize, usize)]) -> Vec<TestKey> {
    shapes.iter().map(|&(i, o)| labelled(i, o, (10 * i + o) as u32)).collect()
}

fn shapes<O: KeyOrder>(set: &KeySet<TestKey, O>) -> Vec<(usize, usize)> {
    set.iter().into_iter().map(|k| (k.inputs, k.outputs)).collect()
}

fn dominates(shape: (usize, usize), inputs: usize, outputs: usize) -> bool {
    shape.0 >= inputs && shape.1 >= outputs
}

const SCENARIO: [(usize, usize); 4] = [(3, 1), (2, 2), (1, 2), (2, 3)];

const SPREAD: [(usize, usize); 9] =
    [(4, 4), (1, 7), (7, 1), (2, 5), (5, 2), (3, 3), (1, 1), (6, 6), (2, 2)];

#[test]
fn best_fit_scenario_by_inputs() {
    let set = KeySet::<TestKey, OrderByInputs>::new(keys_of(&SCENARIO)).unwrap();
    assert_eq!(shapes(&set), vec![(1, 2), (2, 2), (2, 3), (3, 1)]);

    let (inputs, outputs, found) = set.best_fit_key(2, 2).unwrap();
    assert_eq!((inputs, outputs), (2, 2));
    assert_eq!(found, &labelled(2, 2, 22));

    let (inputs, outputs, found) = set.best_fit_key(1, 1).unwrap();
    assert_eq!((inputs, outputs), (1, 2));
    assert_eq!(found, &labelled(1, 2, 12));

    assert_eq!(set.best_fit_key(3, 3), Err((3, 1)));
    assert_eq!(set.max_size(), (3, 1));
}

#[test]
fn best_fit_scenario_by_outputs() {
    let set = KeySet::<TestKey, OrderByOutputs>::new(keys_of(&SCENARIO)).unwrap();
    assert_eq!(shapes(&set), vec![(3, 1), (1, 2), (2, 2), (2, 3)]);
    assert_eq!(set.max_size(), (2, 3));

    let (inputs, outputs, _) = set.best_fit_key(2, 2).unwrap();
    assert_eq!((inputs, outputs), (2, 2));
    let (inputs, outputs, _) = set.best_fit_key(1, 1).unwrap();
    assert_eq!((inputs, outputs), (3, 1));
    let (inputs, outputs, _) = set.best_fit_key(1, 3).unwrap();
    assert_eq!((inputs, outputs), (2, 3));
    assert_eq!(set.best_fit_key(3, 3), Err((2, 3)));
}

#[test]
fn best_fit_skips_entries_in_range_that_do_not_dominate() {
    // (3, 1) and (4, 0) sort after (2, 2) by inputs, but have too few outputs.
    let set =
        KeySet::<TestKey, OrderByInputs>::new(keys_of(&[(5, 5), (4, 0), (3, 1), (1, 9)])).unwrap();
    let (inputs, outputs, _) = set.best_fit_key(2, 2).unwrap();
    assert_eq!((inputs, outputs), (5, 5));
    let (inputs, outputs, _) = set.best_fit_key(0, 6).unwrap();
    assert_eq!((inputs, outputs), (1, 9));
    assert_eq!(set.best_fit_key(2, 6), Err((5, 5)));
}

#[test]
fn new_rejects_empty_batch() {
    assert_eq!(KeySet::<TestKey, OrderByInputs>::new(Vec::new()), Err(Error::NoKeys));
    assert_eq!(KeySet::<TestKey, OrderByOutputs>::new(Vec::new()), Err(Error::NoKeys));
}

#[test]
fn new_rejects_duplicates_wherever_they_stand() {
    let batches: [Vec<(usize, usize)>; 4] = [
        vec![(2, 3), (2, 3), (1, 1), (4, 4)],
        vec![(1, 1), (2, 3), (4, 4), (2, 3)],
        vec![(2, 3), (1, 1), (4, 4), (2, 3)],
        vec![(1, 1), (4, 4), (2, 3), (2, 3)],
    ];
    for batch in batches.iter() {
        let expected = Error::DuplicateKeys { num_inputs: 2, num_outputs: 3 };
        assert_eq!(KeySet::<TestKey, OrderByInputs>::new(keys_of(batch)), Err(expected));
        assert_eq!(KeySet::<TestKey, OrderByOutputs>::new(keys_of(batch)), Err(expected));
    }
}

#[test]
fn new_names_the_first_shape_that_repeats() {
    let batch = vec![key(1, 1), key(2, 2), labelled(1, 1, 7), labelled(2, 2, 8)];
    assert_eq!(
        KeySet::<TestKey, OrderByInputs>::new(batch),
        Err(Error::DuplicateKeys { num_inputs: 1, num_outputs: 1 })
    );
    let batch = vec![key(1, 1), key(2, 2), labelled(2, 2, 7), labelled(1, 1, 8)];
    assert_eq!(
        KeySet::<TestKey, OrderByOutputs>::new(batch),
        Err(Error::DuplicateKeys { num_inputs: 2, num_outputs: 2 })
    );
}

#[test]
fn duplicate_shape_is_an_error_even_if_keys_differ() {
    let batch = vec![labelled(3, 3, 1), labelled(3, 3, 2)];
    assert_eq!(
        KeySet::<TestKey, OrderByInputs>::new(batch),
        Err(Error::DuplicateKeys { num_inputs: 3, num_outputs: 3 })
    );
}

#[test]
fn single_key_collection() {
    let set = KeySet::<TestKey, OrderByInputs>::new(vec![labelled(2, 4, 9)]).unwrap();
    assert_eq!(set.max_size(), (2, 4));
    assert_eq!(set.iter(), vec![&labelled(2, 4, 9)]);
    assert_eq!(set.exact_fit_key(2, 4), Some(&labelled(2, 4, 9)));
    assert_eq!(set.exact_fit_key(4, 2), None);
    assert_eq!(set.best_fit_key(0, 0), Ok((2, 4, &labelled(2, 4, 9))));
    assert_eq!(set.best_fit_key(2, 4), Ok((2, 4, &labelled(2, 4, 9))));
    assert_eq!(set.best_fit_key(3, 4), Err((2, 4)));
    assert_eq!(set.best_fit_key(2, 5), Err((2, 4)));
}

#[test]
fn iter_yields_every_key_once_in_ascending_order() {
    let set = KeySet::<TestKey, OrderByInputs>::new(keys_of(&SPREAD)).unwrap();
    assert_eq!(
        shapes(&set),
        vec![(1, 1), (1, 7), (2, 2), (2, 5), (3, 3), (4, 4), (5, 2), (6, 6), (7, 1)]
    );
    let set = KeySet::<TestKey, OrderByOutputs>::new(keys_of(&SPREAD)).unwrap();
    assert_eq!(
        shapes(&set),
        vec![(1, 1), (7, 1), (2, 2), (5, 2), (3, 3), (4, 4), (2, 5), (6, 6), (1, 7)]
    );
    // The keys themselves come out, not only their shapes.
    for found in set.iter() {
        assert_eq!(found.label, (10 * found.inputs + found.outputs) as u32);
    }
}

#[test]
fn iter_starts_afresh_each_time() {
    let set = KeySet::<TestKey, OrderByInputs>::new(keys_of(&SCENARIO)).unwrap();
    assert_eq!(set.iter(), set.iter());
    assert_eq!(set.iter().len(), 4);
}

#[test]
fn batch_order_does_not_matter() {
    let forward = keys_of(&SPREAD);
    let mut backward = keys_of(&SPREAD);
    backward.reverse();
    let mut rotated = keys_of(&SPREAD);
    rotated.rotate_left(4);
    let a = KeySet::<TestKey, OrderByInputs>::new(forward).unwrap();
    let b = KeySet::<TestKey, OrderByInputs>::new(backward).unwrap();
    let c = KeySet::<TestKey, OrderByInputs>::new(rotated).unwrap();
    assert_eq!(a.iter(), b.iter());
    assert_eq!(a.iter(), c.iter());
    assert_eq!(a, b);
    assert_eq!(a, c);
}

#[test]
fn rebuilding_from_the_yielded_keys_gives_the_same_collection() {
    let set = KeySet::<TestKey, OrderByOutputs>::new(keys_of(&SPREAD)).unwrap();
    let yielded: Vec<TestKey> = set.iter().into_iter().cloned().collect();
    let again = KeySet::<TestKey, OrderByOutputs>::new(yielded).unwrap();
    assert_eq!(again.iter(), set.iter());
    assert_eq!(again, set);
}

#[test]
fn every_stored_key_fits_itself() {
    let by_inputs = KeySet::<TestKey, OrderByInputs>::new(keys_of(&SPREAD)).unwrap();
    let by_outputs = KeySet::<TestKey, OrderByOutputs>::new(keys_of(&SPREAD)).unwrap();
    let by_total = KeySet::<TestKey, OrderByTotal>::new(keys_of(&SPREAD)).unwrap();
    for &(i, o) in SPREAD.iter() {
        let stored = labelled(i, o, (10 * i + o) as u32);
        assert_eq!(by_inputs.exact_fit_key(i, o), Some(&stored));
        assert_eq!(by_inputs.key_for_size(i, o), Some(&stored));
        assert_eq!(by_inputs.best_fit_key(i, o), Ok((i, o, &stored)));
        assert_eq!(by_outputs.exact_fit_key(i, o), Some(&stored));
        assert_eq!(by_outputs.key_for_size(i, o), Some(&stored));
        assert_eq!(by_outputs.best_fit_key(i, o), Ok((i, o, &stored)));
        assert_eq!(by_total.exact_fit_key(i, o), Some(&stored));
        assert_eq!(by_total.best_fit_key(i, o), Ok((i, o, &stored)));
    }
}

#[test]
fn exact_fit_finds_nothing_for_absent_shapes() {
    let set = KeySet::<TestKey, OrderByInputs>::new(keys_of(&SPREAD)).unwrap();
    for i in 0..9 {
        for o in 0..9 {
            let expected = SPREAD.contains(&(i, o));
            assert_eq!(set.exact_fit_key(i, o).is_some(), expected);
            assert_eq!(set.key_for_size(i, o), set.exact_fit_key(i, o));
        }
    }
}

fn check_best_fit<O: KeyOrder>(set: &KeySet<TestKey, O>) {
    let ascending = shapes(set);
    for i in 0..9 {
        for o in 0..9 {
            let expected = ascending.iter().copied().find(|&shape| dominates(shape, i, o));
            match (set.best_fit_key(i, o), expected) {
                (Ok((inputs, outputs, found)), Some(shape)) => {
                    assert_eq!((inputs, outputs), shape);
                    assert_eq!((found.inputs, found.outputs), shape);
                    assert!(inputs >= i && outputs >= o);
                }
                (Err(max), None) => {
                    assert_eq!(max, set.max_size());
                    assert_eq!(max, *ascending.last().unwrap());
                }
                (got, want) => {
                    panic!("best fit for ({}, {}): {:?}, expected {:?}", i, o, got, want)
                }
            }
        }
    }
}

#[test]
fn best_fit_is_the_first_dominating_key_or_the_maximum() {
    check_best_fit(&KeySet::<TestKey, OrderByInputs>::new(keys_of(&SPREAD)).unwrap());
    check_best_fit(&KeySet::<TestKey, OrderByOutputs>::new(keys_of(&SPREAD)).unwrap());
    check_best_fit(&KeySet::<TestKey, OrderByTotal>::new(keys_of(&SPREAD)).unwrap());
    check_best_fit(&KeySet::<TestKey, OrderByInputs>::new(keys_of(&SCENARIO)).unwrap());
    check_best_fit(&KeySet::<TestKey, OrderByOutputs>::new(keys_of(&SCENARIO)).unwrap());
}

#[test]
fn both_axes_agree_on_exact_fit_and_on_success() {
    let by_inputs = KeySet::<TestKey, OrderByInputs>::new(keys_of(&SPREAD)).unwrap();
    let by_outputs = KeySet::<TestKey, OrderByOutputs>::new(keys_of(&SPREAD)).unwrap();
    for i in 0..9 {
        for o in 0..9 {
            assert_eq!(by_inputs.exact_fit_key(i, o), by_outputs.exact_fit_key(i, o));
            let first = by_inputs.best_fit_key(i, o);
            let second = by_outputs.best_fit_key(i, o);
            assert_eq!(first.is_ok(), second.is_ok());
            // Where one dominating key is below all the others, both find it.
            let dominating: Vec<(usize, usize)> =
                SPREAD.iter().copied().filter(|&shape| dominates(shape, i, o)).collect();
            let least = dominating
                .iter()
                .copied()
                .find(|&low| dominating.iter().all(|&shape| dominates(shape, low.0, low.1)));
            if let Some(low) = least {
                assert_eq!(first.unwrap().2, second.unwrap().2);
                assert_eq!((first.unwrap().0, first.unwrap().1), low);
            }
        }
    }
}

#[test]
fn axes_may_differ_where_no_dominating_key_is_least() {
    let batch = [(1, 5), (5, 1)];
    let by_inputs = KeySet::<TestKey, OrderByInputs>::new(keys_of(&batch)).unwrap();
    let by_outputs = KeySet::<TestKey, OrderByOutputs>::new(keys_of(&batch)).unwrap();
    assert_eq!(by_inputs.best_fit_key(1, 1).map(|fit| (fit.0, fit.1)), Ok((1, 5)));
    assert_eq!(by_outputs.best_fit_key(1, 1).map(|fit| (fit.0, fit.1)), Ok((5, 1)));
    assert_eq!(by_inputs.max_size(), (5, 1));
    assert_eq!(by_outputs.max_size(), (1, 5));
}

#[test]
fn max_size_is_the_last_shape_in_sort_order() {
    let set = KeySet::<TestKey, OrderByInputs>::new(keys_of(&SPREAD)).unwrap();
    assert_eq!(set.max_size(), (7, 1));
    let set = KeySet::<TestKey, OrderByOutputs>::new(keys_of(&SPREAD)).unwrap();
    assert_eq!(set.max_size(), (1, 7));
    let set = KeySet::<TestKey, OrderByTotal>::new(keys_of(&SPREAD)).unwrap();
    assert_eq!(set.max_size(), (6, 6));
}

#[test]
fn custom_order_sorts_by_its_own_sort_key() {
    let set = KeySet::<TestKey, OrderByTotal>::new(keys_of(&SPREAD)).unwrap();
    assert_eq!(
        shapes(&set),
        vec![(1, 1), (2, 2), (3, 3), (2, 5), (5, 2), (1, 7), (4, 4), (7, 1), (6, 6)]
    );
    assert_eq!(set.best_fit_key(2, 3).map(|fit| (fit.0, fit.1)), Ok((3, 3)));
    assert_eq!(set.best_fit_key(7, 2), Err((6, 6)));
}

#[test]
fn default_order_is_by_inputs() {
    let set: KeySet<TestKey> = KeySet::new(keys_of(&SCENARIO)).unwrap();
    assert_eq!(shapes(&set), vec![(1, 2), (2, 2), (2, 3), (3, 1)]);
}

#[test]
fn from_iter_builds_from_a_valid_batch() {
    let set = KeySet::<TestKey, OrderByInputs>::from_iter(keys_of(&SCENARIO));
    assert_eq!(shapes(&set), vec![(1, 2), (2, 2), (2, 3), (3, 1)]);
    assert_eq!(set, KeySet::new(keys_of(&SCENARIO)).unwrap());
}

#[test]
fn large_shapes_do_not_overflow() {
    let batch = [(usize::MAX, 0), (0, usize::MAX), (usize::MAX, usize::MAX)];
    let set = KeySet::<TestKey, OrderByInputs>::new(keys_of_plain(&batch)).unwrap();
    assert_eq!(set.max_size(), (usize::MAX, usize::MAX));
    assert_eq!(
        set.best_fit_key(1, 1).map(|fit| (fit.0, fit.1)),
        Ok((usize::MAX, usize::MAX))
    );
    assert_eq!(set.best_fit_key(0, 1).map(|fit| (fit.0, fit.1)), Ok((0, usize::MAX)));
}

fn keys_of_plain(shapes: &[(usize, usize)]) -> Vec<TestKey> {
    shapes.iter().map(|&(i, o)| key(i, o)).collect()
}

#[test]
fn errors_compare_and_print() {
    let duplicate = Error::DuplicateKeys { num_inputs: 2, num_outputs: 3 };
    assert_eq!(duplicate, Error::DuplicateKeys { num_inputs: 2, num_outputs: 3 });
    assert_ne!(duplicate, Error::DuplicateKeys { num_inputs: 3, num_outputs: 2 });
    assert_ne!(duplicate, Error::NoKeys);
    assert_eq!(format!("{:?}", Error::NoKeys), "NoKeys");
    assert_eq!(
        format!("{:?}", duplicate),
        "DuplicateKeys { num_inputs: 2, num_outputs: 3 }"
    );
}

#[test]
fn best_fit_scans_past_a_long_run_of_keys_that_are_too_low() {
    // Many keys with enough inputs and no outputs stand between the request
    // and the one key that serves it.
    let mut batch: Vec<(usize, usize)> = (10..200).map(|i| (i, 0)).collect();
    batch.push((200, 50));
    batch.push((3, 0));
    let set = KeySet::<TestKey, OrderByInputs>::new(keys_of_plain(&batch)).unwrap();
    assert_eq!(set.best_fit_key(5, 1).map(|fit| (fit.0, fit.1)), Ok((200, 50)));
    assert_eq!(set.best_fit_key(5, 0).map(|fit| (fit.0, fit.1)), Ok((10, 0)));
    assert_eq!(set.best_fit_key(0, 0).map(|fit| (fit.0, fit.1)), Ok((3, 0)));
    assert_eq!(set.best_fit_key(5, 51), Err((200, 50)));
    assert_eq!(set.best_fit_key(201, 0), Err((200, 50)));
}

#[test]
fn shuffled_batches_come_out_sorted() {
    let mut batch: Vec<(usize, usize)> = Vec::new();
    for i in 0..12 {
        for o in 0..12 {
            batch.push((i, o));
        }
    }
    // A fixed shuffle: swap each place with one that a linear congruence picks.
    let mut state: u64 = 0x2545_F491_4F6C_DD1D;
    for at in (1..batch.len()).rev() {
        state = state.wrapping_mul(6364136223846793005).wrapping_add(1442695040888963407);
        let other = (state >> 33) as usize % (at + 1);
        batch.swap(at, other);
    }
    let mut by_inputs = batch.clone();
    by_inputs.sort();
    let mut by_outputs = batch.clone();
    by_outputs.sort_by_key(|&(i, o)| (o, i));
    assert_ne!(batch, by_inputs);

    let set = KeySet::<TestKey, OrderByInputs>::new(keys_of(&batch)).unwrap();
    assert_eq!(shapes(&set), by_inputs);
    let set = KeySet::<TestKey, OrderByOutputs>::new(keys_of(&batch)).unwrap();
    assert_eq!(shapes(&set), by_outputs);
    for &(i, o) in batch.iter() {
        assert_eq!(set.exact_fit_key(i, o).map(|k| (k.inputs, k.outputs)), Some((i, o)));
    }
    assert_eq!(set.exact_fit_key(12, 0), None);
    assert_eq!(set.max_size(), (11, 11));
}
