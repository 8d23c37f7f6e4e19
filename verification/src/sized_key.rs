//! Keys that know the transaction shape they were generated for.

use vstd::prelude::*;

verus! {

/// A key that supports transactions of one fixed shape.
pub trait SizedKey {
    /// The number of transaction inputs this key supports.
    spec fn spec_num_inputs(&self) -> usize;

    /// The number of transaction outputs this key supports.
    spec fn spec_num_outputs(&self) -> usize;

    /// Reports the number of inputs. The answer never changes.
    fn num_inputs(&self) -> (n: usize)
        ensures
            n == self.spec_num_inputs(),
    ;

    /// Reports the number of outputs. The answer never changes.
    fn num_outputs(&self) -> (n: usize)
        ensures
            n == self.spec_num_outputs(),
    ;
}

/// The shape of a key: its number of inputs, then its number of outputs.
pub open spec fn shape_of<K: SizedKey>(key: K) -> (usize, usize) {
    (key.spec_num_inputs(), key.spec_num_outputs())
}

/// A shape dominates a request when it is at least as large in both dimensions.
pub open spec fn dominates(shape: (usize, usize), num_inputs: usize, num_outputs: usize) -> bool {
    shape.0 >= num_inputs && shape.1 >= num_outputs
}

/// A verifying key for one of the three kinds of transaction.
///
/// A transfer or a freeze key has the shape of the key it wraps. A mint
/// key always has one input and two outputs, whatever it wraps.
#[derive(Debug, PartialEq)]
pub enum TransactionVerifyingKey<X, F, M> {
    Transfer(X),
    Freeze(F),
    Mint(M),
}

impl<X: SizedKey, F: SizedKey, M> SizedKey for TransactionVerifyingKey<X, F, M> {
    open spec fn spec_num_inputs(&self) -> usize {
        match self {
            TransactionVerifyingKey::Transfer(xfr) => xfr.spec_num_inputs(),
            TransactionVerifyingKey::Freeze(freeze) => freeze.spec_num_inputs(),
            TransactionVerifyingKey::Mint(_) => 1,
        }
    }

    open spec fn spec_num_outputs(&self) -> usize {
        match self {
            TransactionVerifyingKey::Transfer(xfr) => xfr.spec_num_outputs(),
            TransactionVerifyingKey::Freeze(freeze) => freeze.spec_num_outputs(),
            TransactionVerifyingKey::Mint(_) => 2,
        }
    }

    fn num_inputs(&self) -> (n: usize) {
        match self {
            TransactionVerifyingKey::Transfer(xfr) => xfr.num_inputs(),
            TransactionVerifyingKey::Freeze(freeze) => freeze.num_inputs(),
            TransactionVerifyingKey::Mint(_) => 1,
        }
    }

    fn num_outputs(&self) -> (n: usize) {
        match self {
            TransactionVerifyingKey::Transfer(xfr) => xfr.num_outputs(),
            TransactionVerifyingKey::Freeze(freeze) => freeze.num_outputs(),
            TransactionVerifyingKey::Mint(_) => 2,
        }
    }
}

} // verus!
