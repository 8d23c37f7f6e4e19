//! The keys of a whole system: one mint key, and a collection each of
//! transfer keys and freeze keys, all under one ordering strategy.

use crate::key_order::{KeyOrder, OrderByInputs};
use crate::key_set::KeySet;
use crate::sized_key::SizedKey;
use vstd::prelude::*;

verus! {

/// The proving keys: what a party needs in order to build transactions.
#[derive(Debug, PartialEq)]
pub struct ProverKeySet<M, X: SizedKey, F: SizedKey, Order: KeyOrder = OrderByInputs> {
    pub mint: M,
    pub xfr: KeySet<X, Order>,
    pub freeze: KeySet<F, Order>,
}

/// The verifying keys: what a party needs in order to check transactions.
/// All three members hold verifying keys of the one type `V`, which tells
/// the kinds apart, as `TransactionVerifyingKey` does.
#[derive(Debug)]
pub struct VerifierKeySet<V: SizedKey, Order: KeyOrder = OrderByInputs> {
    pub mint: V,
    pub xfr: KeySet<V, Order>,
    pub freeze: KeySet<V, Order>,
}

} // verus!
