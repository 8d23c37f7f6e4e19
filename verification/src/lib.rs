//! Collections of fixed-shape keys, indexed by the transaction shape
//! (number of inputs, number of outputs) that each key supports.
//!
//! A [`KeySet`] is built once from a batch of keys and read from then on.
//! It answers two questions: which key has exactly this shape, and which is
//! the smallest key that is large enough for this shape. What "smallest"
//! means is the choice of a [`KeyOrder`].

pub mod commitment;
pub mod error;
pub mod key_bundle;
pub mod key_order;
pub mod key_set;
pub mod laws;
pub mod sized_key;

pub use error::Error;
pub use key_bundle::{ProverKeySet, VerifierKeySet};
pub use key_order::{KeyOrder, OrderByInputs, OrderByOutputs};
pub use key_set::KeySet;
pub use sized_key::{SizedKey, TransactionVerifyingKey};
