//! The commitment to a bundle of verifying keys: a fixed-size digest of the
//! bundle's canonical bytes, under a label of its own.

use vstd::prelude::*;

verus! {

/// The digest that the commitment scheme gives to `bytes` under the label `tag`.
pub uninterp spec fn raw_commitment(tag: Seq<char>, bytes: Seq<u8>) -> Seq<u8>;

/// The commitment to a bundle of verifying keys whose canonical bytes are
/// `serialized`.
pub open spec fn verifier_commitment(serialized: Seq<u8>) -> Seq<u8> {
    raw_commitment("VerifCRS Comm"@, serialized)
}

/// Runs `committable::RawCommitmentBuilder`: `new` with the label, then
/// `var_size_bytes` with the bytes, then `finalize`. The builder hashes the
/// label, a separator, the length of the bytes and the bytes themselves with
/// Keccak-256, so the digest depends on the label and the bytes and on
/// nothing else. The contract says only that: it gives the digest a name.
#[verifier::external_body]
fn commit_var_size_bytes<T: committable::Committable>(tag: &str, bytes: &[u8]) -> (digest: [u8; 32])
    ensures
        digest@ == raw_commitment(tag@, bytes@),
{
    committable::RawCommitmentBuilder::<T>::new(tag).var_size_bytes(bytes).finalize().into()
}

/// Commits to a bundle of verifying keys, given its canonical bytes.
///
/// `T` is the type that the commitment is a commitment to; the digest does
/// not depend on it.
pub fn commit<T: committable::Committable>(serialized: &[u8]) -> (digest: [u8; 32])
    ensures
        digest@ == verifier_commitment(serialized@),
{
    commit_var_size_bytes::<T>("VerifCRS Comm", serialized)
}

} // verus!
