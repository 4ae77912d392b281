//! The partitioning hash: every worker of a job must compute the same
//! bucket for the same key, so the hash is a fixed wire contract — a
//! 32-bit Murmur3 over the key's text, as the `hash32` crate computes it.

use vstd::prelude::*;

verus! {

/// What the Murmur3 hasher returns for a key: a function of the key's
/// characters alone, identical in every process and on every machine.
pub uninterp spec fn ihash_spec(key: Seq<char>) -> u32;

/// Relies on `hash32::Murmur3Hasher` (seeded with its default, zero) fed
/// through `str`'s `Hash` impl, and `hash32::Hasher::finish32`: a pure,
/// stable digest of the key's text.
#[verifier::external_body]
pub(crate) fn ihash(key: &str) -> (r: u32)
    ensures
        r == ihash_spec(key@),
{
    let mut hasher = hash32::Murmur3Hasher::default();
    core::hash::Hash::hash(key, &mut hasher);
    hash32::Hasher::finish32(&hasher)
}

/// The reducer responsible for a key, out of `n_reduce` reducers.
pub open spec fn bucket_spec(key: Seq<char>, n_reduce: u32) -> u32
    recommends
        n_reduce >= 1,
{
    (ihash_spec(key) % n_reduce) as u32
}

/// Compute the responsible reducer for a key: exactly one bucket per key.
pub fn bucket_for(key: &str, n_reduce: u32) -> (r: u32)
    requires
        n_reduce >= 1,
    ensures
        r == bucket_spec(key@, n_reduce),
        r < n_reduce,
{
    ihash(key) % n_reduce
}

/// With a single reducer every key lands in bucket zero.
pub proof fn lemma_single_reducer_bucket(key: Seq<char>)
    ensures
        bucket_spec(key, 1) == 0,
{
}

} // verus!
