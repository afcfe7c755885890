//! The one call into the hashing machinery of std and of the hasher
//! builders (foldhash's by default).

use core::hash::BuildHasher;
use core::hash::Hash;
use vstd::prelude::*;

verus! {

/// Calls `BuildHasher::hash_one`: hashes `key` with a hasher built by
/// `hash_builder`. Nothing is claimed of the result. It is what the builder's
/// hasher makes of the key's `Hash` output, and it depends on the builder's
/// seed, which std's and foldhash's builders draw at random for each process;
/// no contract here says that two calls on equal keys agree.
#[verifier::external_body]
pub(crate) fn hash_one<S: BuildHasher, K: Hash>(hash_builder: &S, key: &K) -> u64 {
    hash_builder.hash_one(key)
}

/// `hash` is a value that `hash_one` has returned for `key` and
/// `hash_builder`: the hash the builder gives the key.
pub open(crate) spec fn hashes_to<S: BuildHasher, K: Hash>(hash_builder: S, key: K, hash: u64) -> bool {
    call_ensures(hash_one::<S, K>, (&hash_builder, &key), hash)
}

/// The builder gives each key one hash: two hashes it gives a key are
/// equal. True of a builder whose seed is fixed when it is made, as std's
/// and foldhash's are, hashing a key type whose `Hash` is deterministic.
pub open spec fn hashes_consistently<S: BuildHasher, K: Hash>(hash_builder: S) -> bool {
    forall|key: K, h1: u64, h2: u64|
        #[trigger] hashes_to(hash_builder, key, h1) && #[trigger] hashes_to(hash_builder, key, h2) ==> h1 == h2
}

/// `hashes` holds, place by place, the hash `hash_builder` gives each value
/// of `vals`.
pub open spec fn hashes_by<S: BuildHasher, K: Hash>(hash_builder: S, vals: Seq<K>, hashes: Seq<u64>) -> bool {
    &&& hashes.len() == vals.len()
    &&& forall|i: int| 0 <= i < vals.len() ==> #[trigger] hashes_to(hash_builder, vals[i], hashes[i])
}

} // verus!
