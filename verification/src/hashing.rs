//! The hashing capability. The sketch's accuracy rests on a 64-bit hash whose
//! bits behave as independently uniform per distinct item; the well-studied
//! murmur2 64-bit mixing hash is used for that, through the `fasthash` crate.
//! The sketch's own logic never looks inside the hash: it only decomposes the
//! 64-bit value it is handed.

use vstd::prelude::*;
use std::hash::{Hash, Hasher};
use fasthash::FastHash;
use fasthash::murmur2::Hash64_x64;
use fasthash::Murmur2Hasher;

verus! {

/// The 64-bit murmur2 hash (the `MurmurHash64A` variant, seed 0) of a byte
/// string: a fixed, repeatable function of the bytes alone within any one
/// build of this crate. (The C implementation reads the bytes in word-sized
/// chunks, so builds for machines of different byte order can disagree;
/// nothing here depends on cross-machine equality.)
pub uninterp spec fn murmur2_of(data: Seq<u8>) -> u64;

/// Relies on `fasthash::murmur2::Hash64_x64::hash`: `MurmurHash64A` of the
/// bytes with the default (zero) seed, a deterministic function of the input
/// bytes alone. The binding hands the C function the length as a C `int`, so
/// only slices of at most `i32::MAX` bytes are passed to it; a longer slice
/// would wrap the length negative and run the C code off the buffer.
#[verifier::external_body]
pub(crate) fn murmur2_hash64(data: &[u8]) -> (r: u64)
    requires
        data@.len() <= 0x7fff_ffff,
    ensures
        r == murmur2_of(data@),
{
    Hash64_x64::hash(data)
}

/// Relies on `fasthash::Murmur2Hasher` behind std's `Hasher`: feeds the
/// item's bytes to a fresh murmur2 hasher and returns its 64-bit output.
/// Which bytes `Hash` feeds is the item's own business, so nothing is
/// promised of the value — and because that byte stream is not modelled
/// here, neither is the binding's C `int` length cap: an item whose `Hash`
/// impl writes `i32::MAX` bytes or more is outside what the binding
/// supports. Ordinary items write a handful of bytes.
#[verifier::external_body]
pub(crate) fn hash_item<T: Hash>(item: &T) -> u64 {
    let mut hasher: Murmur2Hasher = Default::default();
    item.hash(&mut hasher);
    hasher.finish()
}

} // verus!
