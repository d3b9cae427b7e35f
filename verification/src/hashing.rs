//! The fixed 64-bit k-mer hash function behind sketch construction.

use vstd::prelude::*;

verus! {

/// The hash a canonical k-mer is admitted under. Its value is determined by
/// the k-mer's bytes alone, so equal k-mers always collide into the same
/// sketch slot on every machine.
pub uninterp spec fn kmer_hash(kmer: Seq<u8>) -> u64;

/// Relies on murmurhash3::murmurhash3_x64_128 with the fixed seed 42: the
/// digest is a pure function of the input bytes, and the sketch keeps the
/// low 64 bits of it.
#[verifier::external_body]
pub(crate) fn hash_kmer(kmer: &Vec<u8>) -> (h: u64)
    ensures
        h == kmer_hash(kmer@),
{
    murmurhash3::murmurhash3_x64_128(kmer.as_slice(), 42).0
}

} // verus!
