//! Digests of keys and their reduction to a slot position.

use std::collections::hash_map::DefaultHasher;
use std::hash::Hash;
use std::hash::Hasher;
use vstd::prelude::*;
use vstd::std_specs::hash::DefaultHasherAdditionalSpecFns;

verus! {

/// The writes that `str`'s `Hash` impl makes to a hasher for a key.
pub uninterp spec fn str_hash_writes(s: Seq<char>) -> Seq<Seq<u8>>;

/// Relies on `<str as Hash>::hash`: it appends to the hasher's writes a
/// sequence of byte strings that depends on the characters of the key alone.
#[verifier::external_body]
fn hash_key_into(key: &str, hasher: &mut DefaultHasher)
    ensures
        final(hasher)@ == old(hasher)@ + str_hash_writes(key@),
{
    key.hash(hasher)
}

/// The 64-bit digest of a key: what a fresh `DefaultHasher` finishes with
/// after hashing the key.
pub open spec fn digest_of(key: Seq<char>) -> u64 {
    DefaultHasher::spec_finish(str_hash_writes(key))
}

/// The slot a digest falls into in a table of `len` slots.
pub open spec fn slot_of(d: u64, len: nat) -> int
    recommends
        len > 0,
{
    (d as int) % (len as int)
}

/// What a map holds at `d`, as an optional value.
pub open spec fn map_get(m: Map<u64, i32>, d: u64) -> Option<i32> {
    if m.contains_key(d) {
        Some(m[d])
    } else {
        None
    }
}

/// Hashes `key` with a fresh `DefaultHasher`.
pub fn compute_hash(key: &str) -> (r: u64)
    ensures
        r == digest_of(key@),
{
    let mut hasher = DefaultHasher::new();
    hash_key_into(key, &mut hasher);
    proof {
        assert(Seq::<Seq<u8>>::empty() + str_hash_writes(key@) =~= str_hash_writes(key@));
    }
    hasher.finish()
}

/// Reduces a digest to a position in a table of `len` slots.
pub fn compute_bucket_index(hashed_key: u64, len: usize) -> (r: usize)
    requires
        len > 0,
    ensures
        r == slot_of(hashed_key, len as nat),
        r < len,
{
    (hashed_key % (len as u64)) as usize
}

} // verus!
