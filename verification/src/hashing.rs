//! The table's hash function: a fixed-seed 64-bit mixer, reduced to a bucket
//! index by taking the remainder modulo the capacity.

use vstd::prelude::*;

verus! {

/// First multiplier of the mixing rounds.
pub const MIX_MUL_1: u64 = 0xbf58_476d_1ce4_e5b9;

/// Second multiplier of the mixing rounds.
pub const MIX_MUL_2: u64 = 0x94d0_49bb_1331_11eb;

/// The 64-bit hash of key `k` under seed `state`.
pub open spec fn spec_hash(state: u64, k: u64) -> u64 {
    let x0 = k ^ state;
    let x1 = vstd::wrapping::u64_specs::wrapping_mul(x0 ^ (x0 >> 30), MIX_MUL_1);
    let x2 = vstd::wrapping::u64_specs::wrapping_mul(x1 ^ (x1 >> 27), MIX_MUL_2);
    x2 ^ (x2 >> 31)
}

/// The bucket that key `k` falls in when `cap` buckets are available.
pub open spec fn spec_index_of(state: u64, k: u64, cap: nat) -> nat
    recommends
        cap > 0,
{
    spec_hash(state, k) as nat % cap
}

/// Computes the hash that `spec_hash` describes.
pub fn hash_key(state: u64, k: u64) -> (h: u64)
    ensures
        h == spec_hash(state, k),
{
    let x0: u64 = k ^ state;
    let x1: u64 = (x0 ^ (x0 >> 30)).wrapping_mul(MIX_MUL_1);
    let x2: u64 = (x1 ^ (x1 >> 27)).wrapping_mul(MIX_MUL_2);
    x2 ^ (x2 >> 31)
}

/// Computes the bucket index that `spec_index_of` describes.
pub fn index_of(state: u64, k: u64, cap: usize) -> (i: usize)
    requires
        cap > 0,
    ensures
        i == spec_index_of(state, k, cap as nat),
        i < cap,
{
    let h: u64 = hash_key(state, k);
    (h % (cap as u64)) as usize
}

} // verus!
