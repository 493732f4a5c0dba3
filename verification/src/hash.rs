use vstd::prelude::*;

verus! {

/// The string hash over the bytes `s[..n]`, before the final mixing step:
/// starting from 0, each byte is added to 33 times the hash, modulo 2^32.
pub open spec fn hash_prefix(s: Seq<u8>, n: int) -> u32
    decreases n,
{
    if n <= 0 {
        0
    } else {
        hash_prefix(s, n - 1).wrapping_mul(33).wrapping_add(s[n - 1] as u32)
    }
}

/// The hash of a string: the running hash plus itself shifted right by 5, modulo 2^32.
pub open spec fn spec_hash(s: Seq<u8>) -> u32 {
    hash_prefix(s, s.len() as int).wrapping_add(hash_prefix(s, s.len() as int) >> 5)
}

/// Hashes the bytes of a string (all arithmetic wraps around at 2^32).
pub fn calculate_hash(string: &Vec<u8>) -> (r: u32)
    ensures
        r == spec_hash(string@),
{
    let mut hash: u32 = 0;
    let n = string.len();
    let mut i: usize = 0;
    while i < n
        invariant
            0 <= i <= n,
            n == string@.len(),
            hash == hash_prefix(string@, i as int),
        decreases n - i,
    {
        hash = hash.wrapping_mul(33).wrapping_add(string[i] as u32);
        i = i + 1;
    }
    hash = hash.wrapping_add(hash >> 5);
    hash
}

} // verus!
