//! The 64-bit FNV-1a hash over byte sequences, and the little-endian bytes of
//! an `i128`.

use vstd::prelude::*;

verus! {

/// The FNV-1a 64-bit offset basis.
pub const FNV_OFFSET: u64 = 0xcbf2_9ce4_8422_2325u64;

/// The FNV-1a 64-bit prime.
pub const FNV_PRIME: u64 = 0x0000_0100_0000_01b3u64;

/// One FNV-1a step: xor in the byte, then multiply by the prime modulo 2^64.
pub open spec fn fnv_step(h: u64, b: u8) -> u64 {
    vstd::wrapping::u64_specs::wrapping_mul(h ^ (b as u64), FNV_PRIME)
}

/// FNV-1a of `bytes`, starting from the state `h`.
pub open spec fn fnv(h: u64, bytes: Seq<u8>) -> u64
    decreases bytes.len(),
{
    if bytes.len() == 0 {
        h
    } else {
        fnv_step(fnv(h, bytes.drop_last()), bytes.last())
    }
}

/// Hashing a concatenation is hashing the second part from the state the
/// first part left.
pub proof fn lemma_fnv_concat(h: u64, s: Seq<u8>, t: Seq<u8>)
    ensures
        fnv(h, s + t) == fnv(fnv(h, s), t),
    decreases t.len(),
{
    if t.len() == 0 {
        assert(s + t =~= s);
    } else {
        assert((s + t).drop_last() =~= s + t.drop_last());
        lemma_fnv_concat(h, s, t.drop_last());
    }
}

/// The 16 little-endian bytes of an `i128`.
pub open spec fn le_bytes(v: i128) -> Seq<u8> {
    Seq::new(16, |k: int| ((v as u128) >> ((8 * k) as u128)) as u8)
}

/// One FNV-1a step.
pub fn fnv_feed_byte(h: u64, b: u8) -> (r: u64)
    ensures
        r == fnv_step(h, b),
{
    (h ^ (b as u64)).wrapping_mul(FNV_PRIME)
}

/// FNV-1a over a byte slice from the state `h`.
pub fn fnv_feed_bytes(h: u64, bytes: &[u8]) -> (r: u64)
    ensures
        r == fnv(h, bytes@),
{
    let mut hash = h;
    let mut i: usize = 0;
    while i < bytes.len()
        invariant
            0 <= i <= bytes@.len(),
            hash == fnv(h, bytes@.take(i as int)),
        decreases bytes@.len() - i,
    {
        proof {
            assert(bytes@.take(i + 1).drop_last() =~= bytes@.take(i as int));
        }
        hash = fnv_feed_byte(hash, bytes[i]);
        i = i + 1;
    }
    proof {
        assert(bytes@.take(i as int) =~= bytes@);
    }
    hash
}

/// FNV-1a over the little-endian bytes of `v` from the state `h`.
pub fn fnv_feed_i128(h: u64, v: i128) -> (r: u64)
    ensures
        r == fnv(h, le_bytes(v)),
{
    let x = v as u128;
    let mut hash = h;
    let mut k: u32 = 0;
    while k < 16
        invariant
            0 <= k <= 16,
            x == v as u128,
            hash == fnv(h, le_bytes(v).take(k as int)),
        decreases 16 - k,
    {
        proof {
            assert(le_bytes(v).take(k + 1).drop_last() =~= le_bytes(v).take(k as int));
        }
        let b = (x >> (8 * k)) as u8;
        hash = fnv_feed_byte(hash, b);
        k = k + 1;
    }
    proof {
        assert(le_bytes(v).take(16) =~= le_bytes(v));
    }
    hash
}

} // verus!
