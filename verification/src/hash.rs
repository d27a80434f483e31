//! FNV-1a, 64-bit.

use vstd::prelude::*;

verus! {

/// The FNV-1a accumulator before the first byte.
pub const FNV_OFFSET: u64 = 0xcbf2_9ce4_8422_2325;

/// The FNV-1a multiplier: the 64-bit FNV prime.
pub const FNV_PRIME: u64 = 0x100_0000_01b3;

/// The FNV-1a accumulator after `bytes`.
pub open spec fn fnv_state(bytes: Seq<u8>) -> u64
    decreases bytes.len(),
{
    if bytes.len() == 0 {
        FNV_OFFSET
    } else {
        (fnv_state(bytes.drop_last()) ^ (bytes.last() as u64)).wrapping_mul(FNV_PRIME)
    }
}

/// The hash of `bytes`: the FNV-1a accumulator, with zero replaced by one.
/// Zero marks a bucket that was never used.
pub open spec fn fnv(bytes: Seq<u8>) -> u64 {
    if fnv_state(bytes) == 0 {
        1
    } else {
        fnv_state(bytes)
    }
}

/// Hashes a key. The result is never zero.
pub fn fnv1a(bytes: &[u8]) -> (h: u64)
    ensures
        h == fnv(bytes@),
        h != 0,
{
    let mut h: u64 = FNV_OFFSET;
    for i in 0..bytes.len()
        invariant
            h == fnv_state(bytes@.take(i as int)),
    {
        h = h ^ (bytes[i] as u64);
        h = h.wrapping_mul(FNV_PRIME);
        assert(bytes@.take(i + 1).drop_last() =~= bytes@.take(i as int));
    }
    assert(bytes@.take(bytes@.len() as int) =~= bytes@);
    if h == 0 {
        1
    } else {
        h
    }
}

/// The hash is FNV-1a of 64 bits: from the offset basis on, each byte is put into
/// the accumulator by an exclusive or, and the accumulator is multiplied by the
/// prime, modulo two to the 64. A hash of zero is replaced by one.
pub proof fn law_fnv(bytes: Seq<u8>, b: u8)
    ensures
        fnv_state(Seq::empty()) == 0xcbf29ce484222325,
        fnv_state(bytes.push(b)) == ((fnv_state(bytes) ^ (b as u64)) as int * 0x100000001b3)
            % 0x1_0000_0000_0000_0000,
        fnv_state(bytes) != 0 ==> fnv(bytes) == fnv_state(bytes),
        fnv_state(bytes) == 0 ==> fnv(bytes) == 1,
{
    assert(bytes.push(b).drop_last() =~= bytes);
}

} // verus!
