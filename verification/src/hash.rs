//! The CDB hash function, fixed by the on-disk format.

use vstd::prelude::*;

verus! {

/// One step of the CDB hash: multiply by 33 modulo 2^32, then xor in the
/// next byte. The format's usual statement `(h << 5) + h` equals `h * 33`.
pub open spec fn hash_step(h: u32, b: u8) -> u32 {
    (((h * 33) % 0x1_0000_0000) as u32) ^ (b as u32)
}

/// The CDB hash of a byte string: start from 5381 and fold `hash_step`
/// over the bytes from first to last.
pub open spec fn hash_of(s: Seq<u8>) -> u32
    decreases s.len(),
{
    if s.len() == 0 {
        5381u32
    } else {
        hash_step(hash_of(s.drop_last()), s.last())
    }
}

/// The hash of the empty byte string is the fixed starting value.
pub proof fn lemma_hash_empty()
    ensures
        hash_of(Seq::<u8>::empty()) == 5381,
{
}

/// Computes the CDB hash of `key`.
pub fn hash(key: &[u8]) -> (h: u32)
    ensures
        h == hash_of(key@),
{
    let mut h: u32 = 5381;
    let mut i: usize = 0;
    while i < key.len()
        invariant
            0 <= i <= key@.len(),
            h == hash_of(key@.take(i as int)),
        decreases key@.len() - i,
    {
        let b: u8 = key[i];
        let prod: u64 = (h as u64) * 33;
        let low: u32 = (prod & 0xffff_ffff) as u32;
        proof {
            assert((prod & 0xffff_ffff) as u32 == (prod % 0x1_0000_0000) as u32) by (bit_vector);
            assert(key@.take(i + 1).drop_last() =~= key@.take(i as int));
            assert(key@.take(i + 1).last() == key@[i as int]);
        }
        h = low ^ (b as u32);
        i = i + 1;
    }
    proof {
        assert(key@.take(key@.len() as int) =~= key@);
    }
    h
}

} // verus!
