//! Packing and unpacking of the 32-bit little-endian words that make up
//! every integer field of the file format.

use vstd::bytes::{spec_u32_from_le_bytes, spec_u32_to_le_bytes, u32_from_le_bytes, u32_to_le_bytes};
use vstd::prelude::*;
use vstd::slice::slice_subrange;

verus! {

/// Decodes the first four bytes of `data` as a little-endian 32-bit word.
pub fn unpack(data: &[u8]) -> (r: u32)
    requires
        data@.len() >= 4,
    ensures
        r == spec_u32_from_le_bytes(data@.subrange(0, 4)),
{
    let word = slice_subrange(data, 0, 4);
    u32_from_le_bytes(word)
}

/// Decodes the first eight bytes of `data` as two little-endian 32-bit words.
pub fn unpack2(data: &[u8]) -> (r: (u32, u32))
    requires
        data@.len() >= 8,
    ensures
        r.0 == spec_u32_from_le_bytes(data@.subrange(0, 4)),
        r.1 == spec_u32_from_le_bytes(data@.subrange(4, 8)),
{
    let first = slice_subrange(data, 0, 4);
    let second = slice_subrange(data, 4, 8);
    proof {
        assert(first@.subrange(0, 4) =~= data@.subrange(0, 4));
    }
    (unpack(first), u32_from_le_bytes(second))
}

/// Overwrites the first four bytes of `data` with `src` in little-endian
/// order; the rest of `data` is unchanged.
pub fn pack(data: &mut Vec<u8>, src: u32)
    requires
        old(data)@.len() >= 4,
    ensures
        final(data)@ == spec_u32_to_le_bytes(src) + old(data)@.skip(4),
{
    let b = u32_to_le_bytes(src);
    data.set(0, b[0]);
    data.set(1, b[1]);
    data.set(2, b[2]);
    data.set(3, b[3]);
    proof {
        assert(data@ =~= spec_u32_to_le_bytes(src) + old(data)@.skip(4));
    }
}

/// Overwrites the first eight bytes of `data` with `src0` then `src1`,
/// each in little-endian order; the rest of `data` is unchanged.
pub fn pack2(data: &mut Vec<u8>, src0: u32, src1: u32)
    requires
        old(data)@.len() >= 8,
    ensures
        final(data)@ == spec_u32_to_le_bytes(src0) + spec_u32_to_le_bytes(src1) + old(data)@.skip(
            8,
        ),
{
    let b0 = u32_to_le_bytes(src0);
    let b1 = u32_to_le_bytes(src1);
    data.set(0, b0[0]);
    data.set(1, b0[1]);
    data.set(2, b0[2]);
    data.set(3, b0[3]);
    data.set(4, b1[0]);
    data.set(5, b1[1]);
    data.set(6, b1[2]);
    data.set(7, b1[3]);
    proof {
        assert(data@ =~= spec_u32_to_le_bytes(src0) + spec_u32_to_le_bytes(src1) + old(
            data,
        )@.skip(8));
    }
}

/// Appends `x` to `out` as four little-endian bytes.
pub(crate) fn push_u32(out: &mut Vec<u8>, x: u32)
    ensures
        final(out)@ == old(out)@ + spec_u32_to_le_bytes(x),
{
    let b = u32_to_le_bytes(x);
    out.push(b[0]);
    out.push(b[1]);
    out.push(b[2]);
    out.push(b[3]);
    proof {
        assert(out@ =~= old(out)@ + spec_u32_to_le_bytes(x));
    }
}

/// Appends `a` then `b` to `out`, each as four little-endian bytes.
pub(crate) fn push_u32_pair(out: &mut Vec<u8>, a: u32, b: u32)
    ensures
        final(out)@ == old(out)@ + spec_u32_to_le_bytes(a) + spec_u32_to_le_bytes(b),
{
    push_u32(out, a);
    push_u32(out, b);
}

} // verus!
