//! Pointer-length codec: one 64-bit handle for an address and a length.
//!
//! The high 32 bits of a handle are the address, the low 32 bits the length.
use vstd::prelude::*;

verus! {

/// The handle that stands for `length` bytes at `address`.
pub open spec fn spec_pack(address: u32, length: u32) -> u64 {
    (address as int * 0x1_0000_0000 + length as int) as u64
}

/// The address and the length that a handle stands for.
pub open spec fn spec_unpack(handle: u64) -> (u32, u32) {
    ((handle as int / 0x1_0000_0000) as u32, (handle as int % 0x1_0000_0000) as u32)
}

/// Folds an address and a length into one handle.
pub fn pack(address: u32, length: u32) -> (handle: u64)
    ensures
        handle == spec_pack(address, length),
        handle as int == address as int * 0x1_0000_0000 + length as int,
{
    let high: u64 = address as u64;
    let low: u64 = length as u64;
    assert((high << 32) | low == high * 0x1_0000_0000 + low) by (bit_vector)
        requires
            high < 0x1_0000_0000,
            low < 0x1_0000_0000,
    ;
    (high << 32) | low
}

/// Splits a handle into its address and its length. Nothing is validated:
/// every 64-bit value is a handle.
pub fn unpack(handle: u64) -> (parts: (u32, u32))
    ensures
        parts == spec_unpack(handle),
        parts.0 as int == handle as int / 0x1_0000_0000,
        parts.1 as int == handle as int % 0x1_0000_0000,
{
    let high: u64 = handle >> 32;
    let low: u64 = handle & 0xffff_ffff;
    assert(handle >> 32 == handle / 0x1_0000_0000) by (bit_vector);
    assert(handle & 0xffff_ffff == handle % 0x1_0000_0000) by (bit_vector);
    assert(handle >> 32 < 0x1_0000_0000) by (bit_vector);
    (high as u32, low as u32)
}

/// Unpacking a packed pair gives the pair back, for every address and every
/// length.
pub proof fn lemma_unpack_pack(address: u32, length: u32)
    ensures
        spec_unpack(spec_pack(address, length)) == (address, length),
{
    let a = address as int;
    let l = length as int;
    assert((a * 0x1_0000_0000 + l) / 0x1_0000_0000 == a && (a * 0x1_0000_0000 + l) % 0x1_0000_0000
        == l) by (nonlinear_arith)
        requires
            0 <= l < 0x1_0000_0000,
            0 <= a,
    ;
    assert(a * 0x1_0000_0000 + l <= 0xffff_ffff_ffff_ffff) by (nonlinear_arith)
        requires
            0 <= l < 0x1_0000_0000,
            0 <= a < 0x1_0000_0000,
    ;
}

/// Packing what a handle unpacks to gives the handle back: no two handles
/// stand for the same pair.
pub proof fn lemma_pack_unpack(handle: u64)
    ensures
        spec_pack(spec_unpack(handle).0, spec_unpack(handle).1) == handle,
{
    let h = handle as int;
    assert((h / 0x1_0000_0000) * 0x1_0000_0000 + h % 0x1_0000_0000 == h && 0 <= h / 0x1_0000_0000
        < 0x1_0000_0000 && 0 <= h % 0x1_0000_0000 < 0x1_0000_0000) by (nonlinear_arith)
        requires
            0 <= h <= 0xffff_ffff_ffff_ffff,
    ;
}

/// Two pairs with the same handle are the same pair.
pub proof fn lemma_pack_injective(a1: u32, l1: u32, a2: u32, l2: u32)
    requires
        spec_pack(a1, l1) == spec_pack(a2, l2),
    ensures
        a1 == a2,
        l1 == l2,
{
    lemma_unpack_pack(a1, l1);
    lemma_unpack_pack(a2, l2);
}

} // verus!
