//! Fixed-width integers inside byte strings.
//!
//! Index files and directory listings both hold their integers in little-endian
//! order, without regard to alignment.

use vstd::bytes::{
    u16_from_le_bytes, u16_to_le_bytes, u32_from_le_bytes, u32_to_le_bytes, u64_from_le_bytes,
    u64_to_le_bytes,
};
#[allow(unused_imports)]
use vstd::bytes::{
    lemma_auto_spec_u16_to_from_le_bytes, lemma_auto_spec_u32_to_from_le_bytes,
    lemma_auto_spec_u64_to_from_le_bytes, spec_u16_from_le_bytes, spec_u16_to_le_bytes,
    spec_u32_from_le_bytes, spec_u32_to_le_bytes, spec_u64_from_le_bytes, spec_u64_to_le_bytes,
};
use vstd::prelude::*;
use vstd::slice::slice_subrange;

use crate::text::extend;

verus! {

/// The 16-bit integer at `off`.
pub open spec fn u16_at(b: Seq<u8>, off: int) -> u16 {
    spec_u16_from_le_bytes(b.subrange(off, off + 2))
}

/// The 32-bit integer at `off`.
pub open spec fn u32_at(b: Seq<u8>, off: int) -> u32 {
    spec_u32_from_le_bytes(b.subrange(off, off + 4))
}

/// The 64-bit integer at `off`.
pub open spec fn u64_at(b: Seq<u8>, off: int) -> u64 {
    spec_u64_from_le_bytes(b.subrange(off, off + 8))
}

/// A 32-bit pattern read as a two's complement number.
pub open spec fn signed32(x: u32) -> i32 {
    if x < 0x8000_0000 {
        x as i32
    } else {
        (x - 0x1_0000_0000) as i32
    }
}

/// A 64-bit pattern read as a two's complement number.
pub open spec fn signed64(x: u64) -> i64 {
    if x < 0x8000_0000_0000_0000 {
        x as i64
    } else {
        (x - 0x1_0000_0000_0000_0000) as i64
    }
}

/// The 64-bit pattern of a two's complement number.
pub open spec fn pattern64(x: i64) -> u64 {
    if x >= 0 {
        x as u64
    } else {
        (x + 0x1_0000_0000_0000_0000) as u64
    }
}

/// Reads a 16-bit integer.
pub fn get_u16(b: &[u8], off: usize) -> (r: u16)
    requires
        off + 2 <= b.len(),
    ensures
        r == u16_at(b@, off as int),
{
    u16_from_le_bytes(slice_subrange(b, off, off + 2))
}

/// Reads a 32-bit integer.
pub fn get_u32(b: &[u8], off: usize) -> (r: u32)
    requires
        off + 4 <= b.len(),
    ensures
        r == u32_at(b@, off as int),
{
    u32_from_le_bytes(slice_subrange(b, off, off + 4))
}

/// Reads a 64-bit integer.
pub fn get_u64(b: &[u8], off: usize) -> (r: u64)
    requires
        off + 8 <= b.len(),
    ensures
        r == u64_at(b@, off as int),
{
    u64_from_le_bytes(slice_subrange(b, off, off + 8))
}

/// Reads a 32-bit pattern as a two's complement number.
pub fn to_signed32(x: u32) -> (r: i32)
    ensures
        r == signed32(x),
{
    if x < 0x8000_0000 {
        x as i32
    } else {
        (x as i64 - 0x1_0000_0000) as i32
    }
}

/// Reads a 64-bit pattern as a two's complement number.
pub fn to_signed64(x: u64) -> (r: i64)
    ensures
        r == signed64(x),
{
    if x < 0x8000_0000_0000_0000 {
        x as i64
    } else {
        (x as i128 - 0x1_0000_0000_0000_0000) as i64
    }
}

/// The 64-bit pattern of a two's complement number.
pub fn to_pattern64(x: i64) -> (r: u64)
    ensures
        r == pattern64(x),
{
    if x >= 0 {
        x as u64
    } else {
        (x as i128 + 0x1_0000_0000_0000_0000) as u64
    }
}

/// Appends a 16-bit integer.
pub fn put_u16(v: &mut Vec<u8>, x: u16)
    ensures
        final(v)@ == old(v)@ + spec_u16_to_le_bytes(x),
{
    extend(v, u16_to_le_bytes(x).as_slice());
}

/// Appends a 32-bit integer.
pub fn put_u32(v: &mut Vec<u8>, x: u32)
    ensures
        final(v)@ == old(v)@ + spec_u32_to_le_bytes(x),
{
    extend(v, u32_to_le_bytes(x).as_slice());
}

/// Appends a 64-bit integer.
pub fn put_u64(v: &mut Vec<u8>, x: u64)
    ensures
        final(v)@ == old(v)@ + spec_u64_to_le_bytes(x),
{
    extend(v, u64_to_le_bytes(x).as_slice());
}

/// What was written at `off` is read back from there.
pub proof fn lemma_u16_at(b: Seq<u8>, off: int, x: u16)
    requires
        0 <= off,
        off + 2 <= b.len(),
        b.subrange(off, off + 2) == spec_u16_to_le_bytes(x),
    ensures
        u16_at(b, off) == x,
{
    lemma_auto_spec_u16_to_from_le_bytes();
    assert(spec_u16_to_le_bytes(x).len() == 2);
}

/// What was written at `off` is read back from there.
pub proof fn lemma_u32_at(b: Seq<u8>, off: int, x: u32)
    requires
        0 <= off,
        off + 4 <= b.len(),
        b.subrange(off, off + 4) == spec_u32_to_le_bytes(x),
    ensures
        u32_at(b, off) == x,
{
    lemma_auto_spec_u32_to_from_le_bytes();
    assert(spec_u32_to_le_bytes(x).len() == 4);
}

/// What was written at `off` is read back from there.
pub proof fn lemma_u64_at(b: Seq<u8>, off: int, x: u64)
    requires
        0 <= off,
        off + 8 <= b.len(),
        b.subrange(off, off + 8) == spec_u64_to_le_bytes(x),
    ensures
        u64_at(b, off) == x,
{
    lemma_auto_spec_u64_to_from_le_bytes();
}

/// Two's complement loses nothing.
pub proof fn lemma_signed64(x: i64)
    ensures
        signed64(pattern64(x)) == x,
{
}

/// The highest bit of a number that is read as a signed one says that it is negative.
pub proof fn law_signs_are_in_the_highest_bit(x: u32, y: u64, z: i64)
    ensures
        signed32(x) == x || signed32(x) == x - 0x1_0000_0000,
        signed32(x) < 0 <==> x >= 0x8000_0000,
        signed64(y) == y || signed64(y) == y - 0x1_0000_0000_0000_0000,
        signed64(y) < 0 <==> y >= 0x8000_0000_0000_0000,
        signed64(pattern64(z)) == z,
        pattern64(signed64(y)) == y,
{
}

} // verus!
