//! Little-endian readers for the binary asset formats. Each reader takes a
//! byte buffer and an offset and returns the value stored there; the
//! corresponding spec functions say exactly which bytes make up the result.

use vstd::prelude::*;

verus! {

/// The `u16` stored little-endian at `pos`.
pub open spec fn le_u16(s: Seq<u8>, pos: int) -> u16 {
    (s[pos] as u16 + (s[pos + 1] as u16) * 0x100) as u16
}

/// The `u32` stored little-endian at `pos`.
pub open spec fn le_u32(s: Seq<u8>, pos: int) -> u32 {
    (s[pos] as u32 + (s[pos + 1] as u32) * 0x100 + (s[pos + 2] as u32) * 0x1_0000 + (s[pos + 3]
        as u32) * 0x100_0000) as u32
}

/// The `u64` stored little-endian at `pos`.
pub open spec fn le_u64(s: Seq<u8>, pos: int) -> u64 {
    (le_u32(s, pos) as u64 + (le_u32(s, pos + 4) as u64) * 0x1_0000_0000) as u64
}

pub fn mul_read_u8(data: &[u8], pos: usize) -> (r: u8)
    requires
        pos < data@.len(),
    ensures
        r == data@[pos as int],
{
    data[pos]
}

pub fn mul_read_i8(data: &[u8], pos: usize) -> (r: i8)
    requires
        pos < data@.len(),
    ensures
        r == data@[pos as int] as i8,
{
    data[pos] as i8
}

pub fn mul_read_u16(data: &[u8], pos: usize) -> (r: u16)
    requires
        pos + 2 <= data@.len(),
    ensures
        r == le_u16(data@, pos as int),
{
    let lo: u16 = data[pos] as u16;
    let hi: u16 = data[pos + 1] as u16;
    lo + hi * 0x100
}

pub fn mul_read_i16(data: &[u8], pos: usize) -> (r: i16)
    requires
        pos + 2 <= data@.len(),
    ensures
        r == le_u16(data@, pos as int) as i16,
{
    mul_read_u16(data, pos) as i16
}

pub fn mul_read_u32(data: &[u8], pos: usize) -> (r: u32)
    requires
        pos + 4 <= data@.len(),
    ensures
        r == le_u32(data@, pos as int),
{
    let b0: u32 = data[pos] as u32;
    let b1: u32 = data[pos + 1] as u32;
    let b2: u32 = data[pos + 2] as u32;
    let b3: u32 = data[pos + 3] as u32;
    b0 + b1 * 0x100 + b2 * 0x1_0000 + b3 * 0x100_0000
}

pub fn mul_read_i32(data: &[u8], pos: usize) -> (r: i32)
    requires
        pos + 4 <= data@.len(),
    ensures
        r == le_u32(data@, pos as int) as i32,
{
    mul_read_u32(data, pos) as i32
}

pub fn mul_read_u64(data: &[u8], pos: usize) -> (r: u64)
    requires
        pos + 8 <= data@.len(),
    ensures
        r == le_u64(data@, pos as int),
{
    let n: usize = data.len();
    let lo: u64 = mul_read_u32(data, pos) as u64;
    let hi: u64 = mul_read_u32(data, pos + 4) as u64;
    lo + hi * 0x1_0000_0000
}

/// Reads the fixed 20-byte name field that several records carry.
pub fn mul_read_fixed_str20(data: &[u8], pos: usize) -> (r: Vec<u8>)
    requires
        pos + 20 <= data@.len(),
    ensures
        r@ == data@.subrange(pos as int, pos + 20),
{
    let n: usize = data.len();
    let mut r: Vec<u8> = Vec::new();
    let mut i: usize = 0;
    while i < 20
        invariant
            i <= 20,
            pos + 20 <= n == data@.len(),
            r@ == data@.subrange(pos as int, pos + i),
        decreases 20 - i,
    {
        r.push(data[pos + i]);
        i = i + 1;
        proof {
            assert(r@ =~= data@.subrange(pos as int, pos + i));
        }
    }
    r
}

} // verus!
