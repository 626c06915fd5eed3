//! The UOP container of the newer map assets: the file and entry headers,
//! and the byte-exact entry-name hash the container is indexed by.

use vstd::prelude::*;
use vstd::wrapping::u32_specs;

verus! {

/// The container's file header.
#[derive(Debug, Copy, Clone, PartialEq, Eq, Structural)]
pub struct UopHeader {
    pub magic: u32,
    pub version: u32,
    pub timestamp: u32,
    pub next_block_offset: u64,
    pub block_size: u32,
    pub entry_count: u32,
}

/// The header of one table of entries.
#[derive(Debug, Copy, Clone, PartialEq, Eq, Structural)]
pub struct UopEntryHeader {
    pub entry_count: u32,
    pub next_block_offset: u64,
}

/// One entry of the container's table.
#[derive(Debug, Copy, Clone, PartialEq, Eq, Structural)]
pub struct UopEntry {
    pub data_offset: u64,
    pub header_length: u32,
    pub compressed_length: u32,
    pub decompressed_length: u32,
    pub entry_hash: u64,
    pub crc: u32,
    pub is_compressed: u16,
}

/// A byte of the sequence, or zero past its end.
pub open spec fn pbyte(s: Seq<u8>, i: int) -> u32 {
    if 0 <= i < s.len() {
        s[i] as u32
    } else {
        0
    }
}

/// Up to four bytes little-endian from `off`, the missing ones zero.
pub open spec fn pword(s: Seq<u8>, off: int) -> u32 {
    (pbyte(s, off) + pbyte(s, off + 1) * 0x100 + pbyte(s, off + 2) * 0x1_0000 + pbyte(s, off + 3)
        * 0x100_0000) as u32
}

/// A 32-bit left rotation.
pub open spec fn rotl(x: u32, k: u32) -> u32 {
    (x << k) | (x >> ((32 - k) as u32))
}

/// One full 12-byte mixing round of the hash.
pub open spec fn uop_round(st: (u32, u32, u32), s: Seq<u8>, off: int) -> (u32, u32, u32) {
    let a0 = u32_specs::wrapping_add(st.0, pword(s, off));
    let b0 = u32_specs::wrapping_add(st.1, pword(s, off + 4));
    let c0 = u32_specs::wrapping_add(st.2, pword(s, off + 8));
    let a1 = u32_specs::wrapping_sub(a0, c0) ^ rotl(c0, 4);
    let c1 = u32_specs::wrapping_add(c0, b0);
    let b1 = u32_specs::wrapping_sub(b0, a1) ^ rotl(a1, 6);
    let a2 = u32_specs::wrapping_add(a1, c1);
    let c2 = u32_specs::wrapping_sub(c1, b1) ^ rotl(b1, 8);
    let b2 = u32_specs::wrapping_add(b1, a2);
    let a3 = u32_specs::wrapping_sub(a2, c2) ^ rotl(c2, 16);
    let c3 = u32_specs::wrapping_add(c2, b2);
    let b3 = u32_specs::wrapping_sub(b2, a3) ^ rotl(a3, 19);
    let a4 = u32_specs::wrapping_add(a3, c3);
    let c4 = u32_specs::wrapping_sub(c3, b3) ^ rotl(b3, 4);
    let b4 = u32_specs::wrapping_add(b3, a4);
    (a4, b4, c4)
}

/// The final mixing over the last 1..=12 bytes.
pub open spec fn uop_final(st: (u32, u32, u32), s: Seq<u8>, off: int) -> (u32, u32, u32) {
    let a0 = u32_specs::wrapping_add(st.0, pword(s, off));
    let b0 = u32_specs::wrapping_add(st.1, pword(s, off + 4));
    let c0 = u32_specs::wrapping_add(st.2, pword(s, off + 8));
    let c1 = u32_specs::wrapping_sub(c0 ^ b0, rotl(b0, 14));
    let a1 = u32_specs::wrapping_sub(a0 ^ c1, rotl(c1, 11));
    let b1 = u32_specs::wrapping_sub(b0 ^ a1, rotl(a1, 25));
    let c2 = u32_specs::wrapping_sub(c1 ^ b1, rotl(b1, 16));
    let a2 = u32_specs::wrapping_sub(a1 ^ c2, rotl(c2, 4));
    let b2 = u32_specs::wrapping_sub(b1 ^ a2, rotl(a2, 14));
    let c3 = u32_specs::wrapping_sub(c2 ^ b2, rotl(b2, 24));
    (a2, b2, c3)
}

/// The number of full rounds the hash makes over `len` bytes.
pub open spec fn uop_rounds(len: int) -> int {
    if len > 12 {
        (len - 13) / 12 + 1
    } else {
        0
    }
}

/// The mixing state after the first `k` full rounds.
pub open spec fn uop_state(s: Seq<u8>, k: int) -> (u32, u32, u32)
    decreases k,
{
    let init = u32_specs::wrapping_add(s.len() as u32, 0xdeadbeef);
    if k <= 0 {
        (init, init, init)
    } else {
        uop_round(uop_state(s, k - 1), s, (k - 1) * 12)
    }
}

/// The container's entry-name hash, byte for byte as the asset defines it.
pub open spec fn uop_hash_spec(s: Seq<u8>) -> u64 {
    let k = uop_rounds(s.len() as int);
    let st = uop_state(s, k);
    let st2 = if s.len() - 12 * k > 0 {
        uop_final(st, s, 12 * k)
    } else {
        st
    };
    ((st2.1 as u64) << 32) | (st2.2 as u64)
}

/// Up to four bytes little-endian starting at `off`; absent bytes read as
/// zero.
pub fn partial_read_u32(data: &[u8], off: usize) -> (r: u32)
    ensures
        r == pword(data@, off as int),
{
    let n: usize = data.len();
    let b0: u32 = if off < n {
        data[off] as u32
    } else {
        0
    };
    let b1: u32 = if off < usize::MAX && off + 1 < n {
        data[off + 1] as u32
    } else {
        0
    };
    let b2: u32 = if off < usize::MAX - 1 && off + 2 < n {
        data[off + 2] as u32
    } else {
        0
    };
    let b3: u32 = if off < usize::MAX - 2 && off + 3 < n {
        data[off + 3] as u32
    } else {
        0
    };
    b0 + b1 * 0x100 + b2 * 0x1_0000 + b3 * 0x100_0000
}

/// The entry-name hash of the container: a 96-bit mixing function over
/// 12-byte blocks with a final round over the remainder.
pub fn uop_hash(src: &[u8]) -> (r: u64)
    requires
        src@.len() <= usize::MAX - 16,
    ensures
        r == uop_hash_spec(src@),
{
    let len: usize = src.len();
    let lo: u32 = #[verifier::truncate] (len as u32);
    let init: u32 = lo.wrapping_add(0xdeadbeef);
    let mut a: u32 = init;
    let mut b: u32 = init;
    let mut c: u32 = init;
    let mut off: usize = 0;
    let ghost mut k: int = 0;
    while len - off > 12
        invariant
            off == 12 * k,
            0 <= k,
            off <= len == src@.len(),
            len <= usize::MAX - 16,
            k == 0 || len - 12 * (k - 1) > 12,
            (a, b, c) == uop_state(src@, k),
        decreases len - off,
    {
        a = a.wrapping_add(partial_read_u32(src, off));
        b = b.wrapping_add(partial_read_u32(src, off + 4));
        c = c.wrapping_add(partial_read_u32(src, off + 8));

        a = a.wrapping_sub(c) ^ ((c << 4) | (c >> 28));
        c = c.wrapping_add(b);
        b = b.wrapping_sub(a) ^ ((a << 6) | (a >> 26));
        a = a.wrapping_add(c);
        c = c.wrapping_sub(b) ^ ((b << 8) | (b >> 24));
        b = b.wrapping_add(a);
        a = a.wrapping_sub(c) ^ ((c << 16) | (c >> 16));
        c = c.wrapping_add(b);
        b = b.wrapping_sub(a) ^ ((a << 19) | (a >> 13));
        a = a.wrapping_add(c);
        c = c.wrapping_sub(b) ^ ((b << 4) | (b >> 28));
        b = b.wrapping_add(a);

        off = off + 12;
        proof {
            k = k + 1;
        }
    }
    proof {
        assert(k == uop_rounds(len as int)) by {
            let li = len as int;
            if li > 12 {
                vstd::arithmetic::div_mod::lemma_fundamental_div_mod_converse_div(
                    li - 13,
                    12,
                    k - 1,
                    li - 13 - 12 * (k - 1),
                );
            }
        }
    }
    if len - off > 0 {
        a = a.wrapping_add(partial_read_u32(src, off));
        b = b.wrapping_add(partial_read_u32(src, off + 4));
        c = c.wrapping_add(partial_read_u32(src, off + 8));

        c = (c ^ b).wrapping_sub((b << 14) | (b >> 18));
        a = (a ^ c).wrapping_sub((c << 11) | (c >> 21));
        b = (b ^ a).wrapping_sub((a << 25) | (a >> 7));
        c = (c ^ b).wrapping_sub((b << 16) | (b >> 16));
        a = (a ^ c).wrapping_sub((c << 4) | (c >> 28));
        b = (b ^ a).wrapping_sub((a << 14) | (a >> 18));
        c = (c ^ b).wrapping_sub((b << 24) | (b >> 8));
    }
    ((b as u64) << 32) | (c as u64)
}

} // verus!
