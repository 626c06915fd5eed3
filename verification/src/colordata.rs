//! The radar color table: one 5-5-5 packed RGB entry per graphic, land
//! graphics first, static graphics from entry 16384 on.

use vstd::prelude::*;
use crate::mulreader::{le_u16, mul_read_u16};

verus! {

/// A 5-bit channel expanded to 8 bits.
pub open spec fn expand5(c: int) -> u8 {
    (c * 255 / 31) as u8
}

/// The packed 5-5-5 color split into its 8-bit channels.
pub open spec fn rgb_of(color: u16) -> (u8, u8, u8) {
    (
        expand5((color & 0x7C00) as int / 0x400),
        expand5((color & 0x03E0) as int / 0x20),
        expand5((color & 0x001F) as int),
    )
}

/// The color table, in asset order.
pub struct ColorData {
    pub colors: Vec<(u8, u8, u8)>,
}

impl ColorData {
    /// Splits one packed 5-5-5 color into 8-bit channels.
    pub fn get_rgb(color: u16) -> (r: (u8, u8, u8))
        ensures
            r == rgb_of(color),
    {
        proof {
            assert(((color & 0x7C00) >> 10u16) < 32 && ((color & 0x03E0) >> 5u16) < 32 && (color
                & 0x001F) < 32 && ((color & 0x7C00) >> 10u16) == (color & 0x7C00) / 0x400 && ((
            color & 0x03E0) >> 5u16) == (color & 0x03E0) / 0x20) by (bit_vector);
        }
        let r5: u32 = ((color & 0x7C00) >> 10) as u32;
        let g5: u32 = ((color & 0x03E0) >> 5) as u32;
        let b5: u32 = (color & 0x001F) as u32;
        ((r5 * 255 / 31) as u8, (g5 * 255 / 31) as u8, (b5 * 255 / 31) as u8)
    }

    /// Decodes the whole table: one little-endian `u16` per entry.
    pub fn read(data: &[u8]) -> (r: ColorData)
        ensures
            r.colors@.len() == data@.len() as int / 2,
            forall|i: int|
                0 <= i < r.colors@.len() ==> r.colors@[i] == rgb_of(le_u16(data@, i * 2)),
    {
        let n: usize = data.len();
        let count: usize = n / 2;
        let mut colors: Vec<(u8, u8, u8)> = Vec::new();
        let mut i: usize = 0;
        while i < count
            invariant
                i <= count,
                n == data@.len(),
                count == data@.len() as int / 2,
                colors@.len() == i,
                forall|k: int| 0 <= k < i ==> colors@[k] == rgb_of(le_u16(data@, k * 2)),
            decreases count - i,
        {
            proof {
                let c = count as int;
                let nn = data@.len() as int;
                assert((i + 1) * 2 <= c * 2) by (nonlinear_arith)
                    requires
                        i + 1 <= c,
                ;
                assert(c * 2 <= nn) by (nonlinear_arith)
                    requires
                        (c == nn / 2) && (0 <= nn),
                ;
            }
            let color: u16 = mul_read_u16(data, i * 2);
            colors.push(ColorData::get_rgb(color));
            i = i + 1;
        }
        ColorData { colors }
    }

    /// The color of a land graphic, with full opacity.
    pub fn get_land_color(&self, tile: u16) -> (r: (u8, u8, u8, u8))
        requires
            (tile as int) < self.colors@.len(),
        ensures
            ({
                let c = self.colors@[tile as int];
                r == (c.0, c.1, c.2, 255u8)
            }),
    {
        let (r, g, b) = self.colors[tile as usize];
        (r, g, b, 255)
    }

    /// The color of a static graphic, stored past the 16384 land entries.
    pub fn get_static_color(&self, tile: u16) -> (r: (u8, u8, u8, u8))
        requires
            tile + 16384 < self.colors@.len(),
        ensures
            ({
                let c = self.colors@[tile + 16384];
                r == (c.0, c.1, c.2, 255u8)
            }),
    {
        let (r, g, b) = self.colors[tile as usize + 16384];
        (r, g, b, 255)
    }
}

} // verus!
