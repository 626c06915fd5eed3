//! The land map: per-vertex graphic and elevation, stored as 8×8 blocks in
//! the order the map asset keeps them.

use vstd::prelude::*;
use crate::mulreader::{le_u16, mul_read_i8, mul_read_u16};

verus! {

/// One land vertex: a graphic and the elevation of the vertex.
#[derive(Debug, Copy, Clone, PartialEq, Eq, Structural)]
pub struct LandTile {
    pub land_tile: u16,
    pub z: i8,
}

/// An 8×8 block of land vertices; cell `(ox, oy)` sits at `ox * 8 + oy`.
#[derive(Debug, Clone)]
pub struct LandBlock {
    pub cells: Vec<LandTile>,
}

impl LandBlock {
    pub open spec fn wf(self) -> bool {
        self.cells@.len() == 64
    }

    /// The vertex at offsets `(ox, oy)` inside this block.
    pub open spec fn cell_spec(self, ox: int, oy: int) -> LandTile {
        self.cells@[ox * 8 + oy]
    }

    pub fn cell(&self, ox: usize, oy: usize) -> (r: LandTile)
        requires
            self.wf(),
            ox < 8,
            oy < 8,
        ensures
            r == self.cell_spec(ox as int, oy as int),
    {
        self.cells[ox * 8 + oy]
    }
}

/// Size in bytes of one block record of the land asset: a 4-byte header
/// followed by 64 records of 3 bytes.
pub const LAND_BLOCK_BYTES: usize = 196;

/// The vertex stored at cell `i` of the block record starting at `pos`.
pub open spec fn land_cell_of_bytes(data: Seq<u8>, pos: int, i: int) -> LandTile {
    LandTile {
        land_tile: le_u16(data, pos + 4 + i * 3),
        z: data[pos + 4 + i * 3 + 2] as i8,
    }
}

/// All land blocks of one world, in asset order (x-major).
#[derive(Debug)]
pub struct Land {
    pub blocks: Vec<LandBlock>,
}

impl Land {
    pub open spec fn wf(self) -> bool {
        forall|i: int| 0 <= i < self.blocks@.len() ==> (#[trigger] self.blocks@[i]).wf()
    }

    pub open spec fn block_count(self) -> int {
        self.blocks@.len() as int
    }

    pub open spec fn block_spec(self, index: int) -> LandBlock {
        self.blocks@[index]
    }

    /// Builds a land map directly from blocks.
    pub fn new(blocks: Vec<LandBlock>) -> (r: Land)
        requires
            forall|i: int| 0 <= i < blocks@.len() ==> (#[trigger] blocks@[i]).wf(),
        ensures
            r.wf(),
            r.blocks@ == blocks@,
    {
        Land { blocks }
    }

    pub fn land_block(&self, index: usize) -> (r: &LandBlock)
        requires
            (index as int) < self.block_count(),
        ensures
            r == self.block_spec(index as int),
    {
        &self.blocks[index]
    }

    /// Parses one 196-byte block record at `pos` and appends it.
    pub fn read_block(&mut self, data: &[u8], pos: usize)
        requires
            pos + LAND_BLOCK_BYTES <= data@.len(),
        ensures
            final(self).blocks@.len() == old(self).blocks@.len() + 1,
            forall|k: int|
                0 <= k < old(self).blocks@.len() ==> final(self).blocks@[k] == old(
                    self,
                ).blocks@[k],
            final(self).blocks@.last().wf(),
            forall|i: int|
                0 <= i < 64 ==> final(self).blocks@.last().cells@[i] == land_cell_of_bytes(
                    data@,
                    pos as int,
                    i,
                ),
    {
        let n: usize = data.len();
        let mut cells: Vec<LandTile> = Vec::new();
        let mut i: usize = 0;
        while i < 64
            invariant
                i <= 64,
                pos + LAND_BLOCK_BYTES <= n == data@.len(),
                cells@.len() == i,
                forall|k: int|
                    0 <= k < i ==> cells@[k] == land_cell_of_bytes(data@, pos as int, k),
            decreases 64 - i,
        {
            let land_tile: u16 = mul_read_u16(data, pos + 4 + i * 3);
            let z: i8 = mul_read_i8(data, pos + 4 + i * 3 + 2);
            cells.push(LandTile { land_tile, z });
            i = i + 1;
        }
        let block = LandBlock { cells };
        self.blocks.push(block);
    }

    /// Parses a whole world of `x_blocks * y_blocks` block records laid out
    /// back to back, as the plain map asset stores them. Fails exactly when
    /// the buffer is too short.
    pub fn read(data: &[u8], x_blocks: usize, y_blocks: usize) -> (r: Option<Land>)
        requires
            x_blocks * y_blocks <= 0x100_0000,
        ensures
            r.is_some() <==> x_blocks * y_blocks * LAND_BLOCK_BYTES <= data@.len(),
            r matches Some(land) ==> {
                &&& land.wf()
                &&& land.block_count() == x_blocks * y_blocks
                &&& forall|b: int, i: int|
                    0 <= b < land.block_count() && 0 <= i < 64
                        ==> land.block_spec(b).cells@[i] == land_cell_of_bytes(
                        data@,
                        b * LAND_BLOCK_BYTES,
                        i,
                    )
            },
    {
        let total: usize = x_blocks * y_blocks;
        let n: usize = data.len();
        if total > n / LAND_BLOCK_BYTES {
            proof {
                let t = total as int;
                let nn = n as int;
                assert(t > nn / 196 ==> t * 196 > nn) by (nonlinear_arith);
            }
            return None;
        }
        proof {
            let t = total as int;
            let nn = n as int;
            assert(t <= nn / 196 ==> t * 196 <= nn) by (nonlinear_arith);
        }
        let mut land = Land { blocks: Vec::new() };
        let mut b: usize = 0;
        while b < total
            invariant
                b <= total,
                total * LAND_BLOCK_BYTES <= n == data@.len(),
                total <= 0x100_0000,
                land.blocks@.len() == b,
                land.wf(),
                forall|k: int, i: int|
                    0 <= k < b && 0 <= i < 64 ==> #[trigger] land.blocks@[k].cells@[i]
                        == land_cell_of_bytes(data@, k * LAND_BLOCK_BYTES, i),
            decreases total - b,
        {
            proof {
                assert((b + 1) * 196 <= total * 196) by (nonlinear_arith)
                    requires
                        b + 1 <= total,
                ;
                assert(b * 196 + 196 == (b + 1) * 196) by (nonlinear_arith);
            }
            land.read_block(data, b * LAND_BLOCK_BYTES);
            b = b + 1;
        }
        Some(land)
    }
}

} // verus!
