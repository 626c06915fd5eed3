//! The world: the immutable static base (block-addressed land and static
//! tiles on a toroidal grid) and, on top of it, the mutable overlay of
//! dynamic objects, with the per-cell query engine that feeds the step
//! oracle.

use vstd::prelude::*;
use crate::geometry::{half_floor, rem_euclid};
use crate::mapdata::Land;
use crate::staticdata::Static;
use crate::tiles::{lemma_obj_lt_total, obj_lt, obj_lt_exec, DynamicWorldObject, TileShape, WorldTile};

verus! {

/// The static part of one world: dimensions in 8×8 blocks, land vertices
/// and static tiles.
pub struct StaticWorld {
    pub width_blocks: usize,
    pub height_blocks: usize,
    pub land: Land,
    pub statics: Static,
}

impl StaticWorld {
    pub open spec fn wf(self) -> bool {
        &&& 1 <= self.width_blocks <= 0x8000
        &&& 1 <= self.height_blocks <= 0x8000
        &&& self.land.wf()
        &&& self.land.block_count() == self.width_blocks * self.height_blocks
        &&& self.statics.wf()
        &&& self.statics.block_count() == self.width_blocks * self.height_blocks
    }

    /// World width in tiles.
    pub open spec fn width_spec(self) -> int {
        self.width_blocks * 8
    }

    /// World height in tiles.
    pub open spec fn height_spec(self) -> int {
        self.height_blocks * 8
    }

    /// The x coordinate wrapped into `[0, width)`.
    pub open spec fn norm_x(self, x: int) -> int {
        x % self.width_spec()
    }

    /// The y coordinate wrapped into `[0, height)`.
    pub open spec fn norm_y(self, y: int) -> int {
        y % self.height_spec()
    }

    /// The index of the block holding block coordinates `(bx, by)`, after
    /// wrapping: blocks are stored x-major.
    pub open spec fn block_index_spec(self, bx: int, by: int) -> int {
        (bx % (self.width_blocks as int)) * self.height_blocks + (by % (self.height_blocks as int))
    }

    /// The block index of the tile `(x, y)`, after wrapping.
    pub open spec fn tile_block_spec(self, x: int, y: int) -> int {
        (self.norm_x(x) / 8) * self.height_blocks + self.norm_y(y) / 8
    }

    /// The offsets of the tile `(x, y)` inside its block.
    pub open spec fn tile_ox(self, x: int) -> int {
        self.norm_x(x) % 8
    }

    pub open spec fn tile_oy(self, y: int) -> int {
        self.norm_y(y) % 8
    }

    pub fn new(width_blocks: usize, height_blocks: usize, land: Land, statics: Static) -> (r:
        StaticWorld)
        requires
            (StaticWorld { width_blocks, height_blocks, land: land, statics: statics }).wf(),
        ensures
            r == (StaticWorld { width_blocks, height_blocks, land: land, statics: statics }),
            r.wf(),
    {
        StaticWorld { width_blocks, height_blocks, land, statics }
    }

    pub fn width(&self) -> (r: usize)
        requires
            self.wf(),
        ensures
            r == self.width_spec(),
    {
        self.width_blocks * 8
    }

    pub fn height(&self) -> (r: usize)
        requires
            self.wf(),
        ensures
            r == self.height_spec(),
    {
        self.height_blocks * 8
    }

    /// Wraps tile coordinates onto the torus by Euclidean remainder.
    pub fn normalize_tiles(&self, x: isize, y: isize) -> (r: (isize, isize))
        requires
            self.wf(),
        ensures
            r.0 == self.norm_x(x as int),
            r.1 == self.norm_y(y as int),
            0 <= r.0 < self.width_spec(),
            0 <= r.1 < self.height_spec(),
    {
        (rem_euclid(x, (self.width_blocks * 8) as isize), rem_euclid(
            y,
            (self.height_blocks * 8) as isize,
        ))
    }

    /// Wraps block coordinates onto the torus.
    pub fn normalize_blocks(&self, bx: isize, by: isize) -> (r: (isize, isize))
        requires
            self.wf(),
        ensures
            r.0 == (bx as int) % (self.width_blocks as int),
            r.1 == (by as int) % (self.height_blocks as int),
            0 <= r.0 < self.width_blocks,
            0 <= r.1 < self.height_blocks,
    {
        (rem_euclid(bx, self.width_blocks as isize), rem_euclid(by, self.height_blocks as isize))
    }

    /// The storage index of block `(bx, by)`.
    pub fn block_index(&self, bx: isize, by: isize) -> (r: usize)
        requires
            self.wf(),
        ensures
            r == self.block_index_spec(bx as int, by as int),
            r < self.width_blocks * self.height_blocks,
    {
        let (bxn, byn) = self.normalize_blocks(bx, by);
        proof {
            let wb = self.width_blocks as int;
            let hb = self.height_blocks as int;
            assert(wb * hb <= 0x4000_0000) by (nonlinear_arith)
                requires
                    (0 <= wb) && (wb <= 0x8000) && (0 <= hb) && (hb <= 0x8000),
            ;
            assert((bxn as int) * hb + (byn as int) < wb * hb) by (nonlinear_arith)
                requires
                    (0 <= bxn as int) && (bxn as int <= wb - 1) && (0 <= byn as int) && ((byn
                        as int) < hb) && (1 <= hb),
            ;
        }
        let r: usize = bxn as usize * self.height_blocks + byn as usize;
        r
    }

    /// The offsets of tile `(x, y)` inside its block.
    pub fn tile_offsets(&self, x: isize, y: isize) -> (r: (isize, isize))
        requires
            self.wf(),
        ensures
            r.0 == self.tile_ox(x as int),
            r.1 == self.tile_oy(y as int),
            0 <= r.0 < 8,
            0 <= r.1 < 8,
    {
        let (x, y) = self.normalize_tiles(x, y);
        (x % 8, y % 8)
    }

    /// The block index of tile `(x, y)` together with the offsets inside
    /// that block.
    pub fn tile_to_block_offsets(&self, x: isize, y: isize) -> (r: (usize, (usize, usize)))
        requires
            self.wf(),
        ensures
            r.0 == self.tile_block_spec(x as int, y as int),
            r.0 < self.width_blocks * self.height_blocks,
            r.1.0 == self.tile_ox(x as int),
            r.1.1 == self.tile_oy(y as int),
            r.1.0 < 8,
            r.1.1 < 8,
    {
        let (x, y) = self.normalize_tiles(x, y);
        let bx: isize = x / 8;
        let ox: isize = x % 8;
        let byn: isize = y / 8;
        let oy: isize = y % 8;
        proof {
            let wb = self.width_blocks as int;
            let hb = self.height_blocks as int;
            let xi = x as int;
            let yi = y as int;
            assert(xi / 8 < wb) by (nonlinear_arith)
                requires
                    0 <= xi < wb * 8,
            ;
            assert(yi / 8 < hb) by (nonlinear_arith)
                requires
                    0 <= yi < hb * 8,
            ;
            assert(wb * hb <= 0x4000_0000) by (nonlinear_arith)
                requires
                    (0 <= wb) && (wb <= 0x8000) && (0 <= hb) && (hb <= 0x8000),
            ;
            assert((xi / 8) * hb + yi / 8 < wb * hb) by (nonlinear_arith)
                requires
                    (0 <= xi / 8) && (xi / 8 <= wb - 1) && (0 <= yi / 8) && (yi / 8 < hb) && (1
                        <= hb),
            ;
        }
        let index: usize = bx as usize * self.height_blocks + byn as usize;
        (index, (ox as usize, oy as usize))
    }
}

impl StaticWorld {
    /// The land vertex at `(x, y)` after wrapping.
    pub open spec fn land_cell_spec(self, x: int, y: int) -> crate::mapdata::LandTile {
        self.land.block_spec(self.tile_block_spec(x, y)).cell_spec(self.tile_ox(x), self.tile_oy(y))
    }

    /// The elevation of the land vertex at `(x, y)`.
    pub open spec fn land_z_spec(self, x: int, y: int) -> int {
        self.land_cell_spec(x, y).z as int
    }

    /// The four vertex elevations of the land cell at `(x, y)`: the cell's
    /// own vertex and its three neighbours, in the order left, bottom,
    /// right, top.
    pub open spec fn cell_left(self, x: int, y: int) -> int {
        self.land_z_spec(x, y)
    }

    pub open spec fn cell_bottom(self, x: int, y: int) -> int {
        self.land_z_spec(x + 1, y)
    }

    pub open spec fn cell_right(self, x: int, y: int) -> int {
        self.land_z_spec(x + 1, y + 1)
    }

    pub open spec fn cell_top(self, x: int, y: int) -> int {
        self.land_z_spec(x, y + 1)
    }

    /// The lowest of the four vertex elevations: the cell's base.
    pub open spec fn land_z_base_spec(self, x: int, y: int) -> int {
        min2(
            self.cell_left(x, y),
            min2(self.cell_right(x, y), min2(self.cell_top(x, y), self.cell_bottom(x, y))),
        )
    }

    /// The standing elevation of the cell: the average of the less slanted
    /// vertex pair, the left-right pair on ties, rounded toward negative
    /// infinity.
    pub open spec fn land_z_stand_spec(self, x: int, y: int) -> int {
        let l = self.cell_left(x, y);
        let b = self.cell_bottom(x, y);
        let r = self.cell_right(x, y);
        let t = self.cell_top(x, y);
        if abs2(l - r) > abs2(t - b) {
            (t + b) / 2
        } else {
            (l + r) / 2
        }
    }

    /// The elevation at which the cell is left in the given direction: the
    /// midpoint of the exit edge for a straight direction, the single exit
    /// vertex for a diagonal one, rounded toward negative infinity.
    pub open spec fn land_z_exit_spec(self, x: int, y: int, direction: u8) -> int {
        let l = self.cell_left(x, y);
        let b = self.cell_bottom(x, y);
        let r = self.cell_right(x, y);
        let t = self.cell_top(x, y);
        match direction & 7 {
            0u8 => (l + b) / 2,
            1u8 => b,
            2u8 => (b + r) / 2,
            3u8 => r,
            4u8 => (r + t) / 2,
            5u8 => t,
            6u8 => (t + l) / 2,
            _ => l,
        }
    }

    /// The elevation of the land vertex at `(x, y)`.
    pub fn land_vertex_z(&self, x: isize, y: isize) -> (r: i8)
        requires
            self.wf(),
        ensures
            r as int == self.land_z_spec(x as int, y as int),
    {
        let (index, (ox, oy)) = self.tile_to_block_offsets(x, y);
        let land_block = self.land.land_block(index);
        land_block.cell(ox, oy).z
    }

    /// The base, standing and exit elevations of the land cell at `(x, y)`
    /// for the given direction of travel.
    #[verifier::rlimit(100)]
    pub fn land_tile_z_stand(&self, x: isize, y: isize, direction: u8) -> (r: (i8, i8, i8))
        requires
            self.wf(),
            x < isize::MAX,
            y < isize::MAX,
        ensures
            r.0 as int == self.land_z_base_spec(x as int, y as int),
            r.1 as int == self.land_z_stand_spec(x as int, y as int),
            r.2 as int == self.land_z_exit_spec(x as int, y as int, direction),
    {
        let left: i32 = self.land_vertex_z(x, y) as i32;
        let bottom: i32 = self.land_vertex_z(x + 1, y) as i32;
        let right: i32 = self.land_vertex_z(x + 1, y + 1) as i32;
        let top: i32 = self.land_vertex_z(x, y + 1) as i32;

        let mut min_z: i32 = bottom;
        if top < min_z {
            min_z = top;
        }
        if right < min_z {
            min_z = right;
        }
        if left < min_z {
            min_z = left;
        }

        let dlr: i32 = if left >= right {
            left - right
        } else {
            right - left
        };
        let dtb: i32 = if top >= bottom {
            top - bottom
        } else {
            bottom - top
        };
        let standing_z: i32 = if dlr > dtb {
            half_floor(top + bottom)
        } else {
            half_floor(left + right)
        };

        let exit_z: i32 = match direction & 7 {
            0 => half_floor(left + bottom),
            1 => bottom,
            2 => half_floor(bottom + right),
            3 => right,
            4 => half_floor(right + top),
            5 => top,
            6 => half_floor(top + left),
            _ => left,
        };

        (min_z as i8, standing_z as i8, exit_z as i8)
    }

    /// The land block and the static tiles of the block at `index`.
    pub fn blocks(&self, index: usize) -> (r: (&crate::mapdata::LandBlock, Vec<
        crate::staticdata::StaticTile,
    >))
        requires
            self.wf(),
            (index as int) < self.width_blocks * self.height_blocks,
        ensures
            r.0 == self.land.block_spec(index as int),
            r.1@ == self.statics.block_seq(index as int),
    {
        (self.land.land_block(index), self.statics.statics_block(index))
    }
}

/// A block's objects are strictly ordered by `obj_lt`, so each object
/// occurs at most once.
pub open spec fn sorted_objs(s: Seq<DynamicWorldObject>) -> bool {
    forall|p: int, q: int| 0 <= p < q < s.len() ==> obj_lt(#[trigger] s[p], #[trigger] s[q])
}

/// Inserting into a sequence adds exactly that member.
proof fn lemma_insert_contains(s: Seq<DynamicWorldObject>, pos: int, x: DynamicWorldObject)
    requires
        0 <= pos <= s.len(),
    ensures
        forall|o: DynamicWorldObject|
            #[trigger] s.insert(pos, x).contains(o) <==> (s.contains(o) || o == x),
{
    let s2 = s.insert(pos, x);
    assert forall|o: DynamicWorldObject| #[trigger] s2.contains(o) implies (s.contains(o) || o
        == x) by {
        let k = choose|k: int| 0 <= k < s2.len() && s2[k] == o;
        if k < pos {
            assert(s[k] == o);
        } else if k > pos {
            assert(s[k - 1] == o);
        }
    }
    assert forall|o: DynamicWorldObject| s.contains(o) || o == x implies #[trigger] s2.contains(
        o,
    ) by {
        if s.contains(o) {
            let k = choose|k: int| 0 <= k < s.len() && s[k] == o;
            if k < pos {
                assert(s2[k] == o);
            } else {
                assert(s2[k + 1] == o);
            }
        } else {
            assert(s2[pos] == o);
        }
    }
}

/// Removing an index removes exactly that member, when the sequence is
/// strictly sorted.
proof fn lemma_remove_contains(s: Seq<DynamicWorldObject>, pos: int)
    requires
        0 <= pos < s.len(),
        sorted_objs(s),
    ensures
        forall|o: DynamicWorldObject|
            #[trigger] s.remove(pos).contains(o) <==> (s.contains(o) && o != s[pos]),
{
    let s2 = s.remove(pos);
    assert forall|o: DynamicWorldObject| #[trigger] s2.contains(o) implies (s.contains(o) && o
        != s[pos]) by {
        let k = choose|k: int| 0 <= k < s2.len() && s2[k] == o;
        if k < pos {
            assert(s[k] == o);
            lemma_obj_lt_total(s[k], s[pos], s[pos]);
        } else {
            assert(s[k + 1] == o);
            lemma_obj_lt_total(s[pos], s[k + 1], s[k + 1]);
        }
    }
    assert forall|o: DynamicWorldObject| s.contains(o) && o != s[pos] implies #[trigger] s2.contains(
        o,
    ) by {
        let k = choose|k: int| 0 <= k < s.len() && s[k] == o;
        if k < pos {
            assert(s2[k] == o);
        } else {
            assert(s2[k - 1] == o);
        }
    }
}

/// Two strictly sorted sequences with the same members are the same
/// sequence.
pub proof fn lemma_sorted_objs_extensional(s1: Seq<DynamicWorldObject>, s2: Seq<DynamicWorldObject>)
    requires
        sorted_objs(s1),
        sorted_objs(s2),
        forall|o: DynamicWorldObject| s1.contains(o) <==> s2.contains(o),
    ensures
        s1 == s2,
    decreases s1.len(),
{
    if s1.len() == 0 {
        if s2.len() > 0 {
            assert(s2.contains(s2[0]));
            assert(false);
        }
        assert(s1 =~= s2);
    } else {
        assert(s1.contains(s1.last()));
        assert(s2.contains(s1.last()));
        let k = choose|k: int| 0 <= k < s2.len() && s2[k] == s1.last();
        if k < s2.len() - 1 {
            // something in s2 is above s1's maximum, yet must be in s1
            assert(obj_lt(s1.last(), s2.last()));
            assert(s2.contains(s2.last()));
            assert(s1.contains(s2.last()));
            let j = choose|j: int| 0 <= j < s1.len() && s1[j] == s2.last();
            if j < s1.len() - 1 {
                lemma_obj_lt_total(s1.last(), s1[j], s1.last());
                assert(false);
            } else {
                lemma_obj_lt_total(s1.last(), s1.last(), s1.last());
                assert(false);
            }
        }
        assert(s2.len() >= 1 && s2.last() == s1.last());
        assert forall|o: DynamicWorldObject| #[trigger] s1.drop_last().contains(o)
            <==> s2.drop_last().contains(o) by {
            if s1.drop_last().contains(o) {
                let j = choose|j: int| 0 <= j < s1.len() - 1 && s1[j] == o;
                assert(s1.contains(o));
                assert(obj_lt(o, s1.last()));
                let j2 = choose|j2: int| 0 <= j2 < s2.len() && s2[j2] == o;
                lemma_obj_lt_total(o, o, o);
                assert(j2 < s2.len() - 1);
                assert(s2.drop_last()[j2] == o);
            }
            if s2.drop_last().contains(o) {
                let j = choose|j: int| 0 <= j < s2.len() - 1 && s2[j] == o;
                assert(s2.contains(o));
                assert(obj_lt(o, s2.last()));
                let j2 = choose|j2: int| 0 <= j2 < s1.len() && s1[j2] == o;
                lemma_obj_lt_total(o, o, o);
                assert(j2 < s1.len() - 1);
                assert(s1.drop_last()[j2] == o);
            }
        }
        lemma_sorted_objs_extensional(s1.drop_last(), s2.drop_last());
        assert(s1 =~= s1.drop_last().push(s1.last()));
        assert(s2 =~= s2.drop_last().push(s2.last()));
    }
}

/// The position and coordinates of a dynamic object.
fn obj_xy(item: &DynamicWorldObject) -> (r: (isize, isize))
    ensures
        r.0 == item.xs(),
        r.1 == item.ys(),
{
    match item {
        DynamicWorldObject::MultiPart { x, y, .. } => (*x, *y),
        DynamicWorldObject::GameObject { x, y, .. } => (*x, *y),
    }
}

/// First position in a sorted block at which `item` would stand.
fn find_obj_pos(v: &Vec<DynamicWorldObject>, item: &DynamicWorldObject) -> (pos: usize)
    requires
        sorted_objs(v@),
    ensures
        pos <= v@.len(),
        forall|j: int| 0 <= j < pos ==> obj_lt(#[trigger] v@[j], *item),
        forall|j: int| pos <= j < v@.len() ==> !obj_lt(#[trigger] v@[j], *item),
{
    let n: usize = v.len();
    let mut pos: usize = 0;
    while pos < n && obj_lt_exec(&v[pos], item)
        invariant
            pos <= n == v@.len(),
            sorted_objs(v@),
            forall|j: int| 0 <= j < pos ==> obj_lt(#[trigger] v@[j], *item),
        decreases n - pos,
    {
        pos = pos + 1;
    }
    proof {
        assert forall|j: int| pos <= j < v@.len() implies !obj_lt(#[trigger] v@[j], *item) by {
            if j > pos && obj_lt(v@[j], *item) {
                lemma_obj_lt_total(v@[pos as int], v@[j], *item);
            }
        }
    }
    pos
}

/// A world with its mutable overlay: one ordered set of dynamic objects per
/// block.
pub struct DynamicWorld {
    pub base: StaticWorld,
    pub overlay_blocks: Vec<Vec<DynamicWorldObject>>,
}

impl DynamicWorld {
    pub open spec fn wf(self) -> bool {
        &&& self.base.wf()
        &&& self.overlay_blocks@.len() == self.base.width_blocks * self.base.height_blocks
        &&& forall|b: int|
            0 <= b < self.overlay_blocks@.len() ==> sorted_objs(#[trigger] self.overlay_blocks@[b]@)
        &&& forall|b: int, k: int|
            0 <= b < self.overlay_blocks@.len() && 0 <= k < self.overlay_blocks@[b]@.len()
                ==> self.obj_block(#[trigger] self.overlay_blocks@[b]@[k]) == b
    }

    /// The block an object belongs to, by its coordinates.
    pub open spec fn obj_block(self, o: DynamicWorldObject) -> int {
        self.base.tile_block_spec(o.xs(), o.ys())
    }

    /// The ordered objects of block `b`.
    pub open spec fn block_objs(self, b: int) -> Seq<DynamicWorldObject> {
        self.overlay_blocks@[b]@
    }

    /// Whether the overlay holds `o`.
    pub open spec fn contains_obj(self, o: DynamicWorldObject) -> bool {
        &&& 0 <= self.obj_block(o) < self.overlay_blocks@.len()
        &&& self.block_objs(self.obj_block(o)).contains(o)
    }

    /// A world with an empty overlay over the given base.
    pub fn new(base: StaticWorld) -> (r: DynamicWorld)
        requires
            base.wf(),
        ensures
            r.wf(),
            r.base == base,
            forall|b: int| 0 <= b < r.overlay_blocks@.len() ==> r.block_objs(b).len() == 0,
            forall|o: DynamicWorldObject| !r.contains_obj(o),
    {
        proof {
            let wb = base.width_blocks as int;
            let hb = base.height_blocks as int;
            assert(wb * hb <= 0x4000_0000) by (nonlinear_arith)
                requires
                    (0 <= wb) && (wb <= 0x8000) && (0 <= hb) && (hb <= 0x8000),
            ;
        }
        let total: usize = base.width_blocks * base.height_blocks;
        let mut overlay_blocks: Vec<Vec<DynamicWorldObject>> = Vec::new();
        let mut i: usize = 0;
        while i < total
            invariant
                i <= total,
                overlay_blocks@.len() == i,
                forall|b: int| 0 <= b < i ==> (#[trigger] overlay_blocks@[b])@.len() == 0,
            decreases total - i,
        {
            overlay_blocks.push(Vec::new());
            i = i + 1;
        }
        DynamicWorld { base, overlay_blocks }
    }

    /// Puts one object into its block's ordered set; inserting an object
    /// already present changes nothing.
    pub fn overlay_insert_item(&mut self, item: DynamicWorldObject)
        requires
            old(self).wf(),
        ensures
            final(self).wf(),
            final(self).base == old(self).base,
            final(self).overlay_blocks@.len() == old(self).overlay_blocks@.len(),
            forall|o: DynamicWorldObject|
                final(self).contains_obj(o) <==> (old(self).contains_obj(o) || o == item),
            forall|b: int|
                0 <= b < old(self).overlay_blocks@.len() && b != old(self).obj_block(item)
                    ==> final(self).block_objs(b) == old(self).block_objs(b),
            old(self).contains_obj(item) ==> *final(self) == *old(self),
    {
        let (x, y) = obj_xy(&item);
        let (bi, _) = self.base.tile_to_block_offsets(x, y);
        let pos = find_obj_pos(&self.overlay_blocks[bi], &item);
        let present: bool = pos < self.overlay_blocks[bi].len() && {
            let cur = self.overlay_blocks[bi][pos];
            cur == item
        };
        if present {
            proof {
                assert(old(self).block_objs(bi as int).contains(item));
            }
            return ;
        }
        proof {
            let s = self.overlay_blocks@[bi as int]@;
            let p = pos as int;
            // the object is nowhere in this block
            if s.contains(item) {
                let k = choose|k: int| 0 <= k < s.len() && s[k] == item;
                lemma_obj_lt_total(item, item, item);
                if k < p {
                    assert(obj_lt(s[k], item));
                } else {
                    assert(!obj_lt(s[k], item));
                    if k > p {
                        assert(obj_lt(s[p], s[k]));
                    }
                }
                assert(false);
            }
            lemma_insert_contains(s, p, item);
            // the extended block stays strictly sorted
            assert forall|p2: int, q2: int|
                0 <= p2 < q2 < s.insert(p, item).len() implies obj_lt(
                #[trigger] s.insert(p, item)[p2],
                #[trigger] s.insert(p, item)[q2],
            ) by {
                let s2 = s.insert(p, item);
                if q2 < p {
                } else if p2 < p && q2 == p {
                } else if p2 < p && q2 > p {
                    assert(s2[p2] == s[p2] && s2[q2] == s[q2 - 1]);
                } else if p2 == p && q2 > p {
                    assert(s2[q2] == s[q2 - 1]);
                    assert(!obj_lt(s[q2 - 1], item));
                    if s[q2 - 1] == item {
                        assert(s.contains(item));
                        assert(false);
                    }
                    lemma_obj_lt_total(item, s[q2 - 1], item);
                } else {
                    assert(s2[p2] == s[p2 - 1] && s2[q2] == s[q2 - 1]);
                }
            }
        }
        self.overlay_blocks[bi].insert(pos, item);
        proof {
            assert forall|o: DynamicWorldObject| final(self).contains_obj(o) <==> (old(
                self,
            ).contains_obj(o) || o == item) by {
                if self.obj_block(o) != bi as int && 0 <= self.obj_block(o)
                    < self.overlay_blocks@.len() {
                    assert(self.block_objs(self.obj_block(o)) == old(self).block_objs(
                        self.obj_block(o),
                    ));
                }
            }
        }
    }

    /// Takes one object out of its block's ordered set; deleting an absent
    /// object changes nothing. Returns whether anything was removed.
    pub fn overlay_delete_item(&mut self, item: &DynamicWorldObject) -> (removed: bool)
        requires
            old(self).wf(),
        ensures
            final(self).wf(),
            final(self).base == old(self).base,
            final(self).overlay_blocks@.len() == old(self).overlay_blocks@.len(),
            removed == old(self).contains_obj(*item),
            forall|o: DynamicWorldObject|
                final(self).contains_obj(o) <==> (old(self).contains_obj(o) && o != *item),
            forall|b: int|
                0 <= b < old(self).overlay_blocks@.len() && b != old(self).obj_block(*item)
                    ==> final(self).block_objs(b) == old(self).block_objs(b),
            !old(self).contains_obj(*item) ==> *final(self) == *old(self),
    {
        let (x, y) = obj_xy(item);
        let (bi, _) = self.base.tile_to_block_offsets(x, y);
        let pos = find_obj_pos(&self.overlay_blocks[bi], item);
        let present: bool = pos < self.overlay_blocks[bi].len() && {
            let cur = self.overlay_blocks[bi][pos];
            cur == *item
        };
        proof {
            let s = self.overlay_blocks@[bi as int]@;
            let p = pos as int;
            if !present && s.contains(*item) {
                let k = choose|k: int| 0 <= k < s.len() && s[k] == *item;
                lemma_obj_lt_total(*item, *item, *item);
                if k < p {
                    assert(obj_lt(s[k], *item));
                } else {
                    assert(!obj_lt(s[k], *item));
                    if k > p {
                        assert(obj_lt(s[p], s[k]));
                    }
                }
                assert(false);
            }
        }
        if present {
            proof {
                let s = self.overlay_blocks@[bi as int]@;
                lemma_remove_contains(s, pos as int);
                assert forall|p2: int, q2: int|
                    0 <= p2 < q2 < s.remove(pos as int).len() implies obj_lt(
                    #[trigger] s.remove(pos as int)[p2],
                    #[trigger] s.remove(pos as int)[q2],
                ) by {}
            }
            let _ = self.overlay_blocks[bi].remove(pos);
            proof {
                assert(old(self).block_objs(bi as int).contains(*item));
                assert forall|o: DynamicWorldObject| final(self).contains_obj(o) <==> (old(
                    self,
                ).contains_obj(o) && o != *item) by {
                    if self.obj_block(o) != bi as int && 0 <= self.obj_block(o)
                        < self.overlay_blocks@.len() {
                        assert(self.block_objs(self.obj_block(o)) == old(self).block_objs(
                            self.obj_block(o),
                        ));
                    }
                }
            }
            true
        } else {
            false
        }
    }
}

/// The overlay object synthesized for part `k` of a standard multi whose
/// head sits at `(x, y, z)`: part offsets are relative to the head.
pub open spec fn std_part_obj(
    x: isize,
    y: isize,
    z: i8,
    serial: u32,
    p: crate::multidata::MultiPart,
    k: int,
) -> DynamicWorldObject {
    DynamicWorldObject::MultiPart {
        x: (x + p.x) as isize,
        y: (y + p.y) as isize,
        z: (z + (p.z as i8)) as i8,
        tile: p.static_tile as u32,
        parent: serial,
        counter: k as u16,
    }
}

/// The overlay object synthesized for part `k` of a custom multi: custom
/// parts carry absolute coordinates.
pub open spec fn custom_part_obj(serial: u32, p: crate::api::MultiItemPart, k: int) -> DynamicWorldObject {
    DynamicWorldObject::MultiPart {
        x: p.x,
        y: p.y,
        z: p.z,
        tile: p.graphic as u32,
        parent: serial,
        counter: k as u16,
    }
}

/// The synthesized part objects of a multi head: from the multi table for
/// standard multis, from the caller-supplied lists for custom ones, and
/// none for a custom multi whose list is missing.
pub open spec fn multi_part_objs(
    data: crate::world_model::WorldData,
    x: isize,
    y: isize,
    z: i8,
    serial: u32,
    graphic: u32,
) -> Seq<DynamicWorldObject> {
    if graphic & 0x10000 != 0 {
        let parts = data.multis.parts_spec((graphic & 0xFFFF) as int);
        Seq::new(parts.len(), |k: int| std_part_obj(x, y, z, serial, parts[k], k))
    } else if graphic & 0x20000 != 0 {
        match data.custom_multis.get_spec(serial) {
            Some(parts) => Seq::new(parts.len(), |k: int| custom_part_obj(serial, parts[k], k)),
            None => Seq::empty(),
        }
    } else {
        Seq::empty()
    }
}

/// All overlay objects an insertion of this item brings in: the head and,
/// for a multi, its parts.
pub open spec fn inserted_objs(
    data: crate::world_model::WorldData,
    x: isize,
    y: isize,
    z: i8,
    serial: u32,
    graphic: u32,
) -> Seq<DynamicWorldObject> {
    let head = DynamicWorldObject::GameObject { x, y, z, serial, graphic };
    if graphic & 0x30000 != 0 {
        multi_part_objs(data, x, y, z, serial, graphic).push(head)
    } else {
        seq![head]
    }
}

/// Machine limits on a multi's derived parts: the table covers the multi
/// id, counters fit in 16 bits, and every derived coordinate stays in its
/// type's range.
pub open spec fn multi_parts_fit(
    data: crate::world_model::WorldData,
    x: isize,
    y: isize,
    z: i8,
    serial: u32,
    graphic: u32,
) -> bool {
    &&& (graphic & 0x10000 != 0 ==> {
        let parts = data.multis.parts_spec((graphic & 0xFFFF) as int);
        &&& (graphic & 0xFFFF) < data.multis.multis@.len()
        &&& parts.len() <= 0x1_0000
        &&& forall|k: int|
            0 <= k < parts.len() ==> {
                let p = #[trigger] parts[k];
                &&& isize::MIN <= x + p.x <= isize::MAX
                &&& isize::MIN <= y + p.y <= isize::MAX
                &&& -128 <= z + (p.z as i8) <= 127
            }
    })
    &&& (graphic & 0x20000 != 0 ==> (match data.custom_multis.get_spec(serial) {
        Some(parts) => parts.len() <= 0x1_0000,
        None => true,
    }))
}

impl DynamicWorld {
    /// Expands a multi head into its part objects and inserts each one.
    fn overlay_insert_multi_parts(
        &mut self,
        data: &crate::world_model::WorldData,
        x: isize,
        y: isize,
        z: i8,
        serial: u32,
        graphic: u32,
    )
        requires
            old(self).wf(),
            data.wf(),
            graphic & 0x30000 != 0,
            multi_parts_fit(*data, x, y, z, serial, graphic),
        ensures
            final(self).wf(),
            final(self).base == old(self).base,
            final(self).overlay_blocks@.len() == old(self).overlay_blocks@.len(),
            forall|o: DynamicWorldObject|
                final(self).contains_obj(o) <==> (old(self).contains_obj(o) || multi_part_objs(
                    *data,
                    x,
                    y,
                    z,
                    serial,
                    graphic,
                ).contains(o)),
    {
        let ghost objs = multi_part_objs(*data, x, y, z, serial, graphic);
        if graphic & 0x10000 != 0 {
            proof {
                assert(graphic & 0xFFFF < 0x10000) by (bit_vector);
            }
            let multi_id: u16 = (graphic & 0xFFFF) as u16;
            let parts = data.multis.multi_parts(multi_id);
            let n: usize = parts.len();
            let mut k: usize = 0;
            while k < n
                invariant
                    k <= n == objs.len(),
                    self.wf(),
                    self.base == old(self).base,
                    self.overlay_blocks@.len() == old(self).overlay_blocks@.len(),
                    graphic & 0x10000 != 0,
                    multi_parts_fit(*data, x, y, z, serial, graphic),
                    parts@ == data.multis.parts_spec((graphic & 0xFFFF) as int),
                    objs == multi_part_objs(*data, x, y, z, serial, graphic),
                    n <= 0x1_0000,
                    forall|j: int| 0 <= j < n ==> objs[j] == std_part_obj(x, y, z, serial, parts@[j], j),
                    forall|o: DynamicWorldObject|
                        self.contains_obj(o) <==> (old(self).contains_obj(o) || objs.take(
                            k as int,
                        ).contains(o)),
                decreases n - k,
            {
                let p = parts[k];
                let px: isize = x + p.x as isize;
                let py: isize = y + p.y as isize;
                let pz: i8 = z + (p.z as i8);
                let obj = DynamicWorldObject::MultiPart {
                    x: px,
                    y: py,
                    z: pz,
                    tile: p.static_tile as u32,
                    parent: serial,
                    counter: k as u16,
                };
                proof {
                    assert(obj == objs[k as int]);
                }
                self.overlay_insert_item(obj);
                k = k + 1;
                proof {
                    assert forall|o: DynamicWorldObject| objs.take(k as int).contains(o)
                        <==> (objs.take(k - 1).contains(o) || o == objs[k - 1]) by {
                        assert(objs.take(k as int) =~= objs.take(k - 1).push(objs[k - 1]));
                        if objs.take(k as int).contains(o) {
                            let j = choose|j: int| 0 <= j < k && objs.take(k as int)[j] == o;
                            if j < k - 1 {
                                assert(objs.take(k - 1)[j] == o);
                            }
                        }
                        if objs.take(k - 1).contains(o) {
                            let j = choose|j: int| 0 <= j < k - 1 && #[trigger] objs.take(k - 1)[j] == o;
                            assert(objs.take(k as int)[j] == o);
                        }
                        if o == objs[k - 1] {
                            assert(objs.take(k as int)[k - 1] == o);
                        }
                    }
                }
            }
            proof {
                assert(objs.take(n as int) =~= objs);
            }
        } else {
            proof {
                assert((graphic & 0x10000) == 0 && graphic & 0x30000 != 0 ==> graphic & 0x20000
                    != 0) by (bit_vector);
            }
            let found = data.custom_multis.get(serial);
            match found {
                Some(parts) => {
                    let n: usize = parts.len();
                    let mut k: usize = 0;
                    while k < n
                        invariant
                            k <= n == objs.len(),
                            self.wf(),
                            self.base == old(self).base,
                            self.overlay_blocks@.len() == old(self).overlay_blocks@.len(),
                            objs == multi_part_objs(*data, x, y, z, serial, graphic),
                            n <= 0x1_0000,
                            n == parts@.len(),
                            forall|j: int|
                                0 <= j < n ==> objs[j] == custom_part_obj(serial, parts@[j], j),
                            forall|o: DynamicWorldObject|
                                self.contains_obj(o) <==> (old(self).contains_obj(o)
                                    || objs.take(k as int).contains(o)),
                        decreases n - k,
                    {
                        let p = parts[k];
                        let obj = DynamicWorldObject::MultiPart {
                            x: p.x,
                            y: p.y,
                            z: p.z,
                            tile: p.graphic as u32,
                            parent: serial,
                            counter: k as u16,
                        };
                        proof {
                            assert(obj == objs[k as int]);
                        }
                        self.overlay_insert_item(obj);
                        k = k + 1;
                        proof {
                            assert forall|o: DynamicWorldObject| objs.take(k as int).contains(o)
                                <==> (objs.take(k - 1).contains(o) || o == objs[k - 1]) by {
                                assert(objs.take(k as int) =~= objs.take(k - 1).push(
                                    objs[k - 1],
                                ));
                                if objs.take(k as int).contains(o) {
                                    let j = choose|j: int|
                                        0 <= j < k && objs.take(k as int)[j] == o;
                                    if j < k - 1 {
                                        assert(objs.take(k - 1)[j] == o);
                                    }
                                }
                                if objs.take(k - 1).contains(o) {
                                    let j = choose|j: int|
                                        0 <= j < k - 1 && #[trigger] objs.take(k - 1)[j] == o;
                                    assert(objs.take(k as int)[j] == o);
                                }
                                if o == objs[k - 1] {
                                    assert(objs.take(k as int)[k - 1] == o);
                                }
                            }
                        }
                    }
                    proof {
                        assert(objs.take(n as int) =~= objs);
                    }
                },
                None => {
                    proof {
                        if graphic & 0x20000 == 0 {
                            assert(graphic & 0x30000 != 0);
                            assert((graphic & 0x10000) == 0 && (graphic & 0x20000) == 0 ==> graphic
                                & 0x30000 == 0) by (bit_vector);
                            assert(false);
                        }
                        assert(objs =~= Seq::<DynamicWorldObject>::empty());
                    }
                },
            }
        }
    }

    /// Removes the part objects a multi head had brought in.
    fn overlay_delete_multi_parts(
        &mut self,
        data: &crate::world_model::WorldData,
        x: isize,
        y: isize,
        z: i8,
        serial: u32,
        graphic: u32,
    )
        requires
            old(self).wf(),
            data.wf(),
            graphic & 0x30000 != 0,
            multi_parts_fit(*data, x, y, z, serial, graphic),
        ensures
            final(self).wf(),
            final(self).base == old(self).base,
            final(self).overlay_blocks@.len() == old(self).overlay_blocks@.len(),
            forall|o: DynamicWorldObject|
                final(self).contains_obj(o) <==> (old(self).contains_obj(o) && !multi_part_objs(
                    *data,
                    x,
                    y,
                    z,
                    serial,
                    graphic,
                ).contains(o)),
    {
        let ghost objs = multi_part_objs(*data, x, y, z, serial, graphic);
        if graphic & 0x10000 != 0 {
            proof {
                assert(graphic & 0xFFFF < 0x10000) by (bit_vector);
            }
            let multi_id: u16 = (graphic & 0xFFFF) as u16;
            let parts = data.multis.multi_parts(multi_id);
            let n: usize = parts.len();
            let mut k: usize = 0;
            while k < n
                invariant
                    k <= n == objs.len(),
                    self.wf(),
                    self.base == old(self).base,
                    self.overlay_blocks@.len() == old(self).overlay_blocks@.len(),
                    graphic & 0x10000 != 0,
                    multi_parts_fit(*data, x, y, z, serial, graphic),
                    parts@ == data.multis.parts_spec((graphic & 0xFFFF) as int),
                    objs == multi_part_objs(*data, x, y, z, serial, graphic),
                    n <= 0x1_0000,
                    forall|j: int| 0 <= j < n ==> objs[j] == std_part_obj(x, y, z, serial, parts@[j], j),
                    forall|o: DynamicWorldObject|
                        self.contains_obj(o) <==> (old(self).contains_obj(o) && !objs.take(
                            k as int,
                        ).contains(o)),
                decreases n - k,
            {
                let p = parts[k];
                let px: isize = x + p.x as isize;
                let py: isize = y + p.y as isize;
                let pz: i8 = z + (p.z as i8);
                let obj = DynamicWorldObject::MultiPart {
                    x: px,
                    y: py,
                    z: pz,
                    tile: p.static_tile as u32,
                    parent: serial,
                    counter: k as u16,
                };
                proof {
                    assert(obj == objs[k as int]);
                }
                let _ = self.overlay_delete_item(&obj);
                k = k + 1;
                proof {
                    assert forall|o: DynamicWorldObject| objs.take(k as int).contains(o)
                        <==> (objs.take(k - 1).contains(o) || o == objs[k - 1]) by {
                        assert(objs.take(k as int) =~= objs.take(k - 1).push(objs[k - 1]));
                        if objs.take(k as int).contains(o) {
                            let j = choose|j: int| 0 <= j < k && objs.take(k as int)[j] == o;
                            if j < k - 1 {
                                assert(objs.take(k - 1)[j] == o);
                            }
                        }
                        if objs.take(k - 1).contains(o) {
                            let j = choose|j: int| 0 <= j < k - 1 && #[trigger] objs.take(k - 1)[j] == o;
                            assert(objs.take(k as int)[j] == o);
                        }
                        if o == objs[k - 1] {
                            assert(objs.take(k as int)[k - 1] == o);
                        }
                    }
                }
            }
            proof {
                assert(objs.take(n as int) =~= objs);
            }
        } else {
            proof {
                assert((graphic & 0x10000) == 0 && graphic & 0x30000 != 0 ==> graphic & 0x20000
                    != 0) by (bit_vector);
            }
            let found = data.custom_multis.get(serial);
            match found {
                Some(parts) => {
                    let n: usize = parts.len();
                    let mut k: usize = 0;
                    while k < n
                        invariant
                            k <= n == objs.len(),
                            self.wf(),
                            self.base == old(self).base,
                            self.overlay_blocks@.len() == old(self).overlay_blocks@.len(),
                            objs == multi_part_objs(*data, x, y, z, serial, graphic),
                            n <= 0x1_0000,
                            n == parts@.len(),
                            forall|j: int|
                                0 <= j < n ==> objs[j] == custom_part_obj(serial, parts@[j], j),
                            forall|o: DynamicWorldObject|
                                self.contains_obj(o) <==> (old(self).contains_obj(o) && !objs.take(
                                    k as int,
                                ).contains(o)),
                        decreases n - k,
                    {
                        let p = parts[k];
                        let obj = DynamicWorldObject::MultiPart {
                            x: p.x,
                            y: p.y,
                            z: p.z,
                            tile: p.graphic as u32,
                            parent: serial,
                            counter: k as u16,
                        };
                        proof {
                            assert(obj == objs[k as int]);
                        }
                        let _ = self.overlay_delete_item(&obj);
                        k = k + 1;
                        proof {
                            assert forall|o: DynamicWorldObject| objs.take(k as int).contains(o)
                                <==> (objs.take(k - 1).contains(o) || o == objs[k - 1]) by {
                                assert(objs.take(k as int) =~= objs.take(k - 1).push(
                                    objs[k - 1],
                                ));
                                if objs.take(k as int).contains(o) {
                                    let j = choose|j: int|
                                        0 <= j < k && objs.take(k as int)[j] == o;
                                    if j < k - 1 {
                                        assert(objs.take(k - 1)[j] == o);
                                    }
                                }
                                if objs.take(k - 1).contains(o) {
                                    let j = choose|j: int|
                                        0 <= j < k - 1 && #[trigger] objs.take(k - 1)[j] == o;
                                    assert(objs.take(k as int)[j] == o);
                                }
                                if o == objs[k - 1] {
                                    assert(objs.take(k as int)[k - 1] == o);
                                }
                            }
                        }
                    }
                    proof {
                        assert(objs.take(n as int) =~= objs);
                    }
                },
                None => {
                    proof {
                        if graphic & 0x20000 == 0 {
                            assert((graphic & 0x10000) == 0 && (graphic & 0x20000) == 0 ==> graphic
                                & 0x30000 == 0) by (bit_vector);
                            assert(false);
                        }
                        assert(objs =~= Seq::<DynamicWorldObject>::empty());
                    }
                },
            }
        }
    }

    /// Inserts a game object, expanding a multi head into its parts first.
    pub fn insert_item(
        &mut self,
        data: &crate::world_model::WorldData,
        x: isize,
        y: isize,
        z: i8,
        serial: u32,
        graphic: u32,
    )
        requires
            old(self).wf(),
            data.wf(),
            graphic & 0x30000 != 0 ==> multi_parts_fit(*data, x, y, z, serial, graphic),
        ensures
            final(self).wf(),
            final(self).base == old(self).base,
            final(self).overlay_blocks@.len() == old(self).overlay_blocks@.len(),
            forall|o: DynamicWorldObject|
                final(self).contains_obj(o) <==> (old(self).contains_obj(o) || inserted_objs(
                    *data,
                    x,
                    y,
                    z,
                    serial,
                    graphic,
                ).contains(o)),
    {
        let item = DynamicWorldObject::game_object(x, y, z, serial, graphic);
        let ghost ins = inserted_objs(*data, x, y, z, serial, graphic);
        if graphic & 0x30000 != 0 {
            self.overlay_insert_multi_parts(data, x, y, z, serial, graphic);
        }
        self.overlay_insert_item(item);
        proof {
            let parts = multi_part_objs(*data, x, y, z, serial, graphic);
            assert forall|o: DynamicWorldObject| ins.contains(o) <==> ((graphic & 0x30000 != 0
                && parts.contains(o)) || o == item) by {
                if graphic & 0x30000 != 0 {
                    assert(ins =~= parts.push(item));
                    if ins.contains(o) {
                        let j = choose|j: int| 0 <= j < ins.len() && ins[j] == o;
                        if j < parts.len() {
                            assert(parts[j] == o);
                        }
                    }
                    if parts.contains(o) {
                        let j = choose|j: int| 0 <= j < parts.len() && parts[j] == o;
                        assert(ins[j] == o);
                    }
                    assert(ins[ins.len() - 1] == item);
                } else {
                    assert(ins =~= seq![item]);
                    assert(ins[0] == item);
                }
            }
        }
    }

    /// Deletes a game object, removing a multi head's parts as well.
    pub fn delete_item(
        &mut self,
        data: &crate::world_model::WorldData,
        x: isize,
        y: isize,
        z: i8,
        serial: u32,
        graphic: u32,
    )
        requires
            old(self).wf(),
            data.wf(),
            graphic & 0x30000 != 0 ==> multi_parts_fit(*data, x, y, z, serial, graphic),
        ensures
            final(self).wf(),
            final(self).base == old(self).base,
            final(self).overlay_blocks@.len() == old(self).overlay_blocks@.len(),
            forall|o: DynamicWorldObject|
                final(self).contains_obj(o) <==> (old(self).contains_obj(o) && !inserted_objs(
                    *data,
                    x,
                    y,
                    z,
                    serial,
                    graphic,
                ).contains(o)),
    {
        let item = DynamicWorldObject::game_object(x, y, z, serial, graphic);
        let ghost ins = inserted_objs(*data, x, y, z, serial, graphic);
        if graphic & 0x30000 != 0 {
            self.overlay_delete_multi_parts(data, x, y, z, serial, graphic);
        }
        let _ = self.overlay_delete_item(&item);
        proof {
            let parts = multi_part_objs(*data, x, y, z, serial, graphic);
            assert forall|o: DynamicWorldObject| ins.contains(o) <==> ((graphic & 0x30000 != 0
                && parts.contains(o)) || o == item) by {
                if graphic & 0x30000 != 0 {
                    assert(ins =~= parts.push(item));
                    if ins.contains(o) {
                        let j = choose|j: int| 0 <= j < ins.len() && ins[j] == o;
                        if j < parts.len() {
                            assert(parts[j] == o);
                        }
                    }
                    if parts.contains(o) {
                        let j = choose|j: int| 0 <= j < parts.len() && parts[j] == o;
                        assert(ins[j] == o);
                    }
                    assert(ins[ins.len() - 1] == item);
                } else {
                    assert(ins =~= seq![item]);
                    assert(ins[0] == item);
                }
            }
        }
    }

    /// Empties the overlay of every block.
    pub fn clear_world(&mut self)
        requires
            old(self).wf(),
        ensures
            final(self).wf(),
            final(self).base == old(self).base,
            final(self).overlay_blocks@.len() == old(self).overlay_blocks@.len(),
            forall|o: DynamicWorldObject| !final(self).contains_obj(o),
            forall|b: int|
                0 <= b < final(self).overlay_blocks@.len() ==> final(self).block_objs(b).len() == 0,
    {
        let total: usize = self.overlay_blocks.len();
        let mut fresh: Vec<Vec<DynamicWorldObject>> = Vec::new();
        let mut i: usize = 0;
        while i < total
            invariant
                i <= total,
                fresh@.len() == i,
                forall|b: int| 0 <= b < i ==> (#[trigger] fresh@[b])@.len() == 0,
            decreases total - i,
        {
            fresh.push(Vec::new());
            i = i + 1;
        }
        self.overlay_blocks = fresh;
    }
}

/// The graphic field of an overlay object: a part's tile or a game
/// object's graphic.
pub open spec fn obj_graphic(o: DynamicWorldObject) -> u32 {
    match o {
        DynamicWorldObject::MultiPart { tile, .. } => tile,
        DynamicWorldObject::GameObject { graphic, .. } => graphic,
    }
}

/// The elevation of an overlay object.
pub open spec fn obj_z(o: DynamicWorldObject) -> i8 {
    match o {
        DynamicWorldObject::MultiPart { z, .. } => z,
        DynamicWorldObject::GameObject { z, .. } => z,
    }
}

/// Every land graphic of the world is covered by the catalog.
pub open spec fn land_catalog_ok(w: StaticWorld, td: crate::tiledata::TileData) -> bool {
    forall|b: int, i: int|
        0 <= b < w.land.block_count() && 0 <= i < 64 ==> (#[trigger] w.land.block_spec(
            b,
        ).cells@[i]).land_tile < td.land_tiles@.len()
}

/// Every static graphic of the world is covered by the catalog.
pub open spec fn statics_catalog_ok(w: StaticWorld, td: crate::tiledata::TileData) -> bool {
    forall|b: int, k: int|
        0 <= b < w.statics.block_count() && 0 <= k < w.statics.block_seq(b).len() ==> (
        #[trigger] w.statics.block_seq(b)[k]).static_tile < td.static_tiles@.len()
}

/// The catalog entry shape of one static tile of a cell.
pub open spec fn shape_of_static(
    td: crate::tiledata::TileData,
    t: crate::staticdata::StaticTile,
    walkable: u32,
    ignore: u32,
) -> WorldTile {
    WorldTile {
        tile: crate::tiles::TileType::ObjectTile(t.static_tile),
        shape: crate::tiles::classify_static(
            t.z,
            td.static_tiles@[t.static_tile as int],
            walkable,
            ignore,
        ),
    }
}

/// The classified dynamic tiles of cell `(x, y)` drawn from a block's
/// objects in order, skipping multi heads.
pub open spec fn dyn_shapes(
    s: Seq<DynamicWorldObject>,
    td: crate::tiledata::TileData,
    x: int,
    y: int,
    walkable: u32,
    ignore: u32,
) -> Seq<WorldTile>
    decreases s.len(),
{
    if s.len() == 0 {
        Seq::empty()
    } else {
        let pre = dyn_shapes(s.drop_last(), td, x, y, walkable, ignore);
        let o = s.last();
        if o.xs() == x && o.ys() == y && obj_graphic(o) & 0x30000 == 0 {
            pre.push(
                WorldTile {
                    tile: crate::tiles::TileType::ObjectTile(obj_graphic(o) as u16),
                    shape: crate::tiles::classify_static(
                        obj_z(o),
                        td.static_tiles@[(obj_graphic(o) as u16) as int],
                        walkable,
                        ignore,
                    ),
                },
            )
        } else {
            pre
        }
    }
}

impl DynamicWorld {
    /// Every overlay object that queries classify is covered by the
    /// catalog.
    pub open spec fn overlay_catalog_ok(self, td: crate::tiledata::TileData) -> bool {
        forall|o: DynamicWorldObject|
            #[trigger] self.contains_obj(o) && obj_graphic(o) & 0x30000 == 0 ==> (obj_graphic(o)
                as u16) < td.static_tiles@.len()
    }

    /// The classified land tile of cell `(x, y)` for a direction of
    /// travel: its top is the higher of the standing and exit elevations.
    pub open spec fn ground_tile_spec(
        self,
        td: crate::tiledata::TileData,
        x: int,
        y: int,
        direction: u8,
        walkable: u32,
    ) -> WorldTile {
        let g = self.base.land_cell_spec(x, y).land_tile;
        let zb = self.base.land_z_base_spec(x, y);
        let zs = self.base.land_z_stand_spec(x, y);
        let ze = self.base.land_z_exit_spec(x, y, direction);
        let zt = if ze > zs {
            ze
        } else {
            zs
        };
        WorldTile {
            tile: crate::tiles::TileType::MapTile(g),
            shape: crate::tiles::classify_land(
                zb as i8,
                zs as i8,
                zt as i8,
                g,
                td.land_tiles@[g as int],
                walkable,
            ),
        }
    }

    /// The classified static tiles of cell `(x, y)`, in store order.
    pub open spec fn static_shapes_spec(
        self,
        td: crate::tiledata::TileData,
        x: int,
        y: int,
        walkable: u32,
        ignore: u32,
    ) -> Seq<WorldTile> {
        let f = crate::staticdata::tiles_at(
            self.base.statics.block_seq(self.base.tile_block_spec(x, y)),
            self.base.tile_ox(x) as u8,
            self.base.tile_oy(y) as u8,
        );
        Seq::new(f.len(), |k: int| shape_of_static(td, f[k], walkable, ignore))
    }

    /// The classified dynamic tiles of cell `(x, y)`, in overlay order.
    pub open spec fn dyn_shapes_spec(
        self,
        td: crate::tiledata::TileData,
        x: int,
        y: int,
        walkable: u32,
        ignore: u32,
    ) -> Seq<WorldTile> {
        dyn_shapes(
            self.block_objs(self.base.tile_block_spec(x, y)),
            td,
            x,
            y,
            walkable,
            ignore,
        )
    }

    /// The whole cell stack, unsorted: ground, then statics, then
    /// dynamics.
    pub open spec fn cell_stack_spec(
        self,
        td: crate::tiledata::TileData,
        x: int,
        y: int,
        direction: u8,
        walkable: u32,
        ignore: u32,
    ) -> Seq<WorldTile> {
        seq![self.ground_tile_spec(td, x, y, direction, walkable)] + self.static_shapes_spec(
            td,
            x,
            y,
            walkable,
            ignore,
        ) + self.dyn_shapes_spec(td, x, y, walkable, ignore)
    }

    /// The cell stack in stack order: what the step oracle walks.
    pub open spec fn full_stack_spec(
        self,
        td: crate::tiledata::TileData,
        x: int,
        y: int,
        direction: u8,
        walkable: u32,
        ignore: u32,
    ) -> Seq<WorldTile> {
        crate::tiles::sort_tiles(self.cell_stack_spec(td, x, y, direction, walkable, ignore))
    }

    /// Classifies the land tile of a cell for the given direction of
    /// travel.
    pub fn query_tile_ground(
        &self,
        data: &crate::world_model::WorldData,
        x: isize,
        y: isize,
        direction: u8,
        walkable: u32,
    ) -> (r: WorldTile)
        requires
            self.wf(),
            land_catalog_ok(self.base, data.tiledata),
            x < isize::MAX,
            y < isize::MAX,
        ensures
            r == self.ground_tile_spec(data.tiledata, x as int, y as int, direction, walkable),
    {
        let (idx, (ox, oy)) = self.base.tile_to_block_offsets(x, y);
        let map_tile = self.base.land.land_block(idx).cell(ox, oy);
        let (z_base, z_stand, z_exit) = self.base.land_tile_z_stand(x, y, direction);
        let z_top: i8 = if z_exit > z_stand {
            z_exit
        } else {
            z_stand
        };
        let shape = TileShape::from_land_tile(
            z_base,
            z_stand,
            z_top,
            map_tile.land_tile,
            data.tiledata.get_land_tile(map_tile.land_tile),
            walkable,
        );
        WorldTile { tile: crate::tiles::TileType::MapTile(map_tile.land_tile), shape }
    }

    /// Appends the classified static tiles of cell `(x, y)`.
    pub fn query_tile_static(
        &self,
        data: &crate::world_model::WorldData,
        x: isize,
        y: isize,
        walkable: u32,
        ignore: u32,
        result: &mut Vec<WorldTile>,
    )
        requires
            self.wf(),
            statics_catalog_ok(self.base, data.tiledata),
        ensures
            final(result)@ == old(result)@ + self.static_shapes_spec(
                data.tiledata,
                x as int,
                y as int,
                walkable,
                ignore,
            ),
    {
        let (idx, (ox, oy)) = self.base.tile_to_block_offsets(x, y);
        let tiles = self.base.statics.statics_block_tile(idx, ox as u8, oy as u8);
        let ghost f = crate::staticdata::tiles_at(
            self.base.statics.block_seq(idx as int),
            ox as u8,
            oy as u8,
        );
        proof {
            crate::staticdata::lemma_tiles_at_contains(
                self.base.statics.block_seq(idx as int),
                ox as u8,
                oy as u8,
            );
        }
        let n: usize = tiles.len();
        let mut k: usize = 0;
        while k < n
            invariant
                k <= n == f.len(),
                tiles@ == f,
                self.wf(),
                statics_catalog_ok(self.base, data.tiledata),
                0 <= idx < self.base.statics.block_count(),
                forall|j: int|
                    0 <= j < f.len() ==> self.base.statics.block_seq(idx as int).contains(
                        #[trigger] f[j],
                    ),
                result@ == old(result)@ + Seq::new(
                    k as nat,
                    |j: int| shape_of_static(data.tiledata, f[j], walkable, ignore),
                ),
            decreases n - k,
        {
            let t = tiles[k];
            proof {
                let s = self.base.statics.block_seq(idx as int);
                assert(s.contains(f[k as int]));
                let j = choose|j: int| 0 <= j < s.len() && s[j] == f[k as int];
                assert(s[j].static_tile < data.tiledata.static_tiles@.len());
            }
            let obj = WorldTile {
                tile: crate::tiles::TileType::ObjectTile(t.static_tile),
                shape: TileShape::from_static_tile(
                    t.z,
                    data.tiledata.get_static_tile(t.static_tile),
                    walkable,
                    ignore,
                ),
            };
            result.push(obj);
            k = k + 1;
            proof {
                assert(result@ =~= old(result)@ + Seq::new(
                    k as nat,
                    |j: int| shape_of_static(data.tiledata, f[j], walkable, ignore),
                ));
            }
        }
        proof {
            assert(result@ =~= old(result)@ + self.static_shapes_spec(
                data.tiledata,
                x as int,
                y as int,
                walkable,
                ignore,
            ));
        }
    }

    /// Appends the classified dynamic tiles of cell `(x, y)`, skipping
    /// multi heads.
    pub fn query_tile_dynamic(
        &self,
        data: &crate::world_model::WorldData,
        x: isize,
        y: isize,
        walkable: u32,
        ignore: u32,
        result: &mut Vec<WorldTile>,
    )
        requires
            self.wf(),
            self.overlay_catalog_ok(data.tiledata),
        ensures
            final(result)@ == old(result)@ + self.dyn_shapes_spec(
                data.tiledata,
                x as int,
                y as int,
                walkable,
                ignore,
            ),
    {
        let (idx, _) = self.base.tile_to_block_offsets(x, y);
        let ghost s = self.block_objs(idx as int);
        let n: usize = self.overlay_blocks[idx].len();
        let mut i: usize = 0;
        proof {
            assert(s.take(0) =~= Seq::<DynamicWorldObject>::empty());
        }
        while i < n
            invariant
                i <= n == s.len(),
                s == self.block_objs(idx as int),
                self.wf(),
                self.overlay_catalog_ok(data.tiledata),
                0 <= idx < self.overlay_blocks@.len(),
                result@ == old(result)@ + dyn_shapes(
                    s.take(i as int),
                    data.tiledata,
                    x as int,
                    y as int,
                    walkable,
                    ignore,
                ),
            decreases n - i,
        {
            let item = self.overlay_blocks[idx][i];
            proof {
                assert(s[i as int] == item);
                assert(s.take(i + 1).drop_last() =~= s.take(i as int));
                assert(s.take(i + 1).last() == item);
                if obj_graphic(item) & 0x30000 == 0 {
                    assert(self.block_objs(self.obj_block(item)).contains(item));
                    assert(self.contains_obj(item));
                }
            }
            let (ix, iy) = obj_xy(&item);
            let (tile, z): (u32, i8) = match item {
                DynamicWorldObject::MultiPart { tile, z, .. } => (tile, z),
                DynamicWorldObject::GameObject { graphic, z, .. } => (graphic, z),
            };
            if ix == x && iy == y && tile & 0x30000 == 0 {
                let obj = WorldTile {
                    tile: crate::tiles::TileType::ObjectTile(tile as u16),
                    shape: TileShape::from_static_tile(
                        z,
                        data.tiledata.get_static_tile(tile as u16),
                        walkable,
                        ignore,
                    ),
                };
                result.push(obj);
            }
            i = i + 1;
        }
        proof {
            assert(s.take(n as int) =~= s);
        }
    }

    /// Builds the whole cell stack of `(x, y)` onto `result` and sorts it
    /// into stack order.
    pub fn query_tile_full(
        &self,
        data: &crate::world_model::WorldData,
        x: isize,
        y: isize,
        direction: u8,
        walkable: u32,
        ignore: u32,
        result: &mut Vec<WorldTile>,
    )
        requires
            self.wf(),
            land_catalog_ok(self.base, data.tiledata),
            statics_catalog_ok(self.base, data.tiledata),
            self.overlay_catalog_ok(data.tiledata),
            x < isize::MAX,
            y < isize::MAX,
        ensures
            final(result)@ == crate::tiles::sort_tiles(
                old(result)@ + self.cell_stack_spec(
                    data.tiledata,
                    x as int,
                    y as int,
                    direction,
                    walkable,
                    ignore,
                ),
            ),
    {
        let ground = self.query_tile_ground(data, x, y, direction, walkable);
        result.push(ground);
        self.query_tile_static(data, x, y, walkable, ignore, result);
        self.query_tile_dynamic(data, x, y, walkable, ignore, result);
        proof {
            assert(result@ =~= old(result)@ + self.cell_stack_spec(
                data.tiledata,
                x as int,
                y as int,
                direction,
                walkable,
                ignore,
            ));
        }
        let sorted = crate::tiles::sort_world_tiles(result);
        *result = sorted;
    }
}

/// Signed division by 8 rounding toward zero, as block ranges are
/// enumerated.
pub open spec fn tdiv8(v: int) -> int {
    if v >= 0 {
        v / 8
    } else {
        -((-v) / 8)
    }
}

fn div8_trunc(v: isize) -> (r: isize)
    requires
        isize::MIN < v,
    ensures
        r == tdiv8(v as int),
{
    if v >= 0 {
        v / 8
    } else {
        -((-v) / 8)
    }
}

/// The items of one block that fall inside the rectangle, in block order;
/// multi parts are skipped.
pub open spec fn block_area_items(
    s: Seq<DynamicWorldObject>,
    world: u8,
    left: int,
    top: int,
    right: int,
    bottom: int,
) -> Seq<crate::api::Item>
    decreases s.len(),
{
    if s.len() == 0 {
        Seq::empty()
    } else {
        let pre = block_area_items(s.drop_last(), world, left, top, right, bottom);
        match s.last() {
            DynamicWorldObject::GameObject { x, y, z, serial, graphic } => {
                if left <= x && x < right && top <= y && y < bottom {
                    pre.push(
                        crate::api::Item { world, serial, graphic, x, y, z, timestamp: None },
                    )
                } else {
                    pre
                }
            },
            DynamicWorldObject::MultiPart { .. } => pre,
        }
    }
}

impl DynamicWorld {
    /// The rectangle's items from one column of `ny` blocks starting at
    /// block row `yb0`.
    pub open spec fn area_col_items(
        self,
        world: u8,
        xb: int,
        yb0: int,
        ny: nat,
        left: int,
        top: int,
        right: int,
        bottom: int,
    ) -> Seq<crate::api::Item>
        decreases ny,
    {
        if ny == 0 {
            Seq::empty()
        } else {
            self.area_col_items(world, xb, yb0, (ny - 1) as nat, left, top, right, bottom)
                + block_area_items(
                self.block_objs(self.base.block_index_spec(xb, yb0 + ny - 1)),
                world,
                left,
                top,
                right,
                bottom,
            )
        }
    }

    /// The rectangle's items from `nx` columns of blocks starting at block
    /// column `xb0`.
    pub open spec fn area_items(
        self,
        world: u8,
        xb0: int,
        nx: nat,
        yb0: int,
        ny: nat,
        left: int,
        top: int,
        right: int,
        bottom: int,
    ) -> Seq<crate::api::Item>
        decreases nx,
    {
        if nx == 0 {
            Seq::empty()
        } else {
            self.area_items(world, xb0, (nx - 1) as nat, yb0, ny, left, top, right, bottom)
                + self.area_col_items(
                world,
                xb0 + nx - 1,
                yb0,
                ny,
                left,
                top,
                right,
                bottom,
            )
        }
    }

    /// The number of block columns the rectangle touches.
    pub open spec fn area_nx(left: int, right: int) -> nat {
        if tdiv8(right) >= tdiv8(left) {
            (tdiv8(right) - tdiv8(left) + 1) as nat
        } else {
            0
        }
    }

    /// Collects every game object inside the rectangle; parts of multi
    /// objects are ignored.
    pub fn query_area_dynamic(
        &self,
        world: u8,
        left: isize,
        top: isize,
        right: isize,
        bottom: isize,
        result: &mut Vec<crate::api::Item>,
    )
        requires
            self.wf(),
            -0x4000_0000 <= left <= 0x4000_0000,
            -0x4000_0000 <= top <= 0x4000_0000,
            -0x4000_0000 <= right <= 0x4000_0000,
            -0x4000_0000 <= bottom <= 0x4000_0000,
        ensures
            final(result)@ == old(result)@ + self.area_items(
                world,
                tdiv8(left as int),
                DynamicWorld::area_nx(left as int, right as int),
                tdiv8(top as int),
                DynamicWorld::area_nx(top as int, bottom as int),
                left as int,
                top as int,
                right as int,
                bottom as int,
            ),
    {
        let lx: isize = div8_trunc(left);
        let hx: isize = div8_trunc(right);
        let ly: isize = div8_trunc(top);
        let hy: isize = div8_trunc(bottom);
        let ghost nxs = DynamicWorld::area_nx(left as int, right as int);
        let ghost nys = DynamicWorld::area_nx(top as int, bottom as int);
        let mut xb: isize = lx;
        while xb <= hx
            invariant
                lx <= xb <= hx + 1 || (hx < lx && xb == lx),
                lx == tdiv8(left as int),
                hx == tdiv8(right as int),
                ly == tdiv8(top as int),
                hy == tdiv8(bottom as int),
                -0x1000_0000 <= lx <= 0x1000_0000,
                -0x1000_0000 <= hx <= 0x1000_0000,
                -0x1000_0000 <= ly <= 0x1000_0000,
                -0x1000_0000 <= hy <= 0x1000_0000,
                nxs == DynamicWorld::area_nx(left as int, right as int),
                nys == DynamicWorld::area_nx(top as int, bottom as int),
                self.wf(),
                result@ == old(result)@ + self.area_items(
                    world,
                    lx as int,
                    (xb - lx) as nat,
                    ly as int,
                    nys,
                    left as int,
                    top as int,
                    right as int,
                    bottom as int,
                ),
            decreases hx - xb + 1,
        {
            let mut yb: isize = ly;
            let ghost col_pre = result@;
            while yb <= hy
                invariant
                    ly <= yb <= hy + 1 || (hy < ly && yb == ly),
                    lx <= xb <= hx,
                    ly == tdiv8(top as int),
                    hy == tdiv8(bottom as int),
                    -0x1000_0000 <= ly <= 0x1000_0000,
                    -0x1000_0000 <= hy <= 0x1000_0000,
                    -0x1000_0000 <= xb <= 0x1000_0000,
                    nys == DynamicWorld::area_nx(top as int, bottom as int),
                    self.wf(),
                    result@ == col_pre + self.area_col_items(
                        world,
                        xb as int,
                        ly as int,
                        (yb - ly) as nat,
                        left as int,
                        top as int,
                        right as int,
                        bottom as int,
                    ),
                decreases hy - yb + 1,
            {
                let idx = self.base.block_index(xb, yb);
                let ghost s = self.block_objs(idx as int);
                let ghost blk_pre = result@;
                let n: usize = self.overlay_blocks[idx].len();
                let mut i: usize = 0;
                proof {
                    assert(s.take(0) =~= Seq::<DynamicWorldObject>::empty());
                }
                while i < n
                    invariant
                        i <= n == s.len(),
                        s == self.block_objs(idx as int),
                        0 <= idx < self.overlay_blocks@.len(),
                        self.wf(),
                        result@ == blk_pre + block_area_items(
                            s.take(i as int),
                            world,
                            left as int,
                            top as int,
                            right as int,
                            bottom as int,
                        ),
                    decreases n - i,
                {
                    let item = self.overlay_blocks[idx][i];
                    proof {
                        assert(s[i as int] == item);
                        assert(s.take(i + 1).drop_last() =~= s.take(i as int));
                        assert(s.take(i + 1).last() == item);
                    }
                    match item {
                        DynamicWorldObject::GameObject { x, y, z, serial, graphic } => {
                            if x >= left && y >= top && x < right && y < bottom {
                                result.push(
                                    crate::api::Item {
                                        world,
                                        serial,
                                        graphic,
                                        x,
                                        y,
                                        z,
                                        timestamp: None,
                                    },
                                );
                            }
                        },
                        DynamicWorldObject::MultiPart { .. } => {},
                    }
                    i = i + 1;
                }
                proof {
                    assert(s.take(n as int) =~= s);
                }
                yb = yb + 1;
            }
            xb = xb + 1;
        }
    }

    /// Whether any part of a multi object occupies cell `(x, y)`.
    pub fn is_tile_multi_occupied(&self, x: isize, y: isize) -> (r: bool)
        requires
            self.wf(),
        ensures
            r == exists|j: int|
                0 <= j < self.block_objs(self.base.tile_block_spec(x as int, y as int)).len()
                    && (#[trigger] self.block_objs(
                    self.base.tile_block_spec(x as int, y as int),
                )[j] matches DynamicWorldObject::MultiPart { x: px, y: py, .. } && px == x && py
                    == y),
    {
        let (idx, _) = self.base.tile_to_block_offsets(x, y);
        let ghost s = self.block_objs(idx as int);
        let n: usize = self.overlay_blocks[idx].len();
        let mut i: usize = 0;
        while i < n
            invariant
                i <= n == s.len(),
                s == self.block_objs(idx as int),
                0 <= idx < self.overlay_blocks@.len(),
                self.wf(),
                forall|j: int|
                    0 <= j < i ==> !(#[trigger] s[j] matches DynamicWorldObject::MultiPart {
                        x: px,
                        y: py,
                        ..
                    } && px == x && py == y),
            decreases n - i,
        {
            let item = self.overlay_blocks[idx][i];
            match item {
                DynamicWorldObject::MultiPart { x: px, y: py, .. } => {
                    if px == x && py == y {
                        proof {
                            assert(s[i as int] matches DynamicWorldObject::MultiPart {
                                x: px2,
                                y: py2,
                                ..
                            } && px2 == x && py2 == y);
                        }
                        return true;
                    }
                },
                DynamicWorldObject::GameObject { .. } => {},
            }
            i = i + 1;
        }
        false
    }

    /// The catalog flags of a tile, from whichever half of the catalog
    /// holds it.
    pub fn world_tile_flag(&self, data: &crate::world_model::WorldData, tile: &WorldTile) -> (r:
        u32)
        requires
            (tile.tile matches crate::tiles::TileType::MapTile(n) ==> (n as int)
                < data.tiledata.land_tiles@.len()),
            (tile.tile matches crate::tiles::TileType::ObjectTile(n) ==> (n as int)
                < data.tiledata.static_tiles@.len()),
        ensures
            r == (match tile.tile {
                crate::tiles::TileType::MapTile(n) => data.tiledata.land_tiles@[n as int].flags,
                crate::tiles::TileType::ObjectTile(n) => data.tiledata.static_tiles@[
                    n as int
                ].flags,
            }),
    {
        match tile.tile {
            crate::tiles::TileType::MapTile(num) => data.tiledata.get_land_tile(num).flags,
            crate::tiles::TileType::ObjectTile(num) => data.tiledata.get_static_tile(num).flags,
        }
    }

    /// The radar color of a tile, from whichever half of the color table
    /// holds it.
    pub fn world_tile_color(&self, data: &crate::world_model::WorldData, tile: &WorldTile) -> (r: (
        u8,
        u8,
        u8,
        u8,
    ))
        requires
            (tile.tile matches crate::tiles::TileType::MapTile(n) ==> (n as int)
                < data.colors.colors@.len()),
            (tile.tile matches crate::tiles::TileType::ObjectTile(n) ==> n + 16384
                < data.colors.colors@.len()),
        ensures
            r == (match tile.tile {
                crate::tiles::TileType::MapTile(n) => {
                    let c = data.colors.colors@[n as int];
                    (c.0, c.1, c.2, 255u8)
                },
                crate::tiles::TileType::ObjectTile(n) => {
                    let c = data.colors.colors@[n + 16384];
                    (c.0, c.1, c.2, 255u8)
                },
            }),
    {
        match tile.tile {
            crate::tiles::TileType::MapTile(num) => data.colors.get_land_color(num),
            crate::tiles::TileType::ObjectTile(num) => data.colors.get_static_color(num),
        }
    }

    /// A view of the whole overlay for reading.
    pub fn read_overlay(&self) -> (r: &Vec<Vec<DynamicWorldObject>>)
        ensures
            r == &self.overlay_blocks,
    {
        &self.overlay_blocks
    }

    /// A view of the whole overlay for writing; the well-formedness of
    /// what is written back is the writer's burden.
    pub fn write_overlay(&mut self) -> (r: &mut Vec<Vec<DynamicWorldObject>>)
        ensures
            *r == old(self).overlay_blocks,
            final(self).overlay_blocks == *final(r),
            final(self).base == old(self).base,
    {
        &mut self.overlay_blocks
    }
}

/// The objects of a block sequence that sit exactly at cell `(x, y)`, in
/// block order.
pub open spec fn objs_at(s: Seq<DynamicWorldObject>, x: int, y: int) -> Seq<DynamicWorldObject>
    decreases s.len(),
{
    if s.len() == 0 {
        Seq::empty()
    } else {
        let pre = objs_at(s.drop_last(), x, y);
        if s.last().xs() == x && s.last().ys() == y {
            pre.push(s.last())
        } else {
            pre
        }
    }
}

/// A cell visit inherits the block's order: on a strictly sorted block the
/// objects of one cell come out in increasing `obj_lt` order, which on a
/// fixed cell is the `(z, variant, secondary keys)` order.
pub proof fn lemma_objs_at_sorted(s: Seq<DynamicWorldObject>, x: int, y: int)
    requires
        sorted_objs(s),
    ensures
        sorted_objs(objs_at(s, x, y)),
        forall|k: int| 0 <= k < objs_at(s, x, y).len() ==> s.contains(#[trigger] objs_at(s, x, y)[k]),
        forall|k: int|
            0 <= k < objs_at(s, x, y).len() ==> (#[trigger] objs_at(s, x, y)[k]).xs() == x
                && objs_at(s, x, y)[k].ys() == y,
    decreases s.len(),
{
    if s.len() > 0 {
        assert forall|p: int, q: int| 0 <= p < q < s.drop_last().len() implies obj_lt(
            #[trigger] s.drop_last()[p],
            #[trigger] s.drop_last()[q],
        ) by {
            assert(s.drop_last()[p] == s[p] && s.drop_last()[q] == s[q]);
        }
        lemma_objs_at_sorted(s.drop_last(), x, y);
        let pre = objs_at(s.drop_last(), x, y);
        assert forall|k: int| 0 <= k < objs_at(s, x, y).len() implies s.contains(
            #[trigger] objs_at(s, x, y)[k],
        ) by {
            if k < pre.len() {
                assert(s.drop_last().contains(pre[k]));
                let j = choose|j: int| 0 <= j < s.drop_last().len() && s.drop_last()[j] == pre[k];
                assert(s[j] == pre[k]);
            } else {
                assert(objs_at(s, x, y)[k] == s.last());
                assert(s[s.len() - 1] == s.last());
            }
        }
        if s.last().xs() == x && s.last().ys() == y {
            assert forall|p: int, q: int| 0 <= p < q < objs_at(s, x, y).len() implies obj_lt(
                #[trigger] objs_at(s, x, y)[p],
                #[trigger] objs_at(s, x, y)[q],
            ) by {
                if q < pre.len() {
                } else {
                    assert(objs_at(s, x, y)[q] == s.last());
                    assert(s.drop_last().contains(pre[p]));
                    let j = choose|j: int|
                        0 <= j < s.drop_last().len() && s.drop_last()[j] == pre[p];
                    assert(s[j] == pre[p]);
                    assert(obj_lt(s[j], s[s.len() - 1]));
                }
            }
        }
    }
}

impl DynamicWorld {
    /// Every dynamic object at cell `(x, y)`, in the overlay's order: z
    /// ascending, a multi part before a game object on ties, then the
    /// variant's own keys.
    pub fn objects_at(&self, x: isize, y: isize) -> (r: Vec<DynamicWorldObject>)
        requires
            self.wf(),
        ensures
            r@ == objs_at(
                self.block_objs(self.base.tile_block_spec(x as int, y as int)),
                x as int,
                y as int,
            ),
            sorted_objs(r@),
    {
        let (idx, _) = self.base.tile_to_block_offsets(x, y);
        let ghost s = self.block_objs(idx as int);
        let n: usize = self.overlay_blocks[idx].len();
        let mut r: Vec<DynamicWorldObject> = Vec::new();
        let mut i: usize = 0;
        proof {
            assert(s.take(0) =~= Seq::<DynamicWorldObject>::empty());
        }
        while i < n
            invariant
                i <= n == s.len(),
                s == self.block_objs(idx as int),
                0 <= idx < self.overlay_blocks@.len(),
                self.wf(),
                r@ == objs_at(s.take(i as int), x as int, y as int),
            decreases n - i,
        {
            let item = self.overlay_blocks[idx][i];
            proof {
                assert(s[i as int] == item);
                assert(s.take(i + 1).drop_last() =~= s.take(i as int));
                assert(s.take(i + 1).last() == item);
            }
            let (ix, iy) = obj_xy(&item);
            if ix == x && iy == y {
                r.push(item);
            }
            i = i + 1;
        }
        proof {
            assert(s.take(n as int) =~= s);
            lemma_objs_at_sorted(s, x as int, y as int);
        }
        r
    }
}

/// Inserting a batch of objects none of which was present, and then
/// deleting exactly that batch, restores every block of the overlay: the
/// round trip of an item and its multi parts leaves no trace.
pub proof fn lemma_insert_delete_round_trip(
    d0: DynamicWorld,
    d1: DynamicWorld,
    d2: DynamicWorld,
    ins: Seq<DynamicWorldObject>,
)
    requires
        d0.wf(),
        d1.wf(),
        d2.wf(),
        d1.base == d0.base,
        d2.base == d1.base,
        d1.overlay_blocks@.len() == d0.overlay_blocks@.len(),
        d2.overlay_blocks@.len() == d1.overlay_blocks@.len(),
        forall|o: DynamicWorldObject| !(ins.contains(o) && d0.contains_obj(o)),
        forall|o: DynamicWorldObject|
            #[trigger] d1.contains_obj(o) <==> (d0.contains_obj(o) || ins.contains(o)),
        forall|o: DynamicWorldObject|
            #[trigger] d2.contains_obj(o) <==> (d1.contains_obj(o) && !ins.contains(o)),
    ensures
        forall|b: int|
            0 <= b < d0.overlay_blocks@.len() ==> #[trigger] d2.block_objs(b) == d0.block_objs(b),
{
    assert forall|b: int| 0 <= b < d0.overlay_blocks@.len() implies #[trigger] d2.block_objs(b)
        == d0.block_objs(b) by {
        assert forall|o: DynamicWorldObject| #[trigger] d2.block_objs(b).contains(o)
            <==> d0.block_objs(b).contains(o) by {
            if d2.block_objs(b).contains(o) {
                let k = choose|k: int|
                    0 <= k < d2.block_objs(b).len() && d2.block_objs(b)[k] == o;
                assert(d2.obj_block(o) == b);
                assert(d2.contains_obj(o));
                assert(d0.contains_obj(o));
                assert(d0.obj_block(o) == b);
            }
            if d0.block_objs(b).contains(o) {
                let k = choose|k: int|
                    0 <= k < d0.block_objs(b).len() && d0.block_objs(b)[k] == o;
                assert(d0.obj_block(o) == b);
                assert(d0.contains_obj(o));
                assert(d2.contains_obj(o));
                assert(d2.obj_block(o) == b);
            }
        }
        lemma_sorted_objs_extensional(d2.block_objs(b), d0.block_objs(b));
    }
}

/// The smaller of two values.
pub open spec fn min2(a: int, b: int) -> int {
    if a <= b {
        a
    } else {
        b
    }
}

/// The absolute value.
pub open spec fn abs2(a: int) -> int {
    if a >= 0 {
        a
    } else {
        -a
    }
}

/// Wrapping a coordinate is insensitive to whole turns around the torus:
/// adding any multiple of the world size changes nothing.
pub proof fn lemma_normalize_tiles_periodic(w: StaticWorld, x: int, y: int, k: int, m: int)
    requires
        w.wf(),
    ensures
        w.norm_x(x + k * w.width_spec()) == w.norm_x(x),
        w.norm_y(y + m * w.height_spec()) == w.norm_y(y),
{
    let ww = w.width_spec();
    let hh = w.height_spec();
    vstd::arithmetic::div_mod::lemma_mod_multiples_vanish(k, x, ww);
    vstd::arithmetic::div_mod::lemma_mod_multiples_vanish(m, y, hh);
    assert(x + k * ww == k * ww + x);
    assert(y + m * hh == m * hh + y);
}

/// Block addressing is injective on the block grid, and the combined
/// tile-to-block mapping agrees with addressing the normalized tile's block
/// and taking its offsets.
pub proof fn lemma_block_index_injective(w: StaticWorld, bx1: int, by1: int, bx2: int, by2: int)
    requires
        w.wf(),
        0 <= bx1 < w.width_blocks,
        0 <= by1 < w.height_blocks,
        0 <= bx2 < w.width_blocks,
        0 <= by2 < w.height_blocks,
        w.block_index_spec(bx1, by1) == w.block_index_spec(bx2, by2),
    ensures
        bx1 == bx2 && by1 == by2,
{
    let hb = w.height_blocks as int;
    vstd::arithmetic::div_mod::lemma_small_mod(bx1 as nat, w.width_blocks as nat);
    vstd::arithmetic::div_mod::lemma_small_mod(by1 as nat, w.height_blocks as nat);
    vstd::arithmetic::div_mod::lemma_small_mod(bx2 as nat, w.width_blocks as nat);
    vstd::arithmetic::div_mod::lemma_small_mod(by2 as nat, w.height_blocks as nat);
    assert(bx1 * hb + by1 == bx2 * hb + by2);
    assert(bx1 == bx2 && by1 == by2) by (nonlinear_arith)
        requires
            (bx1 * hb + by1 == bx2 * hb + by2) && (0 <= by1) && (by1 < hb) && (0 <= by2) && (by2
                < hb) && (0 <= bx1) && (0 <= bx2),
    ;
}

/// The tile-to-block mapping of `(x, y)` is the block index of the
/// normalized tile's block coordinates, and the offsets are its remainders.
pub proof fn lemma_tile_to_block_agrees(w: StaticWorld, x: int, y: int)
    requires
        w.wf(),
    ensures
        w.tile_block_spec(x, y) == w.block_index_spec(w.norm_x(x) / 8, w.norm_y(y) / 8),
        w.tile_ox(x) == w.norm_x(x) % 8,
        w.tile_oy(y) == w.norm_y(y) % 8,
{
    let wb = w.width_blocks as int;
    let hb = w.height_blocks as int;
    let nx = w.norm_x(x);
    let ny = w.norm_y(y);
    vstd::arithmetic::div_mod::lemma_mod_bound(x, wb * 8);
    vstd::arithmetic::div_mod::lemma_mod_bound(y, hb * 8);
    assert(nx / 8 < wb && 0 <= nx / 8) by (nonlinear_arith)
        requires
            0 <= nx < wb * 8,
    ;
    assert(ny / 8 < hb && 0 <= ny / 8) by (nonlinear_arith)
        requires
            0 <= ny < hb * 8,
    ;
    vstd::arithmetic::div_mod::lemma_small_mod((nx / 8) as nat, wb as nat);
    vstd::arithmetic::div_mod::lemma_small_mod((ny / 8) as nat, hb as nat);
}

} // verus!
