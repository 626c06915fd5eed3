//! Tile classification and the dynamic-object vocabulary: the four
//! passability shapes a tile can take, the classifier that projects a raw
//! catalog entry into a shape, and the totally ordered dynamic objects the
//! overlay stores.

use vstd::prelude::*;
use crate::api::Item;
use crate::tiledata::{
    LandTileData, StaticTileData, FLAG_BRIDGE, FLAG_HOVER_OVER, FLAG_IMPASSABLE, FLAG_SURFACE,
};

verus! {

/// A tile reference: either a land (map) graphic or a static graphic.
#[derive(Copy, Clone, PartialEq, Eq, Structural, Debug)]
pub enum TileType {
    MapTile(u16),
    ObjectTile(u16),
}

impl TileType {
    /// The graphic number, whichever kind of tile this is.
    pub open spec fn num_spec(self) -> u16 {
        match self {
            TileType::MapTile(tile) => tile,
            TileType::ObjectTile(tile) => tile,
        }
    }

    pub fn num(&self) -> (r: u16)
        ensures
            r == self.num_spec(),
    {
        match self {
            TileType::MapTile(tile) => *tile,
            TileType::ObjectTile(tile) => *tile,
        }
    }
}

/// The passability shape of a tile: a flat standable top, a ramp, a tile
/// transparent to walkers, or one that only reserves vertical space.
#[derive(Copy, Clone, PartialEq, Eq, Structural, Debug)]
pub enum TileShape {
    Slope { z_base: i8, z_stand: i8, z_top: i8, passable: bool },
    Surface { z_base: i8, z_stand: i8, passable: bool },
    HoverOver { z_base: i8 },
    Background { z_base: i8, z_top: i8 },
}

/// Clamps a computed elevation into the signed 8-bit range.
pub open spec fn clamp_z(v: int) -> i8 {
    if v > 127 {
        127i8
    } else if v < -128 {
        (-128) as i8
    } else {
        v as i8
    }
}

/// Classifies a static tile: hovering tiles are transparent, tiles with
/// none of the impassable/surface/walkable bits (or with an ignored bit)
/// only reserve space, bridges become slopes, everything else a surface.
/// Elevations `z + height` are clamped into the i8 range.
pub open spec fn classify_static(
    z: i8,
    tile: StaticTileData,
    walkable: u32,
    ignore: u32,
) -> TileShape {
    let z_top = clamp_z(z + tile.height);
    if tile.flags & FLAG_HOVER_OVER != 0 {
        TileShape::HoverOver { z_base: z }
    } else if tile.flags & (FLAG_IMPASSABLE | FLAG_SURFACE | walkable) == 0 {
        TileShape::Background { z_base: z, z_top }
    } else if tile.flags & ignore != 0 {
        TileShape::Background { z_base: z, z_top }
    } else {
        let passable = tile.flags & FLAG_IMPASSABLE == 0 || tile.flags & walkable != 0;
        if tile.flags & FLAG_BRIDGE == 0 {
            TileShape::Surface { z_base: z, z_stand: z_top, passable }
        } else {
            TileShape::Slope { z_base: z, z_stand: clamp_z(z + tile.height / 2), z_top, passable }
        }
    }
}

/// Whether a shape is a surface or slope that a character may stand on.
pub open spec fn shape_standable(r: TileShape) -> bool {
    match r {
        TileShape::Surface { passable, .. } => passable,
        TileShape::Slope { passable, .. } => passable,
        TileShape::HoverOver { .. } => false,
        TileShape::Background { .. } => false,
    }
}

/// Whether a land graphic is one of the "non-existent" tiles that never
/// take part in passability.
pub open spec fn land_tile_is_void(tile: u16) -> bool {
    tile == 0x0002 || tile == 0x01DB || (0x01AE <= tile && tile <= 0x01B5)
}

/// Classifies a land cell from precomputed elevations: void graphics
/// only reserve space; a cell whose three elevations agree is a surface,
/// any other a slope.
pub open spec fn classify_land(
    z_base: i8,
    z_stand: i8,
    z_top: i8,
    tile: u16,
    data: LandTileData,
    walkable: u32,
) -> TileShape {
    if land_tile_is_void(tile) {
        TileShape::Background { z_base, z_top }
    } else {
        let passable = data.flags & FLAG_IMPASSABLE == 0 || data.flags & walkable != 0;
        if z_base == z_stand && z_stand == z_top {
            TileShape::Surface { z_base, z_stand, passable }
        } else {
            TileShape::Slope { z_base, z_stand, z_top, passable }
        }
    }
}

impl TileShape {
    /// Classifies a static tile at elevation `z`, honouring the caller's
    /// `walkable` and `ignore` flag masks.
    pub fn from_static_tile(z: i8, static_tile: &StaticTileData, walkable: u32, ignore: u32) -> (r:
        TileShape)
        ensures
            r == classify_static(z, *static_tile, walkable, ignore),
            static_tile.flags & FLAG_HOVER_OVER == 0 && static_tile.flags & ignore == 0
                && static_tile.flags & walkable != 0 ==> shape_standable(r),
    {
        proof {
            let f = static_tile.flags;
            assert(f & walkable != 0 ==> f & (0x40u32 | 0x200u32 | walkable) != 0) by (bit_vector);
        }
        let z16: i16 = z as i16;
        let z_top: i8 = clamp_z_exec(z16 + static_tile.height as i16);
        if static_tile.flags & FLAG_HOVER_OVER != 0 {
            TileShape::HoverOver { z_base: z }
        } else if static_tile.flags & (FLAG_IMPASSABLE | FLAG_SURFACE | walkable) == 0 {
            TileShape::Background { z_base: z, z_top }
        } else if static_tile.flags & ignore != 0 {
            TileShape::Background { z_base: z, z_top }
        } else {
            let passable: bool = static_tile.flags & FLAG_IMPASSABLE == 0 || static_tile.flags
                & walkable != 0;
            if static_tile.flags & FLAG_BRIDGE == 0 {
                TileShape::Surface { z_base: z, z_stand: z_top, passable }
            } else {
                let z_stand: i8 = clamp_z_exec(z16 + (static_tile.height / 2) as i16);
                TileShape::Slope { z_base: z, z_stand, z_top, passable }
            }
        }
    }

    /// Classifies a land cell from its precomputed base, stand and top
    /// elevations.
    pub fn from_land_tile(
        z_base: i8,
        z_stand: i8,
        z_top: i8,
        tile: u16,
        land_tile: &LandTileData,
        walkable: u32,
    ) -> (r: TileShape)
        ensures
            r == classify_land(z_base, z_stand, z_top, tile, *land_tile, walkable),
            !land_tile_is_void(tile) && land_tile.flags & walkable != 0 ==> shape_standable(r),
    {
        if tile == 0x0002 || tile == 0x01DB || (tile >= 0x01AE && tile <= 0x01B5) {
            TileShape::Background { z_base, z_top }
        } else {
            let passable: bool = land_tile.flags & FLAG_IMPASSABLE == 0 || land_tile.flags
                & walkable != 0;
            if z_base == z_stand && z_stand == z_top {
                TileShape::Surface { z_base, z_stand, passable }
            } else {
                TileShape::Slope { z_base, z_stand, z_top, passable }
            }
        }
    }

    pub fn flat(z_base: i8, z_stand: i8, passable: bool) -> (r: TileShape)
        ensures
            r == (TileShape::Surface { z_base, z_stand, passable }),
    {
        TileShape::Surface { z_base, z_stand, passable }
    }

    pub fn slope(z_base: i8, z_stand: i8, z_top: i8, passable: bool) -> (r: TileShape)
        ensures
            r == (TileShape::Slope { z_base, z_stand, z_top, passable }),
    {
        TileShape::Slope { z_base, z_stand, z_top, passable }
    }

    pub fn hover_over(z_base: i8) -> (r: TileShape)
        ensures
            r == (TileShape::HoverOver { z_base }),
    {
        TileShape::HoverOver { z_base }
    }

    pub fn background(z_base: i8, z_top: i8) -> (r: TileShape)
        ensures
            r == (TileShape::Background { z_base, z_top }),
    {
        TileShape::Background { z_base, z_top }
    }
}

/// Clamps an i16 elevation into the i8 range.
pub fn clamp_z_exec(v: i16) -> (r: i8)
    ensures
        r == clamp_z(v as int),
{
    if v > 127 {
        127
    } else if v < -128 {
        -128
    } else {
        v as i8
    }
}

/// A tile with its passability shape, as the query engine hands it to the
/// step oracle.
#[derive(Copy, Clone, PartialEq, Eq, Structural, Debug)]
pub struct WorldTile {
    pub tile: TileType,
    pub shape: TileShape,
}

impl WorldTile {
    /// The synthetic topmost tile appended during walkability checks.
    pub open spec fn cap_tile_spec() -> WorldTile {
        WorldTile {
            tile: TileType::MapTile(0),
            shape: TileShape::Surface { z_base: 127, z_stand: 127, passable: false },
        }
    }

    #[verifier::when_used_as_spec(cap_tile_spec)]
    pub fn cap_tile() -> (r: WorldTile)
        ensures
            r == WorldTile::cap_tile_spec(),
    {
        WorldTile {
            tile: TileType::MapTile(0),
            shape: TileShape::Surface { z_base: 127, z_stand: 127, passable: false },
        }
    }

    /// The elevation of the tile's base.
    pub open spec fn z_base_spec(self) -> i8 {
        match self.shape {
            TileShape::Slope { z_base, .. } => z_base,
            TileShape::Surface { z_base, .. } => z_base,
            TileShape::HoverOver { z_base } => z_base,
            TileShape::Background { z_base, .. } => z_base,
        }
    }

    pub fn z_base(&self) -> (r: i8)
        ensures
            r == self.z_base_spec(),
    {
        match self.shape {
            TileShape::Slope { z_base, .. } => z_base,
            TileShape::Surface { z_base, .. } => z_base,
            TileShape::HoverOver { z_base } => z_base,
            TileShape::Background { z_base, .. } => z_base,
        }
    }

    /// Whether a character may stand on this tile at all, which is what
    /// `z_stand` presumes.
    pub open spec fn standable(self) -> bool {
        match self.shape {
            TileShape::Slope { passable, .. } => passable,
            TileShape::Surface { passable, .. } => passable,
            TileShape::HoverOver { .. } => true,
            TileShape::Background { .. } => false,
        }
    }

    /// The elevation a character standing on this tile occupies.
    pub open spec fn z_stand_spec(self) -> i8 {
        match self.shape {
            TileShape::Slope { z_stand, .. } => z_stand,
            TileShape::Surface { z_stand, .. } => z_stand,
            TileShape::HoverOver { z_base } => z_base,
            TileShape::Background { z_base, .. } => z_base,
        }
    }

    pub fn z_stand(&self) -> (r: i8)
        requires
            self.standable(),
        ensures
            r == self.z_stand_spec(),
    {
        match self.shape {
            TileShape::Slope { z_stand, passable: true, .. } => z_stand,
            TileShape::Surface { z_stand, passable: true, .. } => z_stand,
            TileShape::HoverOver { z_base } => z_base,
            _ => unreached(),
        }
    }

    /// The elevation of the tile's top.
    pub open spec fn z_top_spec(self) -> i8 {
        match self.shape {
            TileShape::Slope { z_top, .. } => z_top,
            TileShape::Surface { z_stand, .. } => z_stand,
            TileShape::HoverOver { z_base } => z_base,
            TileShape::Background { z_top, .. } => z_top,
        }
    }

    pub fn z_top(&self) -> (r: i8)
        ensures
            r == self.z_top_spec(),
    {
        match self.shape {
            TileShape::Slope { z_top, .. } => z_top,
            TileShape::Surface { z_stand, .. } => z_stand,
            TileShape::HoverOver { z_base } => z_base,
            TileShape::Background { z_top, .. } => z_top,
        }
    }

    pub fn is_slope(&self) -> (r: bool)
        ensures
            r == (self.shape matches TileShape::Slope { .. }),
    {
        match self.shape {
            TileShape::Slope { .. } => true,
            _ => false,
        }
    }

    pub fn is_land(&self) -> (r: bool)
        ensures
            r == (self.tile matches TileType::MapTile(_)),
    {
        match self.tile {
            TileType::MapTile(_) => true,
            _ => false,
        }
    }

    pub fn is_hover_over(&self) -> (r: bool)
        ensures
            r == (self.shape matches TileShape::HoverOver { .. }),
    {
        match self.shape {
            TileShape::HoverOver { .. } => true,
            _ => false,
        }
    }
}

/// A tie-break tag on the shape variant, making the stack order total.
pub open spec fn shape_tag(t: WorldTile) -> int {
    match t.shape {
        TileShape::Slope { .. } => 0,
        TileShape::Surface { .. } => 1,
        TileShape::HoverOver { .. } => 2,
        TileShape::Background { .. } => 3,
    }
}

/// Whether a standing character may use the tile, as a tie-break key.
pub open spec fn shape_pass_bit(t: WorldTile) -> int {
    match t.shape {
        TileShape::Slope { passable, .. } => if passable {
            1int
        } else {
            0
        },
        TileShape::Surface { passable, .. } => if passable {
            1int
        } else {
            0
        },
        TileShape::HoverOver { .. } => 0,
        TileShape::Background { .. } => 0,
    }
}

pub open spec fn tile_tag(t: WorldTile) -> int {
    match t.tile {
        TileType::MapTile(_) => 0,
        TileType::ObjectTile(_) => 1,
    }
}

/// The stack order of a cell: ascending `(z_top, z_base)` as the step
/// oracle relies on, with the remaining fields as deterministic tie-breaks.
pub open spec fn tile_le(a: WorldTile, b: WorldTile) -> bool {
    if a.z_top_spec() != b.z_top_spec() {
        (a.z_top_spec() as int) < (b.z_top_spec() as int)
    } else if a.z_base_spec() != b.z_base_spec() {
        (a.z_base_spec() as int) < (b.z_base_spec() as int)
    } else if shape_tag(a) != shape_tag(b) {
        shape_tag(a) < shape_tag(b)
    } else if a.z_stand_spec() != b.z_stand_spec() {
        (a.z_stand_spec() as int) < (b.z_stand_spec() as int)
    } else if shape_pass_bit(a) != shape_pass_bit(b) {
        shape_pass_bit(a) < shape_pass_bit(b)
    } else if tile_tag(a) != tile_tag(b) {
        tile_tag(a) < tile_tag(b)
    } else {
        (a.tile.num_spec() as int) <= (b.tile.num_spec() as int)
    }
}

/// Inserts a tile after every tile that orders at or before it.
pub open spec fn insert_tile(s: Seq<WorldTile>, t: WorldTile) -> Seq<WorldTile>
    decreases s.len(),
{
    if s.len() == 0 {
        seq![t]
    } else if tile_le(s.last(), t) {
        s.push(t)
    } else {
        insert_tile(s.drop_last(), t).push(s.last())
    }
}

/// The cell stack sorted by `tile_le`: insertion sort in specification
/// form, the reference for the executable sort.
pub open spec fn sort_tiles(s: Seq<WorldTile>) -> Seq<WorldTile>
    decreases s.len(),
{
    if s.len() == 0 {
        Seq::empty()
    } else {
        insert_tile(sort_tiles(s.drop_last()), s.last())
    }
}

/// Executable stack-order comparison.
pub fn tile_le_exec(a: &WorldTile, b: &WorldTile) -> (r: bool)
    ensures
        r == tile_le(*a, *b),
{
    let atop = a.z_top();
    let btop = b.z_top();
    if atop != btop {
        return atop < btop;
    }
    let abase = a.z_base();
    let bbase = b.z_base();
    if abase != bbase {
        return abase < bbase;
    }
    let atag: u8 = match a.shape {
        TileShape::Slope { .. } => 0,
        TileShape::Surface { .. } => 1,
        TileShape::HoverOver { .. } => 2,
        TileShape::Background { .. } => 3,
    };
    let btag: u8 = match b.shape {
        TileShape::Slope { .. } => 0,
        TileShape::Surface { .. } => 1,
        TileShape::HoverOver { .. } => 2,
        TileShape::Background { .. } => 3,
    };
    if atag != btag {
        return atag < btag;
    }
    let astand: i8 = match a.shape {
        TileShape::Slope { z_stand, .. } => z_stand,
        TileShape::Surface { z_stand, .. } => z_stand,
        TileShape::HoverOver { z_base } => z_base,
        TileShape::Background { z_base, .. } => z_base,
    };
    let bstand: i8 = match b.shape {
        TileShape::Slope { z_stand, .. } => z_stand,
        TileShape::Surface { z_stand, .. } => z_stand,
        TileShape::HoverOver { z_base } => z_base,
        TileShape::Background { z_base, .. } => z_base,
    };
    if astand != bstand {
        return astand < bstand;
    }
    let apass: u8 = match a.shape {
        TileShape::Slope { passable: true, .. } => 1,
        TileShape::Surface { passable: true, .. } => 1,
        _ => 0,
    };
    let bpass: u8 = match b.shape {
        TileShape::Slope { passable: true, .. } => 1,
        TileShape::Surface { passable: true, .. } => 1,
        _ => 0,
    };
    if apass != bpass {
        return apass < bpass;
    }
    let att: u8 = match a.tile {
        TileType::MapTile(_) => 0,
        TileType::ObjectTile(_) => 1,
    };
    let btt: u8 = match b.tile {
        TileType::MapTile(_) => 0,
        TileType::ObjectTile(_) => 1,
    };
    if att != btt {
        return att < btt;
    }
    a.tile.num() <= b.tile.num()
}

/// `tile_le` is total and transitive.
pub proof fn lemma_tile_le_props(a: WorldTile, b: WorldTile, c: WorldTile)
    ensures
        tile_le(a, b) || tile_le(b, a),
        tile_le(a, b) && tile_le(b, c) ==> tile_le(a, c),
{
}

/// Inserting at the boundary the executable search finds matches the
/// specification-level insertion.
proof fn lemma_insert_tile_at(s: Seq<WorldTile>, t: WorldTile, pos: int)
    requires
        0 <= pos <= s.len(),
        forall|p: int, q: int| 0 <= p < q < s.len() ==> tile_le(#[trigger] s[p], #[trigger] s[q]),
        forall|j: int| 0 <= j < pos ==> tile_le(#[trigger] s[j], t),
        forall|j: int| pos <= j < s.len() ==> !tile_le(#[trigger] s[j], t),
    ensures
        insert_tile(s, t) == s.insert(pos, t),
    decreases s.len(),
{
    if s.len() == 0 {
        assert(insert_tile(s, t) =~= s.insert(pos, t));
    } else if tile_le(s.last(), t) {
        assert(pos == s.len());
        assert(insert_tile(s, t) =~= s.insert(pos, t));
    } else {
        assert(pos < s.len());
        lemma_insert_tile_at(s.drop_last(), t, pos);
        assert(insert_tile(s.drop_last(), t).push(s.last()) =~= s.insert(pos, t));
    }
}

/// Sorts a cell stack by the stack order, matching `sort_tiles` exactly.
pub fn sort_world_tiles(v: &Vec<WorldTile>) -> (r: Vec<WorldTile>)
    ensures
        r@ == sort_tiles(v@),
        forall|p: int, q: int| 0 <= p < q < r@.len() ==> tile_le(#[trigger] r@[p], #[trigger] r@[q]),
{
    let mut out: Vec<WorldTile> = Vec::new();
    proof {
        assert(v@.take(0) =~= Seq::<WorldTile>::empty());
    }
    let mut i: usize = 0;
    while i < v.len()
        invariant
            i <= v@.len(),
            out@ == sort_tiles(v@.take(i as int)),
            forall|p: int, q: int|
                0 <= p < q < out@.len() ==> tile_le(#[trigger] out@[p], #[trigger] out@[q]),
        decreases v@.len() - i,
    {
        let x = v[i];
        let n: usize = out.len();
        let mut pos: usize = 0;
        while pos < n && tile_le_exec(&out[pos], &x)
            invariant
                pos <= n == out@.len(),
                forall|p: int, q: int|
                    0 <= p < q < out@.len() ==> tile_le(#[trigger] out@[p], #[trigger] out@[q]),
                forall|j: int| 0 <= j < pos ==> tile_le(#[trigger] out@[j], x),
            decreases n - pos,
        {
            pos = pos + 1;
        }
        proof {
            assert forall|j: int| pos <= j < out@.len() implies !tile_le(#[trigger] out@[j], x) by {
                if j > pos && tile_le(out@[j], x) {
                    lemma_tile_le_props(out@[pos as int], out@[j], x);
                }
            }
            lemma_insert_tile_at(out@, x, pos as int);
            assert(v@.take(i + 1).drop_last() =~= v@.take(i as int));
            assert(v@.take(i + 1).last() == v@[i as int]);
        }
        let ghost pre = out@;
        out.insert(pos, x);
        i = i + 1;
        proof {
            assert forall|p: int, q: int| 0 <= p < q < out@.len() implies tile_le(
                #[trigger] out@[p],
                #[trigger] out@[q],
            ) by {
                let p2 = pos as int;
                if q < p2 {
                } else if p < p2 && q == p2 {
                } else if p < p2 && q > p2 {
                    assert(out@[p] == pre[p] && out@[q] == pre[q - 1]);
                    assert(tile_le(pre[p], x));
                    assert(!tile_le(pre[q - 1], x));
                    lemma_tile_le_props(pre[q - 1], x, x);
                    lemma_tile_le_props(pre[p], x, pre[q - 1]);
                } else if p == p2 && q > p2 {
                    assert(out@[q] == pre[q - 1]);
                    assert(!tile_le(pre[q - 1], x));
                    lemma_tile_le_props(pre[q - 1], x, x);
                } else {
                    assert(out@[p] == pre[p - 1] && out@[q] == pre[q - 1]);
                }
            }
        }
    }
    proof {
        assert(v@.take(v@.len() as int) =~= v@);
    }
    out
}

/// A dynamic object of the overlay: either a synthesized part of a multi
/// object or a plain game object.
#[derive(Copy, Clone, PartialEq, Eq, Structural, Debug)]
pub enum DynamicWorldObject {
    MultiPart { x: isize, y: isize, z: i8, tile: u32, parent: u32, counter: u16 },
    GameObject { x: isize, y: isize, z: i8, serial: u32, graphic: u32 },
}

impl DynamicWorldObject {
    pub open spec fn xs(self) -> int {
        match self {
            DynamicWorldObject::MultiPart { x, .. } => x as int,
            DynamicWorldObject::GameObject { x, .. } => x as int,
        }
    }

    pub open spec fn ys(self) -> int {
        match self {
            DynamicWorldObject::MultiPart { y, .. } => y as int,
            DynamicWorldObject::GameObject { y, .. } => y as int,
        }
    }

    pub open spec fn zs(self) -> int {
        match self {
            DynamicWorldObject::MultiPart { z, .. } => z as int,
            DynamicWorldObject::GameObject { z, .. } => z as int,
        }
    }

    /// Variant tag used by the ordering: parts sort before game objects.
    pub open spec fn tag(self) -> int {
        match self {
            DynamicWorldObject::MultiPart { .. } => 0,
            DynamicWorldObject::GameObject { .. } => 1,
        }
    }

    /// First secondary key: the part's tile, or the object's serial.
    pub open spec fn key1(self) -> int {
        match self {
            DynamicWorldObject::MultiPart { tile, .. } => tile as int,
            DynamicWorldObject::GameObject { serial, .. } => serial as int,
        }
    }

    /// Second secondary key: the part's parent, or the object's graphic.
    pub open spec fn key2(self) -> int {
        match self {
            DynamicWorldObject::MultiPart { parent, .. } => parent as int,
            DynamicWorldObject::GameObject { graphic, .. } => graphic as int,
        }
    }

    /// Third secondary key: the part's counter; game objects have none.
    pub open spec fn key3(self) -> int {
        match self {
            DynamicWorldObject::MultiPart { counter, .. } => counter as int,
            DynamicWorldObject::GameObject { .. } => 0,
        }
    }

    /// The least object of the block order with the given coordinates.
    pub fn min_item(x: isize, y: isize) -> (r: DynamicWorldObject)
        ensures
            r == (DynamicWorldObject::MultiPart {
                x,
                y,
                z: -128 as i8,
                tile: 0u32,
                parent: 0u32,
                counter: 0u16,
            }),
    {
        DynamicWorldObject::MultiPart { x, y, z: -128, tile: 0, parent: 0, counter: 0 }
    }

    /// The greatest object of the block order with the given coordinates.
    pub fn max_item(x: isize, y: isize) -> (r: DynamicWorldObject)
        ensures
            r == (DynamicWorldObject::GameObject {
                x,
                y,
                z: 127i8,
                serial: 0xFFFF_FFFFu32,
                graphic: 0xFFFF_FFFFu32,
            }),
    {
        DynamicWorldObject::GameObject {
            x,
            y,
            z: 127,
            serial: 0xFFFF_FFFF,
            graphic: 0xFFFF_FFFF,
        }
    }

    pub fn game_object(x: isize, y: isize, z: i8, serial: u32, graphic: u32) -> (r:
        DynamicWorldObject)
        ensures
            r == (DynamicWorldObject::GameObject { x, y, z, serial, graphic }),
    {
        DynamicWorldObject::GameObject { x, y, z, serial, graphic }
    }
}

/// The strict total order of the overlay: position first, then the variant
/// tag (a multi part sorts before a game object at the same position), then
/// the variant's own secondary keys.
pub open spec fn obj_lt(a: DynamicWorldObject, b: DynamicWorldObject) -> bool {
    if a.xs() != b.xs() {
        a.xs() < b.xs()
    } else if a.ys() != b.ys() {
        a.ys() < b.ys()
    } else if a.zs() != b.zs() {
        a.zs() < b.zs()
    } else if a.tag() != b.tag() {
        a.tag() < b.tag()
    } else if a.key1() != b.key1() {
        a.key1() < b.key1()
    } else if a.key2() != b.key2() {
        a.key2() < b.key2()
    } else {
        a.key3() < b.key3()
    }
}

/// `obj_lt` is a strict total order: irreflexive, transitive, and any two
/// distinct objects are ordered one way or the other.
pub proof fn lemma_obj_lt_total(a: DynamicWorldObject, b: DynamicWorldObject, c: DynamicWorldObject)
    ensures
        !obj_lt(a, a),
        obj_lt(a, b) && obj_lt(b, c) ==> obj_lt(a, c),
        a != b ==> obj_lt(a, b) || obj_lt(b, a),
{
    if a != b && !obj_lt(a, b) && !obj_lt(b, a) {
        assert(a.xs() == b.xs() && a.ys() == b.ys() && a.zs() == b.zs() && a.tag() == b.tag()
            && a.key1() == b.key1() && a.key2() == b.key2() && a.key3() == b.key3());
        match (a, b) {
            (
                DynamicWorldObject::MultiPart { .. },
                DynamicWorldObject::MultiPart { .. },
            ) => {
                assert(a == b);
            },
            (
                DynamicWorldObject::GameObject { .. },
                DynamicWorldObject::GameObject { .. },
            ) => {
                assert(a == b);
            },
            _ => {
                assert(false);
            },
        }
    }
}

/// Executable comparison agreeing with `obj_lt`.
pub fn obj_lt_exec(a: &DynamicWorldObject, b: &DynamicWorldObject) -> (r: bool)
    ensures
        r == obj_lt(*a, *b),
{
    let (ax, ay, az) = match a {
        DynamicWorldObject::MultiPart { x, y, z, .. } => (*x, *y, *z),
        DynamicWorldObject::GameObject { x, y, z, .. } => (*x, *y, *z),
    };
    let (bx, by, bz) = match b {
        DynamicWorldObject::MultiPart { x, y, z, .. } => (*x, *y, *z),
        DynamicWorldObject::GameObject { x, y, z, .. } => (*x, *y, *z),
    };
    if ax != bx {
        return ax < bx;
    }
    if ay != by {
        return ay < by;
    }
    if az != bz {
        return az < bz;
    }
    match (a, b) {
        (DynamicWorldObject::MultiPart { .. }, DynamicWorldObject::GameObject { .. }) => true,
        (DynamicWorldObject::GameObject { .. }, DynamicWorldObject::MultiPart { .. }) => false,
        (
            DynamicWorldObject::MultiPart { tile: t1, parent: p1, counter: c1, .. },
            DynamicWorldObject::MultiPart { tile: t2, parent: p2, counter: c2, .. },
        ) => {
            if t1 != t2 {
                t1 < t2
            } else if p1 != p2 {
                p1 < p2
            } else {
                c1 < c2
            }
        },
        (
            DynamicWorldObject::GameObject { serial: s1, graphic: g1, .. },
            DynamicWorldObject::GameObject { serial: s2, graphic: g2, .. },
        ) => {
            if s1 != s2 {
                s1 < s2
            } else if g1 != g2 {
                g1 < g2
            } else {
                false
            }
        },
    }
}


impl PartialOrd for DynamicWorldObject {
    fn partial_cmp(&self, other: &Self) -> (r: Option<core::cmp::Ordering>) {
        if *self == *other {
            Some(core::cmp::Ordering::Equal)
        } else if obj_lt_exec(self, other) {
            Some(core::cmp::Ordering::Less)
        } else {
            Some(core::cmp::Ordering::Greater)
        }
    }
}

impl vstd::std_specs::cmp::PartialOrdSpecImpl for DynamicWorldObject {
    open spec fn obeys_partial_cmp_spec() -> bool {
        true
    }

    open spec fn partial_cmp_spec(&self, other: &Self) -> Option<core::cmp::Ordering> {
        if *self == *other {
            Some(core::cmp::Ordering::Equal)
        } else if obj_lt(*self, *other) {
            Some(core::cmp::Ordering::Less)
        } else {
            Some(core::cmp::Ordering::Greater)
        }
    }
}

/// The persisted index entry standing for a game object; `serial` is its
/// primary key.
#[derive(Clone, Copy, PartialEq, Eq, Structural, Debug)]
pub struct TopLevelItem {
    pub world: u8,
    pub x: isize,
    pub y: isize,
    pub z: i8,
    pub serial: u32,
    pub graphic: u32,
    pub timestamp: u64,
}

impl TopLevelItem {
    pub fn new(world: u8, x: isize, y: isize, z: i8, serial: u32, graphic: u32, timestamp: u64) -> (
        r: TopLevelItem)
        ensures
            r == (TopLevelItem { world, x, y, z, serial, graphic, timestamp }),
    {
        TopLevelItem { world, x, y, z, serial, graphic, timestamp }
    }

    pub fn from_item(item: &Item, timestamp: u64) -> (r: TopLevelItem)
        ensures
            r == (TopLevelItem {
                world: item.world,
                x: item.x,
                y: item.y,
                z: item.z,
                serial: item.serial,
                graphic: item.graphic,
                timestamp,
            }),
    {
        TopLevelItem {
            world: item.world,
            x: item.x,
            y: item.y,
            z: item.z,
            serial: item.serial,
            graphic: item.graphic,
            timestamp,
        }
    }
}

} // verus!
