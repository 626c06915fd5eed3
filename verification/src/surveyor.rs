//! The step oracle and the pathfinder: whether a bipedal agent can step
//! from a cell in one of the eight compass directions, to what elevation it
//! arrives, and the weighted A* search built on those answers.

use vstd::prelude::*;
use crate::tiles::{TileShape, WorldTile};
use crate::world::DynamicWorld;
use crate::world_model::WorldData;

verus! {

/// The vertical tolerance added to the agent's upward reach when leaving a
/// cell.
pub const CLIMB_HEIGHT: i16 = 2;

/// The vertical clearance required between the agent's feet and anything
/// overhead.
pub const CHARACTER_HEIGHT: i16 = 16;

/// The larger of two values.
pub open spec fn max2(a: int, b: int) -> int {
    if a >= b {
        a
    } else {
        b
    }
}

/// The coordinate shift of each compass direction, starting north and
/// proceeding clockwise.
pub open spec fn move_to_spec(x: int, y: int, direction: u8) -> (int, int) {
    match direction & 7 {
        0u8 => (x, y - 1),
        1u8 => (x + 1, y - 1),
        2u8 => (x + 1, y),
        3u8 => (x + 1, y + 1),
        4u8 => (x, y + 1),
        5u8 => (x - 1, y + 1),
        6u8 => (x - 1, y),
        _ => (x - 1, y - 1),
    }
}

/// A direction turned by a number of steps, modulo 8.
pub open spec fn turn_spec(direction: u8, steps: i8) -> u8 {
    (((direction & 7) + steps) % 8) as u8
}

/// One tile's effect on the source range scan: a standable elevation at or
/// below the agent raises the lowest reachable point, and standing exactly
/// on a slope widens the range to the slope's whole extent.
pub open spec fn src_step(acc: (int, int), t: WorldTile, z: int) -> (int, int) {
    match t.shape {
        TileShape::Surface { z_base, z_stand, .. } => {
            let l1 = if z_stand <= z && z_stand > acc.0 {
                z_stand as int
            } else {
                acc.0
            };
            (l1, acc.1)
        },
        TileShape::Slope { z_base, z_stand, z_top, .. } => {
            let l1 = if z_stand <= z && z_stand > acc.0 {
                z_stand as int
            } else {
                acc.0
            };
            if z_stand == z {
                (if z_base < l1 {
                    z_base as int
                } else {
                    l1
                }, max2(acc.1, z_top as int))
            } else {
                (l1, acc.1)
            }
        },
        TileShape::HoverOver { .. } => acc,
        TileShape::Background { .. } => acc,
    }
}

/// The source scan's state after the first `i` tiles of the stack.
pub open spec fn src_state(tiles: Seq<WorldTile>, z: int, i: int) -> (int, int)
    decreases i,
{
    if i <= 0 {
        (-128, z)
    } else {
        src_step(src_state(tiles, z, i - 1), tiles[i - 1], z)
    }
}

/// The full source range of a stack: the scan's result with the climb
/// tolerance added on top, saturated at the elevation ceiling.
pub open spec fn source_range_spec(tiles: Seq<WorldTile>, z: int) -> (int, int) {
    let acc = src_state(tiles, z, tiles.len() as int);
    (acc.0, if acc.1 + 2 > 127 {
        127
    } else {
        acc.1 + 2
    })
}

/// Answers spatial queries of one world for movement testing.
pub struct WorldSurveyor<'a> {
    pub model: &'a DynamicWorld,
    pub data: &'a WorldData,
}

impl<'a> WorldSurveyor<'a> {
    pub open spec fn wf(self) -> bool {
        &&& self.model.wf()
        &&& crate::world::land_catalog_ok(self.model.base, self.data.tiledata)
        &&& crate::world::statics_catalog_ok(self.model.base, self.data.tiledata)
        &&& self.model.overlay_catalog_ok(self.data.tiledata)
    }

    /// The stack of cell `(x, y)` as movement testing sees it: no extra
    /// walkable or ignored flags.
    pub open spec fn tiles_spec(self, x: int, y: int, direction: u8) -> Seq<WorldTile> {
        self.model.full_stack_spec(self.data.tiledata, x, y, direction, 0, 0)
    }

    pub fn new(model: &'a DynamicWorld, data: &'a WorldData) -> (r: WorldSurveyor<'a>)
        ensures
            r.model == model,
            r.data == data,
    {
        WorldSurveyor { model, data }
    }

    /// The elements located at the given cell, in stack order, as movement
    /// testing uses them.
    pub fn get_tile_objects(&self, x: isize, y: isize, direction: u8, result: &mut Vec<WorldTile>)
        requires
            self.wf(),
            x < isize::MAX,
            y < isize::MAX,
            old(result)@.len() == 0,
        ensures
            final(result)@ == self.tiles_spec(x as int, y as int, direction),
    {
        self.model.query_tile_full(self.data, x, y, direction, 0, 0, result);
        proof {
            assert(old(result)@ + self.model.cell_stack_spec(
                self.data.tiledata,
                x as int,
                y as int,
                direction,
                0,
                0,
            ) =~= self.model.cell_stack_spec(
                self.data.tiledata,
                x as int,
                y as int,
                direction,
                0,
                0,
            ));
        }
    }

    /// The lower and upper elevations reachable on leaving `(x, y, z)` in
    /// the given direction.
    pub fn get_source_step_range(&self, x: isize, y: isize, z: i8, exit_direction: u8) -> (r: (
        i8,
        i8,
    ))
        requires
            self.wf(),
            x < isize::MAX,
            y < isize::MAX,
        ensures
            (r.0 as int, r.1 as int) == source_range_spec(
                self.tiles_spec(x as int, y as int, exit_direction),
                z as int,
            ),
    {
        let mut tiles: Vec<WorldTile> = Vec::new();
        self.get_tile_objects(x, y, exit_direction, &mut tiles);
        let ghost s = self.tiles_spec(x as int, y as int, exit_direction);
        let n: usize = tiles.len();
        let mut z_low_fall: i16 = -128;
        let mut z_high: i16 = z as i16;
        let mut i: usize = 0;
        while i < n
            invariant
                i <= n == s.len(),
                tiles@ == s,
                -128 <= z_low_fall <= 127,
                -128 <= z_high <= 127,
                (z_low_fall as int, z_high as int) == src_state(s, z as int, i as int),
            decreases n - i,
        {
            let tile = tiles[i];
            match tile.shape {
                TileShape::Surface { z_base, z_stand, .. } => {
                    let zs: i16 = z_stand as i16;
                    if zs <= z as i16 && zs > z_low_fall {
                        z_low_fall = zs;
                    }
                },
                TileShape::Slope { z_base, z_stand, z_top, .. } => {
                    let zs: i16 = z_stand as i16;
                    if zs <= z as i16 && zs > z_low_fall {
                        z_low_fall = zs;
                    }
                    if zs == z as i16 {
                        if (z_base as i16) < z_low_fall {
                            z_low_fall = z_base as i16;
                        }
                        if (z_top as i16) > z_high {
                            z_high = z_top as i16;
                        }
                    }
                },
                TileShape::HoverOver { .. } => {},
                TileShape::Background { .. } => {},
            }
            i = i + 1;
        }
        let capped: i16 = if z_high + CLIMB_HEIGHT > 127 {
            127
        } else {
            z_high + CLIMB_HEIGHT
        };
        (z_low_fall as i8, capped as i8)
    }

    /// The direction from the origin toward the sign of `(dx, dy)`.
    pub fn direction(dx: isize, dy: isize) -> (r: u8)
        requires
            !(dx == 0 && dy == 0),
        ensures
            r == direction_spec(dx as int, dy as int),
    {
        let sx: i32 = if dx > 0 {
            1
        } else if dx < 0 {
            -1
        } else {
            0
        };
        let sy: i32 = if dy > 0 {
            1
        } else if dy < 0 {
            -1
        } else {
            0
        };
        match (sx, sy) {
            (0, -1) => 0,
            (1, -1) => 1,
            (1, 0) => 2,
            (1, 1) => 3,
            (0, 1) => 4,
            (-1, 1) => 5,
            (-1, 0) => 6,
            _ => 7,
        }
    }

    /// Shifts the given coordinates one step in the given direction.
    pub fn move_to(x: isize, y: isize, direction: u8) -> (r: (isize, isize))
        requires
            isize::MIN < x < isize::MAX,
            isize::MIN < y < isize::MAX,
        ensures
            (r.0 as int, r.1 as int) == move_to_spec(x as int, y as int, direction),
    {
        match direction & 7 {
            0 => (x, y - 1),
            1 => (x + 1, y - 1),
            2 => (x + 1, y),
            3 => (x + 1, y + 1),
            4 => (x, y + 1),
            5 => (x - 1, y + 1),
            6 => (x - 1, y),
            _ => (x - 1, y - 1),
        }
    }

    /// Turns a direction by the given number of steps, to the right for
    /// positive steps and to the left for negative ones.
    pub fn turn_to(direction: u8, steps: i8) -> (r: u8)
        ensures
            r == turn_spec(direction, steps),
    {
        let d: i16 = (direction & 7) as i16 + steps as i16;
        let m: i16 = d % 8;
        let r: i16 = if m < 0 {
            m + 8
        } else {
            m
        };
        proof {
            let di = d as int;
            vstd::arithmetic::div_mod::lemma_fundamental_div_mod(di, 8);
            if di >= 0 {
            } else {
            }
        }
        r as u8
    }
}

/// Whether a tile takes part in the destination scan at all.
pub open spec fn is_solid(t: WorldTile) -> bool {
    match t.shape {
        TileShape::Surface { .. } => true,
        TileShape::Slope { .. } => true,
        TileShape::HoverOver { .. } => false,
        TileShape::Background { .. } => false,
    }
}

pub open spec fn solid_zb(t: WorldTile) -> int {
    match t.shape {
        TileShape::Surface { z_base, .. } => z_base as int,
        TileShape::Slope { z_base, .. } => z_base as int,
        TileShape::HoverOver { z_base } => z_base as int,
        TileShape::Background { z_base, .. } => z_base as int,
    }
}

pub open spec fn solid_zs(t: WorldTile) -> int {
    match t.shape {
        TileShape::Surface { z_stand, .. } => z_stand as int,
        TileShape::Slope { z_stand, .. } => z_stand as int,
        TileShape::HoverOver { z_base } => z_base as int,
        TileShape::Background { z_base, .. } => z_base as int,
    }
}

pub open spec fn solid_pass(t: WorldTile) -> bool {
    match t.shape {
        TileShape::Surface { passable, .. } => passable,
        TileShape::Slope { passable, .. } => passable,
        TileShape::HoverOver { .. } => false,
        TileShape::Background { .. } => false,
    }
}

pub open spec fn solid_is_slope(t: WorldTile) -> bool {
    t.shape matches TileShape::Slope { .. }
}

/// One candidate's effect on the destination scan: accepted when passable,
/// at or above everything already passed, with head room below the upper
/// tile and reachable from the source range; among accepted candidates the
/// one closest to the rising watermark wins, ties going to the first seen.
pub open spec fn dest_consider(
    t: WorldTile,
    acc: Option<int>,
    z_low: int,
    z_high: int,
    current_z: int,
    upper_zb: int,
) -> Option<int> {
    if !is_solid(t) {
        acc
    } else {
        let zs = solid_zs(t);
        if solid_pass(t) && zs >= current_z && upper_zb - zs >= 16 {
            let reach = if solid_is_slope(t) {
                solid_zb(t) <= z_high
            } else {
                zs <= z_high
            };
            if !reach {
                acc
            } else {
                match acc {
                    Some(best) => if crate::world::abs2(z_low - zs) < crate::world::abs2(
                        z_low - best,
                    ) {
                        Some(zs)
                    } else {
                        acc
                    },
                    None => Some(zs),
                }
            }
        } else {
            acc
        }
    }
}

/// The best candidate after scanning tiles `i-1` down to `k` below the
/// upper tile at `i`.
pub open spec fn dest_inner(
    s: Seq<WorldTile>,
    i: int,
    k: int,
    z_low: int,
    z_high: int,
    current_z: int,
    upper_zb: int,
    res0: Option<int>,
) -> Option<int>
    decreases i - k,
{
    if k >= i {
        res0
    } else {
        dest_consider(
            s[k],
            dest_inner(s, i, k + 1, z_low, z_high, current_z, upper_zb, res0),
            z_low,
            z_high,
            current_z,
            upper_zb,
        )
    }
}

/// The destination scan's state after the first `i` tiles: the rising
/// watermark of passed tiles, the highest standing elevation seen, and the
/// best landing found.
pub open spec fn dest_outer(s: Seq<WorldTile>, z_low0: int, z_high: int, i: int) -> (
    int,
    int,
    Option<int>,
)
    decreases i,
{
    if i <= 0 {
        (z_low0, -128, None)
    } else {
        let st = dest_outer(s, z_low0, z_high, i - 1);
        let t = s[i - 1];
        if !is_solid(t) {
            st
        } else {
            let zb = solid_zb(t);
            let zs = solid_zs(t);
            let res = if zb - st.0 >= 16 {
                dest_inner(s, i - 1, 0, st.0, z_high, st.1, zb, st.2)
            } else {
                st.2
            };
            (max2(st.0, zs), max2(st.1, zs), res)
        }
    }
}

/// The destination of a step into a cell whose stack is `stack` with the
/// source range `[z_low, z_high]`: the watermark scan with a synthetic
/// impassable cap on top. The arrival elevation `z_in` does not move the
/// choice: candidates compete by distance to the rising watermark alone,
/// the first seen keeping ties.
pub open spec fn dest_position_spec(
    stack: Seq<WorldTile>,
    z_in: int,
    z_low: int,
    z_high: int,
) -> Option<int> {
    let s = stack.push(WorldTile::cap_tile_spec());
    dest_outer(s, z_low, z_high, s.len() as int).2
}

/// Whether an executable result stands for the mathematical one.
pub open spec fn opt_i8_matches(r: Option<i8>, s: Option<int>) -> bool {
    match r {
        Some(v) => s == Some(v as int),
        None => s is None,
    }
}

/// Any landing the inner scan reports is either inherited or the standing
/// elevation of a passable tile among those below the upper tile, within
/// reach of the source range.
proof fn lemma_dest_inner_witness(
    s: Seq<WorldTile>,
    i: int,
    k: int,
    z_low: int,
    z_high: int,
    current_z: int,
    upper_zb: int,
    res0: Option<int>,
)
    requires
        0 <= k,
        i <= s.len(),
    ensures
        ({
            let r = dest_inner(s, i, k, z_low, z_high, current_z, upper_zb, res0);
            r is Some ==> r == res0 || exists|j: int|
                k <= j < i && is_solid(#[trigger] s[j]) && solid_pass(s[j]) && solid_zs(s[j])
                    == r->Some_0 && (solid_is_slope(s[j]) ==> solid_zb(s[j]) <= z_high) && (
                !solid_is_slope(s[j]) ==> solid_zs(s[j]) <= z_high)
        }),
    decreases i - k,
{
    if k < i {
        lemma_dest_inner_witness(s, i, k + 1, z_low, z_high, current_z, upper_zb, res0);
        let sub = dest_inner(s, i, k + 1, z_low, z_high, current_z, upper_zb, res0);
        let r = dest_inner(s, i, k, z_low, z_high, current_z, upper_zb, res0);
        if r is Some && r != sub {
            assert(is_solid(s[k]) && solid_pass(s[k]) && solid_zs(s[k]) == r->Some_0);
        } else if r is Some && r == sub && !(sub == res0) {
            let j0 = choose|j: int|
                k + 1 <= j < i && is_solid(#[trigger] s[j]) && solid_pass(s[j]) && solid_zs(s[j])
                    == sub->Some_0 && (solid_is_slope(s[j]) ==> solid_zb(s[j]) <= z_high) && (
                !solid_is_slope(s[j]) ==> solid_zs(s[j]) <= z_high);
            assert(k <= j0 < i);
        }
    }
}

/// Any landing the whole scan reports is the standing elevation of some
/// passable tile of the stack within reach of the source range.
pub proof fn lemma_dest_outer_witness(s: Seq<WorldTile>, z_low0: int, z_high: int, i: int)
    requires
        i <= s.len(),
    ensures
        ({
            let st = dest_outer(s, z_low0, z_high, i);
            st.2 is Some ==> exists|j: int|
                0 <= j < s.len() && is_solid(#[trigger] s[j]) && solid_pass(s[j]) && solid_zs(
                    s[j],
                ) == st.2->Some_0 && (solid_is_slope(s[j]) ==> solid_zb(s[j]) <= z_high) && (
                !solid_is_slope(s[j]) ==> solid_zs(s[j]) <= z_high)
        }),
    decreases i,
{
    if i > 0 {
        lemma_dest_outer_witness(s, z_low0, z_high, i - 1);
        let st = dest_outer(s, z_low0, z_high, i - 1);
        let cur = dest_outer(s, z_low0, z_high, i);
        if cur.2 is Some && !(cur.2 == st.2) {
            lemma_dest_inner_witness(s, i - 1, 0, st.0, z_high, st.1, solid_zb(s[i - 1]), st.2);
        }
    }
}

/// Every elevation the step oracle can land on belongs to a passable tile
/// of the destination stack and honours the source range: a surface's
/// standing point, or a slope whose base, lies at or under the reachable
/// ceiling.
pub proof fn lemma_step_climb_bound(stack: Seq<WorldTile>, z_in: int, z_low: int, z_high: int)
    ensures
        ({
            let r = dest_position_spec(stack, z_in, z_low, z_high);
            r is Some ==> exists|j: int|
                0 <= j < stack.len() && is_solid(#[trigger] stack[j]) && solid_pass(stack[j])
                    && solid_zs(stack[j]) == r->Some_0 && (solid_is_slope(stack[j]) ==> solid_zb(
                    stack[j],
                ) <= z_high) && (!solid_is_slope(stack[j]) ==> solid_zs(stack[j]) <= z_high)
        }),
{
    let s = stack.push(WorldTile::cap_tile_spec());
    lemma_dest_outer_witness(s, z_low, z_high, s.len() as int);
    let r = dest_position_spec(stack, z_in, z_low, z_high);
    if r is Some {
        let j = choose|j: int|
            0 <= j < s.len() && is_solid(#[trigger] s[j]) && solid_pass(s[j]) && solid_zs(s[j])
                == r->Some_0 && (solid_is_slope(s[j]) ==> solid_zb(s[j]) <= z_high) && (
            !solid_is_slope(s[j]) ==> solid_zs(s[j]) <= z_high);
        assert(!solid_pass(WorldTile::cap_tile_spec()));
        assert(j < stack.len());
        assert(stack[j] == s[j]);
    }
}

impl<'a> WorldSurveyor<'a> {
    /// The elevation at which the agent would stand after stepping into
    /// `(x, y)` with the source range `[z_low, z_high]`, or nothing if no
    /// landing fits.
    pub fn get_dest_position(&self, x: isize, y: isize, z: i8, z_low: i8, z_high: i8) -> (r:
        Option<i8>)
        requires
            self.wf(),
            x < isize::MAX,
            y < isize::MAX,
        ensures
            opt_i8_matches(
                r,
                dest_position_spec(
                    self.tiles_spec(x as int, y as int, 0),
                    z as int,
                    z_low as int,
                    z_high as int,
                ),
            ),
    {
        let mut objects: Vec<WorldTile> = Vec::new();
        self.get_tile_objects(x, y, 0, &mut objects);
        objects.push(WorldTile::cap_tile());
        let ghost s = self.tiles_spec(x as int, y as int, 0).push(WorldTile::cap_tile_spec());

        let z_high16: i16 = z_high as i16;
        let mut z_low16: i16 = z_low as i16;
        let mut current_z: i16 = -128;
        let mut result: Option<i8> = None;

        let n: usize = objects.len();
        let mut i: usize = 0;
        while i < n
            invariant
                i <= n == s.len(),
                objects@ == s,
                -128 <= z_low16 <= 127,
                -128 <= current_z <= 127,
                z_high16 == z_high as i16,
                ({
                    let st = dest_outer(s, z_low as int, z_high as int, i as int);
                    &&& z_low16 as int == st.0
                    &&& current_z as int == st.1
                    &&& opt_i8_matches(result, st.2)
                }),
            decreases n - i,
        {
            let upper = objects[i];
            let solid: bool = match upper.shape {
                TileShape::Surface { .. } => true,
                TileShape::Slope { .. } => true,
                _ => false,
            };
            if solid {
                let (upper_zb, upper_zs): (i16, i16) = match upper.shape {
                    TileShape::Surface { z_base, z_stand, .. } => (z_base as i16, z_stand as i16),
                    TileShape::Slope { z_base, z_stand, .. } => (z_base as i16, z_stand as i16),
                    _ => (0, 0),
                };
                if upper_zb - z_low16 >= CHARACTER_HEIGHT {
                    let ghost res_entry = result;
                    let mut j: usize = i;
                    while j > 0
                        invariant
                            j <= i < n == s.len(),
                            objects@ == s,
                            -128 <= z_low16 <= 127,
                            -128 <= current_z <= 127,
                            z_high16 == z_high as i16,
                            upper_zb as int == solid_zb(s[i as int]),
                            opt_i8_matches(
                                result,
                                dest_inner(
                                    s,
                                    i as int,
                                    j as int,
                                    z_low16 as int,
                                    z_high as int,
                                    current_z as int,
                                    upper_zb as int,
                                    (match res_entry {
                                        Some(v) => Some(v as int),
                                        None => None,
                                    }),
                                ),
                            ),
                        decreases j,
                    {
                        j = j - 1;
                        let bottom = objects[j];
                        let bsolid: bool = match bottom.shape {
                            TileShape::Surface { .. } => true,
                            TileShape::Slope { .. } => true,
                            _ => false,
                        };
                        if bsolid {
                            let (b_zb8, b_zs8, b_pass, b_slope): (i8, i8, bool, bool) =
                                match bottom.shape {
                                TileShape::Surface { z_base, z_stand, passable } => (
                                    z_base,
                                    z_stand,
                                    passable,
                                    false,
                                ),
                                TileShape::Slope { z_base, z_stand, passable, .. } => (
                                    z_base,
                                    z_stand,
                                    passable,
                                    true,
                                ),
                                _ => (0, 0, false, false),
                            };
                            let b_zs: i16 = b_zs8 as i16;
                            if b_pass && b_zs >= current_z && upper_zb - b_zs >= CHARACTER_HEIGHT {
                                let reach: bool = if b_slope {
                                    (b_zb8 as i16) <= z_high16
                                } else {
                                    b_zs <= z_high16
                                };
                                if reach {
                                    match result {
                                        Some(best) => {
                                            let curr_delta: i16 = if z_low16 >= b_zs {
                                                z_low16 - b_zs
                                            } else {
                                                b_zs - z_low16
                                            };
                                            let prev_delta: i16 = if z_low16 >= best as i16 {
                                                z_low16 - best as i16
                                            } else {
                                                best as i16 - z_low16
                                            };
                                            if curr_delta < prev_delta {
                                                result = Some(b_zs8);
                                            }
                                        },
                                        None => {
                                            result = Some(b_zs8);
                                        },
                                    }
                                }
                            }
                        }
                    }
                }
                if upper_zs > z_low16 {
                    z_low16 = upper_zs;
                }
                if upper_zs > current_z {
                    current_z = upper_zs;
                }
            }
            i = i + 1;
        }
        result
    }
}

impl<'a> WorldSurveyor<'a> {
    /// The step oracle for one direction: the source range of the cell
    /// being left, then the destination fit of the cell entered.
    #[verifier::opaque]
    pub open spec fn step_single_spec(self, x: int, y: int, z: i8, direction: u8) -> Option<int> {
        let to = move_to_spec(x, y, direction);
        let src = source_range_spec(self.tiles_spec(x, y, direction), z as int);
        dest_position_spec(self.tiles_spec(to.0, to.1, 0), z as int, src.0, src.1)
    }

    /// The full step oracle: a diagonal step additionally needs both
    /// adjacent cardinal steps to be possible.
    #[verifier::opaque]
    pub open spec fn step_spec(self, x: int, y: int, z: i8, direction: u8) -> Option<int> {
        match self.step_single_spec(x, y, z, direction) {
            None => None,
            Some(dz) => if direction & 1 == 0 {
                Some(dz)
            } else if self.step_single_spec(x, y, z, turn_spec(direction, 1i8)) is Some
                && self.step_single_spec(x, y, z, turn_spec(direction, -1i8)) is Some {
                Some(dz)
            } else {
                None
            },
        }
    }

    /// Whether a step from `(x, y, z)` in the given direction is possible,
    /// ignoring the diagonal guard, and to what elevation it leads.
    pub fn test_step_single(&self, x: isize, y: isize, z: i8, direction: u8) -> (r: Option<i8>)
        requires
            self.wf(),
            isize::MIN + 1 < x < isize::MAX - 1,
            isize::MIN + 1 < y < isize::MAX - 1,
        ensures
            opt_i8_matches(r, self.step_single_spec(x as int, y as int, z, direction)),
    {
        proof {
            reveal(WorldSurveyor::step_single_spec);
        }
        let (to_x, to_y) = WorldSurveyor::move_to(x, y, direction);
        let (z_low, z_high) = self.get_source_step_range(x, y, z, direction);
        self.get_dest_position(to_x, to_y, z, z_low, z_high)
    }

    /// Whether a step from `(x, y, z)` in the given direction is possible:
    /// a diagonal step is refused unless both adjacent cardinal steps are
    /// possible too.
    pub fn test_step(&self, x: isize, y: isize, z: i8, direction: u8) -> (r: Option<i8>)
        requires
            self.wf(),
            isize::MIN + 1 < x < isize::MAX - 1,
            isize::MIN + 1 < y < isize::MAX - 1,
        ensures
            opt_i8_matches(r, self.step_spec(x as int, y as int, z, direction)),
            direction & 1 == 1 && r is Some ==> self.step_single_spec(
                x as int,
                y as int,
                z,
                turn_spec(direction, 1i8),
            ) is Some && self.step_single_spec(
                x as int,
                y as int,
                z,
                turn_spec(direction, -1i8),
            ) is Some,
    {
        proof {
            reveal(WorldSurveyor::step_spec);
        }
        let dest = self.test_step_single(x, y, z, direction);
        let dest_z: i8 = match dest {
            Some(v) => v,
            None => {
                return None;
            },
        };
        if direction & 1 == 0 {
            proof {
                assert((direction & 1 == 0) || (direction & 1 == 1)) by (bit_vector);
            }
            return Some(dest_z);
        }
        proof {
            assert((direction & 1 == 0) || (direction & 1 == 1)) by (bit_vector);
        }
        let right = self.test_step_single(x, y, z, WorldSurveyor::turn_to(direction, 1));
        if right.is_none() {
            return None;
        }
        let left = self.test_step_single(x, y, z, WorldSurveyor::turn_to(direction, -1));
        if left.is_none() {
            return None;
        }
        Some(dest_z)
    }
}

/// A 3D position during path search.
#[derive(Debug, PartialEq, Eq, Structural, Copy, Clone)]
struct Position {
    x: isize,
    y: isize,
    z: i8,
}

/// A frontier entry: total score, cost so far, arrival direction, the
/// position itself and its predecessor.
struct ScoredPosition {
    fval: isize,
    gval: isize,
    dir: u8,
    pos: Position,
    src: Position,
}

/// Saturating signed addition, as the search accumulates costs.
pub open spec fn sat_add(a: int, b: int) -> int {
    if a + b > isize::MAX {
        isize::MAX as int
    } else if a + b < isize::MIN {
        isize::MIN as int
    } else {
        a + b
    }
}

/// A mathematical value clamped into the signed word range.
pub open spec fn sat_i(v: int) -> int {
    if v > isize::MAX {
        isize::MAX as int
    } else if v < isize::MIN {
        isize::MIN as int
    } else {
        v
    }
}

/// Saturating signed multiplication.
pub open spec fn sat_mul(a: int, b: int) -> int {
    if a * b > isize::MAX {
        isize::MAX as int
    } else if a * b < isize::MIN {
        isize::MIN as int
    } else {
        a * b
    }
}

fn sat_add_exec(a: isize, b: isize) -> (r: isize)
    ensures
        r as int == sat_add(a as int, b as int),
{
    match a.checked_add(b) {
        Some(v) => v,
        None => {
            if b > 0 {
                isize::MAX
            } else {
                isize::MIN
            }
        },
    }
}

fn sat_mul_exec(a: isize, b: isize) -> (r: isize)
    ensures
        r as int == sat_mul(a as int, b as int),
{
    match a.checked_mul(b) {
        Some(v) => v,
        None => {
            proof {
                let ai = a as int;
                let bi = b as int;
                assert((ai > 0 && bi > 0 ==> ai * bi > 0) && (ai < 0 && bi < 0 ==> ai * bi > 0)
                    && (ai > 0 && bi < 0 ==> ai * bi < 0) && (ai < 0 && bi > 0 ==> ai * bi < 0)
                    && (ai == 0 || bi == 0 ==> ai * bi == 0)) by (nonlinear_arith);
            }
            if (a > 0) == (b > 0) {
                isize::MAX
            } else {
                isize::MIN
            }
        },
    }
}

/// The integer square root, built up one step at a time.
pub open spec fn sqrt_floor(n: int) -> int
    decreases n,
{
    if n <= 0 {
        0
    } else {
        let s = sqrt_floor(n - 1);
        if (s + 1) * (s + 1) <= n {
            s + 1
        } else {
            s
        }
    }
}

/// `sqrt_floor` is the rounded-down square root.
pub proof fn lemma_sqrt_floor_bounds(n: int)
    requires
        n >= 0,
    ensures
        sqrt_floor(n) >= 0,
        sqrt_floor(n) * sqrt_floor(n) <= n,
        n < (sqrt_floor(n) + 1) * (sqrt_floor(n) + 1),
    decreases n,
{
    if n > 0 {
        lemma_sqrt_floor_bounds(n - 1);
        let s = sqrt_floor(n - 1);
        if (s + 1) * (s + 1) <= n {
            assert(n < (s + 2) * (s + 2)) by (nonlinear_arith)
                requires
                    (n - 1 < (s + 1) * (s + 1)) && (s >= 0),
            ;
        }
    }
}

/// No two different values both satisfy the square root bounds.
proof fn lemma_sqrt_unique(n: int, a: int, b: int)
    requires
        0 <= a,
        0 <= b,
        a * a <= n < (a + 1) * (a + 1),
        b * b <= n < (b + 1) * (b + 1),
    ensures
        a == b,
{
    assert(a == b) by (nonlinear_arith)
        requires
            (0 <= a) && (0 <= b) && (a * a <= n) && (n < (a + 1) * (a + 1)) && (b * b <= n) && (n
                < (b + 1) * (b + 1)),
    ;
}

/// The rounded-down square root, by binary search.
fn isqrt(v: u64) -> (r: u64)
    ensures
        r as int == sqrt_floor(v as int),
{
    let mut lo: u64 = 0;
    let mut hi: u64 = 0x1_0000_0000;
    while lo + 1 < hi
        invariant
            lo < hi <= 0x1_0000_0000,
            (lo as int) * (lo as int) <= v as int,
            (v as int) < (hi as int) * (hi as int),
        decreases hi - lo,
    {
        let mid: u64 = lo + (hi - lo) / 2;
        proof {
            assert((mid as int) * (mid as int) <= 0xFFFF_FFFF * 0xFFFF_FFFF) by (nonlinear_arith)
                requires
                    (0 <= mid as int) && (mid as int <= 0xFFFF_FFFF),
            ;
        }
        if mid * mid <= v {
            lo = mid;
        } else {
            hi = mid;
        }
    }
    proof {
        lemma_sqrt_floor_bounds(v as int);
        lemma_sqrt_unique(v as int, lo as int, sqrt_floor(v as int));
    }
    lo
}

/// The heuristic distance of one of the four distance functions, over the
/// absolute coordinate differences, with saturating arithmetic.
pub open spec fn dist_spec(
    f: crate::api::DistanceFunc,
    h_direct: int,
    h_diag: int,
    dx: int,
    dy: int,
) -> int {
    match f {
        crate::api::DistanceFunc::Manhattan => sat_mul(sat_add(dx, dy), h_direct),
        crate::api::DistanceFunc::Chebyshev => sat_mul(max2(dx, dy), h_direct),
        crate::api::DistanceFunc::Diagonal => sat_add(
            sat_mul(h_direct, sat_add(dx, dy)),
            sat_mul(sat_add(h_diag, sat_mul(-2, h_direct)), if dx <= dy {
                dx
            } else {
                dy
            }),
        ),
        crate::api::DistanceFunc::Euclidean => sat_mul(sat_i(sqrt_floor(dx * dx + dy * dy)), h_direct),
    }
}

fn dist_exec(f: crate::api::DistanceFunc, h_direct: isize, h_diag: isize, dx: isize, dy: isize) -> (
    r: isize)
    requires
        0 <= dx <= 0x8000_0000,
        0 <= dy <= 0x8000_0000,
    ensures
        r as int == dist_spec(f, h_direct as int, h_diag as int, dx as int, dy as int),
{
    match f {
        crate::api::DistanceFunc::Manhattan => sat_mul_exec(sat_add_exec(dx, dy), h_direct),
        crate::api::DistanceFunc::Chebyshev => sat_mul_exec(
            if dx >= dy {
                dx
            } else {
                dy
            },
            h_direct,
        ),
        crate::api::DistanceFunc::Diagonal => sat_add_exec(
            sat_mul_exec(h_direct, sat_add_exec(dx, dy)),
            sat_mul_exec(
                sat_add_exec(h_diag, sat_mul_exec(-2, h_direct)),
                if dx <= dy {
                    dx
                } else {
                    dy
                },
            ),
        ),
        crate::api::DistanceFunc::Euclidean => {
            proof {
                let dxi = dx as int;
                let dyi = dy as int;
                assert(0 <= dxi * dxi <= 0x4000_0000_0000_0000 && 0 <= dyi * dyi
                    <= 0x4000_0000_0000_0000) by (nonlinear_arith)
                    requires
                        (0 <= dxi <= 0x8000_0000) && (0 <= dyi <= 0x8000_0000),
                ;
            }
            let sq: u64 = (dx as u64) * (dx as u64) + (dy as u64) * (dy as u64);
            let root: u64 = isqrt(sq);
            proof {
                lemma_sqrt_floor_bounds(sq as int);
                assert((root as int) * (root as int) <= sq as int);
                assert((root as int) <= 0x1_0000_0000) by (nonlinear_arith)
                    requires
                        (0 <= root as int) && (sq as int <= 0x8000_0000_0000_0000) && ((root
                            as int) * (root as int) <= sq as int),
                ;
                assert(sq as int == (dx as int) * (dx as int) + (dy as int) * (dy as int));
                assert(root as int == sqrt_floor((dx as int) * (dx as int) + (dy as int) * (dy
                    as int)));
            }
            let root_i: isize = if root > isize::MAX as u64 {
                isize::MAX
            } else {
                root as isize
            };
            sat_mul_exec(root_i, h_direct)
        },
    }
}

/// Coordinates a search node may carry: the bounded search rectangle and
/// the endpoints all lie well inside the machine range.
pub open spec fn pos_ok_xy(x: int, y: int) -> bool {
    -0x1000_0000 <= x <= 0x1000_0000 && -0x1000_0000 <= y <= 0x1000_0000
}

spec fn pos_ok(p: Position) -> bool {
    pos_ok_xy(p.x as int, p.y as int)
}

/// Machine bounds on the caller's options: rectangle edges and accuracies
/// stay well inside the machine range.
pub open spec fn trace_opts_ok(o: crate::api::TraceOptions) -> bool {
    &&& (o.left matches Some(v) ==> -0x1000_0000 <= v <= 0x1000_0000)
    &&& (o.top matches Some(v) ==> -0x1000_0000 <= v <= 0x1000_0000)
    &&& (o.right matches Some(v) ==> -0x1000_0000 <= v <= 0x1000_0000)
    &&& (o.bottom matches Some(v) ==> -0x1000_0000 <= v <= 0x1000_0000)
}

/// An optional option value, or its default.
pub open spec fn opt_isize_or(o: Option<isize>, d: int) -> int {
    match o {
        Some(v) => v as int,
        None => d,
    }
}

pub open spec fn trace_left(o: crate::api::TraceOptions) -> int {
    opt_isize_or(o.left, 0)
}

pub open spec fn trace_top(o: crate::api::TraceOptions) -> int {
    opt_isize_or(o.top, 0)
}

pub open spec fn trace_acc_x(o: crate::api::TraceOptions) -> int {
    opt_isize_or(o.accuracy_x, 0)
}

pub open spec fn trace_acc_y(o: crate::api::TraceOptions) -> int {
    opt_isize_or(o.accuracy_y, 0)
}

pub open spec fn trace_acc_z(o: crate::api::TraceOptions) -> int {
    opt_isize_or(o.accuracy_z, 0)
}

pub open spec fn trace_cost_limit(o: crate::api::TraceOptions) -> int {
    opt_isize_or(o.cost_limit, isize::MAX as int)
}

pub open spec fn trace_cost_turn(o: crate::api::TraceOptions) -> int {
    opt_isize_or(o.cost_turn, 1)
}

pub open spec fn trace_cost_straight(o: crate::api::TraceOptions) -> int {
    opt_isize_or(o.cost_move_straight, 1)
}

pub open spec fn trace_cost_diagonal(o: crate::api::TraceOptions) -> int {
    opt_isize_or(o.cost_move_diagonal, trace_cost_straight(o))
}

pub open spec fn trace_allow_diagonal(o: crate::api::TraceOptions) -> bool {
    match o.allow_diagonal_move {
        Some(v) => v,
        None => false,
    }
}

pub open spec fn trace_all_points(o: crate::api::TraceOptions) -> bool {
    match o.all_points {
        Some(v) => v,
        None => false,
    }
}

/// Whether a node lies within the accuracy tolerances of the goal on each
/// axis.
pub open spec fn within_accuracy(
    gx: int,
    gy: int,
    gz: i8,
    ax: int,
    ay: int,
    az: int,
    x: int,
    y: int,
    z: i8,
) -> bool {
    &&& crate::world::abs2(gx - x) <= ax
    &&& crate::world::abs2(gy - y) <= ay
    &&& crate::world::abs2(gz as int - z as int) <= az
}

/// Chebyshev distance to the goal over the three axes.
pub open spec fn cheb_dist(gx: int, gy: int, gz: i8, x: int, y: int, z: i8) -> int {
    max2(
        crate::world::abs2(gx - x),
        max2(crate::world::abs2(gy - y), crate::world::abs2(gz as int - z as int)),
    )
}

/// The cost of one move: the straight or diagonal base, plus the turn cost
/// when the direction changes, saturating as the search accumulates.
pub open spec fn move_cost(d: u8, pdir: u8, ct: int, cms: int, cmd: int) -> int {
    sat_add(
        if d & 1 != 0 {
            cmd
        } else {
            cms
        },
        if d == pdir {
            0
        } else {
            ct
        },
    )
}

/// Whether a record of expanded nodes holds the given position.
pub open spec fn record_has_pos(vs: Seq<(int, int, i8, int, u8)>, x: int, y: int, z: int) -> bool {
    exists|k: int|
        0 <= k < vs.len() && (#[trigger] vs[k]).0 == x && vs[k].1 == y && (vs[k].2 as int) == z
}

impl<'a> WorldSurveyor<'a> {
    /// One legal move of the search: from `(ax, ay, az)` one cell toward
    /// `(bx, by)`, with the step oracle allowing the move and assigning
    /// exactly the arrival elevation `bz`.
    pub open spec fn path_edge_spec(
        self,
        ax: int,
        ay: int,
        az: i8,
        bx: int,
        by: int,
        bz: i8,
    ) -> bool {
        &&& !(ax == bx && ay == by)
        &&& -1 <= bx - ax <= 1
        &&& -1 <= by - ay <= 1
        &&& self.step_spec(ax, ay, az, direction_spec(bx - ax, by - ay)) == Some(bz as int)
    }

    /// The right edge of the search rectangle: the caller's, or the world
    /// width.
    pub open spec fn trace_right(self, o: crate::api::TraceOptions) -> int {
        opt_isize_or(o.right, self.model.base.width_spec())
    }

    /// The bottom edge of the search rectangle: the caller's, or the world
    /// height.
    pub open spec fn trace_bottom(self, o: crate::api::TraceOptions) -> int {
        opt_isize_or(o.bottom, self.model.base.height_spec())
    }

    /// What one probe of the search grants: the target cell lies inside
    /// the bounded rectangle and the step oracle allows the single move.
    #[verifier::opaque]
    pub open spec fn probe_ok(
        self,
        left: int,
        top: int,
        right: int,
        bottom: int,
        x: int,
        y: int,
        z: i8,
        d: u8,
    ) -> bool {
        let to = move_to_spec(x, y, d);
        &&& left <= to.0 < right
        &&& top <= to.1 < bottom
        &&& self.step_single_spec(x, y, z, d) is Some
    }

    /// Whether the search expands from a node reached at cost `g` by
    /// direction `pdir` into direction `d`: the direction is enumerated,
    /// the diagonal guard's cardinal probes and the move itself succeed
    /// inside the rectangle, and the new cost stays within the limit.
    pub open spec fn expands_to(
        self,
        left: int,
        top: int,
        right: int,
        bottom: int,
        allow_diag: bool,
        cost_limit: int,
        ct: int,
        cms: int,
        cmd: int,
        x: int,
        y: int,
        z: i8,
        g: int,
        pdir: u8,
        d: u8,
    ) -> bool {
        &&& d < 8
        &&& (d & 1 == 0 || allow_diag)
        &&& (d & 1 == 1 ==> self.probe_ok(left, top, right, bottom, x, y, z, turn_spec(d, 1i8))
            && self.probe_ok(left, top, right, bottom, x, y, z, turn_spec(d, -1i8)))
        &&& self.probe_ok(left, top, right, bottom, x, y, z, d)
        &&& sat_add(g, move_cost(d, pdir, ct, cms, cmd)) <= cost_limit
    }

    /// Whether node `c` was expanded as the `d = c.4` neighbour of node
    /// `p`, at the cost the search assigns.
    #[verifier::opaque]
    pub open spec fn visit_parent(
        self,
        left: int,
        top: int,
        right: int,
        bottom: int,
        allow_diag: bool,
        cost_limit: int,
        ct: int,
        cms: int,
        cmd: int,
        p: (int, int, i8, int, u8),
        c: (int, int, i8, int, u8),
    ) -> bool {
        &&& self.expands_to(
            left,
            top,
            right,
            bottom,
            allow_diag,
            cost_limit,
            ct,
            cms,
            cmd,
            p.0,
            p.1,
            p.2,
            p.3,
            p.4,
            c.4,
        )
        &&& move_to_spec(p.0, p.1, c.4) == (c.0, c.1)
        &&& self.step_single_spec(p.0, p.1, p.2, c.4) == Some(c.2 as int)
        &&& c.3 == sat_add(p.3, move_cost(c.4, p.4, ct, cms, cmd))
    }

    /// Whether node `m` of the record has an earlier node it was expanded
    /// from.
    pub open spec fn record_parent_ok(
        self,
        vs: Seq<(int, int, i8, int, u8)>,
        m: int,
        left: int,
        top: int,
        right: int,
        bottom: int,
        allow_diag: bool,
        cost_limit: int,
        ct: int,
        cms: int,
        cmd: int,
    ) -> bool {
        exists|k: int|
            0 <= k < m && self.visit_parent(
                left,
                top,
                right,
                bottom,
                allow_diag,
                cost_limit,
                ct,
                cms,
                cmd,
                #[trigger] vs[k],
                vs[m],
            )
    }

    /// What a finished search leaves behind: its expanded nodes in
    /// expansion order, as `(x, y, z, cost, direction)` records. The first
    /// is the start at cost zero; every later one is an admissible
    /// neighbour of an earlier one at the recorded cost; no position
    /// repeats; and the search stopped rightly: some expanded node lies
    /// within the accuracy tolerances of the goal, or no admissible move
    /// out of any expanded node leaves the set.
    pub open spec fn search_record_ok(
        self,
        vs: Seq<(int, int, i8, int, u8)>,
        s_x: int,
        s_y: int,
        s_z: i8,
        sdir: u8,
        d_x: int,
        d_y: int,
        d_z: i8,
        options: crate::api::TraceOptions,
    ) -> bool {
        let l = trace_left(options);
        let t = trace_top(options);
        let r = self.trace_right(options);
        let b = self.trace_bottom(options);
        let allow = trace_allow_diagonal(options);
        let limit = trace_cost_limit(options);
        let ct = trace_cost_turn(options);
        let cms = trace_cost_straight(options);
        let cmd = trace_cost_diagonal(options);
        &&& vs.len() >= 1
        &&& vs[0] == (s_x, s_y, s_z, 0int, sdir)
        &&& forall|k: int, m: int|
            0 <= k < m < vs.len() ==> !((#[trigger] vs[k]).0 == (#[trigger] vs[m]).0 && vs[k].1
                == vs[m].1 && vs[k].2 == vs[m].2)
        &&& forall|m: int|
            1 <= m < vs.len() ==> #[trigger] self.record_parent_ok(
                vs,
                m,
                l,
                t,
                r,
                b,
                allow,
                limit,
                ct,
                cms,
                cmd,
            )
        &&& ((exists|k: int|
            0 <= k < vs.len() && within_accuracy(
                d_x,
                d_y,
                d_z,
                trace_acc_x(options),
                trace_acc_y(options),
                trace_acc_z(options),
                (#[trigger] vs[k]).0,
                vs[k].1,
                vs[k].2,
            )) || (forall|k: int, d: u8|
            0 <= k < vs.len() && #[trigger] self.expands_to(
                l,
                t,
                r,
                b,
                allow,
                limit,
                ct,
                cms,
                cmd,
                vs[k].0,
                vs[k].1,
                vs[k].2,
                vs[k].3,
                vs[k].4,
                d,
            ) ==> record_has_pos(
                vs,
                move_to_spec(vs[k].0, vs[k].1, d).0,
                move_to_spec(vs[k].0, vs[k].1, d).1,
                self.step_single_spec(vs[k].0, vs[k].1, vs[k].2, d)->Some_0,
            )))
    }
}

/// No sequence of distinct integers inside `[0, n)` is longer than `n`.
proof fn lemma_distinct_ints_bounded(s: Seq<int>, n: int)
    requires
        n >= 0,
        forall|k: int| 0 <= k < s.len() ==> 0 <= #[trigger] s[k] < n,
        forall|k: int, m: int| 0 <= k < m < s.len() ==> s[k] != s[m],
    ensures
        s.len() <= n,
    decreases n,
{
    if n == 0 {
        if s.len() > 0 {
            let x = s[0];
            assert(false);
        }
    } else if exists|k: int| 0 <= k < s.len() && #[trigger] s[k] == n - 1 {
        let k = choose|k: int| 0 <= k < s.len() && #[trigger] s[k] == n - 1;
        let s2 = s.remove(k);
        assert forall|j: int| 0 <= j < s2.len() implies 0 <= #[trigger] s2[j] < n - 1 by {
            if j < k {
                assert(s2[j] == s[j]);
                if s[j] == n - 1 {
                    assert(s[j] != s[k]);
                }
            } else {
                assert(s2[j] == s[j + 1]);
                if s[j + 1] == n - 1 {
                    assert(s[k] != s[j + 1]);
                }
            }
        }
        assert forall|j: int, m: int| 0 <= j < m < s2.len() implies s2[j] != s2[m] by {
            if m < k {
            } else if j < k {
                assert(s2[j] == s[j] && s2[m] == s[m + 1]);
            } else {
                assert(s2[j] == s[j + 1] && s2[m] == s[m + 1]);
            }
        }
        lemma_distinct_ints_bounded(s2, n - 1);
    } else {
        assert forall|k: int| 0 <= k < s.len() implies 0 <= #[trigger] s[k] < n - 1 by {}
        lemma_distinct_ints_bounded(s, n - 1);
    }
}

/// A rectangle cell and elevation packed into one integer.
spec fn pos_enc(l: int, t: int, b: int, p: Position) -> int {
    (((p.x as int) - l) * (b - t) + ((p.y as int) - t)) * 256 + (p.z as int) + 128
}

/// Unpacking the encoding recovers the cell, so the encoding is injective.
proof fn lemma_pos_enc_injective(l: int, t: int, r: int, b: int, p1: Position, p2: Position)
    requires
        l < r,
        t < b,
        l <= p1.x < r,
        t <= p1.y < b,
        l <= p2.x < r,
        t <= p2.y < b,
        pos_enc(l, t, b, p1) == pos_enc(l, t, b, p2),
    ensures
        p1 == p2,
{
    let bt = b - t;
    let a1 = (p1.x as int) - l;
    let b1 = (p1.y as int) - t;
    let c1 = (p1.z as int) + 128;
    let a2 = (p2.x as int) - l;
    let b2 = (p2.y as int) - t;
    let c2 = (p2.z as int) + 128;
    let e = pos_enc(l, t, b, p1);
    assert(0 <= a1 * bt + b1) by (nonlinear_arith)
        requires
            (0 <= a1) && (0 <= b1) && (0 < bt),
    ;
    assert(0 <= a2 * bt + b2) by (nonlinear_arith)
        requires
            (0 <= a2) && (0 <= b2) && (0 < bt),
    ;
    vstd::arithmetic::div_mod::lemma_fundamental_div_mod_converse_div(e, 256, a1 * bt + b1, c1);
    vstd::arithmetic::div_mod::lemma_fundamental_div_mod_converse_mod(e, 256, a1 * bt + b1, c1);
    vstd::arithmetic::div_mod::lemma_fundamental_div_mod_converse_div(e, 256, a2 * bt + b2, c2);
    vstd::arithmetic::div_mod::lemma_fundamental_div_mod_converse_mod(e, 256, a2 * bt + b2, c2);
    assert(a1 * bt + b1 == a2 * bt + b2);
    assert(c1 == c2);
    let q = a1 * bt + b1;
    vstd::arithmetic::div_mod::lemma_fundamental_div_mod_converse_div(q, bt, a1, b1);
    vstd::arithmetic::div_mod::lemma_fundamental_div_mod_converse_mod(q, bt, a1, b1);
    vstd::arithmetic::div_mod::lemma_fundamental_div_mod_converse_div(q, bt, a2, b2);
    vstd::arithmetic::div_mod::lemma_fundamental_div_mod_converse_mod(q, bt, a2, b2);
    assert(a1 == a2 && b1 == b2);
    assert(p1.x == p2.x && p1.y == p2.y && p1.z == p2.z);
}

/// Distinct positions drawn from a rectangle of cells, plus possibly the
/// start, cannot outnumber the rectangle's nodes and the start.
proof fn lemma_visited_card(
    s: Seq<(Position, isize, u8)>,
    start: Position,
    l: int,
    t: int,
    r: int,
    b: int,
)
    requires
        forall|k: int, m: int| 0 <= k < m < s.len() ==> (#[trigger] s[k]).0 != (#[trigger] s[m]).0,
        forall|k: int|
            0 <= k < s.len() ==> ((#[trigger] s[k]).0 == start || (l <= s[k].0.x < r && t
                <= s[k].0.y < b)),
    ensures
        s.len() <= (if l < r && t < b {
            (r - l) * (b - t) * 256
        } else {
            0
        }) + 1,
{
    if l < r && t < b {
        let n = (r - l) * (b - t) * 256;
        let es = Seq::new(s.len(), |k: int| if s[k].0 == start { n } else { pos_enc(l, t, b, s[k].0) });
        assert(0 <= n) by (nonlinear_arith)
            requires
                (n == (r - l) * (b - t) * 256) && (0 < r - l) && (0 < b - t),
        ;
        assert forall|k: int|
            0 <= k < s.len() && (#[trigger] s[k]).0 != start implies 0 <= pos_enc(l, t, b, s[k].0)
            < n by {
            let p = s[k].0;
            let a = (p.x as int) - l;
            let bb = (p.y as int) - t;
            let c = (p.z as int) + 128;
            assert(0 <= (a * (b - t) + bb) * 256 + c < n) by (nonlinear_arith)
                requires
                    (0 <= a) && (a <= r - l - 1) && (0 <= bb) && (bb <= b - t - 1) && (0 <= c)
                        && (c < 256) && (n == (r - l) * (b - t) * 256),
            ;
        }
        assert forall|k: int| 0 <= k < es.len() implies 0 <= #[trigger] es[k] < n + 1 by {
            if s[k].0 != start {
                assert(0 <= pos_enc(l, t, b, s[k].0) < n);
            }
        }
        assert forall|k: int, m: int| 0 <= k < m < es.len() implies es[k] != es[m] by {
            assert(s[k].0 != s[m].0);
            if s[k].0 == start {
                assert(es[k] == n && es[m] == pos_enc(l, t, b, s[m].0));
                assert(0 <= pos_enc(l, t, b, s[m].0) < n);
            } else if s[m].0 == start {
                assert(es[m] == n && es[k] == pos_enc(l, t, b, s[k].0));
                assert(0 <= pos_enc(l, t, b, s[k].0) < n);
            } else {
                if es[k] == es[m] {
                    lemma_pos_enc_injective(l, t, r, b, s[k].0, s[m].0);
                }
            }
        }
        lemma_distinct_ints_bounded(es, n + 1);
    } else {
        if s.len() > 1 {
            assert(s[0].0 == start && s[1].0 == start);
        }
    }
}

spec fn visited_has_xyz(s: Seq<(Position, isize, u8)>, x: int, y: int, z: int) -> bool {
    exists|k: int|
        0 <= k < s.len() && (#[trigger] s[k]).0.x as int == x && s[k].0.y as int == y && s[k].0.z
            as int == z
}

spec fn visited_has(s: Seq<(Position, isize, u8)>, p: Position) -> bool {
    exists|k: int| 0 <= k < s.len() && (#[trigger] s[k]).0 == p
}

/// The public record of a visited entry.
spec fn visit_rec(e: (Position, isize, u8)) -> (int, int, i8, int, u8) {
    (e.0.x as int, e.0.y as int, e.0.z, e.1 as int, e.2)
}

/// The public record of the whole visited sequence.
spec fn visits_view(s: Seq<(Position, isize, u8)>) -> Seq<(int, int, i8, int, u8)> {
    Seq::new(s.len(), |k: int| visit_rec(s[k]))
}

spec fn bp_has_key(s: Seq<(Position, Position)>, p: Position) -> bool {
    exists|k: int| 0 <= k < s.len() && (#[trigger] s[k]).0 == p
}

fn visited_contains(v: &Vec<(Position, isize, u8)>, p: &Position) -> (r: bool)
    ensures
        r == visited_has(v@, *p),
{
    let n: usize = v.len();
    let mut i: usize = 0;
    while i < n
        invariant
            i <= n == v@.len(),
            forall|k: int| 0 <= k < i ==> (#[trigger] v@[k]).0 != *p,
        decreases n - i,
    {
        if v[i].0 == *p {
            proof {
                assert(v@[i as int].0 == *p);
            }
            return true;
        }
        i = i + 1;
    }
    proof {
        if visited_has(v@, *p) {
            let k = choose|k: int| 0 <= k < v@.len() && (#[trigger] v@[k]).0 == *p;
            assert(false);
        }
    }
    false
}

fn bp_lookup(v: &Vec<(Position, Position)>, p: &Position) -> (r: Option<Position>)
    ensures
        (r is Some) == bp_has_key(v@, *p),
        r matches Some(par) ==> exists|k: int|
            0 <= k < v@.len() && #[trigger] v@[k] == (*p, par),
{
    let n: usize = v.len();
    let mut i: usize = 0;
    while i < n
        invariant
            i <= n == v@.len(),
            forall|k: int| 0 <= k < i ==> (#[trigger] v@[k]).0 != *p,
        decreases n - i,
    {
        if v[i].0 == *p {
            proof {
                assert(v@[i as int] == (*p, v@[i as int].1));
            }
            return Some(v[i].1);
        }
        i = i + 1;
    }
    proof {
        if bp_has_key(v@, *p) {
            let k = choose|k: int| 0 <= k < v@.len() && (#[trigger] v@[k]).0 == *p;
            assert(false);
        }
    }
    None
}

impl<'a> WorldSurveyor<'a> {
    /// The memoized step probe of the search: refuses targets outside the
    /// bounded rectangle, otherwise answers as the step oracle does for
    /// this direction alone, caching the answer by `(x, y, z, direction)`.
    fn check_step_cached(
        &self,
        cache: &mut Vec<(Position, u8, Option<i8>)>,
        pos: Position,
        dir: u8,
        left: isize,
        top: isize,
        right: isize,
        bottom: isize,
    ) -> (r: Option<i8>)
        requires
            self.wf(),
            pos_ok(pos),
            -0x1000_0000 <= left <= 0x1000_0000,
            -0x1000_0000 <= top <= 0x1000_0000,
            -0x1000_0000 <= right <= 0x1000_0000,
            -0x1000_0000 <= bottom <= 0x1000_0000,
            forall|k: int|
                0 <= k < old(cache)@.len() ==> opt_i8_matches(
                    (#[trigger] old(cache)@[k]).2,
                    self.step_single_spec(
                        old(cache)@[k].0.x as int,
                        old(cache)@[k].0.y as int,
                        old(cache)@[k].0.z,
                        old(cache)@[k].1,
                    ),
                ),
        ensures
            forall|k: int|
                0 <= k < final(cache)@.len() ==> opt_i8_matches(
                    (#[trigger] final(cache)@[k]).2,
                    self.step_single_spec(
                        final(cache)@[k].0.x as int,
                        final(cache)@[k].0.y as int,
                        final(cache)@[k].0.z,
                        final(cache)@[k].1,
                    ),
                ),
            (r is Some) == self.probe_ok(
                left as int,
                top as int,
                right as int,
                bottom as int,
                pos.x as int,
                pos.y as int,
                pos.z,
                dir,
            ),
            r matches Some(v) ==> self.step_single_spec(pos.x as int, pos.y as int, pos.z, dir)
                == Some(v as int),
    {
        proof {
            reveal(WorldSurveyor::probe_ok);
        }
        let (tx, ty) = WorldSurveyor::move_to(pos.x, pos.y, dir);
        if tx < left || tx >= right || ty < top || ty >= bottom {
            return None;
        }
        let n: usize = cache.len();
        let mut i: usize = 0;
        while i < n
            invariant
                i <= n == cache@.len(),
                forall|k: int|
                    0 <= k < cache@.len() ==> opt_i8_matches(
                        (#[trigger] cache@[k]).2,
                        self.step_single_spec(
                            cache@[k].0.x as int,
                            cache@[k].0.y as int,
                            cache@[k].0.z,
                            cache@[k].1,
                        ),
                    ),
                self.wf(),
                pos_ok(pos),
                (tx as int, ty as int) == move_to_spec(pos.x as int, pos.y as int, dir),
                left <= tx < right,
                top <= ty < bottom,
            decreases n - i,
        {
            let hit: bool = cache[i].0 == pos && cache[i].1 == dir;
            if hit {
                proof {
                    reveal(WorldSurveyor::probe_ok);
                    assert(opt_i8_matches(
                        cache@[i as int].2,
                        self.step_single_spec(pos.x as int, pos.y as int, pos.z, dir),
                    ));
                }
                return cache[i].2;
            }
            i = i + 1;
        }
        proof {
            reveal(WorldSurveyor::probe_ok);
        }
        let result = self.test_step_single(pos.x, pos.y, pos.z, dir);
        cache.push((pos, dir, result));
        result
    }

    /// The pathfinder's outcome: some record of expanded nodes vouches
    /// for the output. With `all_points` the output lists the record's
    /// nodes with their costs, one point each; otherwise the output ends
    /// at the recorded node nearest the goal by Chebyshev distance, the
    /// earliest-expanded winning ties.
    #[verifier::opaque]
    pub open spec fn trace_outcome_ok(
        self,
        pts: Seq<crate::api::Point>,
        s_x: isize,
        s_y: isize,
        s_z: i8,
        sdir: u8,
        d_x: isize,
        d_y: isize,
        d_z: i8,
        options: crate::api::TraceOptions,
    ) -> bool {
        exists|vs: Seq<(int, int, i8, int, u8)>|
            {
                &&& #[trigger] self.search_record_ok(
                    vs,
                    s_x as int,
                    s_y as int,
                    s_z,
                    sdir,
                    d_x as int,
                    d_y as int,
                    d_z,
                    options,
                )
                &&& (trace_all_points(options) ==> pts == Seq::new(
                    vs.len(),
                    |k: int|
                        crate::api::Point {
                            x: vs[k].0 as isize,
                            y: vs[k].1 as isize,
                            z: vs[k].2,
                            w: vs[k].3 as isize,
                        },
                ))
                &&& (!trace_all_points(options) ==> exists|bi: int|
                    {
                        &&& 0 <= bi < vs.len()
                        &&& (#[trigger] vs[bi]).0 == pts[pts.len() - 1].x as int
                        &&& vs[bi].1 == pts[pts.len() - 1].y as int
                        &&& vs[bi].2 == pts[pts.len() - 1].z
                        &&& forall|k: int|
                            0 <= k < vs.len() ==> cheb_dist(
                                d_x as int,
                                d_y as int,
                                d_z,
                                (#[trigger] vs[k]).0,
                                vs[k].1,
                                vs[k].2,
                            ) >= cheb_dist(
                                d_x as int,
                                d_y as int,
                                d_z,
                                vs[bi].0,
                                vs[bi].1,
                                vs[bi].2,
                            )
                        &&& forall|k: int|
                            0 <= k < bi ==> cheb_dist(
                                d_x as int,
                                d_y as int,
                                d_z,
                                (#[trigger] vs[k]).0,
                                vs[k].1,
                                vs[k].2,
                            ) > cheb_dist(
                                d_x as int,
                                d_y as int,
                                d_z,
                                vs[bi].0,
                                vs[bi].1,
                                vs[bi].2,
                            )
                    })
            }
    }

    /// Weighted A* from `(s_x, s_y, s_z)` toward `(d_x, d_y, d_z)`. The
    /// search expands nodes in best-first order until a node lies within
    /// the accuracy tolerances or every admissible move is exhausted; a
    /// record of the expanded nodes witnesses the outcome. With
    /// `all_points` the record itself is emitted, one point per expanded
    /// node with its cost; otherwise `points` receives a path of oracle-
    /// approved moves from the start to the expanded node nearest the goal
    /// by Chebyshev distance, the earliest-expanded winning ties.
    #[verifier::rlimit(100)]
    pub fn trace_a_star(
        &self,
        s_x: isize,
        s_y: isize,
        s_z: i8,
        sdir: u8,
        d_x: isize,
        d_y: isize,
        d_z: i8,
        ddir: u8,
        points: &mut Vec<crate::api::Point>,
        options: &crate::api::TraceOptions,
    )
        requires
            self.wf(),
            -0x1000_0000 <= s_x <= 0x1000_0000,
            -0x1000_0000 <= s_y <= 0x1000_0000,
            -0x1000_0000 <= d_x <= 0x1000_0000,
            -0x1000_0000 <= d_y <= 0x1000_0000,
            trace_opts_ok(*options),
            old(points)@.len() == 0,
        ensures
            self.trace_outcome_ok(
                final(points)@,
                s_x,
                s_y,
                s_z,
                sdir,
                d_x,
                d_y,
                d_z,
                *options,
            ),
            !trace_all_points(*options) ==> {
                &&& final(points)@.len() >= 1
                &&& final(points)@[0] == (crate::api::Point { x: s_x, y: s_y, z: s_z, w: 0 })
                &&& forall|i: int|
                    0 <= i < final(points)@.len() - 1 ==> self.path_edge_spec(
                        (#[trigger] final(points)@[i]).x as int,
                        final(points)@[i].y as int,
                        final(points)@[i].z,
                        final(points)@[i + 1].x as int,
                        final(points)@[i + 1].y as int,
                        final(points)@[i + 1].z,
                    )
                &&& forall|i: int|
                    0 <= i < final(points)@.len() ==> (#[trigger] final(points)@[i]).w == 0
            },
    {
        let mut cached_steps: Vec<(Position, u8, Option<i8>)> = Vec::new();
        let mut frontier: Vec<ScoredPosition> = Vec::new();
        let mut visited: Vec<(Position, isize, u8)> = Vec::new();
        let mut back_path: Vec<(Position, Position)> = Vec::new();

        let x_accuracy: isize = match options.accuracy_x {
            Some(v) => v,
            None => 0,
        };
        let y_accuracy: isize = match options.accuracy_y {
            Some(v) => v,
            None => 0,
        };
        let z_accuracy: isize = match options.accuracy_z {
            Some(v) => v,
            None => 0,
        };
        let cost_limit: isize = match options.cost_limit {
            Some(v) => v,
            None => isize::MAX,
        };
        let cost_turn: isize = match options.cost_turn {
            Some(v) => v,
            None => 1,
        };
        let cost_move_straight: isize = match options.cost_move_straight {
            Some(v) => v,
            None => 1,
        };
        let cost_move_diagonal: isize = match options.cost_move_diagonal {
            Some(v) => v,
            None => cost_move_straight,
        };
        let allow_diagonal_move: bool = match options.allow_diagonal_move {
            Some(v) => v,
            None => false,
        };
        let h_dist: crate::api::DistanceFunc = match options.heuristic_distance {
            Some(v) => v,
            None => crate::api::DistanceFunc::Diagonal,
        };
        let h_direct: isize = match options.heuristic_straight {
            Some(v) => v,
            None => 5,
        };
        let h_diagonal: isize = match options.heuristic_diagonal {
            Some(v) => v,
            None => h_direct,
        };
        let width_default: usize = self.model.base.width();
        let height_default: usize = self.model.base.height();
        let left: isize = match options.left {
            Some(v) => v,
            None => 0,
        };
        let top: isize = match options.top {
            Some(v) => v,
            None => 0,
        };
        let right: isize = match options.right {
            Some(v) => v,
            None => width_default as isize,
        };
        let bottom: isize = match options.bottom {
            Some(v) => v,
            None => height_default as isize,
        };
        let all_points: bool = match options.all_points {
            Some(v) => v,
            None => false,
        };

        let start_pos = Position { x: s_x, y: s_y, z: s_z };
        let start_h = heuristic(h_dist, h_direct, h_diagonal, d_x, d_y, s_x, s_y);
        frontier.push(
            ScoredPosition { fval: start_h, gval: 0, dir: sdir, pos: start_pos, src: start_pos },
        );

        let mut best_dist: isize = isize::MAX;
        let mut best_pos: Option<Position> = None;
        let ghost mut best_idx: int = 0;

        // the search can expand each position of the bounded rectangle at
        // most once, plus the start itself
        let ghost cap: int = (if right > left && bottom > top {
            ((right - left) as int) * ((bottom - top) as int) * 256
        } else {
            0
        }) + 1;
        proof {
            assert(self.entry_ok(
                frontier@[0],
                visited@,
                start_pos,
                sdir,
                left,
                top,
                right,
                bottom,
                allow_diagonal_move,
                cost_limit,
                cost_turn,
                cost_move_straight,
                cost_move_diagonal,
            )) by {
                reveal(WorldSurveyor::entry_ok);
            }
            assert(self.visits_ok(
                visited@,
                start_pos,
                sdir,
                left,
                top,
                right,
                bottom,
                allow_diagonal_move,
                cost_limit,
                cost_turn,
                cost_move_straight,
                cost_move_diagonal,
            )) by {
                reveal(WorldSurveyor::visits_ok);
            }
            assert(self.closure_ok(
                visited@,
                frontier@,
                left,
                top,
                right,
                bottom,
                allow_diagonal_move,
                cost_limit,
                cost_turn,
                cost_move_straight,
                cost_move_diagonal,
            )) by {
                reveal(WorldSurveyor::closure_ok);
            }
        }
        while frontier.len() > 0
            invariant_except_break
                self.closure_ok(
                    visited@,
                    frontier@,
                    left,
                    top,
                    right,
                    bottom,
                    allow_diagonal_move,
                    cost_limit,
                    cost_turn,
                    cost_move_straight,
                    cost_move_diagonal,
                ),
            invariant
                self.wf(),
                -0x1000_0000 <= left <= 0x1000_0000,
                -0x1000_0000 <= top <= 0x1000_0000,
                -0x1000_0000 <= right <= 0x1000_0000,
                -0x1000_0000 <= bottom <= 0x1000_0000,
                -0x1000_0000 <= d_x <= 0x1000_0000,
                -0x1000_0000 <= d_y <= 0x1000_0000,
                start_pos == (Position { x: s_x, y: s_y, z: s_z }),
                pos_ok(start_pos),
                points@.len() == 0,
                cap == (if right > left && bottom > top {
                    ((right - left) as int) * ((bottom - top) as int) * 256
                } else {
                    0
                }) + 1,
                forall|k: int|
                    0 <= k < cached_steps@.len() ==> opt_i8_matches(
                        (#[trigger] cached_steps@[k]).2,
                        self.step_single_spec(
                            cached_steps@[k].0.x as int,
                            cached_steps@[k].0.y as int,
                            cached_steps@[k].0.z,
                            cached_steps@[k].1,
                        ),
                    ),
                forall|k: int|
                    0 <= k < back_path@.len() ==> {
                        let e = #[trigger] back_path@[k];
                        &&& e.0 != start_pos
                        &&& pos_ok(e.0)
                        &&& pos_ok(e.1)
                        &&& self.path_edge_spec(
                            e.1.x as int,
                            e.1.y as int,
                            e.1.z,
                            e.0.x as int,
                            e.0.y as int,
                            e.0.z,
                        )
                        &&& (e.1 == start_pos || bp_has_key(back_path@, e.1))
                    },
                forall|k: int|
                    0 <= k < frontier@.len() ==> {
                        let e = #[trigger] frontier@[k];
                        &&& pos_ok(e.pos)
                        &&& (e.pos == start_pos || {
                            &&& pos_ok(e.src)
                            &&& self.path_edge_spec(
                                e.src.x as int,
                                e.src.y as int,
                                e.src.z,
                                e.pos.x as int,
                                e.pos.y as int,
                                e.pos.z,
                            )
                            &&& (e.src == start_pos || bp_has_key(back_path@, e.src))
                        })
                    },
                forall|k: int|
                    0 <= k < frontier@.len() ==> self.entry_ok(
                        #[trigger] frontier@[k],
                        visited@,
                        start_pos,
                        sdir,
                        left,
                        top,
                        right,
                        bottom,
                        allow_diagonal_move,
                        cost_limit,
                        cost_turn,
                        cost_move_straight,
                        cost_move_diagonal,
                    ),
                self.visits_ok(
                    visited@,
                    start_pos,
                    sdir,
                    left,
                    top,
                    right,
                    bottom,
                    allow_diagonal_move,
                    cost_limit,
                    cost_turn,
                    cost_move_straight,
                    cost_move_diagonal,
                ),
                visited@.len() <= cap,
                best_pos matches Some(b) ==> pos_ok(b) && (b == start_pos || bp_has_key(
                    back_path@,
                    b,
                )),
                best_pos matches Some(b) ==> {
                    &&& 0 <= best_idx < visited@.len()
                    &&& visited@[best_idx].0 == b
                    &&& cheb_dist(
                        d_x as int,
                        d_y as int,
                        d_z,
                        visited@[best_idx].0.x as int,
                        visited@[best_idx].0.y as int,
                        visited@[best_idx].0.z,
                    ) == best_dist as int
                    &&& forall|k: int|
                        0 <= k < best_idx ==> cheb_dist(
                            d_x as int,
                            d_y as int,
                            d_z,
                            (#[trigger] visited@[k]).0.x as int,
                            visited@[k].0.y as int,
                            visited@[k].0.z,
                        ) > best_dist as int
                },
                forall|k: int|
                    0 <= k < visited@.len() ==> cheb_dist(
                        d_x as int,
                        d_y as int,
                        d_z,
                        (#[trigger] visited@[k]).0.x as int,
                        visited@[k].0.y as int,
                        visited@[k].0.z,
                    ) >= best_dist as int,
                visited@.len() == 0 ==> frontier@.len() >= 1,
                visited@.len() > 0 ==> best_pos is Some,
                best_pos is None ==> best_dist == isize::MAX,
                forall|k1: int, k2: int|
                    0 <= k1 < k2 < back_path@.len() ==> (#[trigger] back_path@[k1]).0 != (
                    #[trigger] back_path@[k2]).0,
                forall|k: int|
                    0 <= k < back_path@.len() ==> visited_has(
                        visited@,
                        (#[trigger] back_path@[k]).0,
                    ),
                forall|k: int|
                    0 <= k < back_path@.len() ==> ((#[trigger] back_path@[k]).1 == start_pos
                        || exists|k2: int|
                        0 <= k2 < k && (#[trigger] back_path@[k2]).0 == back_path@[k].1),
            ensures
                best_pos is Some,
                (exists|k: int|
                    0 <= k < visited@.len() && within_accuracy(
                        d_x as int,
                        d_y as int,
                        d_z,
                        x_accuracy as int,
                        y_accuracy as int,
                        z_accuracy as int,
                        (#[trigger] visited@[k]).0.x as int,
                        visited@[k].0.y as int,
                        visited@[k].0.z,
                    )) || (frontier@.len() == 0 && self.closure_ok(
                    visited@,
                    frontier@,
                    left,
                    top,
                    right,
                    bottom,
                    allow_diagonal_move,
                    cost_limit,
                    cost_turn,
                    cost_move_straight,
                    cost_move_diagonal,
                )),
            decreases cap - visited@.len(), frontier@.len(),
        {
            // extract the entry with the least (f, g, direction)
            let mut min_idx: usize = 0;
            let mut j: usize = 1;
            while j < frontier.len()
                invariant
                    frontier@.len() > 0,
                    min_idx < frontier@.len(),
                    j <= frontier@.len(),
                decreases frontier@.len() - j,
            {
                let better: bool = frontier[j].fval < frontier[min_idx].fval || (frontier[j].fval
                    == frontier[min_idx].fval && (frontier[j].gval < frontier[min_idx].gval || (
                frontier[j].gval == frontier[min_idx].gval && frontier[j].dir
                    < frontier[min_idx].dir)));
                if better {
                    min_idx = j;
                }
                j = j + 1;
            }
            let ghost pre_pop_frontier = frontier@;
            let curr = frontier.remove(min_idx);
            let curr_pos = curr.pos;
            let curr_gval = curr.gval;
            let curr_dir = curr.dir;
            proof {
                assert(pos_ok(curr_pos));
            }

            if visited_contains(&visited, &curr_pos) {
                proof {
                    // the dropped entry's position is already expanded
                    self.lemma_closure_pop(
                        visited@,
                        pre_pop_frontier,
                        min_idx as int,
                        left,
                        top,
                        right,
                        bottom,
                        allow_diagonal_move,
                        cost_limit,
                        cost_turn,
                        cost_move_straight,
                        cost_move_diagonal,
                    );
                    // surviving entries keep their admissibility
                    assert forall|k: int| 0 <= k < frontier@.len() implies self.entry_ok(
                        #[trigger] frontier@[k],
                        visited@,
                        start_pos,
                        sdir,
                        left,
                        top,
                        right,
                        bottom,
                        allow_diagonal_move,
                        cost_limit,
                        cost_turn,
                        cost_move_straight,
                        cost_move_diagonal,
                    ) by {
                        if k < min_idx {
                            assert(frontier@[k] == pre_pop_frontier[k]);
                        } else {
                            assert(frontier@[k] == pre_pop_frontier[k + 1]);
                        }
                    }
                    assert forall|k: int| 0 <= k < frontier@.len() implies (#[trigger] frontier@[k]
                        == pre_pop_frontier[k] || frontier@[k] == pre_pop_frontier[k + 1]) by {
                        if k < min_idx {
                            assert(frontier@[k] == pre_pop_frontier[k]);
                        } else {
                            assert(frontier@[k] == pre_pop_frontier[k + 1]);
                        }
                    }
                }
                continue ;
            }
            let ghost pre_visited = visited@;
            proof {
                assert(pre_pop_frontier[min_idx as int] == curr);
                self.lemma_visits_push(
                    visited@,
                    curr,
                    (curr_pos, curr_gval, curr_dir),
                    start_pos,
                    sdir,
                    left,
                    top,
                    right,
                    bottom,
                    allow_diagonal_move,
                    cost_limit,
                    cost_turn,
                    cost_move_straight,
                    cost_move_diagonal,
                );
            }
            visited.push((curr_pos, curr_gval, curr_dir));
            proof {
                assert forall|k: int| 0 <= k < back_path@.len() implies visited_has(
                    visited@,
                    (#[trigger] back_path@[k]).0,
                ) by {
                    let k2 = choose|k2: int|
                        0 <= k2 < pre_visited.len() && (#[trigger] pre_visited[k2]).0
                            == back_path@[k].0;
                    assert(visited@[k2].0 == back_path@[k].0);
                }
                assert(visited@[visited@.len() - 1].0 == curr_pos);
            }
            if !(curr_pos == start_pos) {
                let ghost pre_bp = back_path@;
                proof {
                    // the new key was not visited before, so it is fresh
                    assert forall|k: int| 0 <= k < pre_bp.len() implies (
                    #[trigger] pre_bp[k]).0 != curr_pos by {
                        if pre_bp[k].0 == curr_pos {
                            assert(visited_has(pre_visited, curr_pos));
                        }
                    }
                }
                back_path.push((curr_pos, curr.src));
                proof {
                    assert forall|k: int| 0 <= k < back_path@.len() implies {
                        let e = #[trigger] back_path@[k];
                        &&& e.0 != start_pos
                        &&& pos_ok(e.0)
                        &&& pos_ok(e.1)
                        &&& self.path_edge_spec(
                            e.1.x as int,
                            e.1.y as int,
                            e.1.z,
                            e.0.x as int,
                            e.0.y as int,
                            e.0.z,
                        )
                        &&& (e.1 == start_pos || bp_has_key(back_path@, e.1))
                    } by {
                        if k < pre_bp.len() {
                            assert(back_path@[k] == pre_bp[k]);
                            if pre_bp[k].1 != start_pos {
                                let k2 = choose|k2: int|
                                    0 <= k2 < pre_bp.len() && (#[trigger] pre_bp[k2]).0
                                        == pre_bp[k].1;
                                assert(back_path@[k2].0 == pre_bp[k].1);
                            }
                        } else {
                            if curr.src != start_pos {
                                let k2 = choose|k2: int|
                                    0 <= k2 < pre_bp.len() && (#[trigger] pre_bp[k2]).0
                                        == curr.src;
                                assert(back_path@[k2].0 == curr.src);
                            }
                        }
                    }
                    assert forall|k: int| 0 <= k < back_path@.len() implies ((
                    #[trigger] back_path@[k]).1 == start_pos || exists|k2: int|
                        0 <= k2 < k && (#[trigger] back_path@[k2]).0 == back_path@[k].1) by {
                        if k < pre_bp.len() {
                            assert(back_path@[k] == pre_bp[k]);
                        } else {
                            if curr.src != start_pos {
                                let k2 = choose|k2: int|
                                    0 <= k2 < pre_bp.len() && (#[trigger] pre_bp[k2]).0
                                        == curr.src;
                                assert(back_path@[k2].0 == curr.src);
                            }
                        }
                    }
                    assert forall|k: int| 0 <= k < frontier@.len() implies {
                        let e = #[trigger] frontier@[k];
                        &&& pos_ok(e.pos)
                        &&& (e.pos == start_pos || {
                            &&& pos_ok(e.src)
                            &&& self.path_edge_spec(
                                e.src.x as int,
                                e.src.y as int,
                                e.src.z,
                                e.pos.x as int,
                                e.pos.y as int,
                                e.pos.z,
                            )
                            &&& (e.src == start_pos || bp_has_key(back_path@, e.src))
                        })
                    } by {
                        let e = frontier@[k];
                        if e.pos != start_pos && e.src != start_pos {
                            let k2 = choose|k2: int|
                                0 <= k2 < pre_bp.len() && (#[trigger] pre_bp[k2]).0 == e.src;
                            assert(back_path@[k2].0 == e.src);
                        }
                    }
                    if best_pos is Some {
                        let b = best_pos->Some_0;
                        if b != start_pos {
                            let k2 = choose|k2: int|
                                0 <= k2 < pre_bp.len() && (#[trigger] pre_bp[k2]).0 == b;
                            assert(back_path@[k2].0 == b);
                        }
                    }
                }
            }

            proof {
                if !(curr_pos == start_pos) {
                    assert(back_path@[back_path@.len() - 1].0 == curr_pos);
                }
            }
            // track the explored position nearest the goal
            let gdx: isize = if d_x >= curr_pos.x {
                d_x - curr_pos.x
            } else {
                curr_pos.x - d_x
            };
            let gdy: isize = if d_y >= curr_pos.y {
                d_y - curr_pos.y
            } else {
                curr_pos.y - d_y
            };
            let gdz: isize = if d_z as isize >= curr_pos.z as isize {
                d_z as isize - curr_pos.z as isize
            } else {
                curr_pos.z as isize - d_z as isize
            };
            let mut d_max: isize = gdx;
            if gdy > d_max {
                d_max = gdy;
            }
            if gdz > d_max {
                d_max = gdz;
            }
            proof {
                assert(d_max < isize::MAX);
                assert(d_max as int == cheb_dist(
                    d_x as int,
                    d_y as int,
                    d_z,
                    curr_pos.x as int,
                    curr_pos.y as int,
                    curr_pos.z,
                ));
            }
            if d_max < best_dist {
                proof {
                    // every earlier node sat at or above the old best
                    // distance, hence strictly above the new one
                    assert forall|k: int| 0 <= k < visited@.len() - 1 implies cheb_dist(
                        d_x as int,
                        d_y as int,
                        d_z,
                        (#[trigger] visited@[k]).0.x as int,
                        visited@[k].0.y as int,
                        visited@[k].0.z,
                    ) > d_max as int by {}
                }
                best_pos = Some(curr_pos);
                best_dist = d_max;
                proof {
                    best_idx = visited@.len() - 1;
                    assert(visited@[best_idx].0 == curr_pos);
                    assert(cheb_dist(
                        d_x as int,
                        d_y as int,
                        d_z,
                        visited@[best_idx].0.x as int,
                        visited@[best_idx].0.y as int,
                        visited@[best_idx].0.z,
                    ) == best_dist as int);
                }
            }
            if gdx <= x_accuracy && gdy <= y_accuracy && gdz <= z_accuracy {
                proof {
                    assert(within_accuracy(
                        d_x as int,
                        d_y as int,
                        d_z,
                        x_accuracy as int,
                        y_accuracy as int,
                        z_accuracy as int,
                        (#[trigger] visited@[visited@.len() - 1]).0.x as int,
                        visited@[visited@.len() - 1].0.y as int,
                        visited@[visited@.len() - 1].0.z,
                    ));
                    assert forall|k: int| 0 <= k < frontier@.len() implies (
                    #[trigger] frontier@[k] == pre_pop_frontier[k] || frontier@[k]
                        == pre_pop_frontier[k + 1]) by {
                        if k < min_idx {
                            assert(frontier@[k] == pre_pop_frontier[k]);
                        } else {
                            assert(frontier@[k] == pre_pop_frontier[k + 1]);
                        }
                    }
                    assert forall|k: int| 0 <= k < frontier@.len() implies self.entry_ok(
                        #[trigger] frontier@[k],
                        visited@,
                        start_pos,
                        sdir,
                        left,
                        top,
                        right,
                        bottom,
                        allow_diagonal_move,
                        cost_limit,
                        cost_turn,
                        cost_move_straight,
                        cost_move_diagonal,
                    ) by {
                        let e = frontier@[k];
                        if k < min_idx {
                            assert(e == pre_pop_frontier[k]);
                        } else {
                            assert(e == pre_pop_frontier[k + 1]);
                        }
                        self.lemma_entry_grow(
                            e,
                            pre_visited,
                            (curr_pos, curr_gval, curr_dir),
                            start_pos,
                            sdir,
                            left,
                            top,
                            right,
                            bottom,
                            allow_diagonal_move,
                            cost_limit,
                            cost_turn,
                            cost_move_straight,
                            cost_move_diagonal,
                        );
                    }
                }
                break ;
            }

            let ghost pre_frontier = frontier@;
            proof {
                if !(curr_pos == start_pos) {
                    assert(back_path@[back_path@.len() - 1].0 == curr_pos);
                }
            }
            self.expand_node(
                &mut cached_steps,
                &mut frontier,
                &visited,
                curr_pos,
                curr_gval,
                curr_dir,
                left,
                top,
                right,
                bottom,
                cost_limit,
                cost_turn,
                cost_move_straight,
                cost_move_diagonal,
                allow_diagonal_move,
                h_dist,
                h_direct,
                h_diagonal,
                d_x,
                d_y,
            );
            proof {
                let ghost crec = (
                    curr_pos.x as int,
                    curr_pos.y as int,
                    curr_pos.z,
                    curr_gval as int,
                    curr_dir,
                );
                assert(visit_rec(visited@[visited@.len() - 1]) == crec);
                // the raw frontier facts: values map through the removal,
                // and pushed entries are children of the newest node
                assert forall|k: int| 0 <= k < frontier@.len() implies {
                    let e = #[trigger] frontier@[k];
                    &&& pos_ok(e.pos)
                    &&& (e.pos == start_pos || {
                        &&& pos_ok(e.src)
                        &&& self.path_edge_spec(
                            e.src.x as int,
                            e.src.y as int,
                            e.src.z,
                            e.pos.x as int,
                            e.pos.y as int,
                            e.pos.z,
                        )
                        &&& (e.src == start_pos || bp_has_key(back_path@, e.src))
                    })
                } by {
                    if k < pre_frontier.len() {
                        assert(frontier@[k] == pre_frontier[k]);
                        if k < min_idx {
                            assert(pre_frontier[k] == pre_pop_frontier[k]);
                        } else {
                            assert(pre_frontier[k] == pre_pop_frontier[k + 1]);
                        }
                    } else {
                        assert(pos_ok(curr_pos));
                        if !(curr_pos == start_pos) {
                            assert(back_path@[back_path@.len() - 1].0 == curr_pos);
                        }
                    }
                }
                assert forall|k: int| 0 <= k < frontier@.len() implies self.entry_ok(
                    #[trigger] frontier@[k],
                    visited@,
                    start_pos,
                    sdir,
                    left,
                    top,
                    right,
                    bottom,
                    allow_diagonal_move,
                    cost_limit,
                    cost_turn,
                    cost_move_straight,
                    cost_move_diagonal,
                ) by {
                    let e = frontier@[k];
                    if k < pre_frontier.len() {
                        assert(e == pre_frontier[k]);
                        if k < min_idx {
                            assert(pre_frontier[k] == pre_pop_frontier[k]);
                        } else {
                            assert(pre_frontier[k] == pre_pop_frontier[k + 1]);
                        }
                        self.lemma_entry_grow(
                            e,
                            pre_visited,
                            (curr_pos, curr_gval, curr_dir),
                            start_pos,
                            sdir,
                            left,
                            top,
                            right,
                            bottom,
                            allow_diagonal_move,
                            cost_limit,
                            cost_turn,
                            cost_move_straight,
                            cost_move_diagonal,
                        );
                    } else {
                        self.lemma_entry_new(
                            e,
                            visited@,
                            start_pos,
                            sdir,
                            left,
                            top,
                            right,
                            bottom,
                            allow_diagonal_move,
                            cost_limit,
                            cost_turn,
                            cost_move_straight,
                            cost_move_diagonal,
                        );
                    }
                }
                // every expanded node's admissible directions stay
                // accounted for after this expansion
                self.lemma_closure_step(
                    pre_visited,
                    visited@,
                    curr,
                    pre_pop_frontier,
                    pre_frontier,
                    frontier@,
                    min_idx as int,
                    left,
                    top,
                    right,
                    bottom,
                    allow_diagonal_move,
                    cost_limit,
                    cost_turn,
                    cost_move_straight,
                    cost_move_diagonal,
                );
            }
        }

        if all_points {
            let n: usize = visited.len();
            let mut i: usize = 0;
            while i < n
                invariant
                    i <= n == visited@.len(),
                    points@.len() == i,
                    forall|k: int|
                        0 <= k < i ==> #[trigger] points@[k] == (crate::api::Point {
                            x: visited@[k].0.x,
                            y: visited@[k].0.y,
                            z: visited@[k].0.z,
                            w: visited@[k].1,
                        }),
                decreases n - i,
            {
                let (p, w, _dir) = visited[i];
                points.push(crate::api::Point { x: p.x, y: p.y, z: p.z, w });
                i = i + 1;
            }
        } else {
            match best_pos {
                Some(best) => {
                    let mut rev: Vec<crate::api::Point> = Vec::new();
                    let mut curr: Position = best;
                    rev.push(crate::api::Point { x: best.x, y: best.y, z: best.z, w: 0 });
                    let ghost mut cidx: int = if best == start_pos {
                        0
                    } else {
                        choose|k: int|
                            0 <= k < back_path@.len() && (#[trigger] back_path@[k]).0 == best
                    };
                    while !(curr == start_pos)
                        invariant
                            self.wf(),
                            rev@.len() >= 1,
                            rev@[0] == (crate::api::Point {
                                x: best.x,
                                y: best.y,
                                z: best.z,
                                w: 0,
                            }),
                            rev@[rev@.len() - 1] == (crate::api::Point {
                                x: curr.x,
                                y: curr.y,
                                z: curr.z,
                                w: 0,
                            }),
                            forall|i: int|
                                0 <= i < rev@.len() - 1 ==> self.path_edge_spec(
                                    (#[trigger] rev@[i + 1]).x as int,
                                    rev@[i + 1].y as int,
                                    rev@[i + 1].z,
                                    rev@[i].x as int,
                                    rev@[i].y as int,
                                    rev@[i].z,
                                ),
                            forall|i: int| 0 <= i < rev@.len() ==> (#[trigger] rev@[i]).w == 0,
                            curr == start_pos || (0 <= cidx < back_path@.len()
                                && back_path@[cidx].0 == curr),
                            forall|k1: int, k2: int|
                                0 <= k1 < k2 < back_path@.len() ==> (#[trigger] back_path@[k1]).0
                                    != (#[trigger] back_path@[k2]).0,
                            forall|k: int|
                                0 <= k < back_path@.len() ==> ((#[trigger] back_path@[k]).1
                                    == start_pos || exists|k2: int|
                                    0 <= k2 < k && (#[trigger] back_path@[k2]).0
                                        == back_path@[k].1),
                            forall|k: int|
                                0 <= k < back_path@.len() ==> {
                                    let e = #[trigger] back_path@[k];
                                    &&& e.0 != start_pos
                                    &&& self.path_edge_spec(
                                        e.1.x as int,
                                        e.1.y as int,
                                        e.1.z,
                                        e.0.x as int,
                                        e.0.y as int,
                                        e.0.z,
                                    )
                                },
                        decreases (if curr == start_pos {
                            0int
                        } else {
                            cidx + 1
                        }),
                    {
                        proof {
                            assert(bp_has_key(back_path@, curr)) by {
                                assert(back_path@[cidx].0 == curr);
                            }
                        }
                        let par = match bp_lookup(&back_path, &curr) {
                            Some(p) => p,
                            None => {
                                proof {
                                    assert(false);
                                }
                                curr
                            },
                        };
                        proof {
                            let k = choose|k: int|
                                0 <= k < back_path@.len() && #[trigger] back_path@[k] == (
                                curr,
                                par,
                            );
                            assert(back_path@[k].0 == curr && back_path@[k].1 == par);
                            // keys are unique, so the found entry is the tracked one
                            if k != cidx {
                                if k < cidx {
                                    assert(back_path@[k].0 != back_path@[cidx].0);
                                } else {
                                    assert(back_path@[cidx].0 != back_path@[k].0);
                                }
                                assert(false);
                            }
                            if par != start_pos {
                                let k2 = choose|k2: int|
                                    0 <= k2 < cidx && (#[trigger] back_path@[k2]).0 == par;
                                cidx = k2;
                            }
                        }
                        rev.push(crate::api::Point { x: par.x, y: par.y, z: par.z, w: 0 });
                        curr = par;
                    }
                    let m: usize = rev.len();
                    let mut j: usize = m;
                    while j > 0
                        invariant
                            j <= m == rev@.len(),
                            points@.len() == m - j,
                            forall|i: int|
                                0 <= i < points@.len() ==> #[trigger] points@[i] == rev@[m - 1
                                    - i],
                        decreases j,
                    {
                        j = j - 1;
                        points.push(rev[j]);
                    }
                    proof {
                        assert(points@[0] == rev@[m - 1]);
                        assert(points@[points@.len() - 1] == rev@[0]);
                        assert forall|i: int| 0 <= i < points@.len() - 1 implies self.path_edge_spec(
                            (#[trigger] points@[i]).x as int,
                            points@[i].y as int,
                            points@[i].z,
                            points@[i + 1].x as int,
                            points@[i + 1].y as int,
                            points@[i + 1].z,
                        ) by {
                            assert(points@[i] == rev@[m - 1 - i]);
                            assert(points@[i + 1] == rev@[m - 1 - (i + 1)]);
                            assert(self.path_edge_spec(
                                rev@[(m - 2 - i) + 1].x as int,
                                rev@[(m - 2 - i) + 1].y as int,
                                rev@[(m - 2 - i) + 1].z,
                                rev@[m - 2 - i].x as int,
                                rev@[m - 2 - i].y as int,
                                rev@[m - 2 - i].z,
                            ));
                        }
                    }
                },
                None => {
                    proof {
                        assert(false);
                    }
                },
            }
        }
        proof {
            assert(self.trace_outcome_ok(
                points@,
                s_x,
                s_y,
                s_z,
                sdir,
                d_x,
                d_y,
                d_z,
                *options,
            )) by {
                reveal(WorldSurveyor::trace_outcome_ok);
                let vs = visits_view(visited@);
                assert(left as int == trace_left(*options));
            assert(top as int == trace_top(*options));
            assert(right as int == self.trace_right(*options));
            assert(bottom as int == self.trace_bottom(*options));
            assert(cost_limit as int == trace_cost_limit(*options));
            assert(cost_turn as int == trace_cost_turn(*options));
            assert(cost_move_straight as int == trace_cost_straight(*options));
            assert(cost_move_diagonal as int == trace_cost_diagonal(*options));
            assert(allow_diagonal_move == trace_allow_diagonal(*options));
            assert(all_points == trace_all_points(*options));
            assert(x_accuracy as int == trace_acc_x(*options));
            assert(y_accuracy as int == trace_acc_y(*options));
            assert(z_accuracy as int == trace_acc_z(*options));
            assert(vs.len() == visited@.len());
            assert(self.search_record_ok(
                vs,
                s_x as int,
                s_y as int,
                s_z,
                sdir,
                d_x as int,
                d_y as int,
                d_z,
                *options,
            )) by {
                reveal(WorldSurveyor::visits_ok);
                reveal(WorldSurveyor::closure_ok);
                assert(vs[0] == visit_rec(visited@[0]));
                assert(vs[0] == (s_x as int, s_y as int, s_z, 0int, sdir));
                assert forall|k: int, m: int| 0 <= k < m < vs.len() implies !((
                #[trigger] vs[k]).0 == (#[trigger] vs[m]).0 && vs[k].1 == vs[m].1 && vs[k].2
                    == vs[m].2) by {
                    assert(vs[k] == visit_rec(visited@[k]) && vs[m] == visit_rec(visited@[m]));
                    if vs[k].0 == vs[m].0 && vs[k].1 == vs[m].1 && vs[k].2 == vs[m].2 {
                        assert(visited@[k].0 == visited@[m].0);
                    }
                }
                assert forall|m: int| 1 <= m < vs.len() implies #[trigger] self.record_parent_ok(
                    vs,
                    m,
                    trace_left(*options),
                    trace_top(*options),
                    self.trace_right(*options),
                    self.trace_bottom(*options),
                    trace_allow_diagonal(*options),
                    trace_cost_limit(*options),
                    trace_cost_turn(*options),
                    trace_cost_straight(*options),
                    trace_cost_diagonal(*options),
                ) by {
                    let k = choose|k: int|
                        0 <= k < m && self.visit_parent(
                            left as int,
                            top as int,
                            right as int,
                            bottom as int,
                            allow_diagonal_move,
                            cost_limit as int,
                            cost_turn as int,
                            cost_move_straight as int,
                            cost_move_diagonal as int,
                            visit_rec(#[trigger] visited@[k]),
                            visit_rec(visited@[m]),
                        );
                    assert(vs[k] == visit_rec(visited@[k]) && vs[m] == visit_rec(visited@[m]));
                }
                if exists|k: int|
                    0 <= k < visited@.len() && within_accuracy(
                        d_x as int,
                        d_y as int,
                        d_z,
                        x_accuracy as int,
                        y_accuracy as int,
                        z_accuracy as int,
                        (#[trigger] visited@[k]).0.x as int,
                        visited@[k].0.y as int,
                        visited@[k].0.z,
                    ) {
                    let k = choose|k: int|
                        0 <= k < visited@.len() && within_accuracy(
                            d_x as int,
                            d_y as int,
                            d_z,
                            x_accuracy as int,
                            y_accuracy as int,
                            z_accuracy as int,
                            (#[trigger] visited@[k]).0.x as int,
                            visited@[k].0.y as int,
                            visited@[k].0.z,
                        );
                    assert(vs[k] == visit_rec(visited@[k]));
                    assert(within_accuracy(
                        d_x as int,
                        d_y as int,
                        d_z,
                        trace_acc_x(*options),
                        trace_acc_y(*options),
                        trace_acc_z(*options),
                        (#[trigger] vs[k]).0,
                        vs[k].1,
                        vs[k].2,
                    ));
                } else {
                    assert forall|k: int, d: u8|
                        0 <= k < vs.len() && #[trigger] self.expands_to(
                            trace_left(*options),
                            trace_top(*options),
                            self.trace_right(*options),
                            self.trace_bottom(*options),
                            trace_allow_diagonal(*options),
                            trace_cost_limit(*options),
                            trace_cost_turn(*options),
                            trace_cost_straight(*options),
                            trace_cost_diagonal(*options),
                            vs[k].0,
                            vs[k].1,
                            vs[k].2,
                            vs[k].3,
                            vs[k].4,
                            d,
                        ) implies record_has_pos(
                        vs,
                        move_to_spec(vs[k].0, vs[k].1, d).0,
                        move_to_spec(vs[k].0, vs[k].1, d).1,
                        self.step_single_spec(vs[k].0, vs[k].1, vs[k].2, d)->Some_0,
                    ) by {
                        assert(vs[k] == visit_rec(visited@[k]));
                        let to = move_to_spec(vs[k].0, vs[k].1, d);
                        let tz = self.step_single_spec(vs[k].0, vs[k].1, vs[k].2, d)->Some_0;
                        assert(visited_has_xyz(visited@, to.0, to.1, tz));
                        let k0 = choose|k0: int|
                            0 <= k0 < visited@.len() && (#[trigger] visited@[k0]).0.x as int
                                == to.0 && visited@[k0].0.y as int == to.1 && visited@[k0].0.z
                                as int == tz;
                        assert((#[trigger] vs[k0]).0 == to.0 && vs[k0].1 == to.1 && (vs[k0].2
                            as int) == tz);
                    }
                }
            }
            if all_points {
                assert(points@ =~= Seq::new(
                    vs.len(),
                    |k: int|
                        crate::api::Point {
                            x: vs[k].0 as isize,
                            y: vs[k].1 as isize,
                            z: vs[k].2,
                            w: vs[k].3 as isize,
                        },
                )) by {
                    assert(forall|k: int|
                        0 <= k < vs.len() ==> #[trigger] vs[k] == visit_rec(visited@[k]));
                }
            } else {
                let b = best_pos->Some_0;
                let bi = best_idx;
                assert(points@[points@.len() - 1] == (crate::api::Point {
                    x: b.x,
                    y: b.y,
                    z: b.z,
                    w: 0,
                }));
                assert((#[trigger] vs[bi]).0 == points@[points@.len() - 1].x as int && vs[bi].1
                    == points@[points@.len() - 1].y as int && vs[bi].2 == points@[points@.len()
                    - 1].z) by {
                    assert(vs[bi] == visit_rec(visited@[bi]));
                }
                assert forall|k: int| 0 <= k < vs.len() implies cheb_dist(
                    d_x as int,
                    d_y as int,
                    d_z,
                    (#[trigger] vs[k]).0,
                    vs[k].1,
                    vs[k].2,
                ) >= cheb_dist(d_x as int, d_y as int, d_z, vs[bi].0, vs[bi].1, vs[bi].2) by {
                    assert(vs[k] == visit_rec(visited@[k]));
                }
                assert forall|k: int| 0 <= k < bi implies cheb_dist(
                    d_x as int,
                    d_y as int,
                    d_z,
                    (#[trigger] vs[k]).0,
                    vs[k].1,
                    vs[k].2,
                ) > cheb_dist(d_x as int, d_y as int, d_z, vs[bi].0, vs[bi].1, vs[bi].2) by {
                    assert(vs[k] == visit_rec(visited@[k]));
                }
            }
            }
        }
    }

}

impl<'a> WorldSurveyor<'a> {
    /// Probes the four cardinals and, when allowed, the guarded diagonals
    /// of an expanded node, pushing every admissible neighbour onto the
    /// frontier with its cost and score. Every admissible direction ends
    /// accounted for: its target is already visited or newly on the
    /// frontier.
    #[verifier::rlimit(100)]
    fn expand_node(
        &self,
        cached_steps: &mut Vec<(Position, u8, Option<i8>)>,
        frontier: &mut Vec<ScoredPosition>,
        visited: &Vec<(Position, isize, u8)>,
        curr_pos: Position,
        curr_gval: isize,
        curr_dir: u8,
        left: isize,
        top: isize,
        right: isize,
        bottom: isize,
        cost_limit: isize,
        cost_turn: isize,
        cost_move_straight: isize,
        cost_move_diagonal: isize,
        allow_diagonal_move: bool,
        h_dist: crate::api::DistanceFunc,
        h_direct: isize,
        h_diagonal: isize,
        d_x: isize,
        d_y: isize,
    )
        requires
            self.wf(),
            pos_ok(curr_pos),
            -0x1000_0000 <= left <= 0x1000_0000,
            -0x1000_0000 <= top <= 0x1000_0000,
            -0x1000_0000 <= right <= 0x1000_0000,
            -0x1000_0000 <= bottom <= 0x1000_0000,
            -0x1000_0000 <= d_x <= 0x1000_0000,
            -0x1000_0000 <= d_y <= 0x1000_0000,
            forall|k: int|
                0 <= k < old(cached_steps)@.len() ==> opt_i8_matches(
                    (#[trigger] old(cached_steps)@[k]).2,
                    self.step_single_spec(
                        old(cached_steps)@[k].0.x as int,
                        old(cached_steps)@[k].0.y as int,
                        old(cached_steps)@[k].0.z,
                        old(cached_steps)@[k].1,
                    ),
                ),
        ensures
            forall|k: int|
                0 <= k < final(cached_steps)@.len() ==> opt_i8_matches(
                    (#[trigger] final(cached_steps)@[k]).2,
                    self.step_single_spec(
                        final(cached_steps)@[k].0.x as int,
                        final(cached_steps)@[k].0.y as int,
                        final(cached_steps)@[k].0.z,
                        final(cached_steps)@[k].1,
                    ),
                ),
            final(frontier)@.len() >= old(frontier)@.len(),
            forall|k: int|
                0 <= k < old(frontier)@.len() ==> #[trigger] final(frontier)@[k] == old(
                    frontier,
                )@[k],
            forall|k: int|
                old(frontier)@.len() <= k < final(frontier)@.len() ==> {
                    let e = #[trigger] final(frontier)@[k];
                    &&& pos_ok(e.pos)
                    &&& e.src == curr_pos
                    &&& self.path_edge_spec(
                        curr_pos.x as int,
                        curr_pos.y as int,
                        curr_pos.z,
                        e.pos.x as int,
                        e.pos.y as int,
                        e.pos.z,
                    )
                    &&& self.visit_parent(
                        left as int,
                        top as int,
                        right as int,
                        bottom as int,
                        allow_diagonal_move,
                        cost_limit as int,
                        cost_turn as int,
                        cost_move_straight as int,
                        cost_move_diagonal as int,
                        (curr_pos.x as int, curr_pos.y as int, curr_pos.z, curr_gval as int, curr_dir),
                        (e.pos.x as int, e.pos.y as int, e.pos.z, e.gval as int, e.dir),
                    )
                },
            forall|d: u8|
                #[trigger] self.expands_to(
                    left as int,
                    top as int,
                    right as int,
                    bottom as int,
                    allow_diagonal_move,
                    cost_limit as int,
                    cost_turn as int,
                    cost_move_straight as int,
                    cost_move_diagonal as int,
                    curr_pos.x as int,
                    curr_pos.y as int,
                    curr_pos.z,
                    curr_gval as int,
                    curr_dir,
                    d,
                ) ==> ({
                    let to = move_to_spec(curr_pos.x as int, curr_pos.y as int, d);
                    let tz = self.step_single_spec(
                        curr_pos.x as int,
                        curr_pos.y as int,
                        curr_pos.z,
                        d,
                    )->Some_0;
                    visited_has_xyz(visited@, to.0, to.1, tz) || exists|m: int|
                        old(frontier)@.len() <= m < final(frontier)@.len()
                            && (#[trigger] final(frontier)@[m]).pos.x as int == to.0
                            && final(frontier)@[m].pos.y as int == to.1
                            && final(frontier)@[m].pos.z as int == tz
                }),
    {
        proof {
            reveal(WorldSurveyor::step_spec);
            reveal(WorldSurveyor::probe_ok);
            reveal(WorldSurveyor::expands_to);
            reveal(WorldSurveyor::visit_parent);
        }
        // probe the four cardinals, then the guarded diagonals
        let dest_n = self.check_step_cached(cached_steps, curr_pos, 0, left, top, right, bottom);
        let dest_e = self.check_step_cached(cached_steps, curr_pos, 2, left, top, right, bottom);
        let dest_s = self.check_step_cached(cached_steps, curr_pos, 4, left, top, right, bottom);
        let dest_w = self.check_step_cached(cached_steps, curr_pos, 6, left, top, right, bottom);

        let mut steps: Vec<(u8, Option<i8>)> = Vec::new();
        steps.push((0, dest_n));
        steps.push((2, dest_e));
        steps.push((4, dest_s));
        steps.push((6, dest_w));
        if allow_diagonal_move {
            let dest_ne = if dest_n.is_some() && dest_e.is_some() {
                self.check_step_cached(cached_steps, curr_pos, 1, left, top, right, bottom)
            } else {
                None
            };
            let dest_se = if dest_s.is_some() && dest_e.is_some() {
                self.check_step_cached(cached_steps, curr_pos, 3, left, top, right, bottom)
            } else {
                None
            };
            let dest_sw = if dest_s.is_some() && dest_w.is_some() {
                self.check_step_cached(cached_steps, curr_pos, 5, left, top, right, bottom)
            } else {
                None
            };
            let dest_nw = if dest_n.is_some() && dest_w.is_some() {
                self.check_step_cached(cached_steps, curr_pos, 7, left, top, right, bottom)
            } else {
                None
            };
            steps.push((1, dest_ne));
            steps.push((3, dest_se));
            steps.push((5, dest_sw));
            steps.push((7, dest_nw));
        }
        proof {
            assert(0u8 & 7 == 0 && 1u8 & 7 == 1 && 2u8 & 7 == 2 && 3u8 & 7 == 3 && 4u8 & 7 == 4
                && 5u8 & 7 == 5 && 6u8 & 7 == 6 && 7u8 & 7 == 7) by (bit_vector);
            assert(0u8 & 1 == 0 && 2u8 & 1 == 0 && 4u8 & 1 == 0 && 6u8 & 1 == 0 && 1u8 & 1 == 1
                && 3u8 & 1 == 1 && 5u8 & 1 == 1 && 7u8 & 1 == 1) by (bit_vector);
            assert(turn_spec(1u8, 1i8) == 2 && turn_spec(1u8, -1i8) == 0 && turn_spec(3u8, 1i8)
                == 4 && turn_spec(3u8, -1i8) == 2 && turn_spec(5u8, 1i8) == 6 && turn_spec(
                5u8,
                -1i8,
            ) == 4 && turn_spec(7u8, 1i8) == 0 && turn_spec(7u8, -1i8) == 6);
        }
        let ghost pre_len = frontier@.len() as int;

        let ns: usize = steps.len();
        let mut si: usize = 0;
        while si < ns
            invariant
                si <= ns == steps@.len(),
                self.wf(),
                -0x1000_0000 <= left <= 0x1000_0000,
                -0x1000_0000 <= top <= 0x1000_0000,
                -0x1000_0000 <= right <= 0x1000_0000,
                -0x1000_0000 <= bottom <= 0x1000_0000,
                -0x1000_0000 <= d_x <= 0x1000_0000,
                -0x1000_0000 <= d_y <= 0x1000_0000,
                pos_ok(curr_pos),
                pre_len == old(frontier)@.len(),
                forall|k: int| 0 <= k < steps@.len() ==> (#[trigger] steps@[k]).0 < 8,
                forall|k: int|
                    0 <= k < steps@.len() ==> ((#[trigger] steps@[k]).0 & 1 == 1
                        ==> allow_diagonal_move),
                ns == 4 || ns == 8,
                steps@[0].0 == 0 && steps@[1].0 == 2 && steps@[2].0 == 4 && steps@[3].0 == 6,
                ns == 8 ==> steps@[4].0 == 1 && steps@[5].0 == 3 && steps@[6].0 == 5
                    && steps@[7].0 == 7,
                allow_diagonal_move ==> ns == 8,
                forall|k: int|
                    0 <= k < steps@.len() ==> (((#[trigger] steps@[k]).1 is Some) == ((steps@[k].0
                        & 1 == 1 ==> self.probe_ok(
                        left as int,
                        top as int,
                        right as int,
                        bottom as int,
                        curr_pos.x as int,
                        curr_pos.y as int,
                        curr_pos.z,
                        turn_spec(steps@[k].0, 1i8),
                    ) && self.probe_ok(
                        left as int,
                        top as int,
                        right as int,
                        bottom as int,
                        curr_pos.x as int,
                        curr_pos.y as int,
                        curr_pos.z,
                        turn_spec(steps@[k].0, -1i8),
                    )) && self.probe_ok(
                        left as int,
                        top as int,
                        right as int,
                        bottom as int,
                        curr_pos.x as int,
                        curr_pos.y as int,
                        curr_pos.z,
                        steps@[k].0,
                    ))),
                forall|k: int|
                    0 <= k < steps@.len() ==> ((#[trigger] steps@[k]).1 matches Some(v)
                        ==> self.step_single_spec(
                        curr_pos.x as int,
                        curr_pos.y as int,
                        curr_pos.z,
                        steps@[k].0,
                    ) == Some(v as int) && self.step_spec(
                        curr_pos.x as int,
                        curr_pos.y as int,
                        curr_pos.z,
                        steps@[k].0,
                    ) == Some(v as int)),
                forall|k: int|
                    0 <= k < cached_steps@.len() ==> opt_i8_matches(
                        (#[trigger] cached_steps@[k]).2,
                        self.step_single_spec(
                            cached_steps@[k].0.x as int,
                            cached_steps@[k].0.y as int,
                            cached_steps@[k].0.z,
                            cached_steps@[k].1,
                        ),
                    ),
                frontier@.len() >= pre_len,
                forall|k: int|
                    0 <= k < pre_len ==> #[trigger] frontier@[k] == old(frontier)@[k],
                forall|k: int|
                    pre_len <= k < frontier@.len() ==> {
                        let e = #[trigger] frontier@[k];
                        &&& pos_ok(e.pos)
                        &&& e.src == curr_pos
                        &&& self.path_edge_spec(
                            curr_pos.x as int,
                            curr_pos.y as int,
                            curr_pos.z,
                            e.pos.x as int,
                            e.pos.y as int,
                            e.pos.z,
                        )
                        &&& self.visit_parent(
                            left as int,
                            top as int,
                            right as int,
                            bottom as int,
                            allow_diagonal_move,
                            cost_limit as int,
                            cost_turn as int,
                            cost_move_straight as int,
                            cost_move_diagonal as int,
                            (
                                curr_pos.x as int,
                                curr_pos.y as int,
                                curr_pos.z,
                                curr_gval as int,
                                curr_dir,
                            ),
                            (e.pos.x as int, e.pos.y as int, e.pos.z, e.gval as int, e.dir),
                        )
                    },
                forall|k: int|
                    0 <= k < si ==> (((#[trigger] steps@[k]).1 is Some && sat_add(
                        curr_gval as int,
                        move_cost(
                            steps@[k].0,
                            curr_dir,
                            cost_turn as int,
                            cost_move_straight as int,
                            cost_move_diagonal as int,
                        ),
                    ) <= cost_limit as int) ==> ({
                        let to = move_to_spec(curr_pos.x as int, curr_pos.y as int, steps@[k].0);
                        let v = steps@[k].1->Some_0;
                        visited_has_xyz(visited@, to.0, to.1, v as int) || exists|m: int|
                            pre_len <= m < frontier@.len() && (#[trigger] frontier@[m]).pos.x
                                as int == to.0 && frontier@[m].pos.y as int == to.1
                                && frontier@[m].pos.z as int == v as int
                    })),
            decreases ns - si,
        {
            let (direction, dest_result) = steps[si];
            let ghost pre_step_frontier = frontier@;
            match dest_result {
                Some(dest_z) => {
                    let (dest_x, dest_y) = WorldSurveyor::move_to(
                        curr_pos.x,
                        curr_pos.y,
                        direction,
                    );
                    let dest_pos = Position { x: dest_x, y: dest_y, z: dest_z };
                    let base_cost: isize = if direction & 1 != 0 {
                        cost_move_diagonal
                    } else {
                        cost_move_straight
                    };
                    let turn_cost: isize = if direction == curr_dir {
                        0
                    } else {
                        cost_turn
                    };
                    let dest_gval = sat_add_exec(curr_gval, sat_add_exec(base_cost, turn_cost));
                    if visited_contains(visited, &dest_pos) {
                        proof {
                            let to = move_to_spec(
                                curr_pos.x as int,
                                curr_pos.y as int,
                                steps@[si as int].0,
                            );
                            let k0 = choose|k0: int|
                                0 <= k0 < visited@.len() && (#[trigger] visited@[k0]).0
                                    == dest_pos;
                            assert(visited@[k0].0.x as int == to.0 && visited@[k0].0.y as int
                                == to.1 && visited@[k0].0.z as int == dest_z as int);
                            assert(visited_has_xyz(visited@, to.0, to.1, dest_z as int));
                        }
                    } else if dest_gval <= cost_limit {
                        let h = heuristic(h_dist, h_direct, h_diagonal, d_x, d_y, dest_x, dest_y);
                        let dest_fval = sat_add_exec(dest_gval, h);
                        proof {
                            reveal(WorldSurveyor::step_spec);
                            reveal(WorldSurveyor::probe_ok);
                            reveal(WorldSurveyor::expands_to);
                            reveal(WorldSurveyor::visit_parent);
                            let dxi = dest_pos.x as int - curr_pos.x as int;
                            let dyi = dest_pos.y as int - curr_pos.y as int;
                            let d = steps@[si as int].0;
                            assert(d < 8 ==> d & 7 == d) by (bit_vector);
                            if d == 0 {
                                assert(direction_spec(dxi, dyi) == d);
                            } else if d == 1 {
                                assert(direction_spec(dxi, dyi) == d);
                            } else if d == 2 {
                                assert(direction_spec(dxi, dyi) == d);
                            } else if d == 3 {
                                assert(direction_spec(dxi, dyi) == d);
                            } else if d == 4 {
                                assert(direction_spec(dxi, dyi) == d);
                            } else if d == 5 {
                                assert(direction_spec(dxi, dyi) == d);
                            } else if d == 6 {
                                assert(direction_spec(dxi, dyi) == d);
                            } else {
                                assert(d == 7);
                                assert(direction_spec(dxi, dyi) == d);
                            }
                            assert(self.step_spec(
                                curr_pos.x as int,
                                curr_pos.y as int,
                                curr_pos.z,
                                direction_spec(dxi, dyi),
                            ) == Some(dest_pos.z as int));
                            assert(d & 1 == 0 || d & 1 == 1) by (bit_vector);
                            assert(d & 1 == 1 ==> self.probe_ok(
                                left as int,
                                top as int,
                                right as int,
                                bottom as int,
                                curr_pos.x as int,
                                curr_pos.y as int,
                                curr_pos.z,
                                turn_spec(d, 1i8),
                            ) && self.probe_ok(
                                left as int,
                                top as int,
                                right as int,
                                bottom as int,
                                curr_pos.x as int,
                                curr_pos.y as int,
                                curr_pos.z,
                                turn_spec(d, -1i8),
                            ));
                            assert(self.probe_ok(
                                left as int,
                                top as int,
                                right as int,
                                bottom as int,
                                curr_pos.x as int,
                                curr_pos.y as int,
                                curr_pos.z,
                                d,
                            ));
                            assert(dest_gval as int == sat_add(
                                curr_gval as int,
                                move_cost(
                                    d,
                                    curr_dir,
                                    cost_turn as int,
                                    cost_move_straight as int,
                                    cost_move_diagonal as int,
                                ),
                            ));
                            assert(self.expands_to(
                                left as int,
                                top as int,
                                right as int,
                                bottom as int,
                                allow_diagonal_move,
                                cost_limit as int,
                                cost_turn as int,
                                cost_move_straight as int,
                                cost_move_diagonal as int,
                                curr_pos.x as int,
                                curr_pos.y as int,
                                curr_pos.z,
                                curr_gval as int,
                                curr_dir,
                                d,
                            ));
                        }
                        frontier.push(
                            ScoredPosition {
                                fval: dest_fval,
                                gval: dest_gval,
                                dir: direction,
                                pos: dest_pos,
                                src: curr_pos,
                            },
                        );
                        proof {
                            reveal(WorldSurveyor::visit_parent);
                            let to = move_to_spec(
                                curr_pos.x as int,
                                curr_pos.y as int,
                                steps@[si as int].0,
                            );
                            let m = frontier@.len() - 1;
                            assert(frontier@[m].pos.x as int == to.0 && frontier@[m].pos.y as int
                                == to.1 && frontier@[m].pos.z as int == dest_z as int);
                            assert(self.visit_parent(
                                left as int,
                                top as int,
                                right as int,
                                bottom as int,
                                allow_diagonal_move,
                                cost_limit as int,
                                cost_turn as int,
                                cost_move_straight as int,
                                cost_move_diagonal as int,
                                (
                                    curr_pos.x as int,
                                    curr_pos.y as int,
                                    curr_pos.z,
                                    curr_gval as int,
                                    curr_dir,
                                ),
                                (
                                    dest_pos.x as int,
                                    dest_pos.y as int,
                                    dest_pos.z,
                                    dest_gval as int,
                                    direction,
                                ),
                            ));
                        }
                    }
                },
                None => {},
            }
            si = si + 1;
            proof {
                assert forall|k: int|
                    0 <= k < si implies (((#[trigger] steps@[k]).1 is Some && sat_add(
                        curr_gval as int,
                        move_cost(
                            steps@[k].0,
                            curr_dir,
                            cost_turn as int,
                            cost_move_straight as int,
                            cost_move_diagonal as int,
                        ),
                    ) <= cost_limit as int) ==> ({
                        let to = move_to_spec(curr_pos.x as int, curr_pos.y as int, steps@[k].0);
                        let v = steps@[k].1->Some_0;
                        visited_has_xyz(visited@, to.0, to.1, v as int) || exists|m: int|
                            pre_len <= m < frontier@.len() && (#[trigger] frontier@[m]).pos.x
                                as int == to.0 && frontier@[m].pos.y as int == to.1
                                && frontier@[m].pos.z as int == v as int
                    })) by {
                    if k < si - 1 {
                        if steps@[k].1 is Some && sat_add(
                            curr_gval as int,
                            move_cost(
                                steps@[k].0,
                                curr_dir,
                                cost_turn as int,
                                cost_move_straight as int,
                                cost_move_diagonal as int,
                            ),
                        ) <= cost_limit as int {
                            let to = move_to_spec(
                                curr_pos.x as int,
                                curr_pos.y as int,
                                steps@[k].0,
                            );
                            let v = steps@[k].1->Some_0;
                            if !visited_has_xyz(visited@, to.0, to.1, v as int) {
                                let m = choose|m: int|
                                    pre_len <= m < pre_step_frontier.len() && (
                                    #[trigger] pre_step_frontier[m]).pos.x as int == to.0
                                        && pre_step_frontier[m].pos.y as int == to.1
                                        && pre_step_frontier[m].pos.z as int == v as int;
                                assert(frontier@[m] == pre_step_frontier[m]);
                            }
                        }
                    }
                }
            }
        }
        proof {
            assert forall|d: u8|
                #[trigger] self.expands_to(
                    left as int,
                    top as int,
                    right as int,
                    bottom as int,
                    allow_diagonal_move,
                    cost_limit as int,
                    cost_turn as int,
                    cost_move_straight as int,
                    cost_move_diagonal as int,
                    curr_pos.x as int,
                    curr_pos.y as int,
                    curr_pos.z,
                    curr_gval as int,
                    curr_dir,
                    d,
                ) implies ({
                let to = move_to_spec(curr_pos.x as int, curr_pos.y as int, d);
                let tz = self.step_single_spec(
                    curr_pos.x as int,
                    curr_pos.y as int,
                    curr_pos.z,
                    d,
                )->Some_0;
                visited_has_xyz(visited@, to.0, to.1, tz) || exists|m: int|
                    pre_len <= m < frontier@.len() && (#[trigger] frontier@[m]).pos.x as int
                        == to.0 && frontier@[m].pos.y as int == to.1 && frontier@[m].pos.z as int
                        == tz
            }) by {
                reveal(WorldSurveyor::probe_ok);
                reveal(WorldSurveyor::expands_to);
                assert(0u8 & 1 == 0 && 2u8 & 1 == 0 && 4u8 & 1 == 0 && 6u8 & 1 == 0 && 1u8 & 1
                    == 1 && 3u8 & 1 == 1 && 5u8 & 1 == 1 && 7u8 & 1 == 1) by (bit_vector);
                let ki: int = if d == 0 {
                    0
                } else if d == 2 {
                    1
                } else if d == 4 {
                    2
                } else if d == 6 {
                    3
                } else if d == 1 {
                    4
                } else if d == 3 {
                    5
                } else if d == 5 {
                    6
                } else {
                    7
                };
                assert(d < 8);
                if d & 1 == 1 {
                    assert(allow_diagonal_move);
                }
                assert(steps@[ki].0 == d);
                assert(steps@[ki].1 is Some);
                assert(self.step_single_spec(
                    curr_pos.x as int,
                    curr_pos.y as int,
                    curr_pos.z,
                    d,
                ) == Some(steps@[ki].1->Some_0 as int));
            }
        }
    }
}


impl<'a> WorldSurveyor<'a> {
    /// What the search knows of one frontier entry: a sane position inside
    /// the rectangle (or the start), and either the initial entry or an
    /// admissible expansion of an already-expanded node.
    #[verifier::opaque]
    spec fn entry_ok(
        self,
        e: ScoredPosition,
        visited: Seq<(Position, isize, u8)>,
        start_pos: Position,
        sdir: u8,
        left: isize,
        top: isize,
        right: isize,
        bottom: isize,
        allow: bool,
        limit: isize,
        ct: isize,
        cms: isize,
        cmd: isize,
    ) -> bool {
        &&& pos_ok(e.pos)
        &&& (e.pos == start_pos || (left <= e.pos.x < right && top <= e.pos.y < bottom))
        &&& ((e.pos == start_pos && e.gval == 0 && e.dir == sdir) || exists|j: int|
            0 <= j < visited.len() && self.visit_parent(
                left as int,
                top as int,
                right as int,
                bottom as int,
                allow,
                limit as int,
                ct as int,
                cms as int,
                cmd as int,
                visit_rec(#[trigger] visited[j]),
                (e.pos.x as int, e.pos.y as int, e.pos.z, e.gval as int, e.dir),
            ))
    }

    /// What the search knows of its expansion record: it starts at the
    /// start node, repeats no position, stays inside the rectangle, and
    /// every later node is an admissible expansion of an earlier one.
    #[verifier::opaque]
    spec fn visits_ok(
        self,
        visited: Seq<(Position, isize, u8)>,
        start_pos: Position,
        sdir: u8,
        left: isize,
        top: isize,
        right: isize,
        bottom: isize,
        allow: bool,
        limit: isize,
        ct: isize,
        cms: isize,
        cmd: isize,
    ) -> bool {
        &&& (visited.len() >= 1 ==> visited[0] == (start_pos, 0isize, sdir))
        &&& forall|k: int, m: int|
            0 <= k < m < visited.len() ==> (#[trigger] visited[k]).0 != (#[trigger] visited[m]).0
        &&& forall|m: int|
            1 <= m < visited.len() ==> exists|k: int|
                0 <= k < m && self.visit_parent(
                    left as int,
                    top as int,
                    right as int,
                    bottom as int,
                    allow,
                    limit as int,
                    ct as int,
                    cms as int,
                    cmd as int,
                    visit_rec(#[trigger] visited[k]),
                    visit_rec(#[trigger] visited[m]),
                )
        &&& forall|k: int|
            0 <= k < visited.len() ==> ((#[trigger] visited[k]).0 == start_pos || (left
                <= visited[k].0.x < right && top <= visited[k].0.y < bottom))
    }

    /// Every admissible direction out of every expanded node is accounted
    /// for: its target is expanded too, or waits on the frontier.
    #[verifier::opaque]
    spec fn closure_ok(
        self,
        visited: Seq<(Position, isize, u8)>,
        frontier: Seq<ScoredPosition>,
        left: isize,
        top: isize,
        right: isize,
        bottom: isize,
        allow: bool,
        limit: isize,
        ct: isize,
        cms: isize,
        cmd: isize,
    ) -> bool {
        forall|k: int, d: u8|
            0 <= k < visited.len() && #[trigger] self.expands_to(
                left as int,
                top as int,
                right as int,
                bottom as int,
                allow,
                limit as int,
                ct as int,
                cms as int,
                cmd as int,
                visited[k].0.x as int,
                visited[k].0.y as int,
                visited[k].0.z,
                visited[k].1 as int,
                visited[k].2,
                d,
            ) ==> ({
                let to = move_to_spec(visited[k].0.x as int, visited[k].0.y as int, d);
                let tz = self.step_single_spec(
                    visited[k].0.x as int,
                    visited[k].0.y as int,
                    visited[k].0.z,
                    d,
                )->Some_0;
                visited_has_xyz(visited, to.0, to.1, tz) || exists|m: int|
                    0 <= m < frontier.len() && (#[trigger] frontier[m]).pos.x as int == to.0
                        && frontier[m].pos.y as int == to.1 && frontier[m].pos.z as int == tz
            })
    }

    /// An entry stays admissible when the record grows.
    proof fn lemma_entry_grow(
        self,
        e: ScoredPosition,
        visited: Seq<(Position, isize, u8)>,
        v: (Position, isize, u8),
        start_pos: Position,
        sdir: u8,
        left: isize,
        top: isize,
        right: isize,
        bottom: isize,
        allow: bool,
        limit: isize,
        ct: isize,
        cms: isize,
        cmd: isize,
    )
        requires
            self.entry_ok(e, visited, start_pos, sdir, left, top, right, bottom, allow, limit, ct, cms, cmd),
        ensures
            self.entry_ok(e, visited.push(v), start_pos, sdir, left, top, right, bottom, allow, limit, ct, cms, cmd),
    {
        reveal(WorldSurveyor::entry_ok);
        if !(e.pos == start_pos && e.gval == 0 && e.dir == sdir) {
            let j = choose|j: int|
                0 <= j < visited.len() && self.visit_parent(
                    left as int,
                    top as int,
                    right as int,
                    bottom as int,
                    allow,
                    limit as int,
                    ct as int,
                    cms as int,
                    cmd as int,
                    visit_rec(#[trigger] visited[j]),
                    (e.pos.x as int, e.pos.y as int, e.pos.z, e.gval as int, e.dir),
                );
            assert(visited.push(v)[j] == visited[j]);
        }
    }

    /// A freshly pushed neighbour of the newest expanded node is an
    /// admissible entry.
    proof fn lemma_entry_new(
        self,
        e: ScoredPosition,
        visited: Seq<(Position, isize, u8)>,
        start_pos: Position,
        sdir: u8,
        left: isize,
        top: isize,
        right: isize,
        bottom: isize,
        allow: bool,
        limit: isize,
        ct: isize,
        cms: isize,
        cmd: isize,
    )
        requires
            visited.len() >= 1,
            pos_ok(e.pos),
            self.visit_parent(
                left as int,
                top as int,
                right as int,
                bottom as int,
                allow,
                limit as int,
                ct as int,
                cms as int,
                cmd as int,
                visit_rec(visited[visited.len() - 1]),
                (e.pos.x as int, e.pos.y as int, e.pos.z, e.gval as int, e.dir),
            ),
        ensures
            self.entry_ok(e, visited, start_pos, sdir, left, top, right, bottom, allow, limit, ct, cms, cmd),
    {
        reveal(WorldSurveyor::entry_ok);
        reveal(WorldSurveyor::visit_parent);
        reveal(WorldSurveyor::expands_to);
        reveal(WorldSurveyor::probe_ok);
        let j = visited.len() - 1;
        assert(self.visit_parent(
            left as int,
            top as int,
            right as int,
            bottom as int,
            allow,
            limit as int,
            ct as int,
            cms as int,
            cmd as int,
            visit_rec(#[trigger] visited[j]),
            (e.pos.x as int, e.pos.y as int, e.pos.z, e.gval as int, e.dir),
        ));
    }

    /// Expanding the popped entry extends the record admissibly.
    proof fn lemma_visits_push(
        self,
        visited: Seq<(Position, isize, u8)>,
        curr: ScoredPosition,
        v: (Position, isize, u8),
        start_pos: Position,
        sdir: u8,
        left: isize,
        top: isize,
        right: isize,
        bottom: isize,
        allow: bool,
        limit: isize,
        ct: isize,
        cms: isize,
        cmd: isize,
    )
        requires
            self.visits_ok(visited, start_pos, sdir, left, top, right, bottom, allow, limit, ct, cms, cmd),
            self.entry_ok(curr, visited, start_pos, sdir, left, top, right, bottom, allow, limit, ct, cms, cmd),
            !visited_has(visited, curr.pos),
            v == (curr.pos, curr.gval, curr.dir),
        ensures
            self.visits_ok(
                visited.push(v),
                start_pos,
                sdir,
                left,
                top,
                right,
                bottom,
                allow,
                limit,
                ct,
                cms,
                cmd,
            ),
            visited.push(v).len() <= (if right > left && bottom > top {
                ((right - left) as int) * ((bottom - top) as int) * 256
            } else {
                0
            }) + 1,
    {
        reveal(WorldSurveyor::visits_ok);
        reveal(WorldSurveyor::entry_ok);
        let vn = visited.push(v);
        if visited.len() == 0 {
            assert(vn[0] == v);
            assert(v == (start_pos, 0isize, sdir));
        } else {
            assert(vn[0] == visited[0]);
            if curr.pos == start_pos && curr.gval == 0 && curr.dir == sdir {
                assert(visited[0].0 == start_pos);
                assert(visited_has(visited, curr.pos));
            }
            let j = choose|j: int|
                0 <= j < visited.len() && self.visit_parent(
                    left as int,
                    top as int,
                    right as int,
                    bottom as int,
                    allow,
                    limit as int,
                    ct as int,
                    cms as int,
                    cmd as int,
                    visit_rec(#[trigger] visited[j]),
                    (curr.pos.x as int, curr.pos.y as int, curr.pos.z, curr.gval as int, curr.dir),
                );
            assert(vn[j] == visited[j]);
            assert(visit_rec(vn[vn.len() - 1]) == (
                curr.pos.x as int,
                curr.pos.y as int,
                curr.pos.z,
                curr.gval as int,
                curr.dir,
            ));
        }
        assert forall|k: int, m: int|
            0 <= k < m < vn.len() implies (#[trigger] vn[k]).0 != (#[trigger] vn[m]).0 by {
            if m == vn.len() - 1 {
                if vn[k].0 == v.0 {
                    assert(visited[k].0 == curr.pos);
                    assert(visited_has(visited, curr.pos));
                }
            }
        }
        assert forall|m: int| 1 <= m < vn.len() implies exists|k: int|
            0 <= k < m && self.visit_parent(
                left as int,
                top as int,
                right as int,
                bottom as int,
                allow,
                limit as int,
                ct as int,
                cms as int,
                cmd as int,
                visit_rec(#[trigger] vn[k]),
                visit_rec(#[trigger] vn[m]),
            ) by {
            if m < vn.len() - 1 {
                let k = choose|k: int|
                    0 <= k < m && self.visit_parent(
                        left as int,
                        top as int,
                        right as int,
                        bottom as int,
                        allow,
                        limit as int,
                        ct as int,
                        cms as int,
                        cmd as int,
                        visit_rec(#[trigger] visited[k]),
                        visit_rec(#[trigger] visited[m]),
                    );
                assert(vn[k] == visited[k] && vn[m] == visited[m]);
            }
        }
        lemma_visited_card(vn, start_pos, left as int, top as int, right as int, bottom as int);
    }

    /// Dropping an already-expanded entry keeps every direction accounted
    /// for.
    proof fn lemma_closure_pop(
        self,
        visited: Seq<(Position, isize, u8)>,
        pre_pop: Seq<ScoredPosition>,
        min_idx: int,
        left: isize,
        top: isize,
        right: isize,
        bottom: isize,
        allow: bool,
        limit: isize,
        ct: isize,
        cms: isize,
        cmd: isize,
    )
        requires
            0 <= min_idx < pre_pop.len(),
            self.closure_ok(visited, pre_pop, left, top, right, bottom, allow, limit, ct, cms, cmd),
            visited_has(visited, pre_pop[min_idx].pos),
        ensures
            self.closure_ok(
                visited,
                pre_pop.remove(min_idx),
                left,
                top,
                right,
                bottom,
                allow,
                limit,
                ct,
                cms,
                cmd,
            ),
    {
        reveal(WorldSurveyor::closure_ok);
        let post = pre_pop.remove(min_idx);
        assert forall|k: int, d: u8|
            0 <= k < visited.len() && #[trigger] self.expands_to(
                left as int,
                top as int,
                right as int,
                bottom as int,
                allow,
                limit as int,
                ct as int,
                cms as int,
                cmd as int,
                visited[k].0.x as int,
                visited[k].0.y as int,
                visited[k].0.z,
                visited[k].1 as int,
                visited[k].2,
                d,
            ) implies ({
            let to = move_to_spec(visited[k].0.x as int, visited[k].0.y as int, d);
            let tz = self.step_single_spec(
                visited[k].0.x as int,
                visited[k].0.y as int,
                visited[k].0.z,
                d,
            )->Some_0;
            visited_has_xyz(visited, to.0, to.1, tz) || exists|m: int|
                0 <= m < post.len() && (#[trigger] post[m]).pos.x as int == to.0
                    && post[m].pos.y as int == to.1 && post[m].pos.z as int == tz
        }) by {
            let to = move_to_spec(visited[k].0.x as int, visited[k].0.y as int, d);
            let tz = self.step_single_spec(
                visited[k].0.x as int,
                visited[k].0.y as int,
                visited[k].0.z,
                d,
            )->Some_0;
            if !visited_has_xyz(visited, to.0, to.1, tz) {
                let m = choose|m: int|
                    0 <= m < pre_pop.len() && (#[trigger] pre_pop[m]).pos.x as int == to.0
                        && pre_pop[m].pos.y as int == to.1 && pre_pop[m].pos.z as int == tz;
                if m == min_idx {
                    let k0 = choose|k0: int|
                        0 <= k0 < visited.len() && (#[trigger] visited[k0]).0
                            == pre_pop[min_idx].pos;
                    assert(visited[k0].0.x as int == to.0 && visited[k0].0.y as int == to.1
                        && visited[k0].0.z as int == tz);
                } else if m < min_idx {
                    assert(post[m] == pre_pop[m]);
                } else {
                    assert(post[m - 1] == pre_pop[m]);
                }
            }
        }
    }

    /// After expanding the newest node, every direction of every expanded
    /// node is accounted for again.
    proof fn lemma_closure_step(
        self,
        visited_old: Seq<(Position, isize, u8)>,
        visited_new: Seq<(Position, isize, u8)>,
        curr: ScoredPosition,
        pre_pop: Seq<ScoredPosition>,
        pre_frontier: Seq<ScoredPosition>,
        post: Seq<ScoredPosition>,
        min_idx: int,
        left: isize,
        top: isize,
        right: isize,
        bottom: isize,
        allow: bool,
        limit: isize,
        ct: isize,
        cms: isize,
        cmd: isize,
    )
        requires
            0 <= min_idx < pre_pop.len(),
            pre_pop[min_idx] == curr,
            pre_frontier == pre_pop.remove(min_idx),
            visited_new == visited_old.push((curr.pos, curr.gval, curr.dir)),
            self.closure_ok(
                visited_old,
                pre_pop,
                left,
                top,
                right,
                bottom,
                allow,
                limit,
                ct,
                cms,
                cmd,
            ),
            post.len() >= pre_frontier.len(),
            forall|k: int| 0 <= k < pre_frontier.len() ==> #[trigger] post[k] == pre_frontier[k],
            forall|d: u8|
                #[trigger] self.expands_to(
                    left as int,
                    top as int,
                    right as int,
                    bottom as int,
                    allow,
                    limit as int,
                    ct as int,
                    cms as int,
                    cmd as int,
                    curr.pos.x as int,
                    curr.pos.y as int,
                    curr.pos.z,
                    curr.gval as int,
                    curr.dir,
                    d,
                ) ==> ({
                    let to = move_to_spec(curr.pos.x as int, curr.pos.y as int, d);
                    let tz = self.step_single_spec(
                        curr.pos.x as int,
                        curr.pos.y as int,
                        curr.pos.z,
                        d,
                    )->Some_0;
                    visited_has_xyz(visited_new, to.0, to.1, tz) || exists|m: int|
                        pre_frontier.len() <= m < post.len() && (#[trigger] post[m]).pos.x as int
                            == to.0 && post[m].pos.y as int == to.1 && post[m].pos.z as int == tz
                }),
        ensures
            self.closure_ok(
                visited_new,
                post,
                left,
                top,
                right,
                bottom,
                allow,
                limit,
                ct,
                cms,
                cmd,
            ),
    {
        reveal(WorldSurveyor::closure_ok);
        assert forall|k: int, d: u8|
            0 <= k < visited_new.len() && #[trigger] self.expands_to(
                left as int,
                top as int,
                right as int,
                bottom as int,
                allow,
                limit as int,
                ct as int,
                cms as int,
                cmd as int,
                visited_new[k].0.x as int,
                visited_new[k].0.y as int,
                visited_new[k].0.z,
                visited_new[k].1 as int,
                visited_new[k].2,
                d,
            ) implies ({
            let to = move_to_spec(visited_new[k].0.x as int, visited_new[k].0.y as int, d);
            let tz = self.step_single_spec(
                visited_new[k].0.x as int,
                visited_new[k].0.y as int,
                visited_new[k].0.z,
                d,
            )->Some_0;
            visited_has_xyz(visited_new, to.0, to.1, tz) || exists|m: int|
                0 <= m < post.len() && (#[trigger] post[m]).pos.x as int == to.0
                    && post[m].pos.y as int == to.1 && post[m].pos.z as int == tz
        }) by {
            let to = move_to_spec(visited_new[k].0.x as int, visited_new[k].0.y as int, d);
            let tz = self.step_single_spec(
                visited_new[k].0.x as int,
                visited_new[k].0.y as int,
                visited_new[k].0.z,
                d,
            )->Some_0;
            if k == visited_new.len() - 1 {
                assert(visited_new[k] == (curr.pos, curr.gval, curr.dir));
            } else {
                assert(visited_new[k] == visited_old[k]);
                if !visited_has_xyz(visited_old, to.0, to.1, tz) {
                    let m = choose|m: int|
                        0 <= m < pre_pop.len() && (#[trigger] pre_pop[m]).pos.x as int == to.0
                            && pre_pop[m].pos.y as int == to.1 && pre_pop[m].pos.z as int == tz;
                    if m == min_idx {
                        assert(visited_new[visited_new.len() - 1].0 == curr.pos);
                        assert(visited_new[visited_new.len() - 1].0.x as int == to.0
                            && visited_new[visited_new.len() - 1].0.y as int == to.1
                            && visited_new[visited_new.len() - 1].0.z as int == tz);
                    } else if m < min_idx {
                        assert(post[m] == pre_frontier[m] && pre_frontier[m] == pre_pop[m]);
                    } else {
                        assert(post[m - 1] == pre_frontier[m - 1] && pre_frontier[m - 1]
                            == pre_pop[m]);
                    }
                } else {
                    let k0 = choose|k0: int|
                        0 <= k0 < visited_old.len() && (#[trigger] visited_old[k0]).0.x as int
                            == to.0 && visited_old[k0].0.y as int == to.1 && visited_old[k0].0.z
                            as int == tz;
                    assert(visited_new[k0] == visited_old[k0]);
                }
            }
        }
    }
}

/// The heuristic value toward the goal from a candidate position.
fn heuristic(
    f: crate::api::DistanceFunc,
    h_direct: isize,
    h_diag: isize,
    gx: isize,
    gy: isize,
    px: isize,
    py: isize,
) -> (r: isize)
    requires
        -0x1000_0000 <= gx <= 0x1000_0000,
        -0x1000_0000 <= gy <= 0x1000_0000,
        -0x1000_0001 <= px <= 0x1000_0001,
        -0x1000_0001 <= py <= 0x1000_0001,
    ensures
        r as int == dist_spec(
            f,
            h_direct as int,
            h_diag as int,
            crate::world::abs2(gx - px),
            crate::world::abs2(gy - py),
        ),
{
    let dx: isize = if gx >= px {
        gx - px
    } else {
        px - gx
    };
    let dy: isize = if gy >= py {
        gy - py
    } else {
        py - gy
    };
    dist_exec(f, h_direct, h_diag, dx, dy)
}

/// The compass direction matching the signs of a coordinate difference.
pub open spec fn direction_spec(dx: int, dy: int) -> u8 {
    let sx: int = if dx > 0 {
        1
    } else if dx < 0 {
        -1
    } else {
        0
    };
    let sy: int = if dy > 0 {
        1
    } else if dy < 0 {
        -1
    } else {
        0
    };
    if sx == 0 && sy == -1 {
        0u8
    } else if sx == 1 && sy == -1 {
        1u8
    } else if sx == 1 && sy == 0 {
        2u8
    } else if sx == 1 && sy == 1 {
        3u8
    } else if sx == 0 && sy == 1 {
        4u8
    } else if sx == -1 && sy == 1 {
        5u8
    } else if sx == -1 && sy == 0 {
        6u8
    } else {
        7u8
    }
}

} // verus!
