//! The world model, the step oracle and the pathfinder on small worlds
//! built in memory.

use path_server::api::{Item, MultiItemPart, Point, TraceOptions};
use path_server::colordata::ColorData;
use path_server::mapdata::{Land, LandBlock, LandTile};
use path_server::multidata::{Multi, MultiPart};
use path_server::staticdata::{MulSlice, Static};
use path_server::surveyor::WorldSurveyor;
use path_server::tiledata::{
    LandTileData, StaticTileData, TileData, FLAG_BRIDGE, FLAG_IMPASSABLE, FLAG_SURFACE,
};
use path_server::tiles::{TileShape, TopLevelItem, DynamicWorldObject};
use path_server::world::{DynamicWorld, StaticWorld};
use path_server::world_model::{WorldData, WorldModel};

/// A flat 32×32-tile world at elevation zero.
fn flat_world() -> DynamicWorld {
    let mut blocks: Vec<LandBlock> = Vec::new();
    for _ in 0..16 {
        let mut cells: Vec<LandTile> = Vec::new();
        for _ in 0..64 {
            cells.push(LandTile { land_tile: 0, z: 0 });
        }
        blocks.push(LandBlock { cells });
    }
    let land = Land::new(blocks);
    let mut runs: Vec<Option<MulSlice>> = Vec::new();
    for _ in 0..16 {
        runs.push(None);
    }
    let statics = Static::new(Vec::new(), runs);
    DynamicWorld::new(StaticWorld::new(4, 4, land, statics))
}

/// A catalog whose land graphic 0 is plain ground and whose low static
/// graphics carry the flags the tests place.
fn test_data() -> WorldData {
    let mut static_tiles: Vec<StaticTileData> = Vec::new();
    // graphic 0: inert; 1: standable surface of height 6; 2: a bridge
    // slope rising 4; 3: an impassable wall of height 20
    static_tiles.push(StaticTileData { flags: 0, height: 0 });
    static_tiles.push(StaticTileData { flags: FLAG_SURFACE, height: 6 });
    static_tiles.push(StaticTileData { flags: FLAG_SURFACE | FLAG_BRIDGE, height: 4 });
    static_tiles.push(StaticTileData { flags: FLAG_IMPASSABLE, height: 20 });
    let tiledata = TileData { land_tiles: vec![LandTileData { flags: 0 }], static_tiles };
    let colors = ColorData { colors: vec![(10, 20, 30); 16385] };
    let mut multis: Vec<Option<MulSlice>> = Vec::new();
    for _ in 0..0x4001 {
        multis.push(None);
    }
    multis.push(Some(MulSlice(0, 2)));
    let parts = vec![
        MultiPart { static_tile: 1, x: 0, y: 0, z: 0, flags: 0 },
        MultiPart { static_tile: 2, x: 1, y: 0, z: 0, flags: 0 },
    ];
    let multi = Multi::new(parts, multis);
    WorldData::new(colors, tiledata, multi)
}

#[test]
fn step_on_flat_land() {
    let world = flat_world();
    let data = test_data();
    let surveyor = WorldSurveyor::new(&world, &data);
    assert_eq!(surveyor.test_step(100, 100, 0, 2), Some(0));
}

#[test]
fn step_blocked_by_high_surface() {
    let mut world = flat_world();
    let data = test_data();
    // a standable static at (101, 100, 10) of height 6: its top is well
    // above the climb range, and it blocks standing on the ground below
    world.insert_item(&data, 101, 100, 10, 42, 1);
    let surveyor = WorldSurveyor::new(&world, &data);
    assert_eq!(surveyor.test_step(100, 100, 0, 2), None);
}

#[test]
fn step_up_a_bridge_slope() {
    let mut world = flat_world();
    let data = test_data();
    world.insert_item(&data, 101, 100, 0, 42, 2);
    let surveyor = WorldSurveyor::new(&world, &data);
    assert_eq!(surveyor.test_step(100, 100, 0, 2), Some(2));
}

#[test]
fn source_range_extends_on_a_slope() {
    let mut world = flat_world();
    let data = test_data();
    world.insert_item(&data, 100, 100, 0, 42, 2);
    let surveyor = WorldSurveyor::new(&world, &data);
    // standing exactly on the slope widens the range to its whole extent
    let (lo, hi) = surveyor.get_source_step_range(100, 100, 2, 2);
    assert_eq!(lo, 0);
    assert_eq!(hi, 6);
}

#[test]
fn diagonal_needs_both_cardinals() {
    let mut world = flat_world();
    let data = test_data();
    // wall both cardinals beside the north-east diagonal of (10, 10)
    world.insert_item(&data, 11, 10, 0, 1, 3);
    world.insert_item(&data, 10, 9, 0, 2, 3);
    let surveyor = WorldSurveyor::new(&world, &data);
    assert_eq!(surveyor.test_step(10, 10, 0, 1), None);
    // the diagonal itself is clear once one cardinal is reopened
    world.delete_item(&data, 10, 9, 0, 2, 3);
    let surveyor = WorldSurveyor::new(&world, &data);
    assert_eq!(surveyor.test_step(10, 10, 0, 1), None);
    world.delete_item(&data, 11, 10, 0, 1, 3);
    let surveyor = WorldSurveyor::new(&world, &data);
    assert_eq!(surveyor.test_step(10, 10, 0, 1), Some(0));
}

#[test]
fn multi_insert_and_delete_round_trip() {
    let data = test_data();
    let worlds = vec![Some(flat_world())];
    let mut model = WorldModel::new(data, worlds);
    let item = TopLevelItem::new(0, 500, 500, 0, 7, 0x14001, 11);
    model.insert_item(item);
    assert!(model.items_index.get(7).is_some());
    let world = model.world(0).unwrap();
    let at_head = world.objects_at(500, 500);
    // the head and the part anchored at the head's cell
    assert_eq!(at_head.len(), 2);
    assert!(matches!(at_head[0], DynamicWorldObject::MultiPart { tile: 1, parent: 7, .. }));
    assert!(matches!(at_head[1], DynamicWorldObject::GameObject { serial: 7, .. }));
    let at_next = world.objects_at(501, 500);
    assert_eq!(at_next.len(), 1);
    assert!(matches!(at_next[0], DynamicWorldObject::MultiPart { tile: 2, parent: 7, .. }));
    model.delete_item(7);
    assert!(model.items_index.get(7).is_none());
    let world = model.world(0).unwrap();
    assert_eq!(world.objects_at(500, 500).len(), 0);
    assert_eq!(world.objects_at(501, 500).len(), 0);
}

#[test]
fn custom_multi_uses_published_parts() {
    let data = test_data();
    let worlds = vec![Some(flat_world())];
    let mut model = WorldModel::new(data, worlds);
    let parts = vec![
        MultiItemPart { x: 200, y: 200, z: 0, graphic: 1 },
        MultiItemPart { x: 200, y: 201, z: 0, graphic: 2 },
    ];
    let item = TopLevelItem::new(0, 200, 200, 0, 9, 0x20005, 0);
    model.insert_multi_item(item, &parts);
    let world = model.world(0).unwrap();
    assert_eq!(world.objects_at(200, 200).len(), 2);
    assert_eq!(world.objects_at(200, 201).len(), 1);
    model.clear_state();
    let world = model.world(0).unwrap();
    assert_eq!(world.objects_at(200, 200).len(), 0);
    assert!(model.items_index.get(9).is_none());
}

#[test]
fn a_star_straight_line() {
    let world = flat_world();
    let data = test_data();
    let surveyor = WorldSurveyor::new(&world, &data);
    let mut points: Vec<Point> = Vec::new();
    let options = TraceOptions::empty();
    surveyor.trace_a_star(10, 10, 0, 2, 20, 10, 0, 0, &mut points, &options);
    assert_eq!(points.len(), 11);
    assert_eq!((points[0].x, points[0].y), (10, 10));
    assert_eq!((points[10].x, points[10].y), (20, 10));
    for w in points.windows(2) {
        assert!((w[1].x - w[0].x).abs() <= 1 && (w[1].y - w[0].y).abs() <= 1);
    }
    // the goal is reached at cost 10
    let mut all = TraceOptions::empty();
    all.all_points = Some(true);
    let mut visited: Vec<Point> = Vec::new();
    surveyor.trace_a_star(10, 10, 0, 2, 20, 10, 0, 0, &mut visited, &all);
    let goal = visited.iter().find(|p| p.x == 20 && p.y == 10).unwrap();
    assert_eq!(goal.w, 10);
}

#[test]
fn a_star_unreachable_goal_ends_nearest() {
    let world = flat_world();
    let data = test_data();
    let surveyor = WorldSurveyor::new(&world, &data);
    let mut points: Vec<Point> = Vec::new();
    let mut options = TraceOptions::empty();
    // the goal lies beyond the bounded rectangle
    options.right = Some(15);
    surveyor.trace_a_star(10, 10, 0, 2, 20, 10, 0, 0, &mut points, &options);
    assert!(points.len() >= 1);
    let last = points[points.len() - 1];
    assert_eq!((last.x, last.y), (14, 10));
}

#[test]
fn query_area_backfills_timestamps() {
    let data = test_data();
    let worlds = vec![Some(flat_world())];
    let mut model = WorldModel::new(data, worlds);
    model.insert_item(TopLevelItem::new(0, 5, 5, 0, 21, 0, 77));
    let mut items: Vec<Item> = Vec::new();
    model.query(0, 0, 0, 10, 10, &mut items);
    assert_eq!(items.len(), 1);
    assert_eq!(items[0].serial, 21);
    assert_eq!(items[0].timestamp, Some(77));
}

#[test]
fn overlay_range_is_ordered() {
    let mut world = flat_world();
    let data = test_data();
    world.insert_item(&data, 8, 8, 5, 300, 0);
    world.insert_item(&data, 8, 8, -2, 100, 0);
    world.insert_item(&data, 8, 8, 5, 200, 0);
    let objs = world.objects_at(8, 8);
    assert_eq!(objs.len(), 3);
    let zs: Vec<i8> = objs
        .iter()
        .map(|o| match o {
            DynamicWorldObject::GameObject { z, .. } => *z,
            DynamicWorldObject::MultiPart { z, .. } => *z,
        })
        .collect();
    assert_eq!(zs, vec![-2, 5, 5]);
    // ties on z order by serial
    assert!(matches!(objs[1], DynamicWorldObject::GameObject { serial: 200, .. }));
    assert!(matches!(objs[2], DynamicWorldObject::GameObject { serial: 300, .. }));
}

#[test]
fn inserting_twice_replaces_position() {
    let data = test_data();
    let worlds = vec![Some(flat_world())];
    let mut model = WorldModel::new(data, worlds);
    model.insert_item(TopLevelItem::new(0, 5, 5, 0, 21, 0, 1));
    model.insert_item(TopLevelItem::new(0, 6, 5, 0, 21, 0, 2));
    let world = model.world(0).unwrap();
    assert_eq!(world.objects_at(5, 5).len(), 0);
    assert_eq!(world.objects_at(6, 5).len(), 1);
    assert_eq!(model.items_index.get(21).unwrap().x, 6);
}

#[test]
fn world_lookup_and_next_world() {
    let data = test_data();
    let worlds = vec![Some(flat_world()), None, Some(flat_world())];
    let model = WorldModel::new(data, worlds);
    assert!(model.world(0).is_some());
    assert!(model.world(1).is_none());
    assert!(model.world(9).is_none());
    assert_eq!(model.next_world_idx(0), 2);
    assert_eq!(model.next_world_idx(2), 0);
    assert_eq!(model.next_world_idx(1), 2);
}

#[test]
fn coordinate_wrapping_laws_on_samples() {
    let world = flat_world();
    let base = &world.base;
    assert_eq!(base.normalize_tiles(100, 100), base.normalize_tiles(100 + 3 * 32, 100 - 2 * 32));
    assert_eq!(base.normalize_tiles(-1, 33), (31, 1));
    let (idx, (ox, oy)) = base.tile_to_block_offsets(100, 100);
    assert_eq!(idx, base.block_index(100 / 8 % 4, 100 / 8 % 4));
    assert_eq!((ox, oy), (4, 4));
    // distinct block coordinates give distinct indices
    let mut seen: Vec<usize> = Vec::new();
    for bx in 0..4 {
        for by in 0..4 {
            let i = base.block_index(bx, by);
            assert!(!seen.contains(&i));
            seen.push(i);
        }
    }
}

#[test]
fn ground_query_on_flat_cell() {
    let world = flat_world();
    let data = test_data();
    let tile = world.query_tile_ground(&data, 3, 3, 0, 0);
    assert!(matches!(tile.shape, TileShape::Surface { z_base: 0, z_stand: 0, passable: true }));
    assert_eq!(world.world_tile_flag(&data, &tile), 0);
    assert_eq!(world.world_tile_color(&data, &tile), (10, 20, 30, 255));
}
