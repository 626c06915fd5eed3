//! The shape classifier and the stack order.

use path_server::tiledata::{
    LandTileData, MulTileFlags, StaticTileData, FLAG_BRIDGE, FLAG_HOVER_OVER, FLAG_IMPASSABLE,
    FLAG_SURFACE, FLAG_WET,
};
use path_server::tiles::{
    sort_world_tiles, DynamicWorldObject, TileShape, TileType, TopLevelItem, WorldTile,
};
use path_server::api::Item;

#[test]
fn classifier_covers_every_shape() {
    // hovering tiles are transparent
    let hover = StaticTileData { flags: FLAG_HOVER_OVER, height: 3 };
    assert!(matches!(
        TileShape::from_static_tile(5, &hover, 0, 0),
        TileShape::HoverOver { z_base: 5 }
    ));
    // no impassable, surface or walkable bit: space reservation only
    let inert = StaticTileData { flags: FLAG_WET, height: 4 };
    assert!(matches!(
        TileShape::from_static_tile(1, &inert, 0, 0),
        TileShape::Background { z_base: 1, z_top: 5 }
    ));
    // an ignored bit demotes even a surface
    let surf = StaticTileData { flags: FLAG_SURFACE, height: 6 };
    assert!(matches!(
        TileShape::from_static_tile(0, &surf, 0, FLAG_SURFACE),
        TileShape::Background { .. }
    ));
    // a plain surface stands at its top
    assert!(matches!(
        TileShape::from_static_tile(2, &surf, 0, 0),
        TileShape::Surface { z_base: 2, z_stand: 8, passable: true }
    ));
    // a bridge stands halfway up
    let bridge = StaticTileData { flags: FLAG_SURFACE | FLAG_BRIDGE, height: 4 };
    assert!(matches!(
        TileShape::from_static_tile(0, &bridge, 0, 0),
        TileShape::Slope { z_base: 0, z_stand: 2, z_top: 4, passable: true }
    ));
    // the walkable mask overrides an impassable bit
    let wall = StaticTileData { flags: FLAG_IMPASSABLE, height: 10 };
    assert!(matches!(
        TileShape::from_static_tile(0, &wall, 0, 0),
        TileShape::Surface { passable: false, .. }
    ));
    assert!(matches!(
        TileShape::from_static_tile(0, &wall, FLAG_IMPASSABLE, 0),
        TileShape::Surface { passable: true, .. }
    ));
}

#[test]
fn land_classifier_voids_and_slopes() {
    let plain = LandTileData { flags: 0 };
    assert!(matches!(
        TileShape::from_land_tile(0, 0, 0, 0x0002, &plain, 0),
        TileShape::Background { .. }
    ));
    assert!(matches!(
        TileShape::from_land_tile(0, 0, 0, 0x01B0, &plain, 0),
        TileShape::Background { .. }
    ));
    assert!(matches!(
        TileShape::from_land_tile(0, 0, 0, 3, &plain, 0),
        TileShape::Surface { passable: true, .. }
    ));
    assert!(matches!(
        TileShape::from_land_tile(0, 2, 4, 3, &plain, 0),
        TileShape::Slope { z_base: 0, z_stand: 2, z_top: 4, passable: true }
    ));
}

#[test]
fn stack_sorts_by_top_then_base() {
    let t = |z_base: i8, z_top: i8| WorldTile {
        tile: TileType::ObjectTile(0),
        shape: TileShape::Background { z_base, z_top },
    };
    let sorted = sort_world_tiles(&vec![t(0, 9), t(3, 5), t(0, 5), t(-4, -1)]);
    let tops: Vec<i8> = sorted.iter().map(|w| w.z_top()).collect();
    let bases: Vec<i8> = sorted.iter().map(|w| w.z_base()).collect();
    assert_eq!(tops, vec![-1, 5, 5, 9]);
    assert_eq!(bases, vec![-4, 0, 3, 0]);
}

#[test]
fn world_tile_accessors() {
    let cap = WorldTile::cap_tile();
    assert_eq!(cap.z_base(), 127);
    assert_eq!(cap.z_top(), 127);
    assert!(!cap.is_slope());
    assert!(cap.is_land());
    assert!(!cap.is_hover_over());
    let slope = WorldTile { tile: TileType::ObjectTile(9), shape: TileShape::slope(0, 2, 4, true) };
    assert!(slope.is_slope());
    assert!(!slope.is_land());
    assert_eq!(slope.z_stand(), 2);
    assert_eq!(slope.tile.num(), 9);
    let hover = WorldTile { tile: TileType::ObjectTile(1), shape: TileShape::hover_over(7) };
    assert!(hover.is_hover_over());
    assert_eq!(hover.z_stand(), 7);
    assert!(matches!(TileShape::flat(1, 2, true), TileShape::Surface { .. }));
    assert!(matches!(TileShape::background(0, 3), TileShape::Background { .. }));
}

#[test]
fn flag_bits_match_their_masks() {
    assert_eq!(MulTileFlags::Impassable.bit(), FLAG_IMPASSABLE);
    assert_eq!(MulTileFlags::Surface.bit(), FLAG_SURFACE);
    assert_eq!(MulTileFlags::Bridge.bit(), FLAG_BRIDGE);
    assert_eq!(MulTileFlags::HoverOver.bit(), FLAG_HOVER_OVER);
    assert_eq!(MulTileFlags::Background.bit(), 1);
    assert_eq!(MulTileFlags::StairRight.bit(), 0x8000_0000);
}

#[test]
fn object_sentinels_bracket_a_cell() {
    let min = DynamicWorldObject::min_item(4, 5);
    let max = DynamicWorldObject::max_item(4, 5);
    assert!(matches!(min, DynamicWorldObject::MultiPart { x: 4, y: 5, z: -128, .. }));
    assert!(matches!(max, DynamicWorldObject::GameObject { x: 4, y: 5, z: 127, .. }));
    let mid = DynamicWorldObject::game_object(4, 5, 0, 1, 2);
    assert!(matches!(mid, DynamicWorldObject::GameObject { serial: 1, graphic: 2, .. }));
}

#[test]
fn top_level_item_construction() {
    let it = TopLevelItem::new(1, 2, 3, 4, 5, 6, 7);
    assert_eq!((it.world, it.x, it.y, it.z), (1, 2, 3, 4));
    assert_eq!((it.serial, it.graphic, it.timestamp), (5, 6, 7));
    let api = Item { world: 1, serial: 5, graphic: 6, x: 2, y: 3, z: 4, timestamp: None };
    let it2 = TopLevelItem::from_item(&api, 9);
    assert_eq!(it2.timestamp, 9);
    assert_eq!(it2.serial, 5);
}

#[test]
fn objects_order_position_first() {
    let a = DynamicWorldObject::game_object(1, 0, 0, 9, 9);
    let b = DynamicWorldObject::game_object(2, 0, 0, 1, 1);
    assert!(a < b);
    let part = DynamicWorldObject::MultiPart { x: 1, y: 0, z: 0, tile: 0, parent: 0, counter: 0 };
    // a part sorts before a game object at the same position
    assert!(part < a);
    assert_eq!(a.partial_cmp(&a), Some(std::cmp::Ordering::Equal));
}
