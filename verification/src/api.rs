//! Plain value types exchanged with the service boundary: items, path
//! points, pathfinding options and the request vocabulary. The transport
//! lives outside the library; these are the values its requests carry.

use vstd::prelude::*;

verus! {

/// A game object as seen by the service boundary.
#[derive(Debug, Clone, Copy, PartialEq, Eq, Structural)]
pub struct Item {
    pub world: u8,
    pub serial: u32,
    pub graphic: u32,
    pub x: isize,
    pub y: isize,
    pub z: i8,
    pub timestamp: Option<u64>,
}

/// One step of a traced path; `w` carries the accumulated cost when every
/// visited node is reported, and 0 on a reconstructed path.
#[derive(Debug, Clone, Copy, PartialEq, Eq, Structural)]
pub struct Point {
    pub x: isize,
    pub y: isize,
    pub z: i8,
    pub w: isize,
}

/// One caller-supplied part of a custom multi object, at absolute
/// coordinates.
#[derive(Debug, Clone, Copy, PartialEq, Eq, Structural)]
pub struct MultiItemPart {
    pub x: isize,
    pub y: isize,
    pub z: i8,
    pub graphic: u16,
}

/// The distance functions the pathfinder's heuristic can use.
#[derive(Debug, Clone, Copy, PartialEq, Eq, Structural)]
pub enum DistanceFunc {
    Manhattan,
    Chebyshev,
    Diagonal,
    Euclidean,
}

/// Tuning knobs of the pathfinder; an absent field selects its default.
#[derive(Debug, Clone, PartialEq, Eq, Structural)]
pub struct TraceOptions {
    pub left: Option<isize>,
    pub top: Option<isize>,
    pub right: Option<isize>,
    pub bottom: Option<isize>,
    pub accuracy_x: Option<isize>,
    pub accuracy_y: Option<isize>,
    pub accuracy_z: Option<isize>,
    pub all_points: Option<bool>,
    pub open_doors: Option<bool>,
    pub allow_diagonal_move: Option<bool>,
    pub cost_limit: Option<isize>,
    pub cost_turn: Option<isize>,
    pub cost_move_straight: Option<isize>,
    pub cost_move_diagonal: Option<isize>,
    pub heuristic_distance: Option<DistanceFunc>,
    pub heuristic_straight: Option<isize>,
    pub heuristic_diagonal: Option<isize>,
}

impl TraceOptions {
    /// Options with every field absent: all defaults.
    pub fn empty() -> (r: TraceOptions)
        ensures
            r == (TraceOptions {
                left: None,
                top: None,
                right: None,
                bottom: None,
                accuracy_x: None,
                accuracy_y: None,
                accuracy_z: None,
                all_points: None,
                open_doors: None,
                allow_diagonal_move: None,
                cost_limit: None,
                cost_turn: None,
                cost_move_straight: None,
                cost_move_diagonal: None,
                heuristic_distance: None,
                heuristic_straight: None,
                heuristic_diagonal: None,
            }),
    {
        TraceOptions {
            left: None,
            top: None,
            right: None,
            bottom: None,
            accuracy_x: None,
            accuracy_y: None,
            accuracy_z: None,
            all_points: None,
            open_doors: None,
            allow_diagonal_move: None,
            cost_limit: None,
            cost_turn: None,
            cost_move_straight: None,
            cost_move_diagonal: None,
            heuristic_distance: None,
            heuristic_straight: None,
            heuristic_diagonal: None,
        }
    }
}

/// The requests the service boundary can hand to the world model.
pub enum ApiRequest {
    WorldSave { file_name: String },
    WorldLoad { file_name: String },
    WorldClear {},
    ItemsDel { serials: Vec<u32> },
    ItemsAdd { items: Vec<Item> },
    Query { world: u8, left: isize, top: isize, right: isize, bottom: isize },
    TracePath {
        world: u8,
        sx: isize,
        sy: isize,
        sz: i8,
        dx: isize,
        dy: isize,
        dz: i8,
        options: TraceOptions,
    },
    RenderArea {
        world: u8,
        left: Option<isize>,
        top: Option<isize>,
        right: Option<isize>,
        bottom: Option<isize>,
        color: Option<isize>,
        points: Vec<Point>,
    },
}

} // verus!
