use vstd::prelude::*;

verus! {

/// A position on the tile grid of one zoom level.
#[derive(Debug, Clone, Copy, PartialEq, Eq, Structural, Hash, PartialOrd, Ord)]
pub struct GridPoint {
    pub x: i32,
    pub y: i32,
}

/// Represents the coordinates of an MVT tile.
#[derive(Debug, Clone, Copy, PartialEq, Eq, Structural, Hash, PartialOrd, Ord)]
pub struct Cell {
    pub coord: GridPoint,
    pub z: u32,
}

/// A grid cell visited during a time interval; the times are Unix timestamps
/// in nanoseconds.
#[derive(Debug, Clone, Copy, PartialEq, Eq, Structural, Hash)]
pub struct PointWTime {
    pub point: GridPoint,
    pub z: i32,
    pub time_start: i128,
    pub time_end: i128,
}

/// A grid cell together with the zoom level it belongs to.
#[derive(Debug, Clone, Copy, PartialEq, Eq, Structural, Hash)]
pub struct PointWZ {
    pub point: GridPoint,
    pub z: i32,
}

impl From<PointWZ> for Cell {
    fn from(value: PointWZ) -> (c: Cell) {
        Cell { coord: GridPoint { x: value.point.x, y: value.point.y }, z: value.z as u32 }
    }
}

impl vstd::std_specs::convert::FromSpecImpl<PointWZ> for Cell {
    open spec fn obeys_from_spec() -> bool {
        true
    }

    open spec fn from_spec(v: PointWZ) -> Cell {
        Cell { coord: v.point, z: v.z as u32 }
    }
}

impl From<PointWTime> for Cell {
    fn from(value: PointWTime) -> (c: Cell) {
        Cell { coord: GridPoint { x: value.point.x, y: value.point.y }, z: value.z as u32 }
    }
}

impl vstd::std_specs::convert::FromSpecImpl<PointWTime> for Cell {
    open spec fn obeys_from_spec() -> bool {
        true
    }

    open spec fn from_spec(v: PointWTime) -> Cell {
        Cell { coord: v.point, z: v.z as u32 }
    }
}

} // verus!
