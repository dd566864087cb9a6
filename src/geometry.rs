//! Axis-aligned boxes on an integer plane, and the fixed arena constants.
use vstd::prelude::*;

verus! {

/// Width of one grid cell.
pub const CELL_W: i64 = 50;
/// Height of one grid cell.
pub const CELL_H: i64 = 50;
/// Number of grid rows.
pub const ROWS: usize = 11;
/// Number of grid columns.
pub const COLS: usize = 13;
/// Thickness of the four boundary walls.
pub const WALL_THICKNESS: i64 = 10;
/// x coordinate of the right boundary, half the grid's width (the left one
/// is its negation).
pub const RIGHT_WALL: i64 = 325;
/// y coordinate of the top boundary, half the grid's height (the bottom one
/// is its negation).
pub const TOP_WALL: i64 = 275;
/// Side of an actor's square bounding box.
pub const ACTOR_SIZE: i64 = 40;
/// Side of a device's square bounding box.
pub const DEVICE_SIZE: i64 = 40;
/// Distance covered by one horizontal step: a tenth of a cell.
pub const STEP_X: i64 = 5;
/// Distance covered by one vertical step: a tenth of a cell.
pub const STEP_Y: i64 = 5;
/// Smallest x an actor's centre may take: one half cell inside the left wall.
pub const MIN_X: i64 = -300;
/// Largest x an actor's centre may take.
pub const MAX_X: i64 = 300;
/// Smallest y an actor's centre may take.
pub const MIN_Y: i64 = -250;
/// Largest y an actor's centre may take.
pub const MAX_Y: i64 = 250;
/// Bound on coordinates and extents that keeps box arithmetic in range.
pub const COORD_LIMIT: i64 = 0x100_0000_0000;

/// A point of the plane.
#[derive(Clone, Copy, Debug, PartialEq, Eq)]
pub struct Point {
    pub x: i64,
    pub y: i64,
}

/// An axis-aligned box given by its centre and its full width and height.
#[derive(Clone, Copy, Debug, PartialEq, Eq)]
pub struct Rect {
    pub x: i64,
    pub y: i64,
    pub w: i64,
    pub h: i64,
}

impl Rect {
    /// Coordinates and extents are small enough for exact arithmetic.
    pub open spec fn wf(self) -> bool {
        -COORD_LIMIT <= self.x <= COORD_LIMIT && -COORD_LIMIT <= self.y <= COORD_LIMIT
            && 0 <= self.w <= COORD_LIMIT && 0 <= self.h <= COORD_LIMIT
    }
}

/// Two boxes overlap when their interiors intersect on both axes
/// (`min_a < max_b` and `max_a > min_b`, written with doubled coordinates).
pub open spec fn overlaps(a: Rect, b: Rect) -> bool {
    &&& 2 * (a.x - b.x) < a.w + b.w
    &&& 2 * (b.x - a.x) < a.w + b.w
    &&& 2 * (a.y - b.y) < a.h + b.h
    &&& 2 * (b.y - a.y) < a.h + b.h
}

/// Overlap test of two axis-aligned boxes.
pub fn rects_overlap(a: &Rect, b: &Rect) -> (r: bool)
    requires
        a.wf(),
        b.wf(),
    ensures
        r == overlaps(*a, *b),
{
    let ws = a.w + b.w;
    let hs = a.h + b.h;
    2 * (a.x - b.x) < ws && 2 * (b.x - a.x) < ws && 2 * (a.y - b.y) < hs && 2 * (b.y - a.y)
        < hs
}

/// The box an actor occupies when centred at `p`.
pub open spec fn actor_box(p: Point) -> Rect {
    Rect { x: p.x, y: p.y, w: ACTOR_SIZE, h: ACTOR_SIZE }
}

/// The box a device occupies when centred at `p`.
pub open spec fn device_box(p: Point) -> Rect {
    Rect { x: p.x, y: p.y, w: DEVICE_SIZE, h: DEVICE_SIZE }
}

/// A centre from which an actor's box lies inside the boundary walls.
pub open spec fn in_interior(p: Point) -> bool {
    MIN_X <= p.x <= MAX_X && MIN_Y <= p.y <= MAX_Y
}

/// Which side of the arena a boundary wall stands on.
#[derive(Clone, Copy, Debug, PartialEq, Eq)]
pub enum WallLocation {
    Left,
    Right,
    Bottom,
    Top,
}

/// Centre of the boundary wall on side `loc`.
pub open spec fn wall_position(loc: WallLocation) -> Point {
    match loc {
        WallLocation::Left => Point { x: (-RIGHT_WALL - WALL_THICKNESS / 2) as i64, y: 0 },
        WallLocation::Right => Point { x: (RIGHT_WALL + WALL_THICKNESS / 2) as i64, y: 0 },
        WallLocation::Bottom => Point { x: 0, y: (-TOP_WALL - WALL_THICKNESS / 2) as i64 },
        WallLocation::Top => Point { x: 0, y: (TOP_WALL + WALL_THICKNESS / 2) as i64 },
    }
}

/// Width (`x`) and height (`y`) of the boundary wall on side `loc`: it spans
/// its side of the arena and overlaps the neighbouring walls at the corners.
pub open spec fn wall_size(loc: WallLocation) -> Point {
    match loc {
        WallLocation::Left | WallLocation::Right => Point {
            x: WALL_THICKNESS,
            y: (2 * TOP_WALL + WALL_THICKNESS) as i64,
        },
        WallLocation::Bottom | WallLocation::Top => Point {
            x: (2 * RIGHT_WALL + WALL_THICKNESS) as i64,
            y: WALL_THICKNESS,
        },
    }
}

impl WallLocation {
    /// Centre of the wall.
    pub fn position(&self) -> (p: Point)
        ensures
            p == wall_position(*self),
    {
        match self {
            WallLocation::Left => Point { x: -RIGHT_WALL - WALL_THICKNESS / 2, y: 0 },
            WallLocation::Right => Point { x: RIGHT_WALL + WALL_THICKNESS / 2, y: 0 },
            WallLocation::Bottom => Point { x: 0, y: -TOP_WALL - WALL_THICKNESS / 2 },
            WallLocation::Top => Point { x: 0, y: TOP_WALL + WALL_THICKNESS / 2 },
        }
    }

    /// Width (`x`) and height (`y`) of the wall.
    pub fn size(&self) -> (s: Point)
        ensures
            s == wall_size(*self),
    {
        let arena_height = TOP_WALL - (-TOP_WALL);
        let arena_width = RIGHT_WALL - (-RIGHT_WALL);
        match self {
            WallLocation::Left | WallLocation::Right => Point {
                x: WALL_THICKNESS,
                y: arena_height + WALL_THICKNESS,
            },
            WallLocation::Bottom | WallLocation::Top => Point {
                x: arena_width + WALL_THICKNESS,
                y: WALL_THICKNESS,
            },
        }
    }

    /// The wall as a box.
    pub fn rect(&self) -> (r: Rect)
        ensures
            r.x == wall_position(*self).x && r.y == wall_position(*self).y,
            r.w == wall_size(*self).x && r.h == wall_size(*self).y,
            r.wf(),
    {
        let p = self.position();
        let s = self.size();
        Rect { x: p.x, y: p.y, w: s.x, h: s.y }
    }
}

} // verus!
