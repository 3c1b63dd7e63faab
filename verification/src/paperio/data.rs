//! The game world as the bot sees it: points on the map in pixels, the
//! cells they fall in, and the players with their territories.
use vstd::prelude::*;

verus! {

/// The map is this many cells wide and high.
pub const MAP_SIZE_CELLS: i32 = 31;

/// A cell is this many pixels wide and high.
pub const CELL_SIZE: i32 = 30;

/// A position on the map, in pixels.
#[derive(Clone, Copy, Debug, PartialEq, Eq, Structural)]
pub struct Point(pub i32, pub i32);

/// A cell of the map: column and row.
#[derive(Clone, Copy, Debug, PartialEq, Eq, Structural)]
pub struct Cell(pub i32, pub i32);

/// A direction of movement.
#[derive(Clone, Copy, Debug, PartialEq, Eq, Structural)]
pub enum Direction {
    Left,
    Right,
    Up,
    Down,
}

/// Integer division rounding toward zero, as Rust's `/` does.
pub open spec fn trunc_div(a: int, b: int) -> int {
    if a >= 0 {
        a / b
    } else {
        -((-a) / b)
    }
}

/// The cell that a point lies in.
pub open spec fn cell_of(p: Point) -> Cell {
    Cell(trunc_div(p.0 as int, CELL_SIZE as int) as i32, trunc_div(p.1 as int, CELL_SIZE as int) as i32)
}

/// The cell lies on the map.
pub open spec fn on_map(x: int, y: int) -> bool {
    0 <= x < MAP_SIZE_CELLS && 0 <= y < MAP_SIZE_CELLS
}

/// Manhattan distance between two cells.
pub open spec fn cell_distance(a: Cell, b: Cell) -> int {
    let dx = a.0 - b.0;
    let dy = a.1 - b.1;
    (if dx >= 0 { dx } else { -dx }) + (if dy >= 0 { dy } else { -dy })
}

/// Cells reachable from points: coordinates at most this far from 0.
pub open spec fn cell_coordinate_ok(c: Cell) -> bool {
    -71582788 <= c.0 <= 71582788 && -71582788 <= c.1 <= 71582788
}

proof fn lemma_trunc_div_bounds(a: int)
    requires
        i32::MIN <= a <= i32::MAX,
    ensures
        -71582788 <= trunc_div(a, 30) <= 71582788,
        i32::MIN <= 30 * trunc_div(a, 30) <= i32::MAX,
{
}

impl Point {
    /// The cell that the point lies in.
    pub fn to_cell(&self) -> (c: Cell)
        ensures
            c == cell_of(*self),
            cell_coordinate_ok(c),
    {
        proof {
            lemma_trunc_div_bounds(self.0 as int);
            lemma_trunc_div_bounds(self.1 as int);
        }
        Cell(self.0 / CELL_SIZE, self.1 / CELL_SIZE)
    }
}

impl Cell {
    /// The cell lies on the map.
    pub fn in_bounds(&self) -> (b: bool)
        ensures
            b == on_map(self.0 as int, self.1 as int),
    {
        0 <= self.0 && self.0 < MAP_SIZE_CELLS && 0 <= self.1 && self.1 < MAP_SIZE_CELLS
    }

    /// Manhattan distance to `other`.
    pub fn distance_to(&self, other: Cell) -> (d: i32)
        requires
            cell_coordinate_ok(*self),
            cell_coordinate_ok(other),
        ensures
            d == cell_distance(*self, other),
            d >= 0,
    {
        let dx = self.0 - other.0;
        let dy = self.1 - other.1;
        let ax = if dx >= 0 {
            dx
        } else {
            -dx
        };
        let ay = if dy >= 0 {
            dy
        } else {
            -dy
        };
        ax + ay
    }

    /// The point at the corner of the cell closest to the origin.
    pub fn to_point(&self) -> (p: Point)
        requires
            cell_coordinate_ok(*self),
        ensures
            p == Point((30 * self.0) as i32, (30 * self.1) as i32),
    {
        Point(CELL_SIZE * self.0, CELL_SIZE * self.1)
    }
}

/// A player: where it is and which points belong to it.
pub struct Player {
    pub position: Point,
    pub territory: Vec<Point>,
}

/// What the bot knows at a tick: itself and its enemies.
pub struct World {
    pub me: Player,
    pub enemies: Vec<Player>,
}

impl World {
    /// The bot's own player.
    pub fn me(&self) -> (p: &Player)
        ensures
            p == &self.me,
    {
        &self.me
    }

    /// The other players.
    pub fn enemies(&self) -> (e: &Vec<Player>)
        ensures
            e == &self.enemies,
    {
        &self.enemies
    }
}

} // verus!
