//! The rectangle perimeter that the bot plans to walk, described cell by
//! cell.
use vstd::prelude::*;
use crate::paperio::data;
use crate::paperio::data::{Cell, Direction, Point, World};
use crate::paperio::strategy::{cell_value, enemy_owns, is_mine, neighbours, opposite, perimeter_of, point_at, steer, toward};

verus! {

/// Cell `(x, y)` lies on an edge of the rectangle from cell `b` (bottom
/// left) to cell `t` (top right).
pub open spec fn on_edge(b: Cell, t: Cell, x: int, y: int) -> bool {
    b.0 <= x <= t.0 && b.1 <= y <= t.1 && (x == b.0 || x == t.0 || y == b.1 || y == t.1)
}

/// `p` is the corner point of a cell on an edge of that rectangle.
pub open spec fn edge_point(b: Cell, t: Cell, p: Point) -> bool {
    exists|x: int, y: int| #[trigger] on_edge(b, t, x, y) && p == point_at(x, y)
}

/// The perimeter holds exactly the cells on the rectangle's edges: with
/// `b` the bottom-left and `t` the top-right cell, every point of it is the
/// corner of a cell of the rectangle in its first or last column or row,
/// and every such cell's corner is in it.
pub proof fn lemma_perimeter_is_the_edge(top_right: Point, bottom_left: Point)
    requires
        data::cell_of(bottom_left).0 <= data::cell_of(top_right).0,
        data::cell_of(bottom_left).1 <= data::cell_of(top_right).1,
    ensures
        forall|i: int|
            0 <= i < perimeter_of(top_right, bottom_left).len() ==> #[trigger] edge_point(
                data::cell_of(bottom_left),
                data::cell_of(top_right),
                perimeter_of(top_right, bottom_left)[i],
            ),
        forall|x: int, y: int|
            on_edge(data::cell_of(bottom_left), data::cell_of(top_right), x, y) ==> perimeter_of(
                top_right,
                bottom_left,
            ).contains(#[trigger] point_at(x, y)),
{
    let t = data::cell_of(top_right);
    let b = data::cell_of(bottom_left);
    let per = perimeter_of(top_right, bottom_left);
    let nx: int = t.0 - b.0 + 1;
    let ny: int = if t.1 - b.1 - 1 >= 0 { t.1 - b.1 - 1 } else { 0 };
    assert(per.len() == 2 * nx + 2 * ny);
    assert forall|i: int| 0 <= i < per.len() implies #[trigger] edge_point(b, t, per[i]) by {
        if i < 2 * nx {
            let x = b.0 + i / 2;
            if i % 2 == 0 {
                assert(on_edge(b, t, x, t.1 as int) && per[i] == point_at(x, t.1 as int));
            } else {
                assert(on_edge(b, t, x, b.1 as int) && per[i] == point_at(x, b.1 as int));
            }
        } else {
            let j = i - 2 * nx;
            let y = b.1 + 1 + j / 2;
            if j % 2 == 0 {
                assert(on_edge(b, t, b.0 as int, y) && per[i] == point_at(b.0 as int, y));
            } else {
                assert(on_edge(b, t, t.0 as int, y) && per[i] == point_at(t.0 as int, y));
            }
        }
    }
    assert forall|x: int, y: int| on_edge(b, t, x, y) implies per.contains(#[trigger] point_at(x, y)) by {
        if y == t.1 {
            let i = 2 * (x - b.0);
            assert(i / 2 == x - b.0 && i % 2 == 0);
            assert(per[i] == point_at(x, y));
        } else if y == b.1 {
            let i = 2 * (x - b.0) + 1;
            assert(i / 2 == x - b.0 && i % 2 == 1);
            assert(per[i] == point_at(x, y));
        } else if x == b.0 {
            let j = 2 * (y - b.1 - 1);
            let i = 2 * nx + j;
            assert(j / 2 == y - b.1 - 1 && j % 2 == 0);
            assert(per[i] == point_at(x, y));
        } else {
            let j = 2 * (y - b.1 - 1) + 1;
            let i = 2 * nx + j;
            assert(j / 2 == y - b.1 - 1 && j % 2 == 1);
            assert(per[i] == point_at(x, y));
        }
    }
}

/// The bot may turn toward the neighbouring cell in direction `d` of cell
/// `c`: it lies on the map and on the plan, and `d` does not point straight
/// back against `prev`.
pub open spec fn open_toward(plan: Seq<Point>, prev: Direction, c: Cell, d: Direction) -> bool {
    let n = toward(c, d);
    &&& data::on_map(n.0 as int, n.1 as int)
    &&& plan.contains(point_at(n.0 as int, n.1 as int))
    &&& d != opposite(prev)
}

/// Steering from cell `c` tries left, then down, then right, then up, and
/// takes the first direction the bot may turn toward; with none, it keeps
/// the best direction.
pub proof fn lemma_steer_order(plan: Seq<Point>, prev: Direction, best: Direction, c: Cell)
    ensures
        ({
            let d = steer(plan, prev, best, neighbours(c).0, neighbours(c).1, neighbours(c).2, neighbours(c).3);
            let l = open_toward(plan, prev, c, Direction::Left);
            let dn = open_toward(plan, prev, c, Direction::Down);
            let r = open_toward(plan, prev, c, Direction::Right);
            let u = open_toward(plan, prev, c, Direction::Up);
            &&& l ==> d == Direction::Left
            &&& !l && dn ==> d == Direction::Down
            &&& !l && !dn && r ==> d == Direction::Right
            &&& !l && !dn && !r && u ==> d == Direction::Up
            &&& !l && !dn && !r && !u ==> d == best
        }),
{
}

/// What capturing a cell is worth: nothing off the map or on the bot's own
/// territory, 5 on an enemy's territory, 1 elsewhere.
pub proof fn lemma_cell_value(world: &World, x: int, y: int)
    ensures
        !data::on_map(x, y) ==> cell_value(world, x, y) == 0,
        data::on_map(x, y) && is_mine(world, point_at(x, y)) ==> cell_value(world, x, y) == 0,
        data::on_map(x, y) && !is_mine(world, point_at(x, y)) && enemy_owns(world, point_at(x, y)) ==> cell_value(
            world,
            x,
            y,
        ) == 5,
        data::on_map(x, y) && !is_mine(world, point_at(x, y)) && !enemy_owns(world, point_at(x, y)) ==> cell_value(
            world,
            x,
            y,
        ) == 1,
{
}

} // verus!
