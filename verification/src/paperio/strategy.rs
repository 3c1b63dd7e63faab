//! The bot's strategy: while on its own territory it plans a rectangle to
//! capture, scoring candidate rectangles by the cells they would gain and
//! the danger of enemies nearby, and it steers along the planned perimeter.
use vstd::prelude::*;
use crate::paperio::data;
use crate::paperio::data::{Cell, Direction, Point, World, Player, MAP_SIZE_CELLS, CELL_SIZE};

verus! {

/// The corner point of cell `(x, y)`, in pixels.
pub open spec fn point_at(x: int, y: int) -> Point {
    Point((30 * x) as i32, (30 * y) as i32)
}

/// The point belongs to the bot's territory.
pub open spec fn is_mine(world: &World, p: Point) -> bool {
    world.me.territory@.contains(p)
}

/// The point belongs to some enemy's territory.
pub open spec fn enemy_owns(world: &World, p: Point) -> bool {
    exists|i: int| 0 <= i < world.enemies@.len() && (#[trigger] world.enemies@[i]).territory@.contains(p)
}

/// What capturing cell `(x, y)` is worth: 5 for an enemy's cell, 1 for a
/// free cell, 0 for the bot's own cells and cells off the map.
pub open spec fn cell_value(world: &World, x: int, y: int) -> int {
    if data::on_map(x, y) {
        let p = point_at(x, y);
        if is_mine(world, p) {
            0
        } else if enemy_owns(world, p) {
            5
        } else {
            1
        }
    } else {
        0
    }
}

/// Sum of `f(x, y)` for `y` from `y0` to `y1`.
pub open spec fn column_sum(f: spec_fn(int, int) -> int, x: int, y0: int, y1: int) -> int
    decreases y1 - y0 + 1,
{
    if y1 < y0 {
        0
    } else {
        column_sum(f, x, y0, y1 - 1) + f(x, y1)
    }
}

/// Sum of `f(x, y)` over the rectangle `x0..=x1` by `y0..=y1`.
pub open spec fn rect_sum(f: spec_fn(int, int) -> int, x0: int, x1: int, y0: int, y1: int) -> int
    decreases x1 - x0 + 1,
{
    if x1 < x0 {
        0
    } else {
        rect_sum(f, x0, x1 - 1, y0, y1) + column_sum(f, x1, y0, y1)
    }
}

pub open spec fn min_int(a: int, b: int) -> int {
    if a <= b {
        a
    } else {
        b
    }
}

/// Least `f(x, y)` for `y` from `y0` to `y1`, and `i32::MAX` at most.
pub open spec fn column_min(f: spec_fn(int, int) -> int, x: int, y0: int, y1: int) -> int
    decreases y1 - y0 + 1,
{
    if y1 < y0 {
        i32::MAX as int
    } else {
        min_int(column_min(f, x, y0, y1 - 1), f(x, y1))
    }
}

/// Least `f(x, y)` over the rectangle `x0..=x1` by `y0..=y1`, and `i32::MAX` at most.
pub open spec fn rect_min(f: spec_fn(int, int) -> int, x0: int, x1: int, y0: int, y1: int) -> int
    decreases x1 - x0 + 1,
{
    if x1 < x0 {
        i32::MAX as int
    } else {
        min_int(rect_min(f, x0, x1 - 1, y0, y1), column_min(f, x1, y0, y1))
    }
}

/// What the cells from `bottom_left` to `top_right` (inclusive) are worth.
pub open spec fn cells_score(world: &World, top_right: Point, bottom_left: Point) -> int {
    rect_sum(
        |x: int, y: int| cell_value(world, x, y),
        data::cell_of(bottom_left).0 as int,
        data::cell_of(top_right).0 as int,
        data::cell_of(bottom_left).1 as int,
        data::cell_of(top_right).1 as int,
    )
}

/// Least distance from cell `c` to a point of the territory `t`
/// (`i32::MAX` for an empty territory).
pub open spec fn territory_distance(t: Seq<Point>, c: Cell) -> int
    decreases t.len(),
{
    if t.len() == 0 {
        i32::MAX as int
    } else {
        min_int(territory_distance(t.drop_last(), c), data::cell_distance(c, data::cell_of(t.last())))
    }
}

/// Least distance from cell `c` to any of the players' territories.
pub open spec fn players_distance(ps: Seq<Player>, c: Cell) -> int
    decreases ps.len(),
{
    if ps.len() == 0 {
        i32::MAX as int
    } else {
        min_int(players_distance(ps.drop_last(), c), territory_distance(ps.last().territory@, c))
    }
}

/// Least distance from the point's cell to enemy territory.
pub open spec fn enemy_distance(world: &World, p: Point) -> int {
    players_distance(world.enemies@, data::cell_of(p))
}

/// How close enemies are to cell `(x, y)`, for a cell on the map outside the
/// bot's territory (`i32::MAX` otherwise).
pub open spec fn cell_threat(world: &World, x: int, y: int) -> int {
    if data::on_map(x, y) && !is_mine(world, point_at(x, y)) {
        enemy_distance(world, point_at(x, y))
    } else {
        i32::MAX as int
    }
}

/// The danger of the rectangle: its half perimeter times two, less the
/// least enemy distance to its cells outside the bot's territory.
pub open spec fn danger(world: &World, top_right: Point, bottom_left: Point) -> int {
    let t = data::cell_of(top_right);
    let b = data::cell_of(bottom_left);
    ((t.0 - b.0) + (t.1 - b.1)) * 2 - rect_min(
        |x: int, y: int| cell_threat(world, x, y),
        b.0 as int,
        t.0 as int,
        b.1 as int,
        t.1 as int,
    )
}

/// The perimeter of the rectangle: for each column the top and bottom
/// cell, then for each row strictly between them the left and right cell.
pub open spec fn perimeter_of(top_right: Point, bottom_left: Point) -> Seq<Point> {
    let t = data::cell_of(top_right);
    let b = data::cell_of(bottom_left);
    let nx: int = if t.0 >= b.0 {
        t.0 - b.0 + 1
    } else {
        0
    };
    let ny: int = if t.1 - b.1 - 1 >= 0 {
        t.1 - b.1 - 1
    } else {
        0
    };
    Seq::new(
        (2 * nx) as nat,
        |i: int|
            if i % 2 == 0 {
                point_at(b.0 + i / 2, t.1 as int)
            } else {
                point_at(b.0 + i / 2, b.1 as int)
            },
    ) + Seq::new(
        (2 * ny) as nat,
        |i: int|
            if i % 2 == 0 {
                point_at(b.0 as int, b.1 + 1 + i / 2)
            } else {
                point_at(t.0 as int, b.1 + 1 + i / 2)
            },
    )
}

// ---------------------------------------------------------------------------
// Bounds.

pub open spec fn clip_count(a: int, b: int) -> int {
    let lo = if a >= 0 { a } else { 0 };
    let hi = if b <= 30 { b } else { 30 };
    if hi >= lo { hi - lo + 1 } else { 0 }
}

proof fn lemma_column_sum_bounds(world: &World, x: int, y0: int, y1: int)
    ensures
        0 <= column_sum(|x: int, y: int| cell_value(world, x, y), x, y0, y1) <= 5 * clip_count(y0, y1),
    decreases y1 - y0 + 1,
{
    if y1 >= y0 {
        lemma_column_sum_bounds(world, x, y0, y1 - 1);
    }
}

proof fn lemma_rect_sum_bounds(world: &World, x0: int, x1: int, y0: int, y1: int)
    ensures
        0 <= rect_sum(|x: int, y: int| cell_value(world, x, y), x0, x1, y0, y1) <= 155 * clip_count(x0, x1),
    decreases x1 - x0 + 1,
{
    if x1 >= x0 {
        lemma_rect_sum_bounds(world, x0, x1 - 1, y0, y1);
        lemma_column_sum_bounds(world, x1, y0, y1);
        let f = |x: int, y: int| cell_value(world, x, y);
        if !(0 <= x1 <= 30) {
            assert(column_sum(f, x1, y0, y1) == 0) by {
                lemma_column_sum_off_map(world, x1, y0, y1);
            }
        }
    }
}

proof fn lemma_column_sum_off_map(world: &World, x: int, y0: int, y1: int)
    requires
        !(0 <= x <= 30),
    ensures
        column_sum(|x: int, y: int| cell_value(world, x, y), x, y0, y1) == 0,
    decreases y1 - y0 + 1,
{
    if y1 >= y0 {
        lemma_column_sum_off_map(world, x, y0, y1 - 1);
    }
}


proof fn lemma_cell_of_point_at(x: int, y: int)
    requires
        -71582788 <= x <= 71582788,
        -71582788 <= y <= 71582788,
    ensures
        data::cell_of(point_at(x, y)) == Cell(x as i32, y as i32),
        data::cell_coordinate_ok(Cell(x as i32, y as i32)),
{
    assert(data::trunc_div(30 * x, 30) == x);
    assert(data::trunc_div(30 * y, 30) == y);
}

proof fn lemma_territory_distance_bounds(t: Seq<Point>, c: Cell)
    requires
        data::cell_coordinate_ok(c),
    ensures
        0 <= territory_distance(t, c) <= i32::MAX,
    decreases t.len(),
{
    if t.len() > 0 {
        lemma_territory_distance_bounds(t.drop_last(), c);
    }
}

proof fn lemma_players_distance_bounds(ps: Seq<Player>, c: Cell)
    requires
        data::cell_coordinate_ok(c),
    ensures
        0 <= players_distance(ps, c) <= i32::MAX,
    decreases ps.len(),
{
    if ps.len() > 0 {
        lemma_players_distance_bounds(ps.drop_last(), c);
        lemma_territory_distance_bounds(ps.last().territory@, c);
    }
}

/// Whether `p` is one of the points of `v`.
fn contains_point(v: &Vec<Point>, p: &Point) -> (b: bool)
    ensures
        b == v@.contains(*p),
{
    let mut i: usize = 0;
    while i < v.len()
        invariant
            i <= v@.len(),
            forall|j: int| 0 <= j < i ==> v@[j] != *p,
        decreases v@.len() - i,
    {
        if v[i] == *p {
            return true;
        }
        i = i + 1;
    }
    false
}

fn is_enemy_territory(world: &World, cell_position: &Point) -> (b: bool)
    ensures
        b == enemy_owns(world, *cell_position),
{
    let enemies = world.enemies();
    let mut i: usize = 0;
    while i < enemies.len()
        invariant
            enemies == &world.enemies,
            i <= enemies@.len(),
            forall|j: int| 0 <= j < i ==> !(#[trigger] enemies@[j]).territory@.contains(*cell_position),
        decreases enemies@.len() - i,
    {
        if contains_point(&enemies[i].territory, cell_position) {
            return true;
        }
        i = i + 1;
    }
    false
}

fn calculate_enemy_min_distance(world: &World, cell_position: &Point) -> (d: i32)
    ensures
        d == enemy_distance(world, *cell_position),
        d >= 0,
{
    let mut min_distance: i32 = i32::MAX;
    let c = cell_position.to_cell();
    let enemies = world.enemies();
    let mut i: usize = 0;
    while i < enemies.len()
        invariant
            enemies == &world.enemies,
            c == data::cell_of(*cell_position),
            data::cell_coordinate_ok(c),
            i <= enemies@.len(),
            min_distance == players_distance(enemies@.take(i as int), c),
        decreases enemies@.len() - i,
    {
        let territory = &enemies[i].territory;
        let ghost before = min_distance as int;
        proof {
            lemma_players_distance_bounds(enemies@.take(i as int), c);
            assert(enemies@.take(i + 1).drop_last() =~= enemies@.take(i as int));
            assert(territory@.take(0) =~= Seq::<Point>::empty());
        }
        let mut j: usize = 0;
        while j < territory.len()
            invariant
                data::cell_coordinate_ok(c),
                j <= territory@.len(),
                0 <= before <= i32::MAX,
                min_distance == min_int(before, territory_distance(territory@.take(j as int), c)),
            decreases territory@.len() - j,
        {
            let distance = c.distance_to(territory[j].to_cell());
            proof {
                assert(territory@.take(j + 1).drop_last() =~= territory@.take(j as int));
                lemma_territory_distance_bounds(territory@.take(j as int), c);
            }
            if distance < min_distance {
                min_distance = distance;
            }
            j = j + 1;
        }
        proof {
            assert(territory@.take(j as int) =~= territory@);
        }
        i = i + 1;
    }
    proof {
        assert(enemies@.take(i as int) =~= enemies@);
        lemma_players_distance_bounds(enemies@, c);
    }
    min_distance
}


fn calculate_cells_score(world: &World, top_right: &Point, bottom_left: &Point) -> (score: i32)
    ensures
        score == cells_score(world, *top_right, *bottom_left),
{
    let ghost f = |x: int, y: int| cell_value(world, x, y);
    let mut cells_score: i32 = 0;
    let cells = &world.me().territory;
    let b = bottom_left.to_cell();
    let t = top_right.to_cell();
    let mut x: i64 = b.0 as i64;
    while x <= t.0 as i64
        invariant
            cells == &world.me.territory,
            f == (|x: int, y: int| cell_value(world, x, y)),
            data::cell_coordinate_ok(b),
            data::cell_coordinate_ok(t),
            b == data::cell_of(*bottom_left),
            t == data::cell_of(*top_right),
            b.0 <= x <= if t.0 >= b.0 { t.0 + 1 } else { b.0 as int },
            cells_score == rect_sum(f, b.0 as int, x - 1, b.1 as int, t.1 as int),
        decreases t.0 + 1 - x,
    {
        let mut y: i64 = b.1 as i64;
        proof {
            lemma_rect_sum_bounds(world, b.0 as int, x - 1, b.1 as int, t.1 as int);
        }
        while y <= t.1 as i64
            invariant
                cells == &world.me.territory,
                f == (|x: int, y: int| cell_value(world, x, y)),
                data::cell_coordinate_ok(b),
                data::cell_coordinate_ok(t),
                b.0 <= x <= t.0,
                b.1 <= y <= if t.1 >= b.1 { t.1 + 1 } else { b.1 as int },
                0 <= rect_sum(f, b.0 as int, x - 1, b.1 as int, t.1 as int) <= 155 * 31,
                cells_score == rect_sum(f, b.0 as int, x - 1, b.1 as int, t.1 as int) + column_sum(
                    f,
                    x as int,
                    b.1 as int,
                    y - 1,
                ),
            decreases t.1 + 1 - y,
        {
            proof {
                lemma_column_sum_bounds(world, x as int, b.1 as int, y - 1);
                lemma_cell_of_point_at(x as int, y as int);
            }
            let cell_position = Point((CELL_SIZE as i64 * x) as i32, (CELL_SIZE as i64 * y) as i32);
            assert(cell_position == point_at(x as int, y as int));
            if cell_position.to_cell().in_bounds() {
                let mine = contains_point(cells, &cell_position);
                let enemy = is_enemy_territory(world, &cell_position);
                if !mine && enemy {
                    cells_score += 5;
                } else if !mine && !enemy {
                    cells_score += 1;
                }
            }
            y = y + 1;
        }
        x = x + 1;
    }
    cells_score
}

proof fn lemma_column_min_bounds(world: &World, x: int, y0: int, y1: int)
    ensures
        0 <= column_min(|x: int, y: int| cell_threat(world, x, y), x, y0, y1) <= i32::MAX,
    decreases y1 - y0 + 1,
{
    if y1 >= y0 {
        lemma_column_min_bounds(world, x, y0, y1 - 1);
        if data::on_map(x, y1) && !is_mine(world, point_at(x, y1)) {
            lemma_cell_of_point_at(x, y1);
            lemma_players_distance_bounds(world.enemies@, data::cell_of(point_at(x, y1)));
        }
    }
}

proof fn lemma_rect_min_bounds(world: &World, x0: int, x1: int, y0: int, y1: int)
    ensures
        0 <= rect_min(|x: int, y: int| cell_threat(world, x, y), x0, x1, y0, y1) <= i32::MAX,
    decreases x1 - x0 + 1,
{
    if x1 >= x0 {
        lemma_rect_min_bounds(world, x0, x1 - 1, y0, y1);
        lemma_column_min_bounds(world, x1, y0, y1);
    }
}

/// The cell of any point has coordinates of at most 71582788 in size.
proof fn lemma_cell_of_bounds(p: Point)
    ensures
        -71582788 <= data::cell_of(p).0 <= 71582788,
        -71582788 <= data::cell_of(p).1 <= 71582788,
{
}

fn calculate_danger(world: &World, top_right: &Point, bottom_left: &Point) -> (d: i32)
    requires
        data::cell_of(*bottom_left).0 <= data::cell_of(*top_right).0,
        data::cell_of(*bottom_left).1 <= data::cell_of(*top_right).1,
    ensures
        d == danger(world, *top_right, *bottom_left),
{
    let ghost g = |x: int, y: int| cell_threat(world, x, y);
    let t = top_right.to_cell();
    let b = bottom_left.to_cell();
    proof {
        lemma_cell_of_bounds(*top_right);
        lemma_cell_of_bounds(*bottom_left);
    }
    let perimiter = ((t.0 - b.0) + (t.1 - b.1)) * 2;
    let my_territory = &world.me().territory;
    let mut min_enemy_distance: i32 = i32::MAX;
    let mut x: i32 = b.0;
    while x <= t.0
        invariant
            my_territory == &world.me.territory,
            g == (|x: int, y: int| cell_threat(world, x, y)),
            -71582788 <= b.0 <= t.0 <= 71582788,
            -71582788 <= b.1 <= t.1 <= 71582788,
            b.0 <= x <= if t.0 >= b.0 { t.0 + 1 } else { b.0 as int },
            min_enemy_distance == rect_min(g, b.0 as int, x - 1, b.1 as int, t.1 as int),
        decreases t.0 + 1 - x,
    {
        proof {
            lemma_rect_min_bounds(world, b.0 as int, x - 1, b.1 as int, t.1 as int);
        }
        let mut y: i32 = b.1;
        while y <= t.1
            invariant
                my_territory == &world.me.territory,
                g == (|x: int, y: int| cell_threat(world, x, y)),
                -71582788 <= b.0 <= t.0 <= 71582788,
                -71582788 <= b.1 <= t.1 <= 71582788,
                b.0 <= x <= t.0,
                b.1 <= y <= if t.1 >= b.1 { t.1 + 1 } else { b.1 as int },
                0 <= rect_min(g, b.0 as int, x - 1, b.1 as int, t.1 as int) <= i32::MAX,
                min_enemy_distance == min_int(
                    rect_min(g, b.0 as int, x - 1, b.1 as int, t.1 as int),
                    column_min(g, x as int, b.1 as int, y - 1),
                ),
            decreases t.1 + 1 - y,
        {
            proof {
                lemma_cell_of_point_at(x as int, y as int);
                lemma_column_min_bounds(world, x as int, b.1 as int, y - 1);
            }
            let cell_position = Point(CELL_SIZE * x, CELL_SIZE * y);
            assert(cell_position == point_at(x as int, y as int));
            if cell_position.to_cell().in_bounds() && !contains_point(my_territory, &cell_position) {
                let enemy_distance = calculate_enemy_min_distance(world, &cell_position);
                if enemy_distance < min_enemy_distance {
                    min_enemy_distance = enemy_distance;
                }
            }
            y = y + 1;
        }
        x = x + 1;
    }
    proof {
        lemma_rect_min_bounds(world, b.0 as int, t.0 as int, b.1 as int, t.1 as int);
    }
    perimiter - min_enemy_distance
}

fn calculate_perimeter_cells(top_right: Point, bottom_left: Point) -> (perimeter_cells: Vec<Point>)
    ensures
        perimeter_cells@ == perimeter_of(top_right, bottom_left),
{
    let t = top_right.to_cell();
    let b = bottom_left.to_cell();
    let ghost full = perimeter_of(top_right, bottom_left);
    let ghost nx: int = if t.0 >= b.0 { t.0 - b.0 + 1 } else { 0 };
    let mut perimeter: Vec<Point> = Vec::new();
    let mut x: i32 = b.0;
    while x <= t.0
        invariant
            data::cell_coordinate_ok(t),
            data::cell_coordinate_ok(b),
            t == data::cell_of(top_right),
            b == data::cell_of(bottom_left),
            full == perimeter_of(top_right, bottom_left),
            nx == (if t.0 >= b.0 { t.0 - b.0 + 1 } else { 0 }),
            b.0 <= x <= if t.0 >= b.0 { t.0 + 1 } else { b.0 as int },
            perimeter@.len() == 2 * (x - b.0),
            forall|i: int| 0 <= i < perimeter@.len() ==> #[trigger] perimeter@[i] == full[i],
        decreases t.0 + 1 - x,
    {
        perimeter.push(Point(CELL_SIZE * x, CELL_SIZE * t.1));
        perimeter.push(Point(CELL_SIZE * x, CELL_SIZE * b.1));
        x = x + 1;
    }
    let mut y: i32 = b.1 + 1;
    while y < t.1
        invariant
            data::cell_coordinate_ok(t),
            data::cell_coordinate_ok(b),
            t == data::cell_of(top_right),
            b == data::cell_of(bottom_left),
            full == perimeter_of(top_right, bottom_left),
            nx == (if t.0 >= b.0 { t.0 - b.0 + 1 } else { 0 }),
            b.1 + 1 <= y <= if t.1 >= b.1 + 1 { t.1 as int } else { b.1 + 1 },
            perimeter@.len() == 2 * nx + 2 * (y - b.1 - 1),
            forall|i: int| 0 <= i < perimeter@.len() ==> #[trigger] perimeter@[i] == full[i],
        decreases t.1 - y,
    {
        perimeter.push(Point(CELL_SIZE * b.0, CELL_SIZE * y));
        perimeter.push(Point(CELL_SIZE * t.0, y * CELL_SIZE));
        y = y + 1;
    }
    assert(perimeter@ =~= full);
    perimeter
}


// ---------------------------------------------------------------------------
// Choosing a rectangle and a direction.

/// The rectangles that a tick considers, as `(x1, y1, x2, y2)`: bottom-left
/// cell `(x1, y1)` with `0 <= x1 <= m.0` and `0 <= y1 <= m.1`, top-right cell
/// `(x2, y2)` with `x1 <= x2 <= 15` and `y1 <= y2 <= 15`, both on the map.
pub open spec fn candidate(m: Cell, c: (int, int, int, int)) -> bool {
    &&& 0 <= c.0 <= m.0
    &&& 0 <= c.1 <= m.1
    &&& c.0 <= c.2 <= MAP_SIZE_CELLS / 2
    &&& c.1 <= c.3 <= MAP_SIZE_CELLS / 2
    &&& data::on_map(c.0, c.1)
    &&& data::on_map(c.2, c.3)
}

/// The two scores of a rectangle for a bot at `my`: the worth of the cells
/// from its bottom-left corner to `my`, and from `my` to its top-right
/// corner, each less the square of its danger (in `i32` arithmetic that
/// wraps around).
pub open spec fn option_scores(world: &World, my: Point, c: (int, int, int, int)) -> (i32, i32) {
    let bl = point_at(c.0, c.1);
    let tr = point_at(c.2, c.3);
    let d = danger(world, tr, bl) as i32;
    let sq = d.wrapping_mul(d);
    (
        (cells_score(world, my, bl) as i32).wrapping_sub(sq),
        (cells_score(world, tr, my) as i32).wrapping_sub(sq),
    )
}

/// The better of the two scores.
pub open spec fn rect_score(world: &World, my: Point, c: (int, int, int, int)) -> i32 {
    let s = option_scores(world, my, c);
    if s.0 >= s.1 {
        s.0
    } else {
        s.1
    }
}

/// The perimeter that the better option of the rectangle plans to walk.
pub open spec fn plan_of(world: &World, my: Point, c: (int, int, int, int)) -> Seq<Point> {
    let s = option_scores(world, my, c);
    if s.0 >= s.1 {
        perimeter_of(my, point_at(c.0, c.1))
    } else {
        perimeter_of(point_at(c.2, c.3), my)
    }
}

/// Lexicographic order: the order in which a tick considers rectangles.
pub open spec fn lex_lt(a: (int, int, int, int), b: (int, int, int, int)) -> bool {
    ||| a.0 < b.0
    ||| a.0 == b.0 && a.1 < b.1
    ||| a.0 == b.0 && a.1 == b.1 && a.2 < b.2
    ||| a.0 == b.0 && a.1 == b.1 && a.2 == b.2 && a.3 < b.3
}

/// `c` is the rectangle a tick settles on: of the rectangles with the
/// highest score, which must exceed `i32::MIN`, the first considered.
pub open spec fn best_rectangle(world: &World, my: Point, c: (int, int, int, int)) -> bool {
    let m = data::cell_of(my);
    &&& candidate(m, c)
    &&& rect_score(world, my, c) > i32::MIN
    &&& forall|c2: (int, int, int, int)|
        candidate(m, c2) ==> #[trigger] rect_score(world, my, c2) <= rect_score(world, my, c)
    &&& forall|c2: (int, int, int, int)|
        candidate(m, c2) && lex_lt(c2, c) ==> #[trigger] rect_score(world, my, c2) < rect_score(
            world,
            my,
            c,
        )
}

/// Some rectangle scores above `i32::MIN`.
pub open spec fn some_rectangle_scores(world: &World, my: Point) -> bool {
    exists|c: (int, int, int, int)|
        candidate(data::cell_of(my), c) && #[trigger] rect_score(world, my, c) > i32::MIN
}

/// The direction toward the first neighbour (left, down, right, up) that
/// lies on the map and on the planned perimeter and is not straight behind
/// the previous direction; `best` when there is none.
pub open spec fn steer(
    plan: Seq<Point>,
    prev: Direction,
    best: Direction,
    left: Cell,
    down: Cell,
    right: Cell,
    up: Cell,
) -> Direction {
    if data::on_map(left.0 as int, left.1 as int) && plan.contains(point_at(left.0 as int, left.1 as int))
        && prev != Direction::Right {
        Direction::Left
    } else if data::on_map(down.0 as int, down.1 as int) && plan.contains(
        point_at(down.0 as int, down.1 as int),
    ) && prev != Direction::Up {
        Direction::Down
    } else if data::on_map(right.0 as int, right.1 as int) && plan.contains(
        point_at(right.0 as int, right.1 as int),
    ) && prev != Direction::Left {
        Direction::Right
    } else if data::on_map(up.0 as int, up.1 as int) && plan.contains(point_at(up.0 as int, up.1 as int))
        && prev != Direction::Down {
        Direction::Up
    } else {
        best
    }
}

/// Steering keeps the best direction, or else turns toward a neighbouring
/// cell that lies on the map and on the plan, and never straight back the
/// way the bot came.
pub proof fn lemma_steer_turns(
    plan: Seq<Point>,
    prev: Direction,
    best: Direction,
    left: Cell,
    down: Cell,
    right: Cell,
    up: Cell,
)
    ensures
        ({
            let d = steer(plan, prev, best, left, down, right, up);
            ||| d == best
            ||| d == Direction::Left && prev != Direction::Right && data::on_map(left.0 as int, left.1 as int)
                && plan.contains(point_at(left.0 as int, left.1 as int))
            ||| d == Direction::Down && prev != Direction::Up && data::on_map(down.0 as int, down.1 as int)
                && plan.contains(point_at(down.0 as int, down.1 as int))
            ||| d == Direction::Right && prev != Direction::Left && data::on_map(right.0 as int, right.1 as int)
                && plan.contains(point_at(right.0 as int, right.1 as int))
            ||| d == Direction::Up && prev != Direction::Down && data::on_map(up.0 as int, up.1 as int)
                && plan.contains(point_at(up.0 as int, up.1 as int))
        }),
{
}

/// The cells left of, below, right of and above `c`.
pub open spec fn neighbours(c: Cell) -> (Cell, Cell, Cell, Cell) {
    (
        Cell((c.0 - 1) as i32, c.1),
        Cell(c.0, (c.1 - 1) as i32),
        Cell((c.0 + 1) as i32, c.1),
        Cell(c.0, (c.1 + 1) as i32),
    )
}

/// The direction straight back.
pub open spec fn opposite(d: Direction) -> Direction {
    match d {
        Direction::Left => Direction::Right,
        Direction::Right => Direction::Left,
        Direction::Up => Direction::Down,
        Direction::Down => Direction::Up,
    }
}

/// The cell next to `c` in direction `d`.
pub open spec fn toward(c: Cell, d: Direction) -> Cell {
    match d {
        Direction::Left => neighbours(c).0,
        Direction::Down => neighbours(c).1,
        Direction::Right => neighbours(c).2,
        Direction::Up => neighbours(c).3,
    }
}

/// `after` is `before` after a tick in the cell `c` that chose `d`: the
/// bot steered along its new plan from its last directions.
pub open spec fn tick_taken(before: Strategy, after: Strategy, c: Cell, d: Direction) -> bool {
    &&& after.prev() == d
    &&& after.best() == d
    &&& d == steer(
        after.plan(),
        before.prev(),
        before.best(),
        neighbours(c).0,
        neighbours(c).1,
        neighbours(c).2,
        neighbours(c).3,
    )
}

/// Over successive ticks from a new strategy (which starts facing `Down`),
/// the bot never turns straight back, and it changes direction only toward
/// a neighbouring cell on the map: `strategies[k + 1]` is `strategies[k]`
/// after the tick in cell `cells[k]` that chose `dirs[k]`.
pub proof fn lemma_ticks_never_reverse(strategies: Seq<Strategy>, cells: Seq<Cell>, dirs: Seq<Direction>)
    requires
        strategies.len() == dirs.len() + 1,
        cells.len() == dirs.len(),
        strategies[0].prev() == Direction::Down,
        strategies[0].best() == Direction::Down,
        forall|k: int| 0 <= k < dirs.len() ==> tick_taken(#[trigger] strategies[k], strategies[k + 1], cells[k], dirs[k]),
    ensures
        forall|k: int| 0 <= k < dirs.len() ==> {
            let before = if k == 0 { Direction::Down } else { dirs[k - 1] };
            &&& #[trigger] dirs[k] != opposite(before)
            &&& dirs[k] == before || data::on_map(toward(cells[k], dirs[k]).0 as int, toward(cells[k], dirs[k]).1 as int)
        },
{
    assert forall|k: int| 0 <= k < dirs.len() implies {
        let before = if k == 0 { Direction::Down } else { dirs[k - 1] };
        &&& #[trigger] dirs[k] != opposite(before)
        &&& dirs[k] == before || data::on_map(toward(cells[k], dirs[k]).0 as int, toward(cells[k], dirs[k]).1 as int)
    } by {
        let s = strategies[k];
        assert(tick_taken(s, strategies[k + 1], cells[k], dirs[k]));
        if k > 0 {
            assert(tick_taken(strategies[k - 1], strategies[k], cells[k - 1], dirs[k - 1]));
        }
        let c = cells[k];
        lemma_steer_turns(
            strategies[k + 1].plan(),
            s.prev(),
            s.best(),
            neighbours(c).0,
            neighbours(c).1,
            neighbours(c).2,
            neighbours(c).3,
        );
    }
}

/// What holds of the search once the rectangles before `bound` (in the
/// order they are considered) are done.
spec fn search_ok(
    world: &World,
    my: Point,
    best: i32,
    chosen: (int, int, int, int),
    plan: Seq<Point>,
    old_plan: Seq<Point>,
    bound: (int, int, int, int),
) -> bool {
    let m = data::cell_of(my);
    &&& forall|c: (int, int, int, int)|
        candidate(m, c) && lex_lt(c, bound) ==> #[trigger] rect_score(world, my, c) <= best
    &&& best > i32::MIN ==> {
        &&& candidate(m, chosen)
        &&& lex_lt(chosen, bound)
        &&& rect_score(world, my, chosen) == best
        &&& plan == plan_of(world, my, chosen)
        &&& forall|c: (int, int, int, int)|
            candidate(m, c) && lex_lt(c, chosen) ==> #[trigger] rect_score(world, my, c) < best
    }
    &&& best == i32::MIN ==> plan == old_plan
}

proof fn lemma_move_bound(
    world: &World,
    my: Point,
    best: i32,
    chosen: (int, int, int, int),
    plan: Seq<Point>,
    old_plan: Seq<Point>,
    b1: (int, int, int, int),
    b2: (int, int, int, int),
)
    requires
        search_ok(world, my, best, chosen, plan, old_plan, b1),
        forall|c: (int, int, int, int)|
            #![trigger candidate(data::cell_of(my), c)]
            candidate(data::cell_of(my), c) ==> (lex_lt(c, b1) <==> lex_lt(c, b2)),
    ensures
        search_ok(world, my, best, chosen, plan, old_plan, b2),
{
    let m = data::cell_of(my);
    assert forall|c: (int, int, int, int)| candidate(m, c) && lex_lt(c, b2) implies #[trigger] rect_score(
        world,
        my,
        c,
    ) <= best by {
        assert(lex_lt(c, b1));
    }
    if best > i32::MIN {
        assert(lex_lt(chosen, b1));
    }
}

/// At most one rectangle is the one a tick settles on.
pub proof fn lemma_best_rectangle_unique(
    world: &World,
    my: Point,
    c1: (int, int, int, int),
    c2: (int, int, int, int),
)
    requires
        best_rectangle(world, my, c1),
        best_rectangle(world, my, c2),
    ensures
        c1 == c2,
{
    let s1 = rect_score(world, my, c1);
    let s2 = rect_score(world, my, c2);
    assert(s1 <= s2 && s2 <= s1);
    if lex_lt(c1, c2) {
        assert(s1 < s2);
    } else if lex_lt(c2, c1) {
        assert(s2 < s1);
    }
}

/// The bot's state between ticks.
pub struct Strategy {
    prev_direction: Direction,
    best_direction: Direction,
    perimeter_cells: Vec<Point>,
}

impl Strategy {
    /// The direction taken at the last tick.
    pub closed spec fn prev(&self) -> Direction {
        self.prev_direction
    }

    /// The direction chosen at the last tick.
    pub closed spec fn best(&self) -> Direction {
        self.best_direction
    }

    /// The perimeter the bot plans to walk.
    pub closed spec fn plan(&self) -> Seq<Point> {
        self.perimeter_cells@
    }

    pub fn new() -> (s: Self)
        ensures
            s.prev() == Direction::Down,
            s.best() == Direction::Down,
            s.plan() == Seq::<Point>::empty(),
    {
        Strategy {
            prev_direction: Direction::Down,
            best_direction: Direction::Down,
            perimeter_cells: Vec::new(),
        }
    }

    /// Chooses the direction for this tick. On its own territory the bot
    /// first plans the perimeter of the best-scoring rectangle (keeping its
    /// plan when no rectangle scores above `i32::MIN`); then it steers along
    /// its plan.
    #[verifier::rlimit(40)]
    #[verifier::spinoff_prover]
    pub fn on_tick(&mut self, world: World) -> (d: Direction)
        ensures
            world.me.territory@.contains(world.me.position) && some_rectangle_scores(
                &world,
                world.me.position,
            ) ==> exists|c: (int, int, int, int)|
                #[trigger] best_rectangle(&world, world.me.position, c) && final(self).plan()
                    == plan_of(&world, world.me.position, c),
            !(world.me.territory@.contains(world.me.position) && some_rectangle_scores(
                &world,
                world.me.position,
            )) ==> final(self).plan() == old(self).plan(),
            d == steer(
                final(self).plan(),
                old(self).prev(),
                old(self).best(),
                neighbours(data::cell_of(world.me.position)).0,
                neighbours(data::cell_of(world.me.position)).1,
                neighbours(data::cell_of(world.me.position)).2,
                neighbours(data::cell_of(world.me.position)).3,
            ),
            final(self).prev() == d,
            final(self).best() == d,
            tick_taken(*old(self), *final(self), data::cell_of(world.me.position), d),
    {
        let my_position = world.me().position;
        let cur_cells = &world.me().territory;
        let mc = my_position.to_cell();
        let neighbour_left = Cell(mc.0 - 1, mc.1);
        let neighbour_down = Cell(mc.0, mc.1 - 1);
        let neighbour_right = Cell(mc.0 + 1, mc.1);
        let neighbour_up = Cell(mc.0, mc.1 + 1);
        let ghost w = &world;
        let ghost old_plan = self.perimeter_cells@;
        if contains_point(cur_cells, &my_position) {
            let mut best_rectangle_score = i32::MIN;
            let ghost mut chosen: (int, int, int, int) = (0, 0, 0, 0);
            let mut x1: i32 = 0;
            while x1 <= mc.0
                invariant
                    w == &world,
                    my_position == world.me.position,
                    mc == data::cell_of(my_position),
                    data::cell_coordinate_ok(mc),
                    0 <= x1 <= if mc.0 >= 0 { mc.0 + 1 } else { 0 },
                    search_ok(w, my_position, best_rectangle_score, chosen, self.perimeter_cells@, old_plan, (x1 as int, -1, -1, -1)),
                    self.prev_direction == old(self).prev_direction,
                    self.best_direction == old(self).best_direction,
                decreases mc.0 + 1 - x1,
            {
                let mut y1: i32 = 0;
                while y1 <= mc.1
                    invariant
                        w == &world,
                        my_position == world.me.position,
                        mc == data::cell_of(my_position),
                        data::cell_coordinate_ok(mc),
                        0 <= x1 <= mc.0,
                        0 <= y1 <= if mc.1 >= 0 { mc.1 + 1 } else { 0 },
                        search_ok(w, my_position, best_rectangle_score, chosen, self.perimeter_cells@, old_plan, (x1 as int, y1 as int, -1, -1)),
                        self.prev_direction == old(self).prev_direction,
                        self.best_direction == old(self).best_direction,
                    decreases mc.1 + 1 - y1,
                {
                    let mut x2: i32 = x1;
                    proof {
                        lemma_move_bound(w, my_position, best_rectangle_score, chosen, self.perimeter_cells@, old_plan,
                            (x1 as int, y1 as int, -1, -1), (x1 as int, y1 as int, x1 as int, -1));
                    }
                    while x2 <= MAP_SIZE_CELLS / 2
                        invariant
                            w == &world,
                            my_position == world.me.position,
                            mc == data::cell_of(my_position),
                            data::cell_coordinate_ok(mc),
                            0 <= x1 <= mc.0,
                            0 <= y1 <= mc.1,
                            x1 <= x2 <= if x1 <= 15 { 16 } else { x1 as int },
                            search_ok(w, my_position, best_rectangle_score, chosen, self.perimeter_cells@, old_plan, (x1 as int, y1 as int, x2 as int, -1)),
                            self.prev_direction == old(self).prev_direction,
                            self.best_direction == old(self).best_direction,
                        decreases 16 - x2,
                    {
                        let mut y2: i32 = y1;
                        proof {
                            lemma_move_bound(w, my_position, best_rectangle_score, chosen, self.perimeter_cells@, old_plan,
                                (x1 as int, y1 as int, x2 as int, -1), (x1 as int, y1 as int, x2 as int, y1 as int));
                        }
                        while y2 <= MAP_SIZE_CELLS / 2
                            invariant
                                w == &world,
                                my_position == world.me.position,
                                mc == data::cell_of(my_position),
                                data::cell_coordinate_ok(mc),
                                0 <= x1 <= mc.0,
                                0 <= y1 <= mc.1,
                                x1 <= x2 <= 15,
                                y1 <= y2 <= if y1 <= 15 { 16 } else { y1 as int },
                                search_ok(w, my_position, best_rectangle_score, chosen, self.perimeter_cells@, old_plan, (x1 as int, y1 as int, x2 as int, y2 as int)),
                                self.prev_direction == old(self).prev_direction,
                                self.best_direction == old(self).best_direction,
                            decreases 16 - y2,
                        {
                            let ghost cur: (int, int, int, int) = (x1 as int, y1 as int, x2 as int, y2 as int);
                            proof {
                                lemma_cell_of_point_at(x1 as int, y1 as int);
                                lemma_cell_of_point_at(x2 as int, y2 as int);
                            }
                            let bottom_left = Point(CELL_SIZE * x1, CELL_SIZE * y1);
                            let top_right = Point(CELL_SIZE * x2, CELL_SIZE * y2);
                            assert(bottom_left == point_at(x1 as int, y1 as int));
                            assert(top_right == point_at(x2 as int, y2 as int));
                            let bottom_left_cell = bottom_left.to_cell();
                            let top_right_cell = top_right.to_cell();
                            let ghost before_best = best_rectangle_score;
                            if bottom_left_cell.in_bounds() && top_right_cell.in_bounds() {
                                assert(candidate(mc, cur));
                                let cells_score = calculate_cells_score(&world, &my_position, &bottom_left);
                                let cells_score1 = calculate_cells_score(&world, &top_right, &my_position);
                                let danger = calculate_danger(&world, &top_right, &bottom_left);
                                let danger1 = calculate_danger(&world, &top_right, &bottom_left);
                                let a = cells_score.wrapping_sub(danger.wrapping_mul(danger));
                                let a1 = cells_score1.wrapping_sub(danger1.wrapping_mul(danger1));
                                assert(option_scores(w, my_position, cur) == (a, a1));
                                let rectangle_score = if a >= a1 { a } else { a1 };
                                if rectangle_score > best_rectangle_score {
                                    best_rectangle_score = rectangle_score;
                                    proof {
                                        chosen = cur;
                                    }
                                    if a >= a1 {
                                        self.perimeter_cells = calculate_perimeter_cells(my_position, bottom_left);
                                    } else {
                                        self.perimeter_cells = calculate_perimeter_cells(top_right, my_position);
                                    }
                                }
                            } else {
                                assert(!candidate(mc, cur));
                            }
                            y2 = y2 + 1;
                            proof {
                                let nb = (x1 as int, y1 as int, x2 as int, y2 as int);
                                let m = data::cell_of(my_position);
                                assert forall|c: (int, int, int, int)| candidate(m, c) && lex_lt(c, nb)
                                    implies #[trigger] rect_score(w, my_position, c) <= best_rectangle_score by {
                                    if c != cur {
                                        assert(lex_lt(c, cur));
                                    }
                                }
                            }
                        }
                        x2 = x2 + 1;
                        proof {
                            lemma_move_bound(w, my_position, best_rectangle_score, chosen, self.perimeter_cells@, old_plan,
                                (x1 as int, y1 as int, x2 - 1, y2 as int), (x1 as int, y1 as int, x2 as int, -1));
                        }
                    }
                    y1 = y1 + 1;
                    proof {
                        lemma_move_bound(w, my_position, best_rectangle_score, chosen, self.perimeter_cells@, old_plan,
                            (x1 as int, y1 - 1, x2 as int, -1), (x1 as int, y1 as int, -1, -1));
                    }
                }
                x1 = x1 + 1;
                proof {
                    lemma_move_bound(w, my_position, best_rectangle_score, chosen, self.perimeter_cells@, old_plan,
                        (x1 - 1, y1 as int, -1, -1), (x1 as int, -1, -1, -1));
                }
            }
            proof {
                let m = data::cell_of(my_position);
                let big = (x1 as int, -1int, -1int, -1int);
                assert forall|c: (int, int, int, int)| #[trigger] candidate(m, c) implies lex_lt(c, big) by {}
                if some_rectangle_scores(w, my_position) {
                    let c = choose|c: (int, int, int, int)| candidate(m, c) && #[trigger] rect_score(w, my_position, c) > i32::MIN;
                    assert(lex_lt(c, big));
                    assert(best_rectangle(w, my_position, chosen));
                } else if best_rectangle_score > i32::MIN {
                    assert(rect_score(w, my_position, chosen) > i32::MIN);
                }
            }
            self.directions(&neighbour_left, &neighbour_down, &neighbour_right, &neighbour_up);
            self.prev_direction = self.best_direction;
            self.best_direction
        } else {
            self.directions(&neighbour_left, &neighbour_down, &neighbour_right, &neighbour_up);
            self.prev_direction = self.best_direction;
            self.prev_direction
        }
    }

    fn directions(
        &mut self,
        neighbour_left: &Cell,
        neighbour_down: &Cell,
        neighbour_right: &Cell,
        neighbour_up: &Cell,
    )
        ensures
            final(self).best() == steer(
                old(self).plan(),
                old(self).prev(),
                old(self).best(),
                *neighbour_left,
                *neighbour_down,
                *neighbour_right,
                *neighbour_up,
            ),
            final(self).prev() == old(self).prev(),
            final(self).plan() == old(self).plan(),
    {
        if neighbour_left.in_bounds() && contains_point(
            &self.perimeter_cells,
            &Point(CELL_SIZE * neighbour_left.0, CELL_SIZE * neighbour_left.1),
        ) && self.prev_direction != Direction::Right {
            self.best_direction = Direction::Left;
        } else if neighbour_down.in_bounds() && contains_point(
            &self.perimeter_cells,
            &Point(CELL_SIZE * neighbour_down.0, CELL_SIZE * neighbour_down.1),
        ) && self.prev_direction != Direction::Up {
            self.best_direction = Direction::Down;
        } else if neighbour_right.in_bounds() && contains_point(
            &self.perimeter_cells,
            &Point(CELL_SIZE * neighbour_right.0, CELL_SIZE * neighbour_right.1),
        ) && self.prev_direction != Direction::Left {
            self.best_direction = Direction::Right;
        } else if neighbour_up.in_bounds() && contains_point(
            &self.perimeter_cells,
            &Point(CELL_SIZE * neighbour_up.0, CELL_SIZE * neighbour_up.1),
        ) && self.prev_direction != Direction::Down {
            self.best_direction = Direction::Up;
        }
    }
}

impl Default for Strategy {
    fn default() -> (s: Self)
        ensures
            s.prev() == Direction::Down,
            s.best() == Direction::Down,
            s.plan() == Seq::<Point>::empty(),
    {
        Self::new()
    }
}

} // verus!
