//! Site percolation on a grid of booleans: a `true` cell is blocked, a
//! `false` cell is vacant, and the grid percolates when vacant cells connect
//! its top row to its bottom row.
use vstd::prelude::*;

verus! {

/// Every row of `cells` has the same length.
pub open spec fn rectangular(cells: Seq<Seq<bool>>) -> bool {
    forall|y: int| 0 <= y < cells.len() ==> #[trigger] cells[y].len() == cells[0].len()
}

/// Number of columns of a rectangular grid (0 for a grid without rows).
pub open spec fn grid_width(cells: Seq<Seq<bool>>) -> nat {
    if cells.len() == 0 {
        0
    } else {
        cells[0].len()
    }
}

/// A grid of boolean values, stored row by row.
pub struct BoolGrid {
    vector_2d: Vec<Vec<bool>>,
    width: usize,
}

impl View for BoolGrid {
    type V = Seq<Seq<bool>>;

    /// The rows of the grid, top row (`y == 0`) first.
    closed spec fn view(&self) -> Seq<Seq<bool>> {
        self.vector_2d@.map_values(|row: Vec<bool>| row@)
    }
}

impl BoolGrid {
    #[verifier::type_invariant]
    closed spec fn rows_agree(&self) -> bool {
        &&& rectangular(self@)
        &&& forall|y: int| 0 <= y < self@.len() ==> #[trigger] self@[y].len() == self.width
    }

    /// The number of columns the grid was made with.
    pub closed spec fn columns(&self) -> nat {
        self.width as nat
    }

    /// * `width` - grid width.
    /// * `height` - grid height.
    /// Every value starts as `false`.
    pub fn new(width: usize, height: usize) -> (grid: Self)
        ensures
            grid.columns() == width,
            grid@.len() == height,
            forall|y: int| 0 <= y < height ==> #[trigger] grid@[y].len() == width,
            forall|x: int, y: int| 0 <= y < height && 0 <= x < width ==> !#[trigger] grid@[y][x],
    {
        let mut row: Vec<bool> = Vec::new();
        let mut i: usize = 0;
        while i < width
            invariant
                i <= width,
                row@.len() == i,
                forall|x: int| 0 <= x < i ==> !#[trigger] row@[x],
            decreases width - i,
        {
            row.push(false);
            i = i + 1;
        }
        let mut vector_2d: Vec<Vec<bool>> = Vec::new();
        let mut j: usize = 0;
        while j < height
            invariant
                j <= height,
                row@.len() == width,
                forall|x: int| 0 <= x < width ==> !#[trigger] row@[x],
                vector_2d@.len() == j,
                forall|y: int| 0 <= y < j ==> #[trigger] vector_2d@[y]@ == row@,
            decreases height - j,
        {
            vector_2d.push(row.clone());
            j = j + 1;
        }
        let grid = BoolGrid { vector_2d, width };
        assert forall|y: int| 0 <= y < height implies #[trigger] grid@[y] == row@ by {
            assert(grid@[y] == grid.vector_2d@[y]@);
        }
        grid
    }

    /// Returns grid width: the width the grid was made with, which every
    /// row has.
    pub fn width(&self) -> (w: usize)
        ensures
            w == self.columns(),
            self@.len() > 0 ==> w == grid_width(self@),
            forall|y: int| 0 <= y < self@.len() ==> #[trigger] self@[y].len() == w,
    {
        proof {
            use_type_invariant(self);
        }
        self.width
    }

    /// Returns grid height.
    pub fn height(&self) -> (h: usize)
        ensures
            h == self@.len(),
    {
        self.vector_2d.len()
    }

    /// Returns the current value of a given cell.
    pub fn get(&self, x: usize, y: usize) -> (value: bool)
        requires
            y < self@.len(),
            x < grid_width(self@),
        ensures
            value == self@[y as int][x as int],
    {
        proof {
            use_type_invariant(self);
            assert(self.vector_2d@[y as int]@ == self@[y as int]);
        }
        self.vector_2d[y][x]
    }

    /// Sets a new value to a given cell.
    pub fn set(&mut self, x: usize, y: usize, value: bool)
        requires
            y < old(self)@.len(),
            x < grid_width(old(self)@),
        ensures
            final(self)@ == old(self)@.update(y as int, old(self)@[y as int].update(x as int, value)),
            final(self).columns() == old(self).columns(),
    {
        proof {
            use_type_invariant(&*self);
        }
        let ghost before = self@;
        let mut rows: Vec<Vec<bool>> = Vec::new();
        std::mem::swap(&mut rows, &mut self.vector_2d);
        let mut row: Vec<bool> = Vec::new();
        rows.set_and_swap(y, &mut row);
        assert(row@ == before[y as int]);
        row.set(x, value);
        rows.set_and_swap(y, &mut row);
        let ghost after = rows@.map_values(|r: Vec<bool>| r@);
        assert(after =~= before.update(y as int, before[y as int].update(x as int, value)));
        self.vector_2d = rows;
    }
}


/// The cell in column `x` of row `y` lies in the grid and is vacant (`false`).
pub open spec fn vacant(cells: Seq<Seq<bool>>, x: int, y: int) -> bool {
    0 <= y < cells.len() && 0 <= x < cells[y].len() && !cells[y][x]
}

/// Two cells share a side.
pub open spec fn adjacent(a: (int, int), b: (int, int)) -> bool {
    ||| a.0 == b.0 && (b.1 == a.1 + 1 || b.1 == a.1 - 1)
    ||| a.1 == b.1 && (b.0 == a.0 + 1 || b.0 == a.0 - 1)
}

/// A non-empty walk through vacant cells, each step to a cell sharing a side.
pub open spec fn vacant_path(cells: Seq<Seq<bool>>, p: Seq<(int, int)>) -> bool {
    &&& p.len() > 0
    &&& forall|i: int| 0 <= i < p.len() ==> vacant(cells, #[trigger] p[i].0, p[i].1)
    &&& forall|i: int| 0 <= i < p.len() - 1 ==> adjacent(#[trigger] p[i], p[i + 1])
}

/// A vacant walk from a cell of the top row to a cell of the bottom row.
pub open spec fn spanning_path(cells: Seq<Seq<bool>>, p: Seq<(int, int)>) -> bool {
    &&& vacant_path(cells, p)
    &&& p[0].1 == 0
    &&& p.last().1 == cells.len() - 1
}

/// The grid percolates: it is empty, or some vacant walk joins its top row
/// to its bottom row.
pub open spec fn percolation(cells: Seq<Seq<bool>>) -> bool {
    ||| cells.len() == 0
    ||| grid_width(cells) == 0
    ||| exists|p: Seq<(int, int)>| #[trigger] spanning_path(cells, p)
}

/// Some vacant walk leads from the top row to the cell `(x, y)`.
pub open spec fn reached_from_top(cells: Seq<Seq<bool>>, x: int, y: int) -> bool {
    exists|p: Seq<(int, int)>|
        #[trigger] vacant_path(cells, p) && p[0].1 == 0 && p.last() == (x, y)
}

/// Returns `true` iff the grid percolates: some path of vacant (`false`)
/// cells, each sharing a side with the next, leads from a cell with `y == 0`
/// to a cell with `y == height - 1`. An empty grid (`width == 0` or
/// `height == 0`) percolates.
pub fn percolates(grid: &BoolGrid) -> (r: bool)
    ensures
        r == percolation(grid@),
{
    proof {
        use_type_invariant(grid);
    }
    if grid.height() == 0 || grid.width() == 0 {
        return true;
    }
    let width = grid.width();
    let height = grid.height();
    let mut visited = BoolGrid::new(width, height);
    proof {
        assert(shape_matches(grid@, visited@));
        assert forall|i: int| 0 <= i < visited@.len() implies #[trigger] visited@[i].len() == width by {}
        assert(grid_width(visited@) == width);
    }
    let mut x: usize = 0;
    while x < width
        invariant
            width == grid_width(grid@),
            height == grid@.len(),
            height > 0,
            width > 0,
            rectangular(grid@),
            search_state(grid@, visited@, Seq::empty(), (-1int, -1int)),
            forall|i: int| 0 <= i < x && vacant(grid@, i, 0) ==> #[trigger] visited@[0][i],
        decreases width - x,
    {
        let ghost before = visited@;
        if dfs(x, grid, &mut visited) {
            return true;
        }
        proof {
            assert forall|i: int| 0 <= i < x + 1 && vacant(grid@, i, 0) implies #[trigger] visited@[0][i] by {
                if i < x {
                    assert(before[0][i]);
                }
            }
        }
        x = x + 1;
    }
    proof {
        lemma_no_spanning_path(grid@, visited@);
    }
    false
}

/// A walk that starts in row 0 and is elsewhere at step `n` leaves row 0
/// at some step: row 0 at step `k - 1`, another row at step `k`.
proof fn lemma_leaves_row_zero(p: Seq<(int, int)>, n: int) -> (k: int)
    requires
        0 < n < p.len(),
        p[0].1 == 0,
        p[n].1 != 0,
    ensures
        0 < k <= n,
        p[k - 1].1 == 0,
        p[k].1 != 0,
    decreases n,
{
    if p[n - 1].1 == 0 {
        n
    } else {
        lemma_leaves_row_zero(p, n - 1)
    }
}

/// A grid of two rows percolates exactly when some column is vacant in
/// both rows: walks move only between cells that share a side.
pub proof fn lemma_two_rows(cells: Seq<Seq<bool>>)
    requires
        cells.len() == 2,
        rectangular(cells),
        grid_width(cells) > 0,
    ensures
        percolation(cells) <==> exists|x: int| 0 <= x < grid_width(cells) && !#[trigger] cells[0][x] && !cells[1][x],
{
    if exists|p: Seq<(int, int)>| #[trigger] spanning_path(cells, p) {
        let p = choose|p: Seq<(int, int)>| #[trigger] spanning_path(cells, p);
        let n = p.len() - 1;
        assert(p[n].1 == 1);
        if n == 0 {
            assert(p[0].1 == 0);
        }
        let k = lemma_leaves_row_zero(p, n);
        assert(vacant(cells, p[k - 1].0, p[k - 1].1));
        assert(vacant(cells, p[k].0, p[k].1));
        assert(adjacent(p[k - 1], p[k]));
        let x = p[k].0;
        assert(p[k - 1].0 == x && p[k].1 == 1);
        assert(0 <= x < grid_width(cells) && !cells[0][x] && !cells[1][x]);
    }
    if exists|x: int| 0 <= x < grid_width(cells) && !#[trigger] cells[0][x] && !cells[1][x] {
        let x = choose|x: int| 0 <= x < grid_width(cells) && !#[trigger] cells[0][x] && !cells[1][x];
        let p = seq![(x, 0int), (x, 1int)];
        assert(vacant_path(cells, p));
        assert(spanning_path(cells, p));
    }
}

/// Making a blocked cell vacant never stops a grid from percolating.
pub proof fn lemma_vacating_keeps_percolation(cells: Seq<Seq<bool>>, x: int, y: int)
    requires
        rectangular(cells),
        percolation(cells),
        0 <= y < cells.len(),
        0 <= x < grid_width(cells),
    ensures
        percolation(cells.update(y, cells[y].update(x, false))),
{
    let opened = cells.update(y, cells[y].update(x, false));
    assert(opened.len() == cells.len());
    assert(opened[0].len() == cells[0].len());
    if cells.len() != 0 && grid_width(cells) != 0 {
        let p = choose|p: Seq<(int, int)>| #[trigger] spanning_path(cells, p);
        assert forall|i: int| 0 <= i < p.len() implies vacant(opened, #[trigger] p[i].0, p[i].1) by {
            assert(vacant(cells, p[i].0, p[i].1));
        }
        assert(spanning_path(opened, p));
    }
}

/// A grid with no blocked cell percolates.
pub proof fn lemma_open_grid_percolates(cells: Seq<Seq<bool>>)
    requires
        rectangular(cells),
        forall|x: int, y: int| 0 <= y < cells.len() && 0 <= x < cells[y].len() ==> !#[trigger] cells[y][x],
    ensures
        percolation(cells),
{
    if cells.len() != 0 && grid_width(cells) != 0 {
        let p = Seq::new(cells.len(), |i: int| (0int, i));
        assert forall|i: int| 0 <= i < p.len() implies vacant(cells, #[trigger] p[i].0, p[i].1) by {
            assert(cells[i].len() == cells[0].len());
        }
        assert forall|i: int| 0 <= i < p.len() - 1 implies adjacent(#[trigger] p[i], p[i + 1]) by {}
        assert(spanning_path(cells, p));
    }
}

/// The rows of a grid stored as a vector of rows.
spec fn rows_of(v: Seq<Vec<bool>>) -> Seq<Seq<bool>> {
    v.map_values(|r: Vec<bool>| r@)
}

/// `vis` has the shape of `cells`, which is rectangular.
spec fn shape_matches(cells: Seq<Seq<bool>>, vis: Seq<Seq<bool>>) -> bool {
    &&& rectangular(cells)
    &&& vis.len() == cells.len()
    &&& forall|y: int| 0 <= y < vis.len() ==> #[trigger] vis[y].len() == grid_width(cells)
}

spec fn in_grid(cells: Seq<Seq<bool>>, x: int, y: int) -> bool {
    0 <= y < cells.len() && 0 <= x < grid_width(cells)
}

spec fn on_stack(stack: Seq<(usize, usize)>, x: int, y: int) -> bool {
    exists|i: int| 0 <= i < stack.len() && #[trigger] stack[i] == (x as usize, y as usize)
}

/// The search has finished with the cell `(x, y)`: it is not in the bottom
/// row, and each vacant neighbour of it is marked.
spec fn settled(cells: Seq<Seq<bool>>, vis: Seq<Seq<bool>>, x: int, y: int) -> bool {
    &&& y != cells.len() - 1
    &&& vacant(cells, x - 1, y) ==> vis[y][x - 1]
    &&& vacant(cells, x + 1, y) ==> vis[y][x + 1]
    &&& vacant(cells, x, y - 1) ==> vis[y - 1][x]
    &&& vacant(cells, x, y + 1) ==> vis[y + 1][x]
}

/// What holds of the depth-first search between steps: every cell on the
/// stack is marked, every marked cell is vacant and reached from the top
/// row, and every marked cell off the stack (but `current`) is settled.
spec fn search_state(
    cells: Seq<Seq<bool>>,
    vis: Seq<Seq<bool>>,
    stack: Seq<(usize, usize)>,
    current: (int, int),
) -> bool {
    &&& shape_matches(cells, vis)
    &&& forall|i: int|
        0 <= i < stack.len() ==> in_grid(cells, #[trigger] stack[i].0 as int, stack[i].1 as int)
            && vis[stack[i].1 as int][stack[i].0 as int]
    &&& forall|x: int, y: int|
        in_grid(cells, x, y) && #[trigger] vis[y][x] ==> vacant(cells, x, y) && reached_from_top(
            cells,
            x,
            y,
        )
    &&& forall|x: int, y: int|
        in_grid(cells, x, y) && #[trigger] vis[y][x] && !on_stack(stack, x, y) && (x, y) != current
            ==> settled(cells, vis, x, y)
}

/// Every cell marked in `a` is marked in `b`.
spec fn covers(cells: Seq<Seq<bool>>, b: Seq<Seq<bool>>, a: Seq<Seq<bool>>) -> bool {
    forall|x: int, y: int| in_grid(cells, x, y) && #[trigger] a[y][x] ==> b[y][x]
}

spec fn unmarked_in_row(r: Seq<bool>) -> nat
    decreases r.len(),
{
    if r.len() == 0 {
        0
    } else {
        unmarked_in_row(r.drop_last()) + if r.last() {
            0nat
        } else {
            1nat
        }
    }
}

/// Number of cells not marked yet.
spec fn unmarked(vis: Seq<Seq<bool>>) -> nat
    decreases vis.len(),
{
    if vis.len() == 0 {
        0
    } else {
        unmarked(vis.drop_last()) + unmarked_in_row(vis.last())
    }
}

proof fn lemma_mark_row(r: Seq<bool>, i: int)
    requires
        0 <= i < r.len(),
        !r[i],
    ensures
        unmarked_in_row(r.update(i, true)) + 1 == unmarked_in_row(r),
    decreases r.len(),
{
    let u = r.update(i, true);
    if i == r.len() - 1 {
        assert(u.drop_last() =~= r.drop_last());
    } else {
        assert(u.drop_last() =~= r.drop_last().update(i, true));
        lemma_mark_row(r.drop_last(), i);
    }
}

proof fn lemma_mark(vis: Seq<Seq<bool>>, x: int, y: int)
    requires
        0 <= y < vis.len(),
        0 <= x < vis[y].len(),
        !vis[y][x],
    ensures
        unmarked(vis.update(y, vis[y].update(x, true))) + 1 == unmarked(vis),
    decreases vis.len(),
{
    let u = vis.update(y, vis[y].update(x, true));
    if y == vis.len() - 1 {
        assert(u.drop_last() =~= vis.drop_last());
        lemma_mark_row(vis[y], x);
    } else {
        assert(u.drop_last() =~= vis.drop_last().update(y, vis[y].update(x, true)));
        lemma_mark(vis.drop_last(), x, y);
    }
}

/// A vacant neighbour of a cell reached from the top row is reached too.
proof fn lemma_step(cells: Seq<Seq<bool>>, a: (int, int), b: (int, int))
    requires
        reached_from_top(cells, a.0, a.1),
        vacant(cells, b.0, b.1),
        adjacent(a, b),
    ensures
        reached_from_top(cells, b.0, b.1),
{
    let p = choose|p: Seq<(int, int)>|
        #[trigger] vacant_path(cells, p) && p[0].1 == 0 && p.last() == (a.0, a.1);
    let q = p.push(b);
    assert forall|i: int| 0 <= i < q.len() implies vacant(cells, #[trigger] q[i].0, q[i].1) by {
        if i < p.len() {
            assert(q[i] == p[i]);
        }
    }
    assert forall|i: int| 0 <= i < q.len() - 1 implies adjacent(#[trigger] q[i], q[i + 1]) by {
        if i < p.len() - 1 {
            assert(q[i] == p[i] && q[i + 1] == p[i + 1]);
        } else {
            assert(q[i] == a && q[i + 1] == b);
        }
    }
    assert(vacant_path(cells, q));
}

/// Cells marked since `start` are reached from `origin`, and the stack
/// holds only such cells.
spec fn fresh_from(
    cells: Seq<Seq<bool>>,
    vis: Seq<Seq<bool>>,
    stack: Seq<(usize, usize)>,
    origin: (int, int),
    start: Seq<Seq<bool>>,
) -> bool {
    &&& covers(cells, vis, start)
    &&& forall|i: int| 0 <= i < stack.len() ==> !start[#[trigger] stack[i].1 as int][stack[i].0 as int]
    &&& forall|a: int, b: int|
        in_grid(cells, a, b) && #[trigger] vis[b][a] && !start[b][a] ==> reaches(cells, origin, a, b)
}

/// Some vacant walk leads from the cell `start` to the cell `(x, y)`.
pub open spec fn reaches(cells: Seq<Seq<bool>>, start: (int, int), x: int, y: int) -> bool {
    exists|p: Seq<(int, int)>| #[trigger] vacant_path(cells, p) && p[0] == start && p.last() == (x, y)
}

/// A vacant neighbour of a cell reached from `start` is reached too.
proof fn lemma_step_from(cells: Seq<Seq<bool>>, start: (int, int), a: (int, int), b: (int, int))
    requires
        reaches(cells, start, a.0, a.1),
        vacant(cells, b.0, b.1),
        adjacent(a, b),
    ensures
        reaches(cells, start, b.0, b.1),
{
    let p = choose|p: Seq<(int, int)>| #[trigger] vacant_path(cells, p) && p[0] == start && p.last() == (a.0, a.1);
    let q = p.push(b);
    assert forall|i: int| 0 <= i < q.len() implies vacant(cells, #[trigger] q[i].0, q[i].1) by {
        if i < p.len() {
            assert(q[i] == p[i]);
        }
    }
    assert forall|i: int| 0 <= i < q.len() - 1 implies adjacent(#[trigger] q[i], q[i + 1]) by {
        if i < p.len() - 1 {
            assert(q[i] == p[i] && q[i + 1] == p[i + 1]);
        } else {
            assert(q[i] == a && q[i + 1] == b);
        }
    }
    assert(vacant_path(cells, q));
    assert(q[0] == start);
}

/// With no cell left on the stack, a vacant walk that starts at a marked
/// cell stays on marked cells.
proof fn lemma_walk_marked(cells: Seq<Seq<bool>>, vis: Seq<Seq<bool>>, p: Seq<(int, int)>, k: int)
    requires
        search_state(cells, vis, Seq::empty(), (-1int, -1int)),
        vacant_path(cells, p),
        vis[p[0].1][p[0].0],
        0 <= k < p.len(),
    ensures
        vis[p[k].1][p[k].0],
    decreases k,
{
    assert(vacant(cells, p[k].0, p[k].1));
    if k > 0 {
        lemma_walk_marked(cells, vis, p, k - 1);
        let a = p[k - 1];
        assert(adjacent(p[k - 1], p[k]));
        assert(vacant(cells, a.0, a.1));
        assert(in_grid(cells, a.0, a.1));
        assert(!on_stack(Seq::<(usize, usize)>::empty(), a.0, a.1));
        assert(settled(cells, vis, a.0, a.1));
    }
}

/// Marks the cell `(x, y)` and pushes it on the stack if it is vacant and
/// not marked yet; it neighbours `from`, which is marked.
fn visit(
    grid: &BoolGrid,
    visited: &mut BoolGrid,
    stack: &mut Vec<(usize, usize)>,
    x: usize,
    y: usize,
    Ghost(from): Ghost<(int, int)>,
    Ghost(origin): Ghost<(int, int)>,
    Ghost(start): Ghost<Seq<Seq<bool>>>,
)
    requires
        search_state(grid@, old(visited)@, old(stack)@, from),
        fresh_from(grid@, old(visited)@, old(stack)@, origin, start),
        reaches(grid@, origin, from.0, from.1),
        in_grid(grid@, x as int, y as int),
        in_grid(grid@, from.0, from.1),
        old(visited)@[from.1][from.0],
        adjacent(from, (x as int, y as int)),
    ensures
        search_state(grid@, final(visited)@, final(stack)@, from),
        covers(grid@, final(visited)@, old(visited)@),
        vacant(grid@, x as int, y as int) ==> final(visited)@[y as int][x as int],
        2 * unmarked(final(visited)@) + final(stack)@.len() <= 2 * unmarked(old(visited)@)
            + old(stack)@.len(),
        forall|a: int, b: int|
            in_grid(grid@, a, b) && #[trigger] final(visited)@[b][a] && !old(visited)@[b][a] ==> a == x
                && b == y && vacant(grid@, a, b),
        final(stack)@ == old(stack)@ || (final(stack)@ == old(stack)@.push((x, y)) && !old(
            visited,
        )@[y as int][x as int]),
        fresh_from(grid@, final(visited)@, final(stack)@, origin, start),
{
    let ghost cells = grid@;
    let ghost vis = visited@;
    let ghost st = stack@;
    proof {
        use_type_invariant(grid);
        use_type_invariant(&*visited);
    }
    assert(grid_width(visited@) == grid_width(grid@));
    if !grid.get(x, y) && !visited.get(x, y) {
        visited.set(x, y, true);
        stack.push((x, y));
        proof {
            lemma_mark(vis, x as int, y as int);
            lemma_step(cells, from, (x as int, y as int));
            lemma_step_from(cells, origin, from, (x as int, y as int));
            assert forall|i: int| 0 <= i < stack@.len() implies !start[#[trigger] stack@[i].1 as int][stack@[i].0 as int] by {
                if i < st.len() {
                    assert(stack@[i] == st[i]);
                }
            }
            assert forall|a: int, b: int|
                in_grid(cells, a, b) && #[trigger] visited@[b][a] && !start[b][a] implies reaches(cells, origin, a, b) by {
                if a != x || b != y {
                    assert(vis[b][a]);
                }
            }
            let nv = visited@;
            let ns = stack@;
            assert(shape_matches(cells, nv));
            assert forall|a: int, b: int| in_grid(cells, a, b) && #[trigger] nv[b][a]
                implies vacant(cells, a, b) && reached_from_top(cells, a, b) by {
                if a != x || b != y {
                    assert(vis[b][a]);
                }
            }
            assert forall|a: int, b: int|
                in_grid(cells, a, b) && #[trigger] nv[b][a] && !on_stack(ns, a, b) && (a, b) != from
                    implies settled(cells, nv, a, b) by {
                assert(ns[ns.len() - 1] == (x, y));
                if a == x && b == y {
                    assert(on_stack(ns, a, b));
                } else {
                    assert(vis[b][a]);
                    if on_stack(st, a, b) {
                        let i = choose|i: int| 0 <= i < st.len() && #[trigger] st[i] == (a as usize, b as usize);
                        assert(ns[i] == st[i]);
                        assert(on_stack(ns, a, b));
                    }
                    assert(settled(cells, vis, a, b));
                }
            }
            assert forall|i: int| 0 <= i < ns.len() implies in_grid(cells, #[trigger] ns[i].0 as int, ns[i].1 as int)
                && nv[ns[i].1 as int][ns[i].0 as int] by {
                if i < st.len() {
                    assert(ns[i] == st[i]);
                }
            }
        }
    }
}

/// Searches depth first from the top-row cell in column `x`, through vacant
/// cells not marked yet, marking what it reaches. Returns `true` when it
/// reaches the bottom row.
fn dfs(x: usize, grid: &BoolGrid, visited: &mut BoolGrid) -> (found: bool)
    requires
        search_state(grid@, old(visited)@, Seq::empty(), (-1int, -1int)),
        grid@.len() > 0,
        x < grid_width(grid@),
    ensures
        found ==> exists|p: Seq<(int, int)>|
            #[trigger] vacant_path(grid@, p) && p[0] == (x as int, 0int) && p.last().1 == grid@.len() - 1,
        !found ==> forall|p: Seq<(int, int)>|
            #[trigger] vacant_path(grid@, p) && p[0] == (x as int, 0int) ==> p.last().1 != grid@.len() - 1,
        found ==> percolation(grid@),
        !found ==> search_state(grid@, final(visited)@, Seq::empty(), (-1int, -1int)),
        !found ==> covers(grid@, final(visited)@, old(visited)@),
        !found ==> (vacant(grid@, x as int, 0) ==> final(visited)@[0][x as int]),
{
    proof {
        use_type_invariant(grid);
        use_type_invariant(&*visited);
    }
    let width = grid.width();
    let height = grid.height();
    let ghost cells = grid@;
    let ghost start = visited@;
    let ghost origin = (x as int, 0int);
    let mut stack: Vec<(usize, usize)> = Vec::new();
    if grid.get(x, 0) || visited.get(x, 0) {
        proof {
            assert forall|p: Seq<(int, int)>|
                #[trigger] vacant_path(cells, p) && p[0] == (x as int, 0int) implies p.last().1 != cells.len() - 1 by {
                assert(vacant(cells, p[0].0, p[0].1));
                lemma_walk_marked(cells, start, p, p.len() - 1);
                let l = p.last();
                assert(vacant(cells, l.0, l.1));
                assert(in_grid(cells, l.0, l.1));
                assert(!on_stack(Seq::<(usize, usize)>::empty(), l.0, l.1));
                assert(settled(cells, start, l.0, l.1));
            }
        }
        return false;
    }
    visited.set(x, 0, true);
    stack.push((x, 0));
    proof {
        let p = seq![(x as int, 0int)];
        assert(vacant_path(cells, p));
        assert(reached_from_top(cells, x as int, 0));
        assert(reaches(cells, origin, x as int, 0));
        assert forall|a: int, b: int|
            in_grid(cells, a, b) && #[trigger] visited@[b][a] && !start[b][a] implies reaches(cells, origin, a, b) by {
        }
        assert(fresh_from(cells, visited@, stack@, origin, start));
        let nv = visited@;
        assert forall|a: int, b: int| in_grid(cells, a, b) && #[trigger] nv[b][a]
            implies vacant(cells, a, b) && reached_from_top(cells, a, b) by {
            if a != x || b != 0 {
                assert(start[b][a]);
            }
        }
        assert forall|a: int, b: int|
            in_grid(cells, a, b) && #[trigger] nv[b][a] && !on_stack(stack@, a, b) && (a, b) != (-1int, -1int)
                implies settled(cells, nv, a, b) by {
            if a == x && b == 0 {
                assert(stack@[0] == (x, 0usize));
            } else {
                assert(start[b][a]);
            }
        }
    }
    while stack.len() > 0
        invariant
            cells == grid@,
            width == grid_width(cells),
            height == cells.len(),
            height > 0,
            rectangular(cells),
            search_state(cells, visited@, stack@, (-1int, -1int)),
            covers(cells, visited@, start),
            vacant(cells, x as int, 0) ==> visited@[0][x as int],
            origin == (x as int, 0int),
            fresh_from(cells, visited@, stack@, origin, start),
            visited@[0][x as int],
        decreases 2 * unmarked(visited@) + stack@.len(),
    {
        let ghost before = visited@;
        let ghost st = stack@;
        let (cx, cy) = stack.pop().unwrap();
        proof {
            assert(st[st.len() - 1] == (cx, cy));
            assert(before[cy as int][cx as int]);
            assert forall|a: int, b: int|
                in_grid(cells, a, b) && #[trigger] before[b][a] && !on_stack(stack@, a, b) && (a, b) != (cx as int, cy as int)
                    implies settled(cells, before, a, b) by {
                if on_stack(st, a, b) {
                    let i = choose|i: int| 0 <= i < st.len() && #[trigger] st[i] == (a as usize, b as usize);
                    if i < st.len() - 1 {
                        assert(stack@[i] == st[i]);
                    }
                }
            }
            assert forall|i: int| 0 <= i < stack@.len() implies in_grid(cells, #[trigger] stack@[i].0 as int, stack@[i].1 as int)
                && before[stack@[i].1 as int][stack@[i].0 as int] by {
                assert(stack@[i] == st[i]);
            }
        }
        proof {
            assert(!start[cy as int][cx as int]);
            assert(reaches(cells, origin, cx as int, cy as int));
            assert forall|i: int| 0 <= i < stack@.len() implies !start[#[trigger] stack@[i].1 as int][stack@[i].0 as int] by {
                assert(stack@[i] == st[i]);
            }
        }
        if cy == height - 1 {
            proof {
                let p = choose|p: Seq<(int, int)>|
                    #[trigger] vacant_path(cells, p) && p[0].1 == 0 && p.last() == (cx as int, cy as int);
                assert(spanning_path(cells, p));
                let q = choose|q: Seq<(int, int)>|
                    #[trigger] vacant_path(cells, q) && q[0] == origin && q.last() == (cx as int, cy as int);
                assert(q.last().1 == cells.len() - 1);
            }
            return true;
        }
        let ghost c = (cx as int, cy as int);
        if cx > 0 {
            visit(grid, visited, &mut stack, cx - 1, cy, Ghost(c), Ghost(origin), Ghost(start));
        }
        if cy > 0 {
            visit(grid, visited, &mut stack, cx, cy - 1, Ghost(c), Ghost(origin), Ghost(start));
        }
        if cx + 1 < width {
            visit(grid, visited, &mut stack, cx + 1, cy, Ghost(c), Ghost(origin), Ghost(start));
        }
        if cy + 1 < height {
            visit(grid, visited, &mut stack, cx, cy + 1, Ghost(c), Ghost(origin), Ghost(start));
        }
        proof {
            let nv = visited@;
            assert(settled(cells, nv, cx as int, cy as int));
            assert forall|a: int, b: int|
                in_grid(cells, a, b) && #[trigger] nv[b][a] && !on_stack(stack@, a, b) && (a, b) != (-1int, -1int)
                    implies settled(cells, nv, a, b) by {
                if (a, b) != c {
                }
            }
        }
    }
    proof {
        assert forall|p: Seq<(int, int)>|
            #[trigger] vacant_path(cells, p) && p[0] == (x as int, 0int) implies p.last().1 != cells.len() - 1 by {
            lemma_walk_marked(cells, visited@, p, p.len() - 1);
            let l = p.last();
            assert(vacant(cells, l.0, l.1));
            assert(in_grid(cells, l.0, l.1));
            assert(!on_stack(Seq::<(usize, usize)>::empty(), l.0, l.1));
            assert(settled(cells, visited@, l.0, l.1));
        }
    }
    false
}

/// With no cell left on the stack and every vacant top-row cell marked, no
/// vacant walk from the top row reaches the bottom row.
proof fn lemma_no_spanning_path(cells: Seq<Seq<bool>>, vis: Seq<Seq<bool>>)
    requires
        cells.len() > 0,
        search_state(cells, vis, Seq::empty(), (-1int, -1int)),
        forall|i: int| 0 <= i < grid_width(cells) && vacant(cells, i, 0) ==> #[trigger] vis[0][i],
    ensures
        !percolation(cells) || grid_width(cells) == 0,
{
    assert forall|p: Seq<(int, int)>| #[trigger] spanning_path(cells, p) implies false by {
        assert forall|k: int| 0 <= k < p.len() implies #[trigger] vis[p[k].1][p[k].0] by {
            lemma_path_marked(cells, vis, p, k);
        }
        let last = p.last();
        assert(vis[last.1][last.0]);
        assert(!on_stack(Seq::<(usize, usize)>::empty(), last.0, last.1));
        assert(settled(cells, vis, last.0, last.1));
    }
}

proof fn lemma_path_marked(cells: Seq<Seq<bool>>, vis: Seq<Seq<bool>>, p: Seq<(int, int)>, k: int)
    requires
        cells.len() > 0,
        search_state(cells, vis, Seq::empty(), (-1int, -1int)),
        forall|i: int| 0 <= i < grid_width(cells) && vacant(cells, i, 0) ==> #[trigger] vis[0][i],
        vacant_path(cells, p),
        p[0].1 == 0,
        0 <= k < p.len(),
    ensures
        vis[p[k].1][p[k].0],
    decreases k,
{
    assert(vacant(cells, p[k].0, p[k].1));
    if k == 0 {
        assert(vis[0][p[0].0]);
    } else {
        lemma_path_marked(cells, vis, p, k - 1);
        let a = p[k - 1];
        let b = p[k];
        assert(adjacent(p[k - 1], p[k]));
        assert(in_grid(cells, a.0, a.1));
        assert(!on_stack(Seq::<(usize, usize)>::empty(), a.0, a.1));
        assert(settled(cells, vis, a.0, a.1));
    }
}

} // verus!
