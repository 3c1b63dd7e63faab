use coursework::perc::{percolates, BoolGrid};

fn grid(rows: &[&str]) -> BoolGrid {
    let height = rows.len();
    let width = if height == 0 { 0 } else { rows[0].len() };
    let mut g = BoolGrid::new(width, height);
    for (y, row) in rows.iter().enumerate() {
        for (x, c) in row.chars().enumerate() {
            g.set(x, y, c == '#');
        }
    }
    g
}

#[test]
fn new_grid_is_vacant() {
    let g = BoolGrid::new(4, 3);
    assert_eq!(g.width(), 4);
    assert_eq!(g.height(), 3);
    for y in 0..3 {
        for x in 0..4 {
            assert!(!g.get(x, y));
        }
    }
}

#[test]
fn set_then_get() {
    let mut g = BoolGrid::new(3, 2);
    g.set(2, 1, true);
    assert!(g.get(2, 1));
    assert!(!g.get(1, 1));
    assert!(!g.get(2, 0));
    g.set(2, 1, false);
    assert!(!g.get(2, 1));
}

#[test]
fn empty_grids_percolate() {
    assert!(percolates(&BoolGrid::new(0, 5)));
    assert!(percolates(&BoolGrid::new(5, 0)));
    assert!(percolates(&BoolGrid::new(0, 0)));
}

#[test]
fn vacant_grid_percolates() {
    assert!(percolates(&BoolGrid::new(3, 3)));
}

#[test]
fn blocked_row_stops_percolation() {
    assert!(!percolates(&grid(&["...", "###", "..."])));
}

#[test]
fn straight_column_percolates() {
    assert!(percolates(&grid(&["#.#", "#.#", "#.#"])));
}

#[test]
fn winding_path_percolates() {
    assert!(percolates(&grid(&[".####", "...##", "##.##", "#..##", "#.###"])));
}

#[test]
fn path_that_climbs_back_up_percolates() {
    let rows = ["#.####", "#.#...", "#.#.#.", "#...#.", "#####."];
    assert!(percolates(&grid(&rows)));
    let mut g = grid(&rows);
    g.set(4, 1, true);
    assert!(!percolates(&g));
}

#[test]
fn diagonal_neighbours_do_not_connect() {
    assert!(!percolates(&grid(&[".##", "#.#", "##."])));
}

#[test]
fn single_row() {
    assert!(percolates(&grid(&["##.#"])));
    assert!(!percolates(&grid(&["####"])));
}

#[test]
fn opening_a_cell_keeps_percolation() {
    let mut g = grid(&["#.#", "###", "#.#"]);
    assert!(!percolates(&g));
    g.set(1, 1, false);
    assert!(percolates(&g));
    g.set(0, 1, false);
    assert!(percolates(&g));
    g.set(1, 0, true);
    assert!(!percolates(&g));
}

#[test]
fn width_is_the_width_given() {
    assert_eq!(BoolGrid::new(5, 0).width(), 5);
    assert_eq!(BoolGrid::new(3, 2).width(), 3);
    assert_eq!(BoolGrid::new(0, 4).width(), 0);
}
