use coursework::paperio::data::{Cell, Direction, Player, Point, World};
use coursework::paperio::strategy::Strategy;

fn world(me: (i32, i32), mine: &[(i32, i32)], enemies: &[&[(i32, i32)]]) -> World {
    World {
        me: Player {
            position: Point(me.0, me.1),
            territory: mine.iter().map(|p| Point(p.0, p.1)).collect(),
        },
        enemies: enemies
            .iter()
            .map(|t| Player {
                position: Point(t[0].0, t[0].1),
                territory: t.iter().map(|p| Point(p.0, p.1)).collect(),
            })
            .collect(),
    }
}

#[test]
fn outside_territory_keeps_direction() {
    let mut s = Strategy::new();
    assert_eq!(s.on_tick(world((60, 60), &[], &[])), Direction::Down);
}

#[test]
fn corner_without_enemies() {
    let mut s = Strategy::default();
    assert_eq!(s.on_tick(world((0, 0), &[(0, 0)], &[])), Direction::Down);
}

#[test]
fn heads_along_the_best_rectangle() {
    let mut s = Strategy::new();
    let w = world((60, 60), &[(60, 60), (30, 60), (60, 30)], &[&[(300, 300), (330, 300)]]);
    assert_eq!(s.on_tick(w), Direction::Right);
}

#[test]
fn turns_left_toward_the_plan() {
    let mut s = Strategy::new();
    assert_eq!(s.on_tick(world((90, 0), &[(90, 0)], &[&[(0, 0)]])), Direction::Left);
    assert_eq!(s.on_tick(world((90, 0), &[(90, 0)], &[&[(0, 0)]])), Direction::Left);
}

#[test]
fn cells_and_points() {
    assert_eq!(Point(65, 31).to_cell(), Cell(2, 1));
    assert_eq!(Point(-31, 0).to_cell(), Cell(-1, 0));
    assert!(Cell(30, 0).in_bounds());
    assert!(!Cell(31, 0).in_bounds());
    assert!(!Cell(-1, 5).in_bounds());
    assert_eq!(Cell(1, 2).distance_to(Cell(4, -2)), 7);
    assert_eq!(Cell(3, 4).to_point(), Point(90, 120));
}
