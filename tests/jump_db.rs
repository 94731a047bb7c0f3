use mkpath::bitgrid::BitGrid;
use mkpath::direction::Direction;
use mkpath::jump_db::JumpDatabase;
use mkpath::jump_points::independent_jump_points;
use mkpath::online_jump::{jump_left, jump_right, JpsGrid};

fn open_grid(w: i32, h: i32) -> BitGrid {
    let mut g = BitGrid::new(w, h);
    for y in 0..h {
        for x in 0..w {
            g.set(x, y, true);
        }
    }
    g
}

#[test]
fn jump_db_open_grid() {
    let map = open_grid(8, 8);
    let db = JumpDatabase::new(&map);
    assert_eq!(db.width(), 8);
    assert_eq!(db.height(), 8);
    assert_eq!(db.get(&map, 0, 0, Direction::East), (7, false));
    assert_eq!(db.get(&map, 0, 0, Direction::NorthEast), (0, false));
    assert_eq!(db.get(&map, 0, 0, Direction::SouthEast), (7, false));
    assert_eq!(db.get(&map, 7, 7, Direction::North), (7, false));
    assert_eq!(db.get(&map, 3, 3, Direction::West), (3, false));
}

#[test]
fn jump_db_wall_makes_jump_points() {
    // 8x8 with a wall at x = 4 for y in 0..6.
    let mut map = open_grid(8, 8);
    for y in 0..6 {
        map.set(4, y, false);
    }
    let db = JumpDatabase::new(&map);
    // Going south along x = 3, the cell (3, 6) has an open east neighbour past the wall's end,
    // so (3, 6) is a jump point reached from (3, 2) after 4 steps.
    assert_eq!(db.get(&map, 3, 2, Direction::South), (4, true));
    // Going east from (2, 2) hits the wall after one step.
    assert_eq!(db.get(&map, 2, 2, Direction::East), (1, false));
    // Blocked at once.
    assert_eq!(db.get(&map, 3, 2, Direction::East), (0, false));
}

/// Whether the cell reached by a straight move in `(dx, dy)` has a forced neighbour.
fn forced(map: &BitGrid, x: i32, y: i32, dx: i32, dy: i32) -> bool {
    let (lx, ly) = (-dy, dx);
    let side = |sx: i32, sy: i32| map.get(x + sx, y + sy) && !map.get(x + sx - dx, y + sy - dy);
    side(lx, ly) || side(-lx, -ly)
}

#[test]
fn jump_db_agrees_with_step_by_step_scan() {
    let mut map = open_grid(12, 9);
    for (x, y) in [(3, 2), (3, 3), (7, 5), (8, 5), (1, 7), (10, 1)] {
        map.set(x, y, false);
    }
    let db = JumpDatabase::new(&map);
    for y in 0..9 {
        for x in 0..12 {
            if !map.get(x, y) {
                continue;
            }
            for d in [Direction::North, Direction::West, Direction::South, Direction::East] {
                let (dx, dy) = d.vector();
                let (mut cx, mut cy) = (x, y);
                let mut steps = 0;
                let mut jp = false;
                while map.get(cx + dx, cy + dy) {
                    cx += dx;
                    cy += dy;
                    steps += 1;
                    if forced(&map, cx, cy, dx, dy) {
                        jp = true;
                        break;
                    }
                }
                assert_eq!(db.get(&map, x, y, d), (steps, jp), "cell ({x}, {y}) going {d:?}");
            }
        }
    }
}

#[test]
fn independent_jump_points_around_a_wall() {

    let mut map = open_grid(8, 8);
    for y in 0..6 {
        map.set(4, y, false);
    }
    let db = JumpDatabase::new(&map);
    let jps = independent_jump_points(&map, &db);
    // Going south past the wall's end at (3, 6) opens east: a cardinal jump point.
    assert!(jps.get(3, 6).contains(Direction::South));
    assert!(jps.get(5, 6).contains(Direction::South));
    // Open cells far from the wall are no jump points.
    assert!(jps.get(0, 0).is_empty());
    assert!(jps.get(1, 7).is_empty() || !jps.get(1, 7).contains(Direction::North));
    // Blocked cells never are.
    assert!(jps.get(4, 2).is_empty());
}

#[test]
fn online_scan_agrees_with_database() {
    let mut state: u64 = 5;
    for (w, h) in [(9, 5), (70, 4), (130, 6)] {
        let mut map = open_grid(w, h);
        for y in 0..h {
            for x in 0..w {
                state = state.wrapping_mul(6364136223846793005).wrapping_add(1442695040888963407);
                if (state >> 60) < 2 {
                    map.set(x, y, false);
                }
            }
        }
        let db = JumpDatabase::new(&map);
        for y in 0..h {
            for x in 0..w {
                if !map.get(x, y) {
                    continue;
                }
                let (dist, jp) = db.get(&map, x, y, Direction::East);
                let expected = (x + dist + if jp { 0 } else { 1 }, jp);
                assert_eq!(jump_right(&map, x, y), expected, "({x}, {y})");
                let (dist, jp) = db.get(&map, x, y, Direction::West);
                let expected = (x - dist - if jp { 0 } else { 1 }, jp);
                assert_eq!(jump_left(&map, x, y), expected, "({x}, {y}) west");
            }
        }
    }
}

#[test]
fn online_vertical_scan_agrees_with_database() {
    let mut state: u64 = 17;
    let (w, h) = (7, 90);
    let mut map = open_grid(w, h);
    for y in 0..h {
        for x in 0..w {
            state = state.wrapping_mul(6364136223846793005).wrapping_add(1442695040888963407);
            if (state >> 60) < 2 {
                map.set(x, y, false);
            }
        }
    }
    let db = JumpDatabase::new(&map);
    let grid = JpsGrid::from(map);
    let map = grid.map();
    for y in 0..h {
        for x in 0..w {
            if !map.get(x, y) {
                continue;
            }
            let (dist, jp) = db.get(map, x, y, Direction::South);
            assert_eq!(grid.jump_down(x, y), (y + dist + if jp { 0 } else { 1 }, jp));
            let (dist, jp) = db.get(map, x, y, Direction::North);
            assert_eq!(grid.jump_up(x, y), (y - dist - if jp { 0 } else { 1 }, jp));
        }
    }
}
