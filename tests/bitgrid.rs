use mkpath::bitgrid::BitGrid;
use mkpath::direction::Direction;

fn open_grid(w: i32, h: i32) -> BitGrid {
    let mut g = BitGrid::new(w, h);
    for y in 0..h {
        for x in 0..w {
            g.set(x, y, true);
        }
    }
    g
}

#[test]
fn bitgrid_new_is_blocked() {
    let g = BitGrid::new(10, 4);
    assert_eq!(g.width(), 10);
    assert_eq!(g.height(), 4);
    for y in -1..=4 {
        for x in -1..=10 {
            assert!(!g.get(x, y));
        }
    }
}

#[test]
fn bitgrid_set_and_get() {
    let mut g = BitGrid::new(9, 9);
    g.set(3, 4, true);
    g.set(8, 8, true);
    g.set(0, 0, true);
    g.set(0, 0, false);
    assert!(g.get(3, 4));
    assert!(g.get(8, 8));
    assert!(!g.get(0, 0));
    assert!(!g.get(9, 8));
    assert!(!g.get(-1, 4));
    assert!(!g.get(4, 3));
}

#[test]
fn bitgrid_row_right_matches_cells() {
    for w in [1, 7, 8, 9, 63, 64, 100] {
        let mut g = BitGrid::new(w, 3);
        for x in 0..w {
            if (x * 7 + 3) % 5 < 3 {
                g.set(x, 1, true);
            }
        }
        for x in -1..=w {
            let row = g.get_row_right(x, 1);
            for k in 0..57 {
                if x + k > w {
                    break;
                }
                assert_eq!((row >> k) & 1 == 1, g.get(x + k, 1), "w {w} x {x} k {k}");
            }
        }
    }
}

#[test]
fn bitgrid_row_left_matches_cells() {
    for w in [1, 8, 9, 70] {
        let mut g = BitGrid::new(w, 3);
        for x in 0..w {
            if x % 3 != 1 {
                g.set(x, 1, true);
            }
        }
        for x in -1..=w {
            let row = g.get_row_left(x, 1);
            for k in 0..57 {
                if x - k < -1 {
                    break;
                }
                assert_eq!((row >> (63 - k)) & 1 == 1, g.get(x - k, 1));
            }
        }
    }
}

#[test]
fn bitgrid_neighborhood() {
    let g = open_grid(3, 3);
    assert_eq!(g.get_neighborhood(1, 1).as_u8(), 0xff);
    let corner = g.get_neighborhood(0, 0);
    assert!(corner.contains(Direction::East));
    assert!(corner.contains(Direction::South));
    assert!(corner.contains(Direction::SouthEast));
    assert!(!corner.contains(Direction::North));
    assert!(!corner.contains(Direction::West));
    assert!(!corner.contains(Direction::NorthWest));
    assert!(!corner.contains(Direction::NorthEast));
    assert!(!corner.contains(Direction::SouthWest));
}
