use mkpath::bitgrid::BitGrid;
use mkpath::cpd::CpdRow;
use mkpath::direction::Direction;
use mkpath::grid::Grid;
use mkpath::jump_db::JumpDatabase;
use mkpath::topping::{cpd_step, cpd_walk, PartialCellCpd};

fn open_grid(w: i32, h: i32) -> BitGrid {
    let mut g = BitGrid::new(w, h);
    for y in 0..h {
        for x in 0..w {
            g.set(x, y, true);
        }
    }
    g
}

/// A database for an open 6x6 map whose rows send every target in one direction `d`.
fn database(rows_at: &[((i32, i32), Direction)]) -> PartialCellCpd {
    let ids = Grid::new(6, 6, |x, y| (y * 6 + x) as usize);
    let mut rows: Grid<Option<CpdRow>> = Grid::new(6, 6, |_, _| None);
    for &((x, y), d) in rows_at {
        let fm: Vec<u64> = vec![1u64 << d.index(); 36];
        rows.set(x, y, Some(CpdRow::compress(&fm)));
    }
    PartialCellCpd::from_parts(ids, rows).unwrap()
}

#[test]
fn cpd_query_reads_the_row() {
    let cpd = database(&[((1, 1), Direction::SouthEast)]);
    assert_eq!(cpd.query((1, 1), (5, 5)), Some(Direction::SouthEast));
    assert_eq!(cpd.query_id((1, 1), 7), Some(Direction::SouthEast.index()));
    assert_eq!(cpd.query((2, 2), (5, 5)), None);
    assert_eq!(cpd.query_id((2, 2), 0), None);
}

#[test]
fn cpd_walk_follows_moves_to_target() {
    let map = open_grid(6, 6);
    let db = JumpDatabase::new(&map);
    // From (1, 1) the stored move is south-east; the diagonal runs into the target (5, 5).
    let cpd = database(&[((1, 1), Direction::SouthEast)]);
    assert_eq!(cpd_step(&map, &db, &cpd, (0, 0), (1, 1), (5, 5)), Some((5, 5)));
    let walk = cpd_walk(&map, &db, &cpd, (0, 0), (1, 1), (5, 5), 36).unwrap();
    assert_eq!(walk, vec![(1, 1), (5, 5)]);
    // The diagonal passes the target's row and turns east to reach (5, 3).
    let walk = cpd_walk(&map, &db, &cpd, (0, 0), (1, 1), (5, 3), 36);
    assert_eq!(walk, Some(vec![(1, 1), (5, 3)]));
}

#[test]
fn cpd_walk_rejects_non_canonical_moves() {
    let map = open_grid(6, 6);
    let db = JumpDatabase::new(&map);
    // Entering (2, 2) going east, a stored move north-west is not canonical.
    let cpd = database(&[((2, 2), Direction::NorthWest)]);
    assert_eq!(cpd_step(&map, &db, &cpd, (1, 2), (2, 2), (0, 0)), None);
    assert_eq!(cpd_walk(&map, &db, &cpd, (1, 2), (2, 2), (0, 0), 36), None);
    // A cell without a row gives no move either.
    assert_eq!(cpd_walk(&map, &db, &cpd, (1, 1), (3, 3), (0, 0), 36), None);
    // With no steps left the walk ends unless it already stands on the target.
    assert_eq!(cpd_walk(&map, &db, &cpd, (1, 1), (0, 0), (0, 0), 0), Some(vec![(0, 0)]));
}
