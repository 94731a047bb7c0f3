use mkpath::canonical::{canonical_successors, in_direction, reached_direction, skipped_past};
use mkpath::direction::{DirSet, Direction};

const ALL: [Direction; 8] = [
    Direction::North,
    Direction::West,
    Direction::South,
    Direction::East,
    Direction::NorthWest,
    Direction::SouthWest,
    Direction::SouthEast,
    Direction::NorthEast,
];

#[test]
fn canonical_successors_are_traversable_and_start_successors() {
    for nb in 0..256 {
        let nb = DirSet::from_u8(nb as u8);
        let start = canonical_successors(nb, None);
        assert!(start.is_subset(nb));
        for d in ALL {
            let c = canonical_successors(nb, Some(d));
            assert!(c.is_subset(nb));
            assert!(c.is_subset(start));
        }
    }
}

#[test]
fn canonical_open_grid_goes_straight() {
    let nb = DirSet::all();
    assert_eq!(canonical_successors(nb, Some(Direction::North)), DirSet::single(Direction::North));
    assert_eq!(
        canonical_successors(nb, Some(Direction::NorthEast)),
        DirSet::single(Direction::NorthEast)
            .insert(Direction::North)
            .insert(Direction::East)
    );
    assert_eq!(canonical_successors(nb, None), DirSet::all());
}

#[test]
fn canonical_forced_neighbour() {
    // Going north with the south-west cell blocked: west becomes a forced neighbour, and
    // north-west follows because north and north-west are open.
    let nb = DirSet::all().intersection(DirSet::from_u8(!Direction::SouthWest.bit()));
    let c = canonical_successors(nb, Some(Direction::North));
    assert!(c.contains(Direction::North));
    assert!(c.contains(Direction::West));
    assert!(c.contains(Direction::NorthWest));
    assert!(!c.contains(Direction::East));
}

#[test]
fn canonical_start_needs_wedge() {
    let nb = DirSet::single(Direction::North).insert(Direction::NorthEast);
    let c = canonical_successors(nb, None);
    assert_eq!(c, DirSet::single(Direction::North));
}

#[test]
fn reached_direction_cases() {
    assert_eq!(reached_direction((0, 0), (5, 1)), Some(Direction::East));
    assert_eq!(reached_direction((0, 0), (-5, 1)), Some(Direction::West));
    assert_eq!(reached_direction((0, 0), (1, -5)), Some(Direction::North));
    assert_eq!(reached_direction((0, 0), (1, 5)), Some(Direction::South));
    assert_eq!(reached_direction((3, 3), (1, 1)), Some(Direction::NorthWest));
    assert_eq!(reached_direction((3, 3), (1, 5)), Some(Direction::SouthWest));
    assert_eq!(reached_direction((3, 3), (5, 5)), Some(Direction::SouthEast));
    assert_eq!(reached_direction((3, 3), (5, 1)), Some(Direction::NorthEast));
    assert_eq!(reached_direction((3, 3), (3, 3)), None);
}

#[test]
fn skipped_past_checks_both_sides() {
    assert!(skipped_past(1, 0, 10, 5));
    assert!(!skipped_past(1, 0, 10, 10));
    assert!(!skipped_past(1, 0, 10, 0));
    assert!(skipped_past(-1, 10, 0, 5));
    assert!(!skipped_past(-1, 10, 0, 11));
    assert!(in_direction(-1, 3, 2));
    assert!(!in_direction(1, 3, 2));
}

#[test]
fn direction_basics() {
    for (i, d) in ALL.iter().enumerate() {
        assert_eq!(d.index(), i);
        assert_eq!(Direction::try_from(i), Some(*d));
        assert_eq!(d.backwards().backwards(), *d);
        assert_eq!(d.bit(), 1u8 << i);
        let (dx, dy) = d.vector();
        let (bx, by) = d.backwards().vector();
        assert_eq!((dx + bx, dy + by), (0, 0));
        assert_eq!(d.orthogonal(), i < 4);
    }
    assert_eq!(Direction::try_from(8), None);
    assert_eq!(Direction::North.vector(), (0, -1));
}
