use mkpath::bb::{assign_target, PartialCellBb, Rectangle};
use mkpath::bitgrid::BitGrid;
use mkpath::direction::{DirSet, Direction};
use mkpath::grid::Grid;
use mkpath::jump_db::JumpDatabase;
use mkpath::jps_bb::JpsBbExpander;
use mkpath::jps_plus::JpsPlusExpander;
use mkpath::node::{LayoutId, NodeBuilder};
use mkpath::pool::GridPool;

#[test]
fn grid_new_calls_with_coordinates() {
    let g = Grid::new(4, 3, |x, y| x * 10 + y);
    assert_eq!(g.width(), 4);
    assert_eq!(g.height(), 3);
    assert_eq!(*g.get(3, 2), 32);
    assert_eq!(*g.get(1, 0), 10);
    assert_eq!(g.storage().len(), 12);
    assert_eq!(g.index(1, 2), 9);
    assert!(g.bounds_check(3, 2));
    assert!(!g.bounds_check(4, 0));
    assert!(!g.bounds_check(0, -1));
}

#[test]
fn grid_set_changes_one_cell() {
    let mut g = Grid::new(3, 3, |_, _| 0u8);
    g.set(1, 1, 5);
    assert_eq!(*g.get(1, 1), 5);
    assert_eq!(g.storage().iter().map(|&v| v as u32).sum::<u32>(), 5);
}

#[test]
fn rectangle_grow_and_contains() {
    let mut r = Rectangle::empty();
    assert!(r.is_empty());
    assert_eq!(r.area_increase_from_grow(3, 4), 1);
    r.grow(3, 4);
    assert!(!r.is_empty());
    assert!(r.contains(3, 4));
    assert!(!r.contains(4, 4));
    assert_eq!(r.area_increase_from_grow(3, 4), 0);
    assert_eq!(r.area_increase_from_grow(1, 4), 2);
    r.grow(5, 6);
    assert_eq!(r, Rectangle { low_x: 3, low_y: 4, high_x: 6, high_y: 7 });
    assert!(r.contains(5, 6));
    assert!(r.contains(4, 5));
    assert_eq!(r.area_increase_from_grow(0, 5), 9);
}

#[test]
fn assign_target_picks_smallest_growth() {
    let mut rects = vec![Rectangle::empty(); 8];
    rects[1].grow(10, 10);
    rects[3].grow(0, 0);
    let fm = DirSet::single(Direction::West).insert(Direction::East);
    // West's box is at (10, 10); East's at (0, 0). Target (1, 1) grows East's least.
    let best = assign_target(&mut rects, fm, 1, 1);
    assert_eq!(best, 3);
    assert!(rects[3].contains(1, 1));
    assert!(!rects[1].contains(1, 1));
    // On a tie the first direction wins.
    let mut fresh = vec![Rectangle::empty(); 8];
    let best = assign_target(&mut fresh, DirSet::all(), 2, 2);
    assert_eq!(best, 0);
}

#[test]
fn partial_bb_filter() {
    let mut map = BitGrid::new(4, 4);
    for y in 0..4 {
        for x in 0..4 {
            map.set(x, y, true);
        }
    }
    let db = JumpDatabase::new(&map);
    let mut boxes = Grid::new(4, 4, |_, _| None);
    let mut rects = vec![Rectangle::empty(); 8];
    rects[Direction::East.index()].grow(3, 3);
    rects[Direction::South.index()].grow(1, 3);
    boxes.set(1, 1, Some(rects));
    let bb = PartialCellBb::from_parts(map, db, boxes).unwrap();
    let all = DirSet::all();
    let kept = bb.filter((1, 1), (3, 3), all);
    assert_eq!(kept, DirSet::single(Direction::East));
    let kept = bb.filter((1, 1), (1, 3), all);
    assert_eq!(kept, DirSet::single(Direction::South));
    // no boxes at (0, 0): everything passes
    assert_eq!(bb.filter((0, 0), (3, 3), all), all);
    assert_eq!(bb.map().width(), 4);
    assert_eq!(bb.jump_db().width(), 4);
}

#[test]
fn partial_bb_rejects_mismatched_sizes() {
    let map = BitGrid::new(4, 4);
    let db = JumpDatabase::new(&map);
    let boxes: Grid<Option<Vec<Rectangle>>> = Grid::new(3, 4, |_, _| None);
    assert!(PartialCellBb::from_parts(map, db, boxes).is_none());
    let map = BitGrid::new(2, 2);
    let db = JumpDatabase::new(&map);
    let mut boxes: Grid<Option<Vec<Rectangle>>> = Grid::new(2, 2, |_, _| None);
    boxes.set(0, 0, Some(vec![Rectangle::empty(); 3]));
    assert!(PartialCellBb::from_parts(map, db, boxes).is_none());
}

#[test]
fn jps_bb_expander_keeps_allowed_moves() {
    let open = || {
        let mut m = BitGrid::new(6, 6);
        for y in 0..6 {
            for x in 0..6 {
                m.set(x, y, true);
            }
        }
        m
    };
    let map = open();
    let db = JumpDatabase::new(&map);
    let mut boxes = Grid::new(6, 6, |_, _| None);
    let mut rects = vec![Rectangle::empty(); 8];
    rects[Direction::SouthEast.index()].grow(5, 5);
    boxes.set(1, 1, Some(rects));
    let bb = PartialCellBb::from_parts(map, db, boxes).unwrap();
    let mut b = NodeBuilder::new(LayoutId::new(77));
    let state = b.add_field((-1i32, -1i32));
    let mut pool = GridPool::new(b.build(), state, 6, 6);
    let start = pool.generate((1, 1));
    let jps = JpsPlusExpander::new(bb.map(), bb.jump_db(), &pool, (5, 5));
    let exp = JpsBbExpander::new(jps, &bb);
    let mut edges = vec![];
    let allowed = exp.expand(&mut pool, start, &mut edges);
    // Only the south-east box holds the target: the diagonal jump reaches it directly.
    assert_eq!(allowed, DirSet::single(Direction::SouthEast));
    assert_eq!(edges.len(), 1);
    assert_eq!(edges[0].successor.get(pool.allocator(), state), (5, 5));
    assert_eq!(edges[0].diagonal, 4);
}
