use mkpath::bitgrid::BitGrid;
use mkpath::bucket_queue::BucketQueueFactory;
use mkpath::canonical_expander::CanonicalGridExpander;
use mkpath::direction::Direction::{
    East, North, NorthEast, NorthWest, South, SouthEast, SouthWest, West,
};
use mkpath::direction::{DirSet, Direction};
use mkpath::eight_connected::{EightConnectedExpander, GridEdge};
use mkpath::node::{LayoutId, NodeBuilder};
use mkpath::pool::{GridPool, NullPool};

fn open_grid(w: i32, h: i32) -> BitGrid {
    let mut g = BitGrid::new(w, h);
    for y in 0..h {
        for x in 0..w {
            g.set(x, y, true);
        }
    }
    g
}

fn grid_pool(w: i32, h: i32) -> GridPool {
    let mut b = NodeBuilder::new(LayoutId::new(11));
    let state = b.add_field((-1i32, -1i32));
    GridPool::new(b.build(), state, w, h)
}

#[test]
fn grid_pool_generates_once_per_search() {
    let mut pool = grid_pool(5, 5);
    assert_eq!(pool.get((2, 3)), None);
    let a = pool.generate((2, 3));
    let b = pool.generate((2, 3));
    assert_eq!(a, b);
    assert_eq!(pool.get((2, 3)), Some(a));
    let c = pool.generate((0, 0));
    assert_ne!(a, c);
    assert_eq!(a.get(pool.allocator(), pool.state_member()), (2, 3));
    pool.reset();
    assert_eq!(pool.get((2, 3)), None);
    let d = pool.generate((2, 3));
    assert_eq!(d.get(pool.allocator(), pool.state_member()), (2, 3));
    assert_eq!(pool.width(), 5);
    assert_eq!(pool.height(), 5);
}

#[test]
fn null_pool_always_makes_new_nodes() {
    let mut b = NodeBuilder::new(LayoutId::new(12));
    let state = b.add_field(0u64);
    let mut pool = NullPool::new(b.build(), state);
    let a = pool.generate(4);
    let c = pool.generate(4);
    assert_ne!(a, c);
    assert_eq!(pool.get(&4), None);
}

fn dirs(edges: &[GridEdge]) -> Vec<Direction> {
    edges.iter().map(|e| e.direction).collect()
}

#[test]
fn eight_connected_open_cell_has_eight_edges() {
    let map = open_grid(3, 3);
    let mut pool = grid_pool(3, 3);
    let start = pool.generate((1, 1));
    let exp = EightConnectedExpander::new(&map, &pool, pool.state_member());
    let mut edges = vec![];
    exp.expand(&mut pool, start, &mut edges);
    assert_eq!(
        dirs(&edges),
        vec![North, South, West, NorthWest, SouthWest, East, NorthEast, SouthEast]
    );
    for e in &edges {
        let (dx, dy) = e.direction.vector();
        assert_eq!(e.successor.get(pool.allocator(), pool.state_member()), (1 + dx, 1 + dy));
        assert_eq!(e.straight + e.diagonal, 1);
        assert_eq!(e.diagonal == 1, !e.direction.orthogonal());
    }
}

#[test]
fn eight_connected_no_corner_cutting() {
    let mut map = open_grid(3, 3);
    map.set(1, 0, false);
    let mut pool = grid_pool(3, 3);
    let start = pool.generate((1, 1));
    let exp = EightConnectedExpander::new(&map, &pool, pool.state_member());
    let mut edges = vec![];
    exp.expand(&mut pool, start, &mut edges);
    assert_eq!(dirs(&edges), vec![South, West, SouthWest, East, SouthEast]);
}

#[test]
fn canonical_expander_follows_parent_direction() {
    let map = open_grid(5, 5);
    let mut pool = grid_pool(5, 5);
    let state = pool.state_member();
    let parent = pool.generate((1, 2));
    let node = pool.generate((2, 2));
    let exp = CanonicalGridExpander::new(&map, state);
    // Without a parent: every move.
    let mut edges = vec![];
    exp.expand(&mut pool, parent, &mut edges);
    assert_eq!(edges.len(), 8);
    // Reached going east on an open grid: only east.
    pool.set_parent(node, Some(parent));
    let mut edges = vec![];
    exp.expand(&mut pool, node, &mut edges);
    assert_eq!(dirs(&edges), vec![East]);
    assert_eq!(edges[0].successor.get(pool.allocator(), state), (3, 2));
    // Reached going north-east: north, east and north-east.
    let diag_parent = pool.generate((1, 3));
    pool.set_parent(node, Some(diag_parent));
    let mut edges = vec![];
    exp.expand(&mut pool, node, &mut edges);
    assert_eq!(dirs(&edges), vec![North, East, NorthEast]);
    // An explicit successor set, in direction order.
    let mut edges = vec![];
    exp.expand_unchecked(&mut pool, node, &mut edges, DirSet::single(East).insert(North));
    assert_eq!(dirs(&edges), vec![North, East]);
}

#[test]
fn bucket_queue_pops_in_bucket_order() {
    let mut b = NodeBuilder::new(LayoutId::new(3));
    let factory = BucketQueueFactory::new(&mut b);
    let mut nodes = b.build();
    let mut q = factory.new_queue();
    let n: Vec<_> = (0..5).map(|_| nodes.new_node()).collect();
    q.relaxed_to(&mut nodes, n[0], 3);
    q.relaxed_to(&mut nodes, n[1], 1);
    q.relaxed_to(&mut nodes, n[2], 2);
    q.relaxed_to(&mut nodes, n[3], 1);
    // decrease n[0] from bucket 3 to bucket 2
    q.relaxed_to(&mut nodes, n[0], 2);
    let mut out = vec![];
    while let Some(x) = q.next(&nodes) {
        out.push(x);
        if x == n[1] || x == n[3] {
            // a node opened later, in a later bucket
            if out.len() == 2 {
                q.relaxed_to(&mut nodes, n[4], 5);
            }
        }
    }
    assert_eq!(out.len(), 5);
    let bucket = |x| {
        if x == n[1] || x == n[3] {
            1
        } else if x == n[0] || x == n[2] {
            2
        } else {
            5
        }
    };
    for w in out.windows(2) {
        assert!(bucket(w[0]) <= bucket(w[1]));
    }
    assert!(q.next(&nodes).is_none());
}
