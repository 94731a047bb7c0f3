use std::collections::HashMap;

use mkpath::bitgrid::BitGrid;
use mkpath::canonical_expander::CanonicalGridExpander;
use mkpath::direction::Direction;
use mkpath::eight_connected::{EightConnectedExpander, GridEdge};
use mkpath::jps_plus::JpsPlusExpander;
use mkpath::jump_db::JumpDatabase;
use mkpath::node::{LayoutId, NodeBuilder, NodeRef};
use mkpath::pool::GridPool;

const SAFE_SQRT_2: f64 = std::f32::consts::SQRT_2 as f64;

fn open_grid(w: i32, h: i32) -> BitGrid {
    let mut g = BitGrid::new(w, h);
    for y in 0..h {
        for x in 0..w {
            g.set(x, y, true);
        }
    }
    g
}

fn edge_cost(e: &GridEdge) -> f64 {
    e.straight as f64 + e.diagonal as f64 * SAFE_SQRT_2
}

/// Dijkstra over whatever expansion `expand` performs; returns the cost to `target`.
fn search(
    w: i32,
    h: i32,
    start: (i32, i32),
    target: (i32, i32),
    mut expand: impl FnMut(&mut GridPool, NodeRef, &mut Vec<GridEdge>),
) -> Option<f64> {
    let mut b = NodeBuilder::new(LayoutId::new(50));
    let state = b.add_field((-1i32, -1i32));
    let mut pool = GridPool::new(b.build(), state, w, h);
    let mut g: HashMap<usize, f64> = HashMap::new();
    let mut closed: HashMap<usize, bool> = HashMap::new();
    let s = pool.generate(start);
    g.insert(s.index, 0.0);
    let mut open = vec![s];
    while !open.is_empty() {
        let (pos, _) = open
            .iter()
            .enumerate()
            .min_by(|a, b| g[&a.1.index].partial_cmp(&g[&b.1.index]).unwrap())
            .unwrap();
        let node = open.swap_remove(pos);
        if closed.contains_key(&node.index) {
            continue;
        }
        closed.insert(node.index, true);
        if node.get(pool.allocator(), state) == target {
            return Some(g[&node.index]);
        }
        let mut edges = vec![];
        expand(&mut pool, node, &mut edges);
        for e in edges {
            let ng = g[&node.index] + edge_cost(&e);
            let succ = e.successor;
            if g.get(&succ.index).map_or(true, |&old| ng < old) {
                g.insert(succ.index, ng);
                pool.set_parent(succ, Some(node));
                open.push(succ);
            }
        }
    }
    None
}

fn dijkstra_cost(map: &BitGrid, start: (i32, i32), target: (i32, i32)) -> Option<f64> {
    let (w, h) = (map.width(), map.height());
    search(w, h, start, target, |pool, node, edges| {
        let exp = EightConnectedExpander::new(map, pool, pool.state_member());
        exp.expand(pool, node, edges);
    })
}

fn canonical_cost(map: &BitGrid, start: (i32, i32), target: (i32, i32)) -> Option<f64> {
    let (w, h) = (map.width(), map.height());
    search(w, h, start, target, |pool, node, edges| {
        let exp = CanonicalGridExpander::new(map, pool.state_member());
        exp.expand(pool, node, edges);
    })
}

fn jps_plus_cost(map: &BitGrid, start: (i32, i32), target: (i32, i32)) -> Option<f64> {
    let db = JumpDatabase::new(map);
    let (w, h) = (map.width(), map.height());
    search(w, h, start, target, |pool, node, edges| {
        let exp = JpsPlusExpander::new(map, &db, pool, target);
        exp.expand(pool, node, edges);
    })
}

fn wall_map() -> BitGrid {
    let mut map = open_grid(8, 8);
    for y in 0..6 {
        map.set(4, y, false);
    }
    map
}

#[test]
fn scenario_wall_detour_cost() {
    let map = wall_map();
    let d = dijkstra_cost(&map, (2, 2), (6, 2)).unwrap();
    // Around the wall's end without cutting its corner: eight cardinal and two diagonal steps.
    assert_eq!(d, 8.0 + 2.0 * SAFE_SQRT_2);
    assert_eq!(canonical_cost(&map, (2, 2), (6, 2)).unwrap(), d);
    assert_eq!(jps_plus_cost(&map, (2, 2), (6, 2)).unwrap(), d);
}

#[test]
fn scenario_open_grid_diagonal() {
    let map = open_grid(16, 16);
    let expected = 15.0 * SAFE_SQRT_2;
    let d = dijkstra_cost(&map, (0, 0), (15, 15)).unwrap();
    assert!((d - expected).abs() < 1e-9);
    let j = jps_plus_cost(&map, (0, 0), (15, 15)).unwrap();
    assert!((j - expected).abs() < 1e-9);
}

#[test]
fn jps_plus_matches_dijkstra_on_small_maps() {
    let mut state: u64 = 99;
    for round in 0..12 {
        let (w, h) = (9 + round % 4, 7 + round % 3);
        let mut map = open_grid(w, h);
        for y in 0..h {
            for x in 0..w {
                state = state.wrapping_mul(6364136223846793005).wrapping_add(1442695040888963407);
                if (state >> 60) < 4 {
                    map.set(x, y, false);
                }
            }
        }
        map.set(0, 0, true);
        for (tx, ty) in [(w - 1, h - 1), (w / 2, h - 1), (w - 1, 0)] {
            map.set(tx, ty, true);
            let d = dijkstra_cost(&map, (0, 0), (tx, ty));
            let j = jps_plus_cost(&map, (0, 0), (tx, ty));
            let c = canonical_cost(&map, (0, 0), (tx, ty));
            match (d, j, c) {
                (Some(d), Some(j), Some(c)) => {
                    assert!((d - j).abs() < 1e-9, "round {round} target ({tx}, {ty}): {d} vs {j}");
                    assert!((d - c).abs() < 1e-9);
                }
                (None, None, None) => {}
                other => panic!("round {round}: reachability differs: {other:?}"),
            }
        }
    }
}

#[test]
fn jps_plus_stops_at_target_on_the_way() {
    let map = open_grid(10, 3);
    let db = JumpDatabase::new(&map);
    // The east jump from (0, 1) runs to the wall, but the target lies on the way.
    assert_eq!(db.ortho_jump_unchecked(&map, 0, 1, Direction::East, (4, 1)), Some(4));
    assert_eq!(db.ortho_jump_unchecked(&map, 0, 1, Direction::East, (4, 2)), None);
    // Diagonal from (0, 0) passes the column of (2, 2) directly.
    assert_eq!(db.diagonal_jump_unchecked(&map, 0, 0, Direction::SouthEast, (2, 2)), Some((2, None)));
    // Passing the row of (5, 2) after two steps, it turns east for the remaining three.
    let r = db.diagonal_jump_unchecked(&map, 0, 0, Direction::SouthEast, (5, 2));
    assert_eq!(r, Some((2, Some((Direction::East, 3)))));
}
