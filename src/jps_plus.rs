//! Jump point search with precomputed jumps (JPS+): from each canonical successor direction,
//! jump straight to the next jump point using the jump database, stopping at the target when a
//! jump passes over it.
use vstd::prelude::*;
use crate::bitgrid::{BitGrid, in_map, neighborhood_bits};
use crate::canonical::{canonical_bits, canonical_successors, reached_direction, spec_reached_direction};
use crate::canonical_expander::{dirs_upto, set_dirs};
use crate::direction::{Direction, DirSet, dir_at, dir_index, lemma_dir_bit, spec_orthogonal};
use crate::eight_connected::GridEdge;
use crate::jump_db::{
    JumpDatabase, diag_parts, jump_entry, lemma_jump_path, room, spec_diag_target_jump, spec_ortho_target_jump, step_of,
};
use crate::node::{NodeMemberPointer, NodeRef, field_value};
use crate::pool::GridPool;

verus! {

/// A diagonal cell is `k` steps of the direction's unit step away.
pub proof fn lemma_diag_cell_step(d: Direction, x: int, y: int, k: int)
    requires
        dir_index(d) >= 4,
    ensures
        diag_cell(d, x, y, k) == (x + step_of(dir_index(d)).0 * k, y + step_of(dir_index(d)).1 * k),
{
    match d {
        Direction::NorthWest => {
            assert((-1) * k == -k) by (nonlinear_arith);
        },
        Direction::NorthEast => {
            assert((-1) * k == -k && 1 * k == k) by (nonlinear_arith);
        },
        Direction::SouthEast => {
            assert(1 * k == k) by (nonlinear_arith);
        },
        _ => {
            assert((-1) * k == -k && 1 * k == k) by (nonlinear_arith);
        },
    }
}

/// A successor found by a jump: its cell, the number of cardinal and of diagonal steps to it,
/// and the direction of the first move.
pub type Found = (int, int, int, int, Direction);

/// The cell `dist` steps from `(x, y)` in cardinal direction `d`.
pub open spec fn ortho_cell(d: Direction, x: int, y: int, dist: int) -> (int, int) {
    match d {
        Direction::North => (x, y - dist),
        Direction::West => (x - dist, y),
        Direction::South => (x, y + dist),
        _ => (x + dist, y),
    }
}

/// The cell `dist` steps from `(x, y)` in diagonal direction `d`.
pub open spec fn diag_cell(d: Direction, x: int, y: int, dist: int) -> (int, int) {
    match d {
        Direction::NorthWest => (x - dist, y - dist),
        Direction::NorthEast => (x + dist, y - dist),
        Direction::SouthEast => (x + dist, y + dist),
        _ => (x - dist, y + dist),
    }
}

/// The successor, if any, of a cardinal jump from `(x, y)` in direction `d` after `diag`
/// diagonal steps that began with move `first`.
pub open spec fn ortho_found(map: BitGrid, tx: int, ty: int, d: Direction, x: int, y: int, diag: int, first: Direction) -> Seq<Found> {
    match spec_ortho_target_jump(jump_entry(map, dir_index(d), x, y), d, x, y, tx, ty) {
        Some(dist) => {
            let c = ortho_cell(d, x, y, dist as int);
            seq![(c.0, c.1, dist as int, diag, first)]
        },
        None => seq![],
    }
}

/// The successors of a diagonal walk from `(x, y)` in direction `d`, `diag` steps into it: at
/// each diagonal jump point, the target if reached, else the cardinal jumps along the two
/// components and the rest of the walk.
pub open spec fn diag_walk(map: BitGrid, tx: int, ty: int, d: Direction, x: int, y: int, diag: int) -> Seq<Found>
    decreases (if in_map(map.spec_width(), map.spec_height(), x, y) { room(map, dir_index(d), x, y) } else { 0 }),
{
    if !in_map(map.spec_width(), map.spec_height(), x, y) || dir_index(d) < 4 {
        seq![]
    } else {
        match spec_diag_target_jump(map, d, x, y, tx, ty) {
            None => seq![],
            Some((dist, _)) => {
                if dist <= 0 || dist >= room(map, dir_index(d), x, y) {
                    seq![]
                } else {
                    let (nx, ny) = diag_cell(d, x, y, dist as int);
                    let (_, _, dir_x, dir_y) = diag_parts(d);
                    if nx == tx && ny == ty {
                        seq![(tx, ty, 0int, diag + dist, d)]
                    } else {
                        ortho_found(map, tx, ty, dir_x, nx, ny, diag + dist, d)
                        + ortho_found(map, tx, ty, dir_y, nx, ny, diag + dist, d)
                        + diag_walk(map, tx, ty, d, nx, ny, diag + dist)
                    }
                }
            },
        }
    }
}

/// The successors found from `(x, y)` for each of the directions `dirs`, in order.
pub open spec fn jps_plus_found(map: BitGrid, tx: int, ty: int, x: int, y: int, dirs: Seq<Direction>) -> Seq<Found>
    decreases dirs.len(),
{
    if dirs.len() == 0 {
        seq![]
    } else {
        let d = dirs.last();
        jps_plus_found(map, tx, ty, x, y, dirs.drop_last()) + if spec_orthogonal(d) {
            ortho_found(map, tx, ty, d, x, y, 0, d)
        } else {
            diag_walk(map, tx, ty, d, x, y, 0)
        }
    }
}

/// Edge `e` leads to the node the pool holds for the successor `f`.
pub open spec fn found_edge(pool: GridPool, e: GridEdge, f: Found) -> bool {
    &&& pool.lookup(f.0, f.1) == Some(e.successor)
    &&& e.straight == f.2
    &&& e.diagonal == f.3
    &&& e.direction == f.4
}

/// The edges from `start` on begin with the successors `fs`, in order.
pub open spec fn edges_at(pool: GridPool, edges: Seq<GridEdge>, start: int, fs: Seq<Found>) -> bool {
    &&& 0 <= start
    &&& start + fs.len() <= edges.len()
    &&& forall|i: int| 0 <= i < fs.len() ==> found_edge(pool, #[trigger] edges[start + i], fs[i])
}

/// The edges after `base` are the successors `fs`, in order.
pub open spec fn edges_match(pool: GridPool, edges: Seq<GridEdge>, base: int, fs: Seq<Found>) -> bool {
    &&& edges.len() == base + fs.len()
    &&& edges_at(pool, edges, base, fs)
}

proof fn lemma_at_extend(pool: GridPool, short: Seq<GridEdge>, long: Seq<GridEdge>, start: int, fs: Seq<Found>)
    requires
        edges_at(pool, short, start, fs),
        short.len() <= long.len(),
        long.take(short.len() as int) == short,
    ensures
        edges_at(pool, long, start, fs),
{
    assert forall|i: int| 0 <= i < fs.len() implies found_edge(pool, #[trigger] long[start + i], fs[i]) by {
        assert(long.take(short.len() as int)[start + i] == long[start + i]);
    }
}

proof fn lemma_at_concat(pool: GridPool, edges: Seq<GridEdge>, start: int, a: Seq<Found>, b: Seq<Found>)
    requires
        edges_at(pool, edges, start, a),
        edges_at(pool, edges, start + a.len(), b),
    ensures
        edges_at(pool, edges, start, a + b),
{
    assert forall|i: int| 0 <= i < (a + b).len() implies found_edge(pool, #[trigger] edges[start + i], (a + b)[i]) by {
        if i >= a.len() {
            assert(edges[start + a.len() + (i - a.len())] == edges[start + i]);
        }
    }
}

/// Nodes, once made, stay the nodes of their cells.
pub open spec fn pool_grows(p0: GridPool, p1: GridPool) -> bool {
    &&& p1.wf()
    &&& p1.spec_width() == p0.spec_width()
    &&& p1.spec_height() == p0.spec_height()
    &&& p1.spec_state_field() == p0.spec_state_field()
    &&& p1.nodes().layout == p0.nodes().layout
    &&& p1.nodes().nodes.len() >= p0.nodes().nodes.len()
    &&& forall|i: int| 0 <= i < p0.nodes().nodes.len() ==> #[trigger] p1.nodes().nodes[i] == p0.nodes().nodes[i]
    &&& forall|a: int, b: int| #[trigger] p0.lookup(a, b) is Some && in_map(p0.spec_width(), p0.spec_height(), a, b) ==> p1.lookup(a, b) == p0.lookup(a, b)
}

proof fn lemma_match_grows(p0: GridPool, p1: GridPool, edges: Seq<GridEdge>, base: int, fs: Seq<Found>, w: int, h: int)
    requires
        edges_at(p0, edges, base, fs),
        pool_grows(p0, p1),
        p0.spec_width() >= w,
        p0.spec_height() >= h,
        forall|i: int| 0 <= i < fs.len() ==> in_map(w, h, (#[trigger] fs[i]).0, fs[i].1),
    ensures
        edges_at(p1, edges, base, fs),
{
    assert forall|i: int| 0 <= i < fs.len() implies found_edge(p1, #[trigger] edges[base + i], fs[i]) by {
        assert(found_edge(p0, edges[base + i], fs[i]));
        assert(in_map(p0.spec_width(), p0.spec_height(), fs[i].0, fs[i].1));
    }
}

/// Expands nodes with JPS+ jumps towards one target.
pub struct JpsPlusExpander<'a> {
    map: &'a BitGrid,
    jump_db: &'a JumpDatabase,
    state: NodeMemberPointer<(i32, i32)>,
    target: (i32, i32),
}

impl<'a> JpsPlusExpander<'a> {
    /// The map being searched.
    pub closed spec fn spec_map(&self) -> BitGrid {
        *self.map
    }

    /// The target of the search.
    pub closed spec fn spec_target(&self) -> (i32, i32) {
        self.target
    }

    /// The field that holds each node's cell.
    pub closed spec fn spec_state(&self) -> NodeMemberPointer<(i32, i32)> {
        self.state
    }

    /// The parts fit together.
    pub closed spec fn wf(&self) -> bool {
        &&& self.map.wf()
        &&& self.jump_db.matches(*self.map)
    }

    /// The target of the search.
    pub fn target(&self) -> (r: (i32, i32))
        ensures
            r == self.spec_target(),
    {
        self.target
    }

    /// The field that holds each node's cell.
    pub fn state(&self) -> (r: NodeMemberPointer<(i32, i32)>)
        ensures
            r == self.spec_state(),
    {
        self.state
    }

    /// The map being searched.
    pub fn map(&self) -> (r: &BitGrid)
        ensures
            *r == self.spec_map(),
            self.wf() ==> r.wf(),
    {
        self.map
    }

    /// An expander over `map` with its jump database, for nodes of `node_pool`, searching
    /// towards `target`.
    pub fn new(map: &'a BitGrid, jump_db: &'a JumpDatabase, node_pool: &GridPool, target: (i32, i32)) -> (r: Self)
        requires
            map.wf(),
            jump_db.matches(*map),
            node_pool.spec_width() >= map.spec_width(),
            node_pool.spec_height() >= map.spec_height(),
        ensures
            r.wf(),
            r.spec_map() == *map,
            r.spec_target() == target,
            r.spec_state() == node_pool.spec_state_field(),
    {
        JpsPlusExpander { map, jump_db, state: node_pool.state_member(), target }
    }

    fn push_found(&self, pool: &mut GridPool, edges: &mut Vec<GridEdge>, cx: i32, cy: i32, straight: u32, diagonal: u32, first: Direction)
        requires
            old(pool).wf(),
            old(pool).spec_width() >= self.spec_map().spec_width(),
            old(pool).spec_height() >= self.spec_map().spec_height(),
            in_map(self.spec_map().spec_width(), self.spec_map().spec_height(), cx as int, cy as int),
        ensures
            pool_grows(*old(pool), *final(pool)),
            final(edges)@ == old(edges)@.push(final(edges)@.last()),
            found_edge(*final(pool), final(edges)@.last(), (cx as int, cy as int, straight as int, diagonal as int, first)),
    {
        let succ = pool.generate((cx, cy));
        edges.push(GridEdge { successor: succ, direction: first, straight, diagonal });
    }

    fn jump_ortho(&self, pool: &mut GridPool, edges: &mut Vec<GridEdge>, x: i32, y: i32, d: Direction, diag: u32, first: Direction)
        requires
            self.wf(),
            old(pool).wf(),
            old(pool).spec_width() >= self.spec_map().spec_width(),
            old(pool).spec_height() >= self.spec_map().spec_height(),
            in_map(self.spec_map().spec_width(), self.spec_map().spec_height(), x as int, y as int),
            dir_index(d) < 4,
        ensures
            pool_grows(*old(pool), *final(pool)),
            final(edges)@.take(old(edges)@.len() as int) == old(edges)@,
            edges_match(*final(pool), final(edges)@, old(edges)@.len() as int,
                ortho_found(self.spec_map(), self.spec_target().0 as int, self.spec_target().1 as int, d, x as int, y as int, diag as int, first)),
            forall|i: int| 0 <= i < ortho_found(self.spec_map(), self.spec_target().0 as int, self.spec_target().1 as int, d, x as int, y as int, diag as int, first).len()
                ==> in_map(self.spec_map().spec_width(), self.spec_map().spec_height(),
                    (#[trigger] ortho_found(self.spec_map(), self.spec_target().0 as int, self.spec_target().1 as int, d, x as int, y as int, diag as int, first)[i]).0,
                    ortho_found(self.spec_map(), self.spec_target().0 as int, self.spec_target().1 as int, d, x as int, y as int, diag as int, first)[i].1),
    {
        let ghost e0 = edges@;
        proof {
            let e = jump_entry(*self.map, dir_index(d), x as int, y as int);
            crate::jump_db::lemma_jump_bound(*self.map, dir_index(d), x as int, y as int);
            lemma_jump_path(*self.map, dir_index(d), x as int, y as int, (e / 2) as int);
        }
        match self.jump_db.ortho_jump_unchecked(self.map, x, y, d, self.target) {
            Some(dist) => {
                let (cx, cy) = match d {
                    Direction::North => (x, y - dist),
                    Direction::West => (x - dist, y),
                    Direction::South => (x, y + dist),
                    _ => (x + dist, y),
                };
                self.push_found(pool, edges, cx, cy, dist as u32, diag, first);
                proof {
                    assert(edges@.take(e0.len() as int) =~= e0);
                }
            },
            None => {
                assert(edges@.take(e0.len() as int) =~= e0);
            },
        }
    }

    /// One diagonal jump of a walk in direction `d` from `(x, y)`, `steps` diagonal steps in:
    /// appends what it finds and gives where the walk goes on, if it does.
    #[verifier::rlimit(80)]
    fn diag_step(&self, pool: &mut GridPool, edges: &mut Vec<GridEdge>, x: i32, y: i32, d: Direction, steps: u32) -> (r: Option<(i32, i32, u32)>)
        requires
            self.wf(),
            old(pool).wf(),
            old(pool).spec_width() >= self.spec_map().spec_width(),
            old(pool).spec_height() >= self.spec_map().spec_height(),
            in_map(self.spec_map().spec_width(), self.spec_map().spec_height(), x as int, y as int),
            dir_index(d) >= 4,
            steps + room(self.spec_map(), dir_index(d), x as int, y as int) <= 0x8000,
        ensures
            pool_grows(*old(pool), *final(pool)),
            final(edges)@.take(old(edges)@.len() as int) == old(edges)@,
            ({
                let map = self.spec_map();
                let (tx, ty) = (self.spec_target().0 as int, self.spec_target().1 as int);
                let w = diag_walk(map, tx, ty, d, x as int, y as int, steps as int);
                let n0 = old(edges)@.len() as int;
                &&& final(edges)@.len() >= n0
                &&& match r {
                    None => edges_match(*final(pool), final(edges)@, n0, w)
                        && forall|i: int| 0 <= i < w.len() ==> in_map(map.spec_width(), map.spec_height(), (#[trigger] w[i]).0, w[i].1),
                    Some((nx, ny, ns)) => {
                        let rest = diag_walk(map, tx, ty, d, nx as int, ny as int, ns as int);
                        &&& in_map(map.spec_width(), map.spec_height(), nx as int, ny as int)
                        &&& ns + room(map, dir_index(d), nx as int, ny as int) == steps + room(map, dir_index(d), x as int, y as int)
                        &&& room(map, dir_index(d), nx as int, ny as int) < room(map, dir_index(d), x as int, y as int)
                        &&& w.len() >= rest.len()
                        &&& w == w.subrange(0, w.len() - rest.len()) + rest
                        &&& edges_match(*final(pool), final(edges)@, n0, w.subrange(0, w.len() - rest.len()))
                        &&& forall|i: int| 0 <= i < w.len() - rest.len() ==> in_map(map.spec_width(), map.spec_height(), (#[trigger] w[i]).0, w[i].1)
                    },
                }
            }),
    {
        let ghost map = *self.map;
        let ghost tx = self.target.0 as int;
        let ghost ty = self.target.1 as int;
        let ghost di = dir_index(d);
        let ghost w = diag_walk(map, tx, ty, d, x as int, y as int, steps as int);
        let ghost e0 = edges@;
        let ghost n0 = edges@.len() as int;
        match self.jump_db.diagonal_jump_unchecked(self.map, x, y, d, self.target) {
            None => {
                assert(w =~= seq![]);
                assert(edges@.take(n0) =~= e0);
                None
            },
            Some((dist, _)) => {
                proof {
                    crate::jump_db::lemma_jump_bound(map, di, x as int, y as int);
                    lemma_jump_path(map, di, x as int, y as int, 0);
                    lemma_jump_path(map, di, x as int, y as int, dist as int);
                }
                let (nx, ny) = match d {
                    Direction::NorthWest => (x - dist, y - dist),
                    Direction::NorthEast => (x + dist, y - dist),
                    Direction::SouthEast => (x + dist, y + dist),
                    _ => (x - dist, y + dist),
                };
                let (dir_x, dir_y): (Direction, Direction) = match d {
                    Direction::NorthWest => (Direction::West, Direction::North),
                    Direction::NorthEast => (Direction::East, Direction::North),
                    Direction::SouthEast => (Direction::East, Direction::South),
                    _ => (Direction::West, Direction::South),
                };
                proof {
                    assert((nx as int, ny as int) == diag_cell(d, x as int, y as int, dist as int));
                    lemma_diag_cell_step(d, x as int, y as int, dist as int);
                    assert(in_map(map.spec_width(), map.spec_height(), nx as int, ny as int));
                    assert(room(map, di, nx as int, ny as int) >= 1);
                    assert(room(map, di, nx as int, ny as int) == room(map, di, x as int, y as int) - dist);
                }
                let new_steps = steps + dist as u32;
                if nx == self.target.0 && ny == self.target.1 {
                    self.push_found(pool, edges, nx, ny, 0, new_steps, d);
                    proof {
                        let f: Found = (tx, ty, 0int, new_steps as int, d);
                        assert(w =~= seq![f]);
                        assert(edges@.take(n0) =~= e0);
                        assert(found_edge(*pool, edges@[n0 + 0], w[0]));
                    }
                    None
                } else {
                    self.jump_ortho(pool, edges, nx, ny, dir_x, new_steps, d);
                    let ghost p_mid = *pool;
                    let ghost e_mid = edges@;
                    self.jump_ortho(pool, edges, nx, ny, dir_y, new_steps, d);
                    proof {
                        let ox = ortho_found(map, tx, ty, dir_x, nx as int, ny as int, new_steps as int, d);
                        let oy = ortho_found(map, tx, ty, dir_y, nx as int, ny as int, new_steps as int, d);
                        let rest = diag_walk(map, tx, ty, d, nx as int, ny as int, new_steps as int);
                        assert(w == ox + oy + rest);
                        lemma_match_grows(p_mid, *pool, e_mid, n0, ox, map.spec_width(), map.spec_height());
                        lemma_at_extend(*pool, e_mid, edges@, n0, ox);
                        lemma_at_concat(*pool, edges@, n0, ox, oy);
                        assert(w.subrange(0, w.len() - rest.len()) =~= ox + oy);
                        assert(w =~= w.subrange(0, w.len() - rest.len()) + rest);
                        assert(edges@.take(n0) =~= e0) by {
                            assert(edges@.take(e_mid.len() as int) == e_mid);
                            assert(e_mid.take(n0) == e0);
                        }
                    }
                    Some((nx, ny, new_steps))
                }
            },
        }
    }

    fn jump_diagonal(&self, pool: &mut GridPool, edges: &mut Vec<GridEdge>, x0: i32, y0: i32, d: Direction)
        requires
            self.wf(),
            old(pool).wf(),
            old(pool).spec_width() >= self.spec_map().spec_width(),
            old(pool).spec_height() >= self.spec_map().spec_height(),
            in_map(self.spec_map().spec_width(), self.spec_map().spec_height(), x0 as int, y0 as int),
            dir_index(d) >= 4,
        ensures
            pool_grows(*old(pool), *final(pool)),
            final(edges)@.take(old(edges)@.len() as int) == old(edges)@,
            ({
                let w = diag_walk(self.spec_map(), self.spec_target().0 as int, self.spec_target().1 as int, d, x0 as int, y0 as int, 0);
                &&& edges_match(*final(pool), final(edges)@, old(edges)@.len() as int, w)
                &&& forall|i: int| 0 <= i < w.len() ==> in_map(self.spec_map().spec_width(), self.spec_map().spec_height(), (#[trigger] w[i]).0, w[i].1)
            }),
    {
        let ghost map = *self.map;
        let ghost tx = self.target.0 as int;
        let ghost ty = self.target.1 as int;
        let ghost di = dir_index(d);
        let ghost total = diag_walk(map, tx, ty, d, x0 as int, y0 as int, 0);
        let ghost p0 = *pool;
        let ghost e0 = edges@;
        let ghost base = edges@.len() as int;
        let mut x = x0;
        let mut y = y0;
        let mut steps: u32 = 0;
        let ghost mut done: Seq<Found> = seq![];
        let mut go = true;
        proof {
            self.map.lemma_size();
            assert(room(map, di, x0 as int, y0 as int) <= 0x8000);
            assert(done + total =~= total);
        }
        while go
            invariant
                self.wf(),
                map == *self.map,
                tx == self.target.0,
                ty == self.target.1,
                di == dir_index(d),
                di >= 4,
                total == diag_walk(map, tx, ty, d, x0 as int, y0 as int, 0),
                in_map(map.spec_width(), map.spec_height(), x as int, y as int),
                steps + room(map, di, x as int, y as int) <= 0x8000,
                go ==> done + diag_walk(map, tx, ty, d, x as int, y as int, steps as int) == total,
                !go ==> done == total,
                pool_grows(p0, *pool),
                p0.spec_width() >= map.spec_width(),
                p0.spec_height() >= map.spec_height(),
                base == e0.len(),
                edges@.take(base) == e0,
                edges_match(*pool, edges@, base, done),
                forall|i: int| 0 <= i < done.len() ==> in_map(map.spec_width(), map.spec_height(), (#[trigger] done[i]).0, done[i].1),
            decreases room(map, di, x as int, y as int), if go { 1int } else { 0int },
        {
            let ghost w = diag_walk(map, tx, ty, d, x as int, y as int, steps as int);
            let ghost p1 = *pool;
            let ghost e1 = edges@;
            let r = self.diag_step(pool, edges, x, y, d, steps);
            proof {
                let n1 = e1.len() as int;
                lemma_match_grows(p1, *pool, e1, base, done, map.spec_width(), map.spec_height());
                lemma_at_extend(*pool, e1, edges@, base, done);
                assert(edges@.take(base) =~= e0) by {
                    assert(edges@.take(n1) == e1);
                    assert(e1.take(base) == e0);
                }
            }
            match r {
                None => {
                    proof {
                        lemma_at_concat(*pool, edges@, base, done, w);
                        assert(done + w == total);
                        done = done + w;
                    }
                    go = false;
                },
                Some((nx, ny, ns)) => {
                    proof {
                        let rest = diag_walk(map, tx, ty, d, nx as int, ny as int, ns as int);
                        let part = w.subrange(0, w.len() - rest.len());
                        lemma_at_concat(*pool, edges@, base, done, part);
                        assert(done + part + rest =~= done + w);
                        done = done + part;
                    }
                    x = nx;
                    y = ny;
                    steps = ns;
                },
            }
        }
    }

    /// Appends the JPS+ successors of `node`: for each canonical successor direction, in
    /// direction order, the end of its jump (see [`jps_plus_found`]).
    pub fn expand(&self, pool: &mut GridPool, node: NodeRef, edges: &mut Vec<GridEdge>)
        requires
            self.wf(),
            old(pool).wf(),
            old(pool).spec_width() >= self.spec_map().spec_width(),
            old(pool).spec_height() >= self.spec_map().spec_height(),
            old(pool).spec_state_field() == self.spec_state(),
            node.index < old(pool).nodes().nodes.len(),
            node.layout == old(pool).nodes().layout,
            ({
                let (x, y) = field_value(old(pool).nodes(), node, self.spec_state());
                in_map(self.spec_map().spec_width(), self.spec_map().spec_height(), x as int, y as int)
                    && self.spec_map().cell(x as int, y as int)
            }),
            node.index < old(pool).nodes().parents.len(),
            old(pool).nodes().parents[node.index as int] matches Some(p) ==> p < old(pool).nodes().nodes.len() && ({
                let (px, py) = field_value(old(pool).nodes(), NodeRef { index: p, layout: node.layout }, self.spec_state());
                in_map(self.spec_map().spec_width(), self.spec_map().spec_height(), px as int, py as int)
            }),
        ensures
            pool_grows(*old(pool), *final(pool)),
            final(edges)@.take(old(edges)@.len() as int) == old(edges)@,
            ({
                let (x, y) = field_value(old(pool).nodes(), node, self.spec_state());
                let going = match old(pool).nodes().parents[node.index as int] {
                    Some(p) => {
                        let (px, py) = field_value(old(pool).nodes(), NodeRef { index: p, layout: node.layout }, self.spec_state());
                        spec_reached_direction(x - px, y - py)
                    },
                    None => None,
                };
                let dirs = set_dirs(canonical_bits(neighborhood_bits(&self.spec_map(), x as int, y as int), going));
                edges_match(*final(pool), final(edges)@, old(edges)@.len() as int,
                    jps_plus_found(self.spec_map(), self.spec_target().0 as int, self.spec_target().1 as int, x as int, y as int, dirs))
            }),
    {
        proof {
            pool.lemma_node_access(node);
            self.map.lemma_size();
        }
        let (x, y) = node.get(pool.allocator(), self.state);
        let dir = match node.get_parent(pool.allocator()) {
            Some(parent) => {
                proof {
                    pool.lemma_node_access(parent);
                }
                let (px, py) = parent.get(pool.allocator(), self.state);
                reached_direction((px, py), (x, y))
            },
            None => None,
        };
        let successors = canonical_successors(self.map.get_neighborhood(x, y), dir);
        self.expand_dirs(pool, x, y, edges, successors);
    }

    /// Appends, for each direction of `successors` in direction order, the end of the jump
    /// from `(x, y)` in that direction (see [`jps_plus_found`]).
    pub fn expand_dirs(&self, pool: &mut GridPool, x: i32, y: i32, edges: &mut Vec<GridEdge>, successors: DirSet)
        requires
            self.wf(),
            old(pool).wf(),
            old(pool).spec_width() >= self.spec_map().spec_width(),
            old(pool).spec_height() >= self.spec_map().spec_height(),
            in_map(self.spec_map().spec_width(), self.spec_map().spec_height(), x as int, y as int),
        ensures
            pool_grows(*old(pool), *final(pool)),
            final(edges)@.take(old(edges)@.len() as int) == old(edges)@,
            edges_match(*final(pool), final(edges)@, old(edges)@.len() as int,
                jps_plus_found(self.spec_map(), self.spec_target().0 as int, self.spec_target().1 as int, x as int, y as int, set_dirs(successors.bits))),
    {
        let ghost map = *self.map;
        let ghost tx = self.target.0 as int;
        let ghost ty = self.target.1 as int;
        let ghost p0 = *pool;
        let ghost e0 = edges@;
        let ghost base = edges@.len() as int;
        let mut k: usize = 0;
        while k < 8
            invariant
                k <= 8,
                self.wf(),
                map == *self.map,
                tx == self.target.0,
                ty == self.target.1,
                in_map(map.spec_width(), map.spec_height(), x as int, y as int),
                pool_grows(p0, *pool),
                p0.spec_width() >= map.spec_width(),
                p0.spec_height() >= map.spec_height(),
                base == e0.len(),
                edges@.take(base) == e0,
                edges_match(*pool, edges@, base, jps_plus_found(map, tx, ty, x as int, y as int, dirs_upto(successors.bits, k as nat))),
                forall|i: int| 0 <= i < jps_plus_found(map, tx, ty, x as int, y as int, dirs_upto(successors.bits, k as nat)).len() ==>
                    in_map(map.spec_width(), map.spec_height(),
                        (#[trigger] jps_plus_found(map, tx, ty, x as int, y as int, dirs_upto(successors.bits, k as nat))[i]).0,
                        jps_plus_found(map, tx, ty, x as int, y as int, dirs_upto(successors.bits, k as nat))[i].1),
            decreases 8 - k,
        {
            let d = Direction::try_from(k).unwrap();
            proof {
                lemma_dir_bit(d);
            }
            let ghost done = jps_plus_found(map, tx, ty, x as int, y as int, dirs_upto(successors.bits, k as nat));
            let ghost p1 = *pool;
            let ghost e1 = edges@;
            if successors.contains(d) {
                if d.orthogonal() {
                    self.jump_ortho(pool, edges, x, y, d, 0, d);
                } else {
                    self.jump_diagonal(pool, edges, x, y, d);
                }
                proof {
                    let ds2 = dirs_upto(successors.bits, (k + 1) as nat);
                    assert(ds2 =~= dirs_upto(successors.bits, k as nat).push(d));
                    assert(ds2.drop_last() =~= dirs_upto(successors.bits, k as nat));
                    lemma_match_grows(p1, *pool, e1, base, done, map.spec_width(), map.spec_height());
                    lemma_at_extend(*pool, e1, edges@, base, done);
                    let more = if crate::direction::spec_orthogonal(d) {
                        ortho_found(map, tx, ty, d, x as int, y as int, 0, d)
                    } else {
                        diag_walk(map, tx, ty, d, x as int, y as int, 0)
                    };
                    lemma_at_concat(*pool, edges@, base, done, more);
                    assert(edges@.take(base) =~= e0) by {
                        assert(edges@.take(e1.len() as int) == e1);
                        assert(e1.take(base) == e0);
                    }
                }
            } else {
                proof {
                    assert(dirs_upto(successors.bits, (k + 1) as nat) =~= dirs_upto(successors.bits, k as nat));
                }
            }
            k = k + 1;
        }
    }
}

} // verus!
