//! Expansion of nodes on an 8-connected grid map: every traversable neighbour, diagonals only
//! when both cardinal cells beside them are traversable too.
use vstd::prelude::*;
use crate::bitgrid::{BitGrid, in_map};
use crate::direction::{Direction, spec_orthogonal, spec_vector};
use crate::node::{NodeMemberPointer, NodeRef, field_value};
use crate::pool::GridPool;
use crate::traits::{EdgeId, Successor};

verus! {

/// An edge of a grid search: the successor, the direction of the move that reaches it, and its
/// length as a number of cardinal plus a number of diagonal steps.
#[derive(Clone, Copy, Debug, PartialEq, Eq, Structural)]
pub struct GridEdge {
    pub successor: NodeRef,
    pub direction: Direction,
    pub straight: u32,
    pub diagonal: u32,
}

impl Successor for GridEdge {
    fn successor(&self) -> NodeRef {
        self.successor
    }
}

impl EdgeId for GridEdge {
    fn edge_id(&self) -> usize {
        self.direction.index()
    }
}

/// The moves out of traversable cell `(x, y)`, in the order they are produced: north, south,
/// then west with its two diagonals, then east with its two diagonals.
pub open spec fn eight_dirs(map: BitGrid, x: int, y: int) -> Seq<Direction> {
    let n = map.cell(x, y - 1);
    let s = map.cell(x, y + 1);
    let w = map.cell(x - 1, y);
    let e = map.cell(x + 1, y);
    (if n { seq![Direction::North] } else { seq![] })
    + (if s { seq![Direction::South] } else { seq![] })
    + (if w {
        seq![Direction::West]
        + (if n && map.cell(x - 1, y - 1) { seq![Direction::NorthWest] } else { seq![] })
        + (if s && map.cell(x - 1, y + 1) { seq![Direction::SouthWest] } else { seq![] })
    } else {
        seq![]
    })
    + (if e {
        seq![Direction::East]
        + (if n && map.cell(x + 1, y - 1) { seq![Direction::NorthEast] } else { seq![] })
        + (if s && map.cell(x + 1, y + 1) { seq![Direction::SouthEast] } else { seq![] })
    } else {
        seq![]
    })
}

/// Edge `e` is the one-step move in direction `d` from `(x, y)` to the node the pool holds for
/// the neighbour.
pub open spec fn step_edge(pool: GridPool, e: GridEdge, d: Direction, x: int, y: int) -> bool {
    &&& e.direction == d
    &&& pool.lookup(x + spec_vector(d).0, y + spec_vector(d).1) == Some(e.successor)
    &&& (if spec_orthogonal(d) { e.straight == 1 && e.diagonal == 0 } else { e.straight == 0 && e.diagonal == 1 })
}

/// Generates the neighbour of `(x, y)` in direction `d` and appends the edge to it.
pub(crate) fn push_step(map: &BitGrid, pool: &mut GridPool, edges: &mut Vec<GridEdge>, x: i32, y: i32, d: Direction)
    requires
        map.wf(),
        old(pool).wf(),
        old(pool).spec_width() >= map.spec_width(),
        old(pool).spec_height() >= map.spec_height(),
        in_map(map.spec_width(), map.spec_height(), x as int, y as int),
        map.cell(x + spec_vector(d).0, y + spec_vector(d).1),
    ensures
        final(pool).wf(),
        final(pool).spec_width() == old(pool).spec_width(),
        final(pool).spec_height() == old(pool).spec_height(),
        final(pool).spec_state_field() == old(pool).spec_state_field(),
        final(pool).nodes().layout == old(pool).nodes().layout,
        forall|i: int| 0 <= i < old(pool).nodes().nodes.len() ==> #[trigger] final(pool).nodes().nodes[i] == old(pool).nodes().nodes[i],
        final(pool).nodes().nodes.len() >= old(pool).nodes().nodes.len(),
        forall|a: int, b: int|
            in_map(old(pool).spec_width(), old(pool).spec_height(), a, b) && (a, b) != (x + spec_vector(d).0, y + spec_vector(d).1)
                ==> #[trigger] final(pool).lookup(a, b) == old(pool).lookup(a, b),
        final(edges)@.len() == old(edges)@.len() + 1,
        final(edges)@.take(old(edges)@.len() as int) == old(edges)@,
        step_edge(*final(pool), final(edges)@.last(), d, x as int, y as int),
{
    let (dx, dy) = d.vector();
    proof {
        map.lemma_size();
        map.lemma_traversable_in_map(x + dx, y + dy);
    }
    let succ = pool.generate((x + dx, y + dy));
    let orth = d.orthogonal();
    let edge = GridEdge {
        successor: succ,
        direction: d,
        straight: if orth { 1 } else { 0 },
        diagonal: if orth { 0 } else { 1 },
    };
    let ghost before = edges@;
    edges.push(edge);
    assert(edges@.take(before.len() as int) =~= before);
}

/// Expands nodes of an 8-connected grid map.
pub struct EightConnectedExpander<'a> {
    map: &'a BitGrid,
    state: NodeMemberPointer<(i32, i32)>,
}

impl<'a> EightConnectedExpander<'a> {
    /// The map being searched.
    pub closed spec fn spec_map(&self) -> BitGrid {
        *self.map
    }

    /// The field that holds each node's cell.
    pub closed spec fn spec_state(&self) -> NodeMemberPointer<(i32, i32)> {
        self.state
    }

    /// An expander over `map` for nodes of `node_pool` whose cell is kept in `state`. The pool
    /// must cover the map.
    pub fn new(map: &'a BitGrid, node_pool: &GridPool, state: NodeMemberPointer<(i32, i32)>) -> (r: Self)
        requires
            map.wf(),
            node_pool.spec_width() >= map.spec_width(),
            node_pool.spec_height() >= map.spec_height(),
        ensures
            r.spec_map() == *map,
            r.spec_state() == state,
    {
        EightConnectedExpander { map, state }
    }

    /// Appends the edges out of `node`, one per move of [`eight_dirs`], generating the
    /// successors in `pool`.
    pub fn expand(&self, pool: &mut GridPool, node: NodeRef, edges: &mut Vec<GridEdge>)
        requires
            self.spec_map().wf(),
            old(pool).wf(),
            old(pool).spec_width() >= self.spec_map().spec_width(),
            old(pool).spec_height() >= self.spec_map().spec_height(),
            old(pool).spec_state_field() == self.spec_state(),
            node.index < old(pool).nodes().nodes.len(),
            node.layout == old(pool).nodes().layout,
            ({
                let (x, y) = field_value(old(pool).nodes(), node, self.spec_state());
                in_map(self.spec_map().spec_width(), self.spec_map().spec_height(), x as int, y as int)
                    && self.spec_map().cell(x as int, y as int)
            }),
        ensures
            final(pool).wf(),
            final(pool).spec_width() == old(pool).spec_width(),
            final(pool).spec_height() == old(pool).spec_height(),
            final(pool).spec_state_field() == old(pool).spec_state_field(),
            final(pool).nodes().layout == old(pool).nodes().layout,
            forall|i: int| 0 <= i < old(pool).nodes().nodes.len() ==> #[trigger] final(pool).nodes().nodes[i] == old(pool).nodes().nodes[i],
            ({
                let (x, y) = field_value(old(pool).nodes(), node, self.spec_state());
                let dirs = eight_dirs(self.spec_map(), x as int, y as int);
                let base = old(edges)@.len();
                &&& final(edges)@.len() == base + dirs.len()
                &&& final(edges)@.take(base as int) == old(edges)@
                &&& forall|i: int| 0 <= i < dirs.len() ==> step_edge(*final(pool), #[trigger] final(edges)@[base + i], dirs[i], x as int, y as int)
            }),
    {
        proof {
            pool.lemma_node_access(node);
        }
        let (x, y) = node.get(pool.allocator(), self.state);
        let ghost map = *self.map;
        proof {
            map.lemma_size();
        }
        let n = self.map.get(x, y - 1);
        let s = self.map.get(x, y + 1);
        let w = self.map.get(x - 1, y);
        let e = self.map.get(x + 1, y);
        if n {
            push_step(self.map, pool, edges, x, y, Direction::North);
        }
        if s {
            push_step(self.map, pool, edges, x, y, Direction::South);
        }
        if w {
            push_step(self.map, pool, edges, x, y, Direction::West);
            if n && self.map.get(x - 1, y - 1) {
                push_step(self.map, pool, edges, x, y, Direction::NorthWest);
            }
            if s && self.map.get(x - 1, y + 1) {
                push_step(self.map, pool, edges, x, y, Direction::SouthWest);
            }
        }
        if e {
            push_step(self.map, pool, edges, x, y, Direction::East);
            if n && self.map.get(x + 1, y - 1) {
                push_step(self.map, pool, edges, x, y, Direction::NorthEast);
            }
            if s && self.map.get(x + 1, y + 1) {
                push_step(self.map, pool, edges, x, y, Direction::SouthEast);
            }
        }
    }
}

} // verus!
