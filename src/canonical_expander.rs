//! Expansion that follows the canonical-successor rule one step at a time.
use vstd::prelude::*;
use crate::bitgrid::{BitGrid, in_map, neighborhood_bits};
use crate::canonical::{canonical_bits, canonical_successors, reached_direction, spec_reached_direction};
use crate::direction::{DirSet, Direction, dir_at, dir_bit, lemma_dir_bit, spec_vector};
use crate::eight_connected::{GridEdge, push_step, step_edge};
use crate::node::{NodeMemberPointer, NodeRef, field_value};
use crate::pool::GridPool;

verus! {

/// The directions of `bits` among the first `k` of the fixed order, in that order.
pub open spec fn dirs_upto(bits: u8, k: nat) -> Seq<Direction>
    decreases k,
{
    if k == 0 {
        seq![]
    } else {
        dirs_upto(bits, (k - 1) as nat) + if bits & dir_bit(dir_at((k - 1) as nat)) != 0 {
            seq![dir_at((k - 1) as nat)]
        } else {
            seq![]
        }
    }
}

/// The directions of a set, in the fixed order.
pub open spec fn set_dirs(bits: u8) -> Seq<Direction> {
    dirs_upto(bits, 8)
}

/// The edges appended after `base` are the one-step moves in directions `dirs` from `(x, y)`.
pub open spec fn steps_from(pool: GridPool, edges: Seq<GridEdge>, base: int, dirs: Seq<Direction>, x: int, y: int) -> bool {
    &&& edges.len() == base + dirs.len()
    &&& forall|i: int| 0 <= i < dirs.len() ==> step_edge(pool, #[trigger] edges[base + i], dirs[i], x, y)
}

proof fn lemma_dirs_upto_index(bits: u8, k: nat)
    requires
        k <= 8,
    ensures
        forall|i: int| 0 <= i < dirs_upto(bits, k).len() ==> {
            let d = #[trigger] dirs_upto(bits, k)[i];
            crate::direction::dir_index(d) < k && bits & dir_bit(d) != 0
        },
        forall|i: int, j: int| 0 <= i < j < dirs_upto(bits, k).len() ==>
            crate::direction::dir_index(#[trigger] dirs_upto(bits, k)[i]) < crate::direction::dir_index(#[trigger] dirs_upto(bits, k)[j]),
    decreases k,
{
    if k > 0 {
        lemma_dirs_upto_index(bits, (k - 1) as nat);
        lemma_dir_bit(dir_at((k - 1) as nat));
    }
}

/// Expands nodes along their canonical successors, one cell per move.
pub struct CanonicalGridExpander<'a> {
    map: &'a BitGrid,
    state: NodeMemberPointer<(i32, i32)>,
}

impl<'a> CanonicalGridExpander<'a> {
    /// The map being searched.
    pub closed spec fn spec_map(&self) -> BitGrid {
        *self.map
    }

    /// The field that holds each node's cell.
    pub closed spec fn spec_state(&self) -> NodeMemberPointer<(i32, i32)> {
        self.state
    }

    /// An expander over `map` for nodes whose cell is kept in `state`.
    pub fn new(map: &'a BitGrid, state: NodeMemberPointer<(i32, i32)>) -> (r: Self)
        ensures
            r.spec_map() == *map,
            r.spec_state() == state,
    {
        CanonicalGridExpander { map, state }
    }

    /// Appends one edge per direction of `successors`, in direction order; every such
    /// neighbour of the node's cell must be traversable.
    pub fn expand_unchecked(&self, pool: &mut GridPool, node: NodeRef, edges: &mut Vec<GridEdge>, successors: DirSet)
        requires
            self.spec_map().wf(),
            old(pool).wf(),
            old(pool).spec_width() >= self.spec_map().spec_width(),
            old(pool).spec_height() >= self.spec_map().spec_height(),
            old(pool).spec_state_field() == self.spec_state(),
            node.index < old(pool).nodes().nodes.len(),
            node.layout == old(pool).nodes().layout,
            ({
                let (x, y) = field_value(old(pool).nodes(), node, self.spec_state());
                &&& in_map(self.spec_map().spec_width(), self.spec_map().spec_height(), x as int, y as int)
                &&& forall|d: Direction| successors.has(d) ==> self.spec_map().cell(x + spec_vector(d).0, y + spec_vector(d).1)
            }),
        ensures
            final(pool).wf(),
            final(pool).spec_width() == old(pool).spec_width(),
            final(pool).spec_height() == old(pool).spec_height(),
            final(pool).spec_state_field() == old(pool).spec_state_field(),
            final(pool).nodes().layout == old(pool).nodes().layout,
            forall|i: int| 0 <= i < old(pool).nodes().nodes.len() ==> #[trigger] final(pool).nodes().nodes[i] == old(pool).nodes().nodes[i],
            final(edges)@.take(old(edges)@.len() as int) == old(edges)@,
            ({
                let (x, y) = field_value(old(pool).nodes(), node, self.spec_state());
                steps_from(*final(pool), final(edges)@, old(edges)@.len() as int, set_dirs(successors.bits), x as int, y as int)
            }),
    {
        proof {
            pool.lemma_node_access(node);
        }
        let (x, y) = node.get(pool.allocator(), self.state);
        let ghost old_edges = edges@;
        let ghost base = edges@.len() as int;
        let ghost nodes0 = pool.nodes();
        let ghost w0 = pool.spec_width();
        let ghost h0 = pool.spec_height();
        let ghost sf0 = pool.spec_state_field();
        let mut k: usize = 0;
        while k < 8
            invariant
                k <= 8,
                self.spec_map().wf(),
                pool.wf(),
                pool.spec_width() == w0,
                pool.spec_height() == h0,
                pool.spec_state_field() == sf0,
                w0 >= self.spec_map().spec_width(),
                h0 >= self.spec_map().spec_height(),
                sf0 == self.spec_state(),
                pool.nodes().layout == nodes0.layout,
                pool.nodes().nodes.len() >= nodes0.nodes.len(),
                forall|i: int| 0 <= i < nodes0.nodes.len() ==> #[trigger] pool.nodes().nodes[i] == nodes0.nodes[i],
                in_map(self.spec_map().spec_width(), self.spec_map().spec_height(), x as int, y as int),
                forall|d: Direction| successors.has(d) ==> self.spec_map().cell(x + spec_vector(d).0, y + spec_vector(d).1),
                base == old_edges.len(),
                edges@.take(base) == old_edges,
                steps_from(*pool, edges@, base, dirs_upto(successors.bits, k as nat), x as int, y as int),
            decreases 8 - k,
        {
            let d = Direction::try_from(k).unwrap();
            proof {
                lemma_dir_bit(d);
                lemma_dirs_upto_index(successors.bits, k as nat);
            }
            if successors.contains(d) {
                let ghost e0 = edges@;
                push_step(self.map, pool, edges, x, y, d);
                proof {
                    let ds = dirs_upto(successors.bits, k as nat);
                    let ds2 = dirs_upto(successors.bits, (k + 1) as nat);
                    assert(ds2 =~= ds.push(d));
                    assert(e0.len() == base + ds.len());
                    assert(edges@.len() == e0.len() + 1);
                    assert(edges@.take(e0.len() as int) == e0);
                    assert forall|i: int| 0 <= i < ds2.len() implies step_edge(*pool, #[trigger] edges@[base + i], ds2[i], x as int, y as int) by {
                        if i < ds.len() {
                            assert(edges@.take(e0.len() as int)[base + i] == edges@[base + i]);
                            assert(edges@[base + i] == e0[base + i]);
                            let di = ds[i];
                            assert(crate::direction::dir_index(di) < k);
                            assert(di != d);
                            assert(successors.has(di));
                            self.map.lemma_traversable_in_map(x + spec_vector(di).0, y + spec_vector(di).1);
                        }
                    }
                    assert(edges@.take(base) =~= e0.take(base));
                }
            } else {
                proof {
                    assert(dirs_upto(successors.bits, (k + 1) as nat) =~= dirs_upto(successors.bits, k as nat));
                }
            }
            k = k + 1;
        }
    }

    /// Appends the edges to the canonical successors of `node`, given the direction in which it
    /// was reached from its parent (none for a node without a parent).
    pub fn expand(&self, pool: &mut GridPool, node: NodeRef, edges: &mut Vec<GridEdge>)
        requires
            self.spec_map().wf(),
            old(pool).wf(),
            old(pool).spec_width() >= self.spec_map().spec_width(),
            old(pool).spec_height() >= self.spec_map().spec_height(),
            old(pool).spec_state_field() == self.spec_state(),
            node.index < old(pool).nodes().nodes.len(),
            node.layout == old(pool).nodes().layout,
            ({
                let (x, y) = field_value(old(pool).nodes(), node, self.spec_state());
                in_map(self.spec_map().spec_width(), self.spec_map().spec_height(), x as int, y as int)
            }),
            node.index < old(pool).nodes().parents.len(),
            old(pool).nodes().parents[node.index as int] matches Some(p) ==> p < old(pool).nodes().nodes.len() && ({
                let (px, py) = field_value(old(pool).nodes(), NodeRef { index: p, layout: node.layout }, self.spec_state());
                in_map(self.spec_map().spec_width(), self.spec_map().spec_height(), px as int, py as int)
            }),
        ensures
            final(pool).wf(),
            final(pool).spec_width() == old(pool).spec_width(),
            final(pool).spec_height() == old(pool).spec_height(),
            final(edges)@.take(old(edges)@.len() as int) == old(edges)@,
            ({
                let (x, y) = field_value(old(pool).nodes(), node, self.spec_state());
                let going = match old(pool).nodes().parents[node.index as int] {
                    Some(p) => {
                        let (px, py) = field_value(old(pool).nodes(), NodeRef { index: p, layout: node.layout }, self.spec_state());
                        spec_reached_direction(x - px, y - py)
                    },
                    None => None,
                };
                steps_from(
                    *final(pool),
                    final(edges)@,
                    old(edges)@.len() as int,
                    set_dirs(canonical_bits(neighborhood_bits(&self.spec_map(), x as int, y as int), going)),
                    x as int,
                    y as int,
                )
            }),
    {
        proof {
            pool.lemma_node_access(node);
            self.map.lemma_size();
        }
        let (x, y) = node.get(pool.allocator(), self.state);
        let dir = match node.get_parent(pool.allocator()) {
            Some(parent) => {
                proof {
                    pool.lemma_node_access(parent);
                }
                let (px, py) = parent.get(pool.allocator(), self.state);
                let ddx: i64 = (x as i64) - (px as i64);
                let ddy: i64 = (y as i64) - (py as i64);
                let lo: i64 = -2147483647;
                let hi: i64 = 2147483647;
                if lo <= ddx && ddx <= hi && lo <= ddy && ddy <= hi {
                    reached_direction((px, py), (x, y))
                } else {
                    None
                }
            },
            None => None,
        };
        let nb = self.map.get_neighborhood(x, y);
        let successors = canonical_successors(nb, dir);
        proof {
            assert forall|d: Direction| successors.has(d) implies self.spec_map().cell(x + spec_vector(d).0, y + spec_vector(d).1) by {
                crate::canonical::lemma_canonical_subset(nb.bits, dir);
                lemma_nb_has(*self.map, x as int, y as int, d);
                let s = successors.bits;
                let n = nb.bits;
                let b = dir_bit(d);
                assert(s & !n == 0 && s & b != 0 ==> n & b != 0) by (bit_vector);
            }
        }
        self.expand_unchecked(pool, node, edges, successors);
    }
}

proof fn lemma_nb_has(map: BitGrid, x: int, y: int, d: Direction)
    ensures
        (neighborhood_bits(&map, x, y) & dir_bit(d) != 0) == map.cell(x + spec_vector(d).0, y + spec_vector(d).1),
{
    crate::jump_db::lemma_nb_bit(map, x, y, crate::direction::dir_index(d));
}

} // verus!
