//! JPS+ pruned by partial-cell bounding boxes: at an independent jump point, a successor
//! direction is kept only when its box holds the target.
use vstd::prelude::*;
use crate::bb::PartialCellBb;
use crate::bitgrid::{in_map, neighborhood_bits};
use crate::canonical::{canonical_bits, canonical_successors, reached_direction, spec_reached_direction};
use crate::canonical_expander::set_dirs;
use crate::direction::{DirSet, dir_at};
use crate::eight_connected::GridEdge;
use crate::jps_plus::{JpsPlusExpander, edges_match, jps_plus_found, pool_grows};
use crate::node::{NodeRef, field_value};
use crate::pool::GridPool;

verus! {

/// The moves of `canonical` that the boxes at `(x, y)` let through towards `target`: all of
/// them when the cell has no boxes.
pub open spec fn bb_allows(bb: &PartialCellBb, x: int, y: int, target: (i32, i32), canonical: DirSet, r: DirSet) -> bool {
    &&& bb.boxes(x, y) is None ==> r == canonical
    &&& bb.boxes(x, y) matches Some(b) ==> forall|d: int| 0 <= d < 8 ==>
        (#[trigger] r.has(dir_at(d as nat)) <==> canonical.has(dir_at(d as nat))
            && b[d].spec_contains(target.0 as int, target.1 as int))
    &&& r.bits & !canonical.bits == 0
}

/// Expands nodes with JPS+ jumps, keeping only the directions the bounding boxes allow.
pub struct JpsBbExpander<'a> {
    jps: JpsPlusExpander<'a>,
    bb: &'a PartialCellBb,
}

impl<'a> JpsBbExpander<'a> {
    /// The JPS+ expander underneath.
    pub closed spec fn spec_jps(&self) -> JpsPlusExpander<'a> {
        self.jps
    }

    /// The bounding boxes.
    pub closed spec fn spec_bb(&self) -> PartialCellBb {
        *self.bb
    }

    /// `r` holds the directions the boxes allow at `node`, and `edges` after `base` are the JPS+
    /// successors of `node` in those directions.
    pub open spec fn expanded(&self, nodes: crate::node::NodesView, node: NodeRef, pool: GridPool, edges: Seq<GridEdge>, base: int, r: DirSet) -> bool {
        {
                let map = self.spec_jps().spec_map();
                let target = self.spec_jps().spec_target();
                let (x, y) = field_value(nodes, node, self.spec_jps().spec_state());
                let going = match nodes.parents[node.index as int] {
                    Some(p) => {
                        let (px, py) = field_value(nodes, NodeRef { index: p, layout: node.layout }, self.spec_jps().spec_state());
                        spec_reached_direction(x - px, y - py)
                    },
                    None => None,
                };
                let canonical = DirSet { bits: canonical_bits(neighborhood_bits(&map, x as int, y as int), going) };
                bb_allows(&self.spec_bb(), x as int, y as int, target, canonical, r)
                    && edges_match(pool, edges, base,
                        jps_plus_found(map, target.0 as int, target.1 as int, x as int, y as int, set_dirs(r.bits)))
            }
    }

    /// JPS+ expansion with `jps`, pruned by `bb`, which must be computed for the same map.
    pub fn new(jps: JpsPlusExpander<'a>, bb: &'a PartialCellBb) -> (r: Self)
        requires
            jps.wf(),
            bb.wf(),
            bb.spec_map() == jps.spec_map(),
        ensures
            r.spec_jps() == jps,
            r.spec_bb() == *bb,
    {
        JpsBbExpander { jps, bb }
    }

    /// Appends the JPS+ successors of `node` in the canonical directions that the boxes at its
    /// cell allow, and returns those directions.
    pub fn expand(&self, pool: &mut GridPool, node: NodeRef, edges: &mut Vec<GridEdge>) -> (allowed: DirSet)
        requires
            self.spec_jps().wf(),
            self.spec_bb().wf(),
            self.spec_bb().spec_map() == self.spec_jps().spec_map(),
            old(pool).wf(),
            old(pool).spec_width() >= self.spec_jps().spec_map().spec_width(),
            old(pool).spec_height() >= self.spec_jps().spec_map().spec_height(),
            old(pool).spec_state_field() == self.spec_jps().spec_state(),
            node.index < old(pool).nodes().nodes.len(),
            node.layout == old(pool).nodes().layout,
            ({
                let (x, y) = field_value(old(pool).nodes(), node, self.spec_jps().spec_state());
                in_map(self.spec_jps().spec_map().spec_width(), self.spec_jps().spec_map().spec_height(), x as int, y as int)
                    && self.spec_jps().spec_map().cell(x as int, y as int)
            }),
            node.index < old(pool).nodes().parents.len(),
            old(pool).nodes().parents[node.index as int] matches Some(p) ==> p < old(pool).nodes().nodes.len() && ({
                let (px, py) = field_value(old(pool).nodes(), NodeRef { index: p, layout: node.layout }, self.spec_jps().spec_state());
                in_map(self.spec_jps().spec_map().spec_width(), self.spec_jps().spec_map().spec_height(), px as int, py as int)
            }),
        ensures
            pool_grows(*old(pool), *final(pool)),
            final(edges)@.take(old(edges)@.len() as int) == old(edges)@,
            self.expanded(old(pool).nodes(), node, *final(pool), final(edges)@, old(edges)@.len() as int, allowed),
    {
        let state = self.jps.state();
        let map = self.jps.map();
        let ghost p_nodes = pool.nodes();
        let ghost e_before = edges@;
        proof {
            pool.lemma_node_access(node);
            map.lemma_size();
        }
        let (x, y) = node.get(pool.allocator(), state);
        let dir = match node.get_parent(pool.allocator()) {
            Some(parent) => {
                proof {
                    pool.lemma_node_access(parent);
                }
                let (px, py) = parent.get(pool.allocator(), state);
                reached_direction((px, py), (x, y))
            },
            None => None,
        };
        let canonical = canonical_successors(map.get_neighborhood(x, y), dir);
        let target = self.jps.target();
        let allowed = self.bb.filter((x, y), target, canonical);
        let ghost p_before = *pool;
        self.jps.expand_dirs(pool, x, y, edges, allowed);
        proof {
            let m = self.spec_jps().spec_map();
            let going = match p_nodes.parents[node.index as int] {
                Some(p) => {
                    let (px, py) = field_value(p_nodes, NodeRef { index: p, layout: node.layout }, state);
                    spec_reached_direction(x - px, y - py)
                },
                None => None,
            };
            assert(dir == going);
            let cs = DirSet { bits: canonical_bits(neighborhood_bits(&m, x as int, y as int), going) };
            assert(canonical == cs);
            assert(bb_allows(&self.spec_bb(), x as int, y as int, target, cs, allowed));
            assert(edges_match(*pool, edges@, e_before.len() as int,
                jps_plus_found(m, target.0 as int, target.1 as int, x as int, y as int, set_dirs(allowed.bits))));
            assert(field_value(p_nodes, node, self.spec_jps().spec_state()) == (x, y));
            assert(self.spec_jps().spec_state() == state);
            assert(self.spec_jps().spec_target() == target);
            assert(p_nodes == old(pool).nodes());
            assert(e_before == old(edges)@);
        }
        allowed
    }
}

} // verus!
