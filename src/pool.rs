//! Node pools: the node of each state, made on first use within a search.
use vstd::prelude::*;
use crate::bitgrid::in_map;
use crate::grid::Grid;
use crate::node::{NodeAllocator, NodeField, NodeMemberPointer, NodeRef, NodesView, field_value, valid_access};

verus! {

/// A pool over the cells of a grid: each cell remembers its node and the search it was made in,
/// so that starting a new search forgets every node at once.
pub struct GridPool {
    state_map: Grid<(u64, usize)>,
    search_number: u64,
    state_field: NodeMemberPointer<(i32, i32)>,
    allocator: NodeAllocator,
}

impl GridPool {
    /// The node store.
    pub closed spec fn nodes(&self) -> NodesView {
        self.allocator@
    }

    /// The field that holds each node's cell.
    pub closed spec fn spec_state_field(&self) -> NodeMemberPointer<(i32, i32)> {
        self.state_field
    }

    /// Width of the grid.
    pub closed spec fn spec_width(&self) -> int {
        self.state_map.spec_width()
    }

    /// Height of the grid.
    pub closed spec fn spec_height(&self) -> int {
        self.state_map.spec_height()
    }

    /// The node of cell `(x, y)` in the current search, if it has one.
    pub closed spec fn lookup(&self, x: int, y: int) -> Option<NodeRef> {
        let (num, index) = self.state_map.at(x, y);
        if num == self.search_number {
            Some(NodeRef { index, layout: self.allocator@.layout })
        } else {
            None
        }
    }

    /// Every node of the current search lies in the store and holds its cell.
    pub closed spec fn wf(&self) -> bool {
        &&& self.state_map.wf()
        &&& self.allocator.wf()
        &&& self.search_number >= 1
        &&& valid_access(self.allocator@, NodeRef { index: 0, layout: self.allocator@.layout }, self.state_field)
            || self.allocator@.nodes.len() == 0
        &&& self.state_field.spec_layout() == self.allocator@.layout
        &&& (self.state_field.spec_offset() < self.allocator@.default.len())
        &&& forall|i: int| 0 <= i < self.allocator@.nodes.len() ==> (#[trigger] self.allocator@.nodes[i]).len() == self.allocator@.default.len()
        &&& forall|x: int, y: int|
            in_map(self.state_map.spec_width(), self.state_map.spec_height(), x, y) ==> {
                let (num, index) = #[trigger] self.state_map.at(x, y);
                num <= self.search_number
                && (num == self.search_number ==> index < self.allocator@.nodes.len()
                    && field_value(self.allocator@, NodeRef { index, layout: self.allocator@.layout }, self.state_field) == (x as i32, y as i32))
            }
    }

    /// Every node of the store holds a state field.
    pub proof fn lemma_node_access(&self, n: NodeRef)
        requires
            self.wf(),
            n.index < self.nodes().nodes.len(),
            n.layout == self.nodes().layout,
        ensures
            valid_access(self.nodes(), n, self.spec_state_field()),
            self.nodes().parents.len() == self.nodes().nodes.len(),
    {
        self.allocator.lemma_parents_len();
    }

    /// A pool over a `width` by `height` grid whose nodes come from `allocator` and keep their
    /// cell in `state_field`.
    pub fn new(allocator: NodeAllocator, state_field: NodeMemberPointer<(i32, i32)>, width: i32, height: i32) -> (p: GridPool)
        requires
            allocator.wf(),
            state_field.spec_layout() == allocator@.layout,
            state_field.spec_offset() < allocator@.default.len(),
            forall|i: int| 0 <= i < allocator@.nodes.len() ==> (#[trigger] allocator@.nodes[i]).len() == allocator@.default.len(),
            width >= 0,
            height >= 0,
            width * height <= usize::MAX,
        ensures
            p.wf(),
            p.spec_width() == width,
            p.spec_height() == height,
            forall|x: int, y: int| in_map(width as int, height as int, x, y) ==> p.lookup(x, y) is None,
    {
        let state_map = Grid::new(width, height, |x: i32, y: i32| -> (r: (u64, usize))
            ensures
                r == (0u64, 0usize),
            { (0u64, 0usize) });
        let p = GridPool { state_map, search_number: 1, state_field, allocator };
        p
    }

    /// Width of the grid.
    pub fn width(&self) -> (r: i32)
        ensures
            r == self.spec_width(),
    {
        self.state_map.width()
    }

    /// Height of the grid.
    pub fn height(&self) -> (r: i32)
        ensures
            r == self.spec_height(),
    {
        self.state_map.height()
    }

    /// The field that holds each node's cell.
    pub fn state_member(&self) -> (r: NodeMemberPointer<(i32, i32)>)
        ensures
            r == self.spec_state_field(),
    {
        self.state_field
    }

    /// The node store.
    pub fn allocator(&self) -> (r: &NodeAllocator)
        ensures
            r@ == self.nodes(),
            self.wf() ==> r.wf(),
    {
        &self.allocator
    }

    /// The node of cell `state` in the current search, if it has one.
    pub fn get(&self, state: (i32, i32)) -> (r: Option<NodeRef>)
        requires
            self.wf(),
            in_map(self.spec_width(), self.spec_height(), state.0 as int, state.1 as int),
        ensures
            r == self.lookup(state.0 as int, state.1 as int),
    {
        let (num, index) = *self.state_map.get(state.0, state.1);
        if num == self.search_number {
            Some(NodeRef { index, layout: self.allocator.layout_id() })
        } else {
            None
        }
    }

    /// The node of cell `state`, made with its cell set when the cell has none in this search.
    pub fn generate(&mut self, state: (i32, i32)) -> (r: NodeRef)
        requires
            old(self).wf(),
            in_map(old(self).spec_width(), old(self).spec_height(), state.0 as int, state.1 as int),
        ensures
            final(self).wf(),
            final(self).spec_width() == old(self).spec_width(),
            final(self).spec_height() == old(self).spec_height(),
            final(self).spec_state_field() == old(self).spec_state_field(),
            final(self).lookup(state.0 as int, state.1 as int) == Some(r),
            field_value(final(self).nodes(), r, final(self).spec_state_field()) == state,
            r.index < final(self).nodes().nodes.len(),
            r.layout == final(self).nodes().layout,
            old(self).lookup(state.0 as int, state.1 as int) matches Some(n) ==> r == n && final(self).nodes() == old(self).nodes(),
            old(self).lookup(state.0 as int, state.1 as int) is None ==> r.index == old(self).nodes().nodes.len(),
            final(self).nodes().layout == old(self).nodes().layout,
            final(self).nodes().default == old(self).nodes().default,
            final(self).nodes().nodes.len() >= old(self).nodes().nodes.len(),
            forall|i: int| 0 <= i < old(self).nodes().nodes.len() ==> #[trigger] final(self).nodes().nodes[i] == old(self).nodes().nodes[i],
            forall|x: int, y: int|
                in_map(old(self).spec_width(), old(self).spec_height(), x, y) && (x, y) != (state.0 as int, state.1 as int)
                    ==> #[trigger] final(self).lookup(x, y) == old(self).lookup(x, y),
    {
        let (num, index) = *self.state_map.get(state.0, state.1);
        if num == self.search_number {
            return NodeRef { index, layout: self.allocator.layout_id() };
        }
        let ghost before = *self;
        let node = self.allocator.new_node();
        node.set(&mut self.allocator, self.state_field, state);
        self.state_map.set(state.0, state.1, (self.search_number, node.index));
        proof {
            <(i32, i32) as NodeField>::lemma_round_trip(state);
            assert forall|x: int, y: int|
                in_map(self.state_map.spec_width(), self.state_map.spec_height(), x, y) implies {
                    let (num, index) = #[trigger] self.state_map.at(x, y);
                    num <= self.search_number
                    && (num == self.search_number ==> index < self.allocator@.nodes.len()
                        && field_value(self.allocator@, NodeRef { index, layout: self.allocator@.layout }, self.state_field) == (x as i32, y as i32))
                } by {
                if (x, y) != (state.0 as int, state.1 as int) {
                    let (num, index) = before.state_map.at(x, y);
                    if num == self.search_number {
                        assert(index != node.index);
                        assert(self.allocator@.nodes[index as int] == before.allocator@.nodes[index as int]);
                    }
                }
            }
            assert forall|i: int| 0 <= i < self.allocator@.nodes.len() implies (#[trigger] self.allocator@.nodes[i]).len() == self.allocator@.default.len() by {
                if i < before.allocator@.nodes.len() {
                    assert(self.allocator@.nodes[i] == before.allocator@.nodes[i]);
                }
            }
        }
        node
    }

    /// Stores `value` in field `member` of `node`; the state field cannot be changed this way.
    pub fn set_field<T: NodeField>(&mut self, node: NodeRef, member: NodeMemberPointer<T>, value: T)
        requires
            old(self).wf(),
            valid_access(old(self).nodes(), node, member),
            member.spec_offset() != old(self).spec_state_field().spec_offset(),
        ensures
            final(self).wf(),
            final(self).nodes() == crate::node::set_field(old(self).nodes(), node, member, value),
            final(self).spec_width() == old(self).spec_width(),
            final(self).spec_height() == old(self).spec_height(),
            final(self).spec_state_field() == old(self).spec_state_field(),
            forall|x: int, y: int| #[trigger] final(self).lookup(x, y) == old(self).lookup(x, y),
    {
        let ghost before = *self;
        node.set(&mut self.allocator, member, value);
        proof {
            assert forall|x: int, y: int|
                in_map(self.state_map.spec_width(), self.state_map.spec_height(), x, y) implies {
                    let (num, index) = #[trigger] self.state_map.at(x, y);
                    num <= self.search_number
                    && (num == self.search_number ==> index < self.allocator@.nodes.len()
                        && field_value(self.allocator@, NodeRef { index, layout: self.allocator@.layout }, self.state_field) == (x as i32, y as i32))
                } by {
                let (num, index) = self.state_map.at(x, y);
                if num == self.search_number {
                    let m = NodeRef { index, layout: self.allocator@.layout };
                    crate::node::lemma_layout_safety(before.allocator@, node, member, value, m, self.state_field);
                }
            }
            assert forall|i: int| 0 <= i < self.allocator@.nodes.len() implies (#[trigger] self.allocator@.nodes[i]).len() == self.allocator@.default.len() by {
                assert(before.allocator@.nodes[i].len() == before.allocator@.default.len());
            }
        }
    }

    /// Makes `parent` the parent of `node`.
    pub fn set_parent(&mut self, node: NodeRef, parent: Option<NodeRef>)
        requires
            old(self).wf(),
            node.layout == old(self).nodes().layout,
            node.index < old(self).nodes().nodes.len(),
        ensures
            final(self).wf(),
            final(self).nodes().nodes == old(self).nodes().nodes,
            final(self).nodes().layout == old(self).nodes().layout,
            final(self).nodes().parents == old(self).nodes().parents.update(
                node.index as int,
                match parent {
                    Some(p) => Some(p.index),
                    None => None,
                },
            ),
            final(self).spec_width() == old(self).spec_width(),
            final(self).spec_height() == old(self).spec_height(),
            final(self).spec_state_field() == old(self).spec_state_field(),
            forall|x: int, y: int| #[trigger] final(self).lookup(x, y) == old(self).lookup(x, y),
    {
        node.set_parent(&mut self.allocator, parent);
    }

    /// Forgets every node: a new search starts with no cell holding a node.
    pub fn reset(&mut self)
        requires
            old(self).wf(),
        ensures
            final(self).wf(),
            final(self).spec_width() == old(self).spec_width(),
            final(self).spec_height() == old(self).spec_height(),
            final(self).spec_state_field() == old(self).spec_state_field(),
            final(self).nodes().nodes.len() == 0,
            final(self).nodes().layout == old(self).nodes().layout,
            final(self).nodes().default == old(self).nodes().default,
            forall|x: int, y: int| in_map(final(self).spec_width(), final(self).spec_height(), x, y) ==> #[trigger] final(self).lookup(x, y) is None,
    {
        if self.search_number == u64::MAX {
            self.state_map.fill((0, 0));
            self.search_number = 1;
        } else {
            self.search_number = self.search_number + 1;
        }
        self.allocator.reset();
    }
}

/// A pool that never merges states: every call makes a new node.
pub struct NullPool<S> {
    state_field: NodeMemberPointer<S>,
    allocator: NodeAllocator,
}

impl<S: NodeField> NullPool<S> {
    /// The node store.
    pub closed spec fn nodes(&self) -> NodesView {
        self.allocator@
    }

    /// The field that holds each node's state.
    pub closed spec fn spec_state_field(&self) -> NodeMemberPointer<S> {
        self.state_field
    }

    /// The state field belongs to the store's layout.
    pub closed spec fn wf(&self) -> bool {
        &&& self.allocator.wf()
        &&& self.state_field.spec_layout() == self.allocator@.layout
        &&& self.state_field.spec_offset() < self.allocator@.default.len()
    }

    /// A pool whose nodes come from `allocator` and keep their state in `state_field`.
    pub fn new(allocator: NodeAllocator, state_field: NodeMemberPointer<S>) -> (p: NullPool<S>)
        requires
            allocator.wf(),
            state_field.spec_layout() == allocator@.layout,
            state_field.spec_offset() < allocator@.default.len(),
        ensures
            p.wf(),
            p.nodes() == allocator@,
            p.spec_state_field() == state_field,
    {
        NullPool { state_field, allocator }
    }

    /// No state has a node that can be found again.
    pub fn get(&self, _state: &S) -> (r: Option<NodeRef>)
        ensures
            r is None,
    {
        None
    }

    /// Forgets every node.
    pub fn reset(&mut self)
        requires
            old(self).wf(),
        ensures
            final(self).wf(),
            final(self).nodes().nodes.len() == 0,
            final(self).spec_state_field() == old(self).spec_state_field(),
    {
        self.allocator.reset();
    }

    /// A new node holding `state`.
    pub fn generate(&mut self, state: S) -> (r: NodeRef)
        requires
            old(self).wf(),
        ensures
            final(self).wf(),
            final(self).spec_state_field() == old(self).spec_state_field(),
            r.index == old(self).nodes().nodes.len(),
            r.layout == old(self).nodes().layout,
            final(self).nodes().nodes.len() == old(self).nodes().nodes.len() + 1,
            field_value(final(self).nodes(), r, final(self).spec_state_field()) == state,
    {
        let node = self.allocator.new_node();
        proof {
            S::lemma_round_trip(state);
        }
        node.set(&mut self.allocator, self.state_field, state);
        node
    }
}

} // verus!
