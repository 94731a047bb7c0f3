//! A binary min-heap of nodes with decrease-key: each node keeps its heap position in a field.
use vstd::prelude::*;
use crate::node::{NodeAllocator, NodeBuilder, NodeField, NodeMemberPointer, NodeRef, NodesView, field_value, valid_access};

verus! {

/// Makes priority queues for nodes of one layout; the queue keeps each node's heap position in
/// a field.
pub struct PriorityQueueFactory {
    index: NodeMemberPointer<usize>,
}

impl PriorityQueueFactory {
    /// Adds the position field to `builder`.
    pub fn new(builder: &mut NodeBuilder) -> (f: PriorityQueueFactory)
        ensures
            final(builder).spec_layout() == old(builder).spec_layout(),
            final(builder).spec_defaults() == old(builder).spec_defaults().push(usize::MAX.word_of()),
            f.spec_index().spec_layout() == old(builder).spec_layout(),
            f.spec_index().spec_offset() == old(builder).spec_defaults().len(),
    {
        PriorityQueueFactory { index: builder.add_field(usize::MAX) }
    }

    /// The position field.
    pub closed spec fn spec_index(&self) -> NodeMemberPointer<usize> {
        self.index
    }

    /// An empty queue ordered by the `u64` field `key`. Non-negative `f64` values keep their
    /// order when stored as their bit patterns.
    pub fn new_queue(&self, key: NodeMemberPointer<u64>) -> (q: PriorityQueue)
        requires
            key.spec_layout() == self.spec_index().spec_layout(),
            key.spec_offset() != self.spec_index().spec_offset(),
        ensures
            q.spec_heap().len() == 0,
            q.spec_key() == key,
            q.spec_index() == self.spec_index(),
    {
        PriorityQueue { key, index: self.index, heap: Vec::new() }
    }
}

/// Nodes ordered by a key field, smallest first.
pub struct PriorityQueue {
    key: NodeMemberPointer<u64>,
    index: NodeMemberPointer<usize>,
    heap: Vec<NodeRef>,
}

/// The key of node `n`.
pub open spec fn key_of(nodes: NodesView, key: NodeMemberPointer<u64>, n: NodeRef) -> u64 {
    field_value(nodes, n, key)
}

/// The parent position of heap position `i > 0`.
pub open spec fn parent(i: int) -> int {
    (i - 1) / 2
}

impl PriorityQueue {
    /// The heap, in array order.
    pub closed spec fn spec_heap(&self) -> Seq<NodeRef> {
        self.heap@
    }

    /// The key field.
    pub closed spec fn spec_key(&self) -> NodeMemberPointer<u64> {
        self.key
    }

    /// The position field.
    pub closed spec fn spec_index(&self) -> NodeMemberPointer<usize> {
        self.index
    }

    /// Every node in the heap can be read, knows its position, and no node's key is smaller
    /// than its parent's.
    pub open spec fn inv(&self, nodes: NodesView) -> bool {
        &&& self.spec_key().spec_offset() != self.spec_index().spec_offset()
        &&& self.spec_key().spec_layout() == self.spec_index().spec_layout()
        &&& heap_ok(nodes, self.spec_key(), self.spec_index(), self.spec_heap())
    }
}

/// The heap with a hole at `hole`, into which `node` is to be placed by moving up: every other
/// slot is settled, and `node` fits below the hole's parent once it rises past it.
pub open spec fn hole_up(nodes: NodesView, key: NodeMemberPointer<u64>, index: NodeMemberPointer<usize>, h: Seq<NodeRef>, hole: int, node: NodeRef) -> bool {
    &&& 0 <= hole < h.len()
    &&& valid_access(nodes, node, index) && valid_access(nodes, node, key)
    &&& forall|j: int| 0 <= j < h.len() && j != hole ==> {
        &&& valid_access(nodes, #[trigger] h[j], index)
        &&& valid_access(nodes, h[j], key)
        &&& field_value(nodes, h[j], index) == j as usize
        &&& h[j] != node
    }
    &&& forall|j: int| 0 < j < h.len() && j != hole && parent(j) != hole ==> key_of(nodes, key, h[parent(j)]) <= key_of(nodes, key, #[trigger] h[j])
    &&& forall|c: int| 0 <= c < h.len() && c != hole && parent(c) == hole && c > 0 ==> {
        &&& key_of(nodes, key, node) <= key_of(nodes, key, #[trigger] h[c])
        &&& hole > 0 ==> key_of(nodes, key, h[parent(hole)]) <= key_of(nodes, key, h[c])
    }
}

/// The heap with a hole at `hole`, into which `node` is to be placed by moving down: every
/// other slot is settled, and the hole's parent is no larger than `node` or the hole's children.
pub open spec fn hole_down(nodes: NodesView, key: NodeMemberPointer<u64>, index: NodeMemberPointer<usize>, h: Seq<NodeRef>, hole: int, node: NodeRef) -> bool {
    &&& 0 <= hole < h.len()
    &&& valid_access(nodes, node, index) && valid_access(nodes, node, key)
    &&& forall|j: int| 0 <= j < h.len() && j != hole ==> {
        &&& valid_access(nodes, #[trigger] h[j], index)
        &&& valid_access(nodes, h[j], key)
        &&& field_value(nodes, h[j], index) == j as usize
        &&& h[j] != node
    }
    &&& forall|j: int| 0 < j < h.len() && j != hole && parent(j) != hole ==> key_of(nodes, key, h[parent(j)]) <= key_of(nodes, key, #[trigger] h[j])
    &&& hole > 0 ==> key_of(nodes, key, h[parent(hole)]) <= key_of(nodes, key, node)
    &&& hole > 0 ==> forall|c: int| 0 < c < h.len() && parent(c) == hole ==> key_of(nodes, key, h[parent(hole)]) <= key_of(nodes, key, #[trigger] h[c])
}

/// Only position fields differ between two node stores.
pub open spec fn only_index_changed(n0: NodesView, n1: NodesView, index: NodeMemberPointer<usize>) -> bool {
    &&& n1.layout == n0.layout
    &&& n1.default == n0.default
    &&& n1.nodes.len() == n0.nodes.len()
    &&& forall|k: int| 0 <= k < n0.nodes.len() ==> (#[trigger] n1.nodes[k]).len() == n0.nodes[k].len()
    &&& forall|k: int, o: int| 0 <= k < n0.nodes.len() && 0 <= o < n0.nodes[k].len() && o != index.spec_offset() ==>
        #[trigger] n1.nodes[k][o] == n0.nodes[k][o]
}

proof fn lemma_set_index(n0: NodesView, index: NodeMemberPointer<usize>, key: NodeMemberPointer<u64>, m: NodeRef, v: usize)
    requires
        valid_access(n0, m, index),
        key.spec_layout() == index.spec_layout(),
        key.spec_offset() != index.spec_offset(),
        forall|k: int| 0 <= k < n0.nodes.len() ==> (#[trigger] n0.nodes[k]).len() == n0.default.len(),
    ensures
        only_index_changed(n0, crate::node::set_field(n0, m, index, v), index),
        field_value(crate::node::set_field(n0, m, index, v), m, index) == v,
        forall|r: NodeRef| r != m && valid_access(n0, r, index) ==> #[trigger] field_value(crate::node::set_field(n0, m, index, v), r, index) == field_value(n0, r, index),
        forall|r: NodeRef| valid_access(n0, r, key) ==> #[trigger] key_of(crate::node::set_field(n0, m, index, v), key, r) == key_of(n0, key, r),
{
    let n1 = crate::node::set_field(n0, m, index, v);
    <usize as NodeField>::lemma_round_trip(v);
    assert forall|r: NodeRef| r != m && valid_access(n0, r, index) implies #[trigger] field_value(n1, r, index) == field_value(n0, r, index) by {
        if r.index != m.index {
        } else {
            assert(r.layout == m.layout);
        }
    }
}

proof fn lemma_only_index_trans(n0: NodesView, n1: NodesView, n2: NodesView, index: NodeMemberPointer<usize>)
    requires
        only_index_changed(n0, n1, index),
        only_index_changed(n1, n2, index),
    ensures
        only_index_changed(n0, n2, index),
{
    assert forall|k: int, o: int| 0 <= k < n0.nodes.len() && 0 <= o < n0.nodes[k].len() && o != index.spec_offset() implies
        #[trigger] n2.nodes[k][o] == n0.nodes[k][o] by {
        assert(n2.nodes[k][o] == n1.nodes[k][o]);
    }
}

/// Every node of `h` can be read, knows its position, and no key is smaller than its parent's.
pub open spec fn heap_ok(nodes: NodesView, key: NodeMemberPointer<u64>, index: NodeMemberPointer<usize>, h: Seq<NodeRef>) -> bool {
    &&& forall|i: int| 0 <= i < h.len() ==> {
        &&& valid_access(nodes, #[trigger] h[i], index)
        &&& valid_access(nodes, h[i], key)
        &&& field_value(nodes, h[i], index) == i as usize
    }
    &&& forall|i: int| 0 < i < h.len() ==> key_of(nodes, key, h[parent(i)]) <= key_of(nodes, key, #[trigger] h[i])
}

/// `h` is a heap but for node `node`, whose key may have dropped below its parent's since it
/// was placed.
pub open spec fn heap_ok_but(nodes: NodesView, key: NodeMemberPointer<u64>, index: NodeMemberPointer<usize>, h: Seq<NodeRef>, node: NodeRef) -> bool {
    &&& forall|i: int| 0 <= i < h.len() ==> {
        &&& valid_access(nodes, #[trigger] h[i], index)
        &&& valid_access(nodes, h[i], key)
        &&& field_value(nodes, h[i], index) == i as usize
    }
    &&& forall|i: int| 0 < i < h.len() && h[i] != node ==> key_of(nodes, key, h[parent(i)]) <= key_of(nodes, key, #[trigger] h[i])
    &&& forall|c: int| 0 < c < h.len() && parent(c) > 0 && h[parent(c)] == node ==> key_of(nodes, key, h[parent(parent(c))]) <= key_of(nodes, key, #[trigger] h[c])
}

/// The root of a heap holds a smallest key.
pub proof fn lemma_heap_root_min(nodes: NodesView, key: NodeMemberPointer<u64>, h: Seq<NodeRef>, i: int)
    requires
        forall|j: int| 0 < j < h.len() ==> key_of(nodes, key, h[parent(j)]) <= key_of(nodes, key, #[trigger] h[j]),
        0 <= i < h.len(),
    ensures
        key_of(nodes, key, h[0]) <= key_of(nodes, key, h[i]),
    decreases i,
{
    if i > 0 {
        lemma_heap_root_min(nodes, key, h, parent(i));
    }
}

/// A node store whose nodes all hold one word per field.
pub open spec fn uniform(nodes: NodesView) -> bool {
    forall|k: int| 0 <= k < nodes.nodes.len() ==> (#[trigger] nodes.nodes[k]).len() == nodes.default.len()
}

impl PriorityQueue {
    /// Moves `node` up from the hole at `i` to where its key fits, then places it.
    fn sift_up(&mut self, nodes: &mut NodeAllocator, node: NodeRef, i: usize)
        requires
            old(nodes).wf(),
            uniform(old(nodes)@),
            old(self).spec_key().spec_layout() == old(self).spec_index().spec_layout(),
            old(self).spec_key().spec_offset() != old(self).spec_index().spec_offset(),
            hole_up(old(nodes)@, old(self).spec_key(), old(self).spec_index(), old(self).spec_heap(), i as int, node),
        ensures
            final(nodes).wf(),
            uniform(final(nodes)@),
            final(self).inv(final(nodes)@),
            final(self).spec_key() == old(self).spec_key(),
            final(self).spec_index() == old(self).spec_index(),
            only_index_changed(old(nodes)@, final(nodes)@, old(self).spec_index()),
            final(self).spec_heap().len() == old(self).spec_heap().len(),
            final(self).spec_heap().to_set() == old(self).spec_heap().update(i as int, node).to_set(),
    {
        let ghost n_start = nodes@;
        let ghost h_start = self.heap@;
        let key = self.key;
        let index = self.index;
        let ghost i0 = i;
        let mut i = i;
        let mut stop = false;
        while !stop && i > 0
            invariant
                stop ==> i > 0 && key_of(nodes@, key, self.heap@[parent(i as int)]) <= key_of(nodes@, key, node),
                nodes.wf(),
                uniform(nodes@),
                self.key == key,
                self.index == index,
                key.spec_layout() == index.spec_layout(),
                key.spec_offset() != index.spec_offset(),
                hole_up(nodes@, key, index, self.heap@, i as int, node),
                only_index_changed(n_start, nodes@, index),
                self.heap@.len() == h_start.len(),
                self.heap@.update(i as int, node).to_set() == h_start.update(i0 as int, node).to_set(),
            decreases i + if stop { 0int } else { 1int },
        {
            let p = (i - 1) / 2;
            let _len = self.heap.len();
            let par = self.heap[p];
            let pk = par.get(nodes, key);
            let nk = node.get(nodes, key);
            if pk <= nk {
                stop = true;
                continue;
            }
            let ghost n0 = nodes@;
            let ghost h0 = self.heap@;
            self.heap.set(i, par);
            proof {
                lemma_set_index(n0, index, key, par, i);
            }
            par.set(nodes, index, i);
            proof {
                lemma_only_index_trans(n_start, n0, nodes@, index);
                lemma_swap_set(h0, i as int, p as int, node);
                assert(h0.len() <= usize::MAX);
                lemma_up_step(n0, nodes@, key, index, h0, i as int, p as int, node);
            }
            i = p;
        }
        let _len = self.heap.len();
        let ghost n0 = nodes@;
        let ghost old_heap_at_place = self.heap@;
        self.heap.set(i, node);
        proof {
            lemma_set_index(n0, index, key, node, i);
        }
        node.set(nodes, index, i);
        proof {
            lemma_only_index_trans(n_start, n0, nodes@, index);
            lemma_up_place(n0, nodes@, key, index, old_heap_at_place, i as int, node);
        }
    }
}

#[verifier::rlimit(80)]
proof fn lemma_up_step(n0: NodesView, n1: NodesView, key: NodeMemberPointer<u64>, index: NodeMemberPointer<usize>, h0: Seq<NodeRef>, i: int, p: int, node: NodeRef)
    requires
        hole_up(n0, key, index, h0, i, node),
        h0.len() <= usize::MAX,
        i > 0,
        p == parent(i),
        key_of(n0, key, h0[p]) > key_of(n0, key, node),
        key.spec_layout() == index.spec_layout(),
        key.spec_offset() != index.spec_offset(),
        uniform(n0),
        n1 == crate::node::set_field(n0, h0[p], index, i as usize),
    ensures
        hole_up(n1, key, index, h0.update(i, h0[p]), p, node),
{
    let par = h0[p];
    let h1 = h0.update(i, par);
    lemma_set_index(n0, index, key, par, i as usize);
    assert forall|j: int| 0 <= j < h1.len() && j != p implies {
        &&& valid_access(n1, #[trigger] h1[j], index)
        &&& valid_access(n1, h1[j], key)
        &&& field_value(n1, h1[j], index) == j as usize
        &&& h1[j] != node
    } by {
        if j != i {
            assert(h0[j] != par) by {
                assert(field_value(n0, h0[j], index) == j as usize);
                assert(field_value(n0, par, index) == p as usize);
            }
        }
    }
    assert forall|j: int| 0 < j < h1.len() && j != p && parent(j) != p implies key_of(n1, key, h1[parent(j)]) <= key_of(n1, key, #[trigger] h1[j]) by {
        if j == i {
        } else if parent(j) == i {
            assert(key_of(n0, key, h0[parent(i)]) <= key_of(n0, key, h0[j]));
        } else {
            assert(key_of(n0, key, h0[parent(j)]) <= key_of(n0, key, h0[j]));
        }
    }
    assert forall|c: int| 0 <= c < h1.len() && c != p && parent(c) == p && c > 0 implies {
        &&& key_of(n1, key, node) <= key_of(n1, key, #[trigger] h1[c])
        &&& p > 0 ==> key_of(n1, key, h1[parent(p)]) <= key_of(n1, key, h1[c])
    } by {
        if c != i {
            assert(key_of(n0, key, h0[p]) <= key_of(n0, key, h0[c]));
            if p > 0 {
                assert(key_of(n0, key, h0[parent(p)]) <= key_of(n0, key, h0[p]));
            }
        } else {
            if p > 0 {
                assert(key_of(n0, key, h0[parent(p)]) <= key_of(n0, key, h0[p]));
            }
        }
    }
}

proof fn lemma_up_place(n0: NodesView, n1: NodesView, key: NodeMemberPointer<u64>, index: NodeMemberPointer<usize>, h0: Seq<NodeRef>, i: int, node: NodeRef)
    requires
        hole_up(n0, key, index, h0, i, node),
        h0.len() <= usize::MAX,
        i == 0 || key_of(n0, key, h0[parent(i)]) <= key_of(n0, key, node),
        key.spec_layout() == index.spec_layout(),
        key.spec_offset() != index.spec_offset(),
        uniform(n0),
        n1 == crate::node::set_field(n0, node, index, i as usize),
    ensures
        heap_ok(n1, key, index, h0.update(i, node)),
{
    let h1 = h0.update(i, node);
    lemma_set_index(n0, index, key, node, i as usize);
    assert forall|j: int| 0 < j < h1.len() implies key_of(n1, key, h1[parent(j)]) <= key_of(n1, key, #[trigger] h1[j]) by {
        if j == i {
        } else if parent(j) == i {
        } else {
        }
    }
}

/// Moving the item at `p` into the hole at `i` and the hole to `p` keeps the items.
proof fn lemma_swap_set(h: Seq<NodeRef>, i: int, p: int, node: NodeRef)
    requires
        0 <= i < h.len(),
        0 <= p < h.len(),
    ensures
        h.update(i, h[p]).update(p, node).to_set() == h.update(i, node).to_set(),
{
    let a = h.update(i, h[p]).update(p, node);
    let b = h.update(i, node);
    if i == p {
        assert(a =~= b);
    } else {
        assert forall|x: NodeRef| a.to_set().contains(x) <==> b.to_set().contains(x) by {
            if a.to_set().contains(x) {
                let j = choose|j: int| 0 <= j < a.len() && a[j] == x;
                if j == i {
                    assert(b[p] == x);
                } else if j == p {
                    assert(b[i] == x);
                } else {
                    assert(b[j] == x);
                }
            }
            if b.to_set().contains(x) {
                let j = choose|j: int| 0 <= j < b.len() && b[j] == x;
                if j == i {
                    assert(a[p] == x);
                } else if j == p {
                    assert(a[i] == x);
                } else {
                    assert(a[j] == x);
                }
            }
        }
        assert(a.to_set() =~= b.to_set());
    }
}

proof fn lemma_push_set(h: Seq<NodeRef>, node: NodeRef)
    ensures
        h.push(node).to_set() == h.to_set().insert(node),
{
    let a = h.push(node);
    assert forall|x: NodeRef| a.to_set().contains(x) <==> h.to_set().insert(node).contains(x) by {
        if a.to_set().contains(x) {
            let j = choose|j: int| 0 <= j < a.len() && a[j] == x;
            if j < h.len() {
                assert(h[j] == x);
            }
        }
        if h.to_set().contains(x) {
            let j = choose|j: int| 0 <= j < h.len() && h[j] == x;
            assert(a[j] == x);
        }
        if x == node {
            assert(a[h.len() as int] == x);
        }
    }
    assert(a.to_set() =~= h.to_set().insert(node));
}

proof fn lemma_push_hole(nodes: NodesView, key: NodeMemberPointer<u64>, index: NodeMemberPointer<usize>, h: Seq<NodeRef>, node: NodeRef)
    requires
        heap_ok_but(nodes, key, index, h, node),
        valid_access(nodes, node, index),
        valid_access(nodes, node, key),
        forall|j: int| 0 <= j < h.len() ==> h[j] != node,
    ensures
        hole_up(nodes, key, index, h.push(node), h.len() as int, node),
{
    let h1 = h.push(node);
    assert forall|j: int| 0 < j < h1.len() && j != h.len() && parent(j) != h.len() implies key_of(nodes, key, h1[parent(j)]) <= key_of(nodes, key, #[trigger] h1[j]) by {
        assert(h1[j] == h[j]);
        assert(h1[parent(j)] == h[parent(j)]);
    }
}

proof fn lemma_present_hole(nodes: NodesView, key: NodeMemberPointer<u64>, index: NodeMemberPointer<usize>, h: Seq<NodeRef>, node: NodeRef, pos: int)
    requires
        heap_ok_but(nodes, key, index, h, node),
        valid_access(nodes, node, index),
        valid_access(nodes, node, key),
        0 <= pos < h.len(),
        h[pos] == node,
        forall|j: int| 0 <= j < h.len() && j != pos ==> h[j] != node,
    ensures
        hole_up(nodes, key, index, h, pos, node),
{
}

impl PriorityQueue {
    /// Inserts `node`, or moves it up after its key dropped.
    pub fn relaxed(&mut self, nodes: &mut NodeAllocator, node: NodeRef)
        requires
            old(nodes).wf(),
            uniform(old(nodes)@),
            old(self).spec_key().spec_layout() == old(self).spec_index().spec_layout(),
            old(self).spec_key().spec_offset() != old(self).spec_index().spec_offset(),
            valid_access(old(nodes)@, node, old(self).spec_index()),
            valid_access(old(nodes)@, node, old(self).spec_key()),
            heap_ok_but(old(nodes)@, old(self).spec_key(), old(self).spec_index(), old(self).spec_heap(), node),
        ensures
            final(nodes).wf(),
            uniform(final(nodes)@),
            final(self).inv(final(nodes)@),
            final(self).spec_key() == old(self).spec_key(),
            final(self).spec_index() == old(self).spec_index(),
            only_index_changed(old(nodes)@, final(nodes)@, old(self).spec_index()),
            final(self).spec_heap().to_set() == old(self).spec_heap().to_set().insert(node),
    {
        let pos = node.get(nodes, self.index);
        let ghost h = self.heap@;
        if pos >= self.heap.len() || !self.heap[pos].ptr_eq(node) {
            proof {
                assert forall|j: int| 0 <= j < h.len() implies h[j] != node by {
                    if h[j] == node {
                        assert(field_value(nodes@, h[j], self.index) == j as usize);
                    }
                }
                lemma_push_set(h, node);
                lemma_push_hole(nodes@, self.key, self.index, h, node);
            }
            self.heap.push(node);
            let last = self.heap.len() - 1;
            proof {
                assert(self.heap@.update(last as int, node) =~= self.heap@);
            }
            self.sift_up(nodes, node, last);
        } else {
            proof {
                assert(h.update(pos as int, node) =~= h);
                assert(h.to_set().contains(node)) by {
                    assert(h[pos as int] == node);
                }
                assert(h.to_set().insert(node) =~= h.to_set());
                assert forall|j: int| 0 <= j < h.len() && j != pos implies h[j] != node by {
                    assert(field_value(nodes@, h[j], self.index) == j as usize);
                }
                lemma_present_hole(nodes@, self.key, self.index, h, node, pos as int);
            }
            self.sift_up(nodes, node, pos);
        }
    }
}

#[verifier::rlimit(80)]
proof fn lemma_down_step(n0: NodesView, n1: NodesView, key: NodeMemberPointer<u64>, index: NodeMemberPointer<usize>, h0: Seq<NodeRef>, i: int, ci: int, node: NodeRef)
    requires
        hole_down(n0, key, index, h0, i, node),
        h0.len() <= usize::MAX,
        0 < ci < h0.len(),
        parent(ci) == i,
        key_of(n0, key, h0[ci]) < key_of(n0, key, node),
        forall|c: int| 0 < c < h0.len() && parent(c) == i ==> key_of(n0, key, h0[ci]) <= key_of(n0, key, #[trigger] h0[c]),
        key.spec_layout() == index.spec_layout(),
        key.spec_offset() != index.spec_offset(),
        uniform(n0),
        n1 == crate::node::set_field(n0, h0[ci], index, i as usize),
    ensures
        hole_down(n1, key, index, h0.update(i, h0[ci]), ci, node),
{
    let ch = h0[ci];
    let h1 = h0.update(i, ch);
    lemma_set_index(n0, index, key, ch, i as usize);
    assert forall|j: int| 0 <= j < h1.len() && j != ci implies {
        &&& valid_access(n1, #[trigger] h1[j], index)
        &&& valid_access(n1, h1[j], key)
        &&& field_value(n1, h1[j], index) == j as usize
        &&& h1[j] != node
    } by {
        if j != i {
            assert(h0[j] != ch) by {
                assert(field_value(n0, h0[j], index) == j as usize);
                assert(field_value(n0, ch, index) == ci as usize);
            }
        }
    }
    assert forall|j: int| 0 < j < h1.len() && j != ci && parent(j) != ci implies key_of(n1, key, h1[parent(j)]) <= key_of(n1, key, #[trigger] h1[j]) by {
        if j == i {
        } else if parent(j) == i {
        } else {
            assert(key_of(n0, key, h0[parent(j)]) <= key_of(n0, key, h0[j]));
        }
    }
    assert forall|c: int| 0 < c < h1.len() && parent(c) == ci implies key_of(n1, key, h1[parent(ci)]) <= key_of(n1, key, #[trigger] h1[c]) by {
        assert(key_of(n0, key, h0[ci]) <= key_of(n0, key, h0[c]));
    }
}

proof fn lemma_down_place(n0: NodesView, n1: NodesView, key: NodeMemberPointer<u64>, index: NodeMemberPointer<usize>, h0: Seq<NodeRef>, i: int, node: NodeRef)
    requires
        hole_down(n0, key, index, h0, i, node),
        h0.len() <= usize::MAX,
        forall|c: int| 0 < c < h0.len() && parent(c) == i ==> key_of(n0, key, node) <= key_of(n0, key, #[trigger] h0[c]),
        key.spec_layout() == index.spec_layout(),
        key.spec_offset() != index.spec_offset(),
        uniform(n0),
        n1 == crate::node::set_field(n0, node, index, i as usize),
    ensures
        heap_ok(n1, key, index, h0.update(i, node)),
{
    let h1 = h0.update(i, node);
    lemma_set_index(n0, index, key, node, i as usize);
    assert forall|j: int| 0 < j < h1.len() implies key_of(n1, key, h1[parent(j)]) <= key_of(n1, key, #[trigger] h1[j]) by {
        if j == i {
        } else if parent(j) == i {
        } else {
        }
    }
}

proof fn lemma_pop_set(h: Seq<NodeRef>)
    requires
        h.len() >= 2,
        forall|a: int, b: int| 0 <= a < h.len() && 0 <= b < h.len() && a != b ==> h[a] != h[b],
    ensures
        h.drop_last().update(0, h.last()).to_set() == h.to_set().remove(h[0]),
{
    let a = h.drop_last().update(0, h.last());
    assert forall|x: NodeRef| a.to_set().contains(x) <==> h.to_set().remove(h[0]).contains(x) by {
        if a.to_set().contains(x) {
            let j = choose|j: int| 0 <= j < a.len() && a[j] == x;
            if j == 0 {
                assert(h[h.len() - 1] == x);
            } else {
                assert(h[j] == x);
            }
        }
        if h.to_set().remove(h[0]).contains(x) {
            let j = choose|j: int| 0 <= j < h.len() && h[j] == x;
            if j == h.len() - 1 {
                assert(a[0] == x);
            } else {
                assert(j != 0);
                assert(a[j] == x);
            }
        }
    }
    assert(a.to_set() =~= h.to_set().remove(h[0]));
}

proof fn lemma_children(i: int)
    requires
        i >= 0,
    ensures
        forall|c: int| c > 0 ==> (#[trigger] parent(c) == i <==> (c == 2 * i + 1 || c == 2 * i + 2)),
{
}

impl PriorityQueue {
    /// Moves `node` down from the hole at `i` to where its key fits, then places it.
    #[verifier::rlimit(80)]
    fn sift_down(&mut self, nodes: &mut NodeAllocator, node: NodeRef, i: usize)
        requires
            old(nodes).wf(),
            uniform(old(nodes)@),
            old(self).spec_key().spec_layout() == old(self).spec_index().spec_layout(),
            old(self).spec_key().spec_offset() != old(self).spec_index().spec_offset(),
            hole_down(old(nodes)@, old(self).spec_key(), old(self).spec_index(), old(self).spec_heap(), i as int, node),
        ensures
            final(nodes).wf(),
            uniform(final(nodes)@),
            final(self).inv(final(nodes)@),
            final(self).spec_key() == old(self).spec_key(),
            final(self).spec_index() == old(self).spec_index(),
            only_index_changed(old(nodes)@, final(nodes)@, old(self).spec_index()),
            final(self).spec_heap().len() == old(self).spec_heap().len(),
            final(self).spec_heap().to_set() == old(self).spec_heap().update(i as int, node).to_set(),
    {
        let ghost n_start = nodes@;
        let ghost h_start = self.heap@;
        let ghost i0 = i;
        let key = self.key;
        let index = self.index;
        let mut i = i;
        let mut stop = false;
        while !stop
            invariant
                nodes.wf(),
                uniform(nodes@),
                self.key == key,
                self.index == index,
                key.spec_layout() == index.spec_layout(),
                key.spec_offset() != index.spec_offset(),
                hole_down(nodes@, key, index, self.heap@, i as int, node),
                only_index_changed(n_start, nodes@, index),
                self.heap@.len() == h_start.len(),
                self.heap@.update(i as int, node).to_set() == h_start.update(i0 as int, node).to_set(),
                stop ==> forall|c: int| 0 < c < self.heap@.len() && parent(c) == i ==> key_of(nodes@, key, node) <= key_of(nodes@, key, #[trigger] self.heap@[c]),
            decreases self.heap@.len() - i, if stop { 0int } else { 1int },
        {
            let len = self.heap.len();
            proof {
                lemma_children(i as int);
            }
            if i >= len / 2 {
                stop = true;
                continue;
            }
            let c1 = 2 * i + 1;
            let c2 = c1 + 1;
            let k1 = self.heap[c1].get(nodes, key);
            let mut ci = c1;
            let mut ck = k1;
            if c2 < len {
                let k2 = self.heap[c2].get(nodes, key);
                if !(k1 <= k2) {
                    ci = c2;
                    ck = k2;
                }
            }
            let nk = node.get(nodes, key);
            if nk <= ck {
                stop = true;
                continue;
            }
            let ch = self.heap[ci];
            let ghost n0 = nodes@;
            let ghost h0 = self.heap@;
            self.heap.set(i, ch);
            proof {
                lemma_set_index(n0, index, key, ch, i);
            }
            ch.set(nodes, index, i);
            proof {
                lemma_only_index_trans(n_start, n0, nodes@, index);
                lemma_swap_set(h0, i as int, ci as int, node);
                lemma_down_step(n0, nodes@, key, index, h0, i as int, ci as int, node);
            }
            i = ci;
        }
        let _len = self.heap.len();
        let ghost n0 = nodes@;
        let ghost old_heap_at_place = self.heap@;
        self.heap.set(i, node);
        proof {
            lemma_set_index(n0, index, key, node, i);
        }
        node.set(nodes, index, i);
        proof {
            lemma_only_index_trans(n_start, n0, nodes@, index);
            lemma_down_place(n0, nodes@, key, index, old_heap_at_place, i as int, node);
        }
    }

    /// Removes and returns a node with the smallest key; `None` when the queue is empty.
    pub fn next(&mut self, nodes: &mut NodeAllocator) -> (r: Option<NodeRef>)
        requires
            old(nodes).wf(),
            uniform(old(nodes)@),
            old(self).inv(old(nodes)@),
        ensures
            final(nodes).wf(),
            uniform(final(nodes)@),
            final(self).inv(final(nodes)@),
            final(self).spec_key() == old(self).spec_key(),
            final(self).spec_index() == old(self).spec_index(),
            only_index_changed(old(nodes)@, final(nodes)@, old(self).spec_index()),
            r is None <==> old(self).spec_heap().len() == 0,
            r matches Some(m) ==> {
                &&& old(self).spec_heap().to_set().contains(m)
                &&& final(self).spec_heap().to_set() == old(self).spec_heap().to_set().remove(m)
                &&& forall|x: NodeRef| #[trigger] old(self).spec_heap().to_set().contains(x) ==>
                    key_of(old(nodes)@, old(self).spec_key(), m) <= key_of(old(nodes)@, old(self).spec_key(), x)
            },
    {
        let ghost h = self.heap@;
        let ghost n0 = nodes@;
        if self.heap.len() == 0 {
            return None;
        }
        let ret = self.heap[0];
        let last = self.heap.pop().unwrap();
        proof {
            assert(h[0] == ret);
            assert(h.to_set().contains(ret)) by {
                assert(h[0] == ret);
            }
            assert forall|x: NodeRef| #[trigger] h.to_set().contains(x) implies key_of(n0, self.key, ret) <= key_of(n0, self.key, x) by {
                let j = choose|j: int| 0 <= j < h.len() && h[j] == x;
                lemma_heap_root_min(n0, self.key, h, j);
            }
            assert forall|a: int, b: int| 0 <= a < h.len() && 0 <= b < h.len() && a != b implies h[a] != h[b] by {
                assert(field_value(n0, h[a], self.index) == a as usize);
                assert(field_value(n0, h[b], self.index) == b as usize);
            }
        }
        if self.heap.len() > 0 {
            proof {
                let h1 = self.heap@;
                assert(h1 =~= h.drop_last());
                assert forall|j: int| 0 < j < h1.len() && parent(j) != 0 implies key_of(n0, self.key, h1[parent(j)]) <= key_of(n0, self.key, #[trigger] h1[j]) by {
                    assert(h1[j] == h[j]);
                }
                lemma_pop_set(h);
            }
            self.sift_down(nodes, last, 0);
        } else {
            proof {
                assert(self.heap@.to_set() =~= h.to_set().remove(ret)) by {
                    assert forall|x: NodeRef| h.to_set().contains(x) implies x == ret by {
                        let j = choose|j: int| 0 <= j < h.len() && h[j] == x;
                    }
                }
            }
        }
        Some(ret)
    }
}

} // verus!
