//! Search nodes with fields declared at run time.
//!
//! A [`NodeBuilder`] collects typed fields, each with a default value; the [`NodeAllocator`] it
//! builds stores every node as one word per field. A [`NodeMemberPointer`] names a field of one
//! layout, so that independent parts of a search can each keep their own data in a node.
use vstd::prelude::*;
use std::marker::PhantomData;

verus! {

/// A value that a node field can hold: it is stored as one 64-bit word.
pub trait NodeField: Sized {
    /// The word that stores `self`.
    spec fn word_of(self) -> u64;

    /// The value that word `w` stores.
    spec fn value_of(w: u64) -> Self;

    /// Reading back a stored value gives the value.
    proof fn lemma_round_trip(v: Self)
        ensures
            Self::value_of(v.word_of()) == v,
    ;

    /// The word that stores `self`.
    fn to_word(self) -> (w: u64)
        ensures
            w == self.word_of(),
    ;

    /// The value that word `w` stores.
    fn from_word(w: u64) -> (v: Self)
        ensures
            v == Self::value_of(w),
    ;
}

impl NodeField for u64 {
    open spec fn word_of(self) -> u64 {
        self
    }

    open spec fn value_of(w: u64) -> u64 {
        w
    }

    proof fn lemma_round_trip(v: u64) {
    }

    fn to_word(self) -> (w: u64) {
        self
    }

    fn from_word(w: u64) -> (v: u64) {
        w
    }
}

impl NodeField for usize {
    open spec fn word_of(self) -> u64 {
        self as u64
    }

    open spec fn value_of(w: u64) -> usize {
        w as usize
    }

    proof fn lemma_round_trip(v: usize) {
    }

    fn to_word(self) -> (w: u64) {
        self as u64
    }

    fn from_word(w: u64) -> (v: usize) {
        w as usize
    }
}

impl NodeField for u32 {
    open spec fn word_of(self) -> u64 {
        self as u64
    }

    open spec fn value_of(w: u64) -> u32 {
        w as u32
    }

    proof fn lemma_round_trip(v: u32) {
    }

    fn to_word(self) -> (w: u64) {
        self as u64
    }

    fn from_word(w: u64) -> (v: u32) {
        w as u32
    }
}

impl NodeField for bool {
    open spec fn word_of(self) -> u64 {
        if self { 1 } else { 0 }
    }

    open spec fn value_of(w: u64) -> bool {
        w != 0
    }

    proof fn lemma_round_trip(v: bool) {
    }

    fn to_word(self) -> (w: u64) {
        if self { 1 } else { 0 }
    }

    fn from_word(w: u64) -> (v: bool) {
        w != 0
    }
}

impl NodeField for (i32, i32) {
    open spec fn word_of(self) -> u64 {
        ((self.0 as int + 0x8000_0000) * 0x1_0000_0000 + (self.1 as int + 0x8000_0000)) as u64
    }

    open spec fn value_of(w: u64) -> (i32, i32) {
        (
            (w as int / 0x1_0000_0000 - 0x8000_0000) as i32,
            (w as int % 0x1_0000_0000 - 0x8000_0000) as i32,
        )
    }

    proof fn lemma_round_trip(v: (i32, i32)) {
        let a = v.0 as int + 0x8000_0000;
        let b = v.1 as int + 0x8000_0000;
        assert(0 <= a * 0x1_0000_0000 + b < 0x1_0000_0000_0000_0000) by (nonlinear_arith)
            requires
                0 <= a < 0x1_0000_0000,
                0 <= b < 0x1_0000_0000,
        ;
        assert((a * 0x1_0000_0000 + b) / 0x1_0000_0000 == a) by (nonlinear_arith)
            requires
                0 <= b < 0x1_0000_0000,
        ;
        assert((a * 0x1_0000_0000 + b) % 0x1_0000_0000 == b) by (nonlinear_arith)
            requires
                0 <= b < 0x1_0000_0000,
        ;
    }

    fn to_word(self) -> (w: u64) {
        let a = (self.0 as i64 + 0x8000_0000) as u64;
        let b = (self.1 as i64 + 0x8000_0000) as u64;
        assert(a * 0x1_0000_0000 + b < 0x1_0000_0000_0000_0000) by (nonlinear_arith)
            requires
                a < 0x1_0000_0000,
                b < 0x1_0000_0000,
        ;
        a * 0x1_0000_0000 + b
    }

    fn from_word(w: u64) -> (v: (i32, i32)) {
        (
            ((w / 0x1_0000_0000) as i64 - 0x8000_0000) as i32,
            ((w % 0x1_0000_0000) as i64 - 0x8000_0000) as i32,
        )
    }
}

impl NodeField for (u32, u32) {
    open spec fn word_of(self) -> u64 {
        (self.0 as u64) | ((self.1 as u64) << 32u64)
    }

    open spec fn value_of(w: u64) -> (u32, u32) {
        ((w & 0xffff_ffffu64) as u32, (w >> 32u64) as u32)
    }

    proof fn lemma_round_trip(v: (u32, u32)) {
        let a = v.0;
        let b = v.1;
        assert(((a as u64) | ((b as u64) << 32u64)) & 0xffff_ffffu64 == a as u64) by (bit_vector);
        assert(((a as u64) | ((b as u64) << 32u64)) >> 32u64 == b as u64) by (bit_vector);
    }

    fn to_word(self) -> (w: u64) {
        (self.0 as u64) | ((self.1 as u64) << 32u64)
    }

    fn from_word(w: u64) -> (v: (u32, u32)) {
        ((w & 0xffff_ffff) as u32, (w >> 32) as u32)
    }
}

/// Identifier of a node layout. Each builder must get an id of its own.
#[derive(Clone, Copy, Debug, PartialEq, Eq, Hash, Structural)]
pub struct LayoutId(pub u64);

impl LayoutId {
    /// The layout id with number `raw`.
    pub fn new(raw: u64) -> (r: LayoutId)
        ensures
            r.0 == raw,
    {
        LayoutId(raw)
    }
}

/// Marker for the nodes a [`NodeRef`] refers to; nodes have no value of their own outside an
/// allocator.
pub struct Node;

/// Collects the fields of a node layout.
pub struct NodeBuilder {
    layout_id: LayoutId,
    default: Vec<u64>,
}

/// A typed handle to one field of the nodes of a layout.
pub struct NodeMemberPointer<T> {
    layout_id: LayoutId,
    offset: usize,
    _marker: PhantomData<T>,
}

impl<T> Clone for NodeMemberPointer<T> {
    fn clone(&self) -> (r: Self)
        ensures
            r == *self,
    {
        NodeMemberPointer { layout_id: self.layout_id, offset: self.offset, _marker: PhantomData }
    }
}

impl<T> Copy for NodeMemberPointer<T> {
}

impl<T> NodeMemberPointer<T> {
    /// The layout this field belongs to.
    pub closed spec fn spec_layout(&self) -> LayoutId {
        self.layout_id
    }

    /// The position of this field among the fields of its layout.
    pub closed spec fn spec_offset(&self) -> nat {
        self.offset as nat
    }

    /// The layout this field belongs to.
    pub fn layout_id(&self) -> (r: LayoutId)
        ensures
            r == self.spec_layout(),
    {
        self.layout_id
    }
}

/// A reference to a node of a [`NodeAllocator`].
#[derive(Clone, Copy, Debug, PartialEq, Eq, Hash, Structural)]
pub struct NodeRef {
    pub index: usize,
    pub layout: LayoutId,
}

/// Allocates the nodes of one layout and holds their fields.
pub struct NodeAllocator {
    layout_id: LayoutId,
    default: Vec<u64>,
    fields: Vec<u64>,
    parents: Vec<Option<usize>>,
}

/// The node store seen as a sequence of nodes, each a sequence of field words.
pub struct NodesView {
    pub layout: LayoutId,
    pub default: Seq<u64>,
    pub nodes: Seq<Seq<u64>>,
    pub parents: Seq<Option<usize>>,
}

/// The value of field `f` of node `n` in a node store.
pub open spec fn field_value<T: NodeField>(v: NodesView, n: NodeRef, f: NodeMemberPointer<T>) -> T {
    T::value_of(v.nodes[n.index as int][f.spec_offset() as int])
}

/// Whether `n` is a node of the store and `f` a field of its layout.
pub open spec fn valid_access<T>(v: NodesView, n: NodeRef, f: NodeMemberPointer<T>) -> bool {
    &&& n.layout == v.layout
    &&& f.spec_layout() == v.layout
    &&& n.index < v.nodes.len()
    &&& f.spec_offset() < v.default.len()
}

impl NodeBuilder {
    /// A layout with no fields, identified by `layout_id`.
    pub fn new(layout_id: LayoutId) -> (b: NodeBuilder)
        ensures
            b.spec_layout() == layout_id,
            b.spec_defaults() == Seq::<u64>::empty(),
    {
        NodeBuilder { layout_id, default: Vec::new() }
    }

    /// The layout being built.
    pub closed spec fn spec_layout(&self) -> LayoutId {
        self.layout_id
    }

    /// The default words of the fields so far.
    pub closed spec fn spec_defaults(&self) -> Seq<u64> {
        self.default@
    }

    /// Adds a field whose value starts as `default` in every new node.
    pub fn add_field<T: NodeField>(&mut self, default: T) -> (f: NodeMemberPointer<T>)
        ensures
            final(self).spec_layout() == old(self).spec_layout(),
            final(self).spec_defaults() == old(self).spec_defaults().push(default.word_of()),
            f.spec_layout() == old(self).spec_layout(),
            f.spec_offset() == old(self).spec_defaults().len(),
    {
        let offset = self.default.len();
        self.default.push(default.to_word());
        NodeMemberPointer { layout_id: self.layout_id, offset, _marker: PhantomData }
    }

    /// The allocator for nodes of this layout.
    pub fn build(self) -> (a: NodeAllocator)
        ensures
            a@.layout == self.spec_layout(),
            a@.default == self.spec_defaults(),
            a@.nodes.len() == 0,
            a.wf(),
    {
        self.build_with_capacity(0)
    }

    /// The allocator for nodes of this layout, with room set aside for `capacity` nodes.
    pub fn build_with_capacity(self, capacity: usize) -> (a: NodeAllocator)
        ensures
            a@.layout == self.spec_layout(),
            a@.default == self.spec_defaults(),
            a@.nodes.len() == 0,
            a.wf(),
    {
        let a = NodeAllocator {
            layout_id: self.layout_id,
            default: self.default,
            fields: Vec::new(),
            parents: Vec::new(),
        };
        assert(a@.nodes =~= Seq::<Seq<u64>>::empty());
        a
    }
}

impl View for NodeAllocator {
    type V = NodesView;

    closed spec fn view(&self) -> NodesView {
        let k = self.default@.len();
        NodesView {
            layout: self.layout_id,
            default: self.default@,
            nodes: Seq::new(
                self.parents@.len(),
                |i: int| Seq::new(k, |j: int| self.fields@[i * k + j]),
            ),
            parents: self.parents@,
        }
    }
}

proof fn lemma_flat_index(i: int, j: int, k: int, n: int)
    requires
        0 <= i < n,
        0 <= j < k,
    ensures
        0 <= i * k + j < n * k,
        (i + 1) * k == i * k + k,
{
    assert(i * k + j < (i + 1) * k) by (nonlinear_arith)
        requires
            j < k,
    ;
    assert((i + 1) * k <= n * k) by (nonlinear_arith)
        requires
            i + 1 <= n,
            k >= 0,
    ;
    assert(0 <= i * k) by (nonlinear_arith)
        requires
            i >= 0,
            k >= 0,
    ;
    assert((i + 1) * k == i * k + k) by (nonlinear_arith);
}

impl NodeAllocator {
    /// Every node has one word per field.
    pub closed spec fn wf(&self) -> bool {
        self.fields@.len() == self.parents@.len() * self.default@.len()
    }

    /// In a well-formed store every node holds one word per field.
    pub proof fn lemma_uniform(&self)
        requires
            self.wf(),
        ensures
            forall|i: int| 0 <= i < self@.nodes.len() ==> (#[trigger] self@.nodes[i]).len() == self@.default.len(),
    {
    }

    /// There is one parent slot per node.
    pub proof fn lemma_parents_len(&self)
        ensures
            self@.nodes.len() == self@.parents.len(),
    {
    }

    /// The layout of the nodes of this allocator.
    pub fn layout_id(&self) -> (r: LayoutId)
        ensures
            r == self@.layout,
    {
        self.layout_id
    }

    /// Drops every node.
    pub fn reset(&mut self)
        ensures
            final(self)@.layout == old(self)@.layout,
            final(self)@.default == old(self)@.default,
            final(self)@.nodes.len() == 0,
            final(self).wf(),
    {
        self.fields.clear();
        self.parents.clear();
        assert(self@.nodes =~= Seq::<Seq<u64>>::empty());
    }

    /// A new node whose fields hold their defaults, with no parent.
    pub fn new_node(&mut self) -> (n: NodeRef)
        requires
            old(self).wf(),
        ensures
            final(self).wf(),
            final(self)@.layout == old(self)@.layout,
            final(self)@.default == old(self)@.default,
            final(self)@.nodes == old(self)@.nodes.push(old(self)@.default),
            final(self)@.parents == old(self)@.parents.push(None),
            n.index == old(self)@.nodes.len(),
            n.layout == old(self)@.layout,
    {
        let ghost before = self@;
        let ghost k = self.default@.len() as int;
        let ghost m = self.parents@.len() as int;
        let ghost old_fields = self.fields@;
        let index = self.parents.len();
        let mut row: Vec<u64> = Vec::new();
        let mut j: usize = 0;
        while j < self.default.len()
            invariant
                j <= self.default@.len(),
                row@ == self.default@.take(j as int),
            decreases self.default@.len() - j,
        {
            row.push(self.default[j]);
            j = j + 1;
            assert(row@ =~= self.default@.take(j as int));
        }
        assert(row@ =~= self.default@);
        self.fields.append(&mut row);
        self.parents.push(None);
        proof {
            assert((m + 1) * k == m * k + k) by (nonlinear_arith);
            assert forall|i: int, jj: int| 0 <= i < m && 0 <= jj < k implies #[trigger] self.fields@[i * k
                + jj] == old_fields[i * k + jj] by {
                lemma_flat_index(i, jj, k, m);
            }
            let nv = self@.nodes;
            let ov = before.nodes.push(before.default);
            assert forall|i: int| 0 <= i < nv.len() implies nv[i] =~= ov[i] by {
                if i < m {
                    assert forall|jj: int| 0 <= jj < k implies nv[i][jj] == ov[i][jj] by {
                        lemma_flat_index(i, jj, k, m);
                    }
                } else {
                    assert forall|jj: int| 0 <= jj < k implies nv[i][jj] == ov[i][jj] by {
                        assert(i == m);
                    }
                }
            }
            assert(nv =~= ov);
        }
        NodeRef { index, layout: self.layout_id }
    }
}

impl NodeRef {
    /// The value of field `member` of this node.
    pub fn get<T: NodeField>(self, nodes: &NodeAllocator, member: NodeMemberPointer<T>) -> (r: T)
        requires
            nodes.wf(),
            valid_access(nodes@, self, member),
        ensures
            r == field_value(nodes@, self, member),
    {
        let k = nodes.default.len();
        let _f = nodes.fields.len();
        proof {
            lemma_flat_index(self.index as int, member.offset as int, k as int, nodes.parents@.len() as int);
        }
        T::from_word(nodes.fields[self.index * k + member.offset])
    }

    /// Stores `value` in field `member` of this node; no other field of any node changes.
    pub fn set<T: NodeField>(self, nodes: &mut NodeAllocator, member: NodeMemberPointer<T>, value: T)
        requires
            old(nodes).wf(),
            valid_access(old(nodes)@, self, member),
        ensures
            final(nodes).wf(),
            final(nodes)@ == set_field(old(nodes)@, self, member, value),
    {
        let k = nodes.default.len();
        let _f = nodes.fields.len();
        let ghost before = nodes@;
        let ghost m = nodes.parents@.len() as int;
        proof {
            lemma_flat_index(self.index as int, member.offset as int, k as int, m);
        }
        let at = self.index * k + member.offset;
        nodes.fields.set(at, value.to_word());
        proof {
            let after = set_field(before, self, member, value);
            assert forall|i: int, j: int| 0 <= i < m && 0 <= j < k implies #[trigger] nodes.fields@[i
                * k + j] == after.nodes[i][j] by {
                lemma_flat_index(i, j, k as int, m);
                if i * k + j == at {
                    assert(i == self.index && j == member.offset) by (nonlinear_arith)
                        requires
                            i * k + j == self.index * k + member.offset,
                            0 <= j < k,
                            0 <= member.offset < k,
                            0 <= i,
                            0 <= self.index,
                    ;
                } else if i == self.index && j == member.offset {
                }
            }
            assert forall|i: int| 0 <= i < m implies nodes@.nodes[i] =~= after.nodes[i] by {
                assert forall|j: int| 0 <= j < k implies nodes@.nodes[i][j] == after.nodes[i][j] by {
                    assert(nodes.fields@[i * k + j] == after.nodes[i][j]);
                }
            }
            assert(nodes@.nodes =~= after.nodes);
        }
    }

    /// The layout of this node.
    pub fn layout_id(self) -> (r: LayoutId)
        ensures
            r == self.layout,
    {
        self.layout
    }

    /// The parent of this node, if it has one.
    pub fn get_parent(self, nodes: &NodeAllocator) -> (r: Option<NodeRef>)
        requires
            self.layout == nodes@.layout,
            self.index < nodes@.nodes.len(),
        ensures
            r == match nodes@.parents[self.index as int] {
                Some(p) => Some(NodeRef { index: p, layout: self.layout }),
                None => None,
            },
    {
        match nodes.parents[self.index] {
            Some(p) => Some(NodeRef { index: p, layout: self.layout }),
            None => None,
        }
    }

    /// Makes `parent` the parent of this node.
    pub fn set_parent(self, nodes: &mut NodeAllocator, parent: Option<NodeRef>)
        requires
            old(nodes).wf(),
            self.layout == old(nodes)@.layout,
            self.index < old(nodes)@.nodes.len(),
        ensures
            final(nodes).wf(),
            final(nodes)@.layout == old(nodes)@.layout,
            final(nodes)@.default == old(nodes)@.default,
            final(nodes)@.nodes == old(nodes)@.nodes,
            final(nodes)@.parents == old(nodes)@.parents.update(
                self.index as int,
                match parent {
                    Some(p) => Some(p.index),
                    None => None,
                },
            ),
    {
        let p = match parent {
            Some(p) => Some(p.index),
            None => None,
        };
        let ghost before = nodes@;
        nodes.parents.set(self.index, p);
        assert(nodes@.nodes =~= before.nodes);
    }

    /// Whether the two references name the same node.
    pub fn ptr_eq(self, other: NodeRef) -> (r: bool)
        ensures
            r == (self == other),
    {
        self.index == other.index && self.layout == other.layout
    }

    /// Whether the two references name the same node.
    pub fn same_ptr(self, other: NodeRef) -> (r: bool)
        ensures
            r == (self == other),
    {
        self.ptr_eq(other)
    }

    /// The node's position in its allocator together with its layout: a value that names the
    /// node among the nodes of every layout.
    pub fn into_raw(self) -> (r: (usize, LayoutId))
        ensures
            r == (self.index, self.layout),
    {
        (self.index, self.layout)
    }

    /// The node's position in its allocator together with its layout.
    pub fn raw(self) -> (r: (usize, LayoutId))
        ensures
            r == (self.index, self.layout),
    {
        (self.index, self.layout)
    }

    /// The node named by `raw`, as [`NodeRef::into_raw`] gives it.
    pub fn from_raw(raw: (usize, LayoutId)) -> (r: NodeRef)
        ensures
            r.index == raw.0,
            r.layout == raw.1,
    {
        NodeRef { index: raw.0, layout: raw.1 }
    }

    /// Whether this node belongs to layout `layout_id`.
    pub fn check_layout(&self, layout_id: LayoutId) -> (r: bool)
        ensures
            r == (self.layout == layout_id),
    {
        self.layout == layout_id
    }
}

/// The node store after field `f` of node `n` is set to `value`.
pub open spec fn set_field<T: NodeField>(v: NodesView, n: NodeRef, f: NodeMemberPointer<T>, value: T) -> NodesView {
    NodesView {
        nodes: v.nodes.update(
            n.index as int,
            v.nodes[n.index as int].update(f.spec_offset() as int, value.word_of()),
        ),
        ..v
    }
}

/// A field reads back the value last stored in it; every other field of every node keeps its
/// value; and a node that was never written holds the defaults of its layout.
pub proof fn lemma_layout_safety<T: NodeField, U: NodeField>(
    v: NodesView,
    n: NodeRef,
    f: NodeMemberPointer<T>,
    value: T,
    m: NodeRef,
    g: NodeMemberPointer<U>,
)
    requires
        valid_access(v, n, f),
        valid_access(v, m, g),
        forall|i: int| 0 <= i < v.nodes.len() ==> (#[trigger] v.nodes[i]).len() == v.default.len(),
    ensures
        field_value(set_field(v, n, f, value), n, f) == value,
        (m.index != n.index || g.spec_offset() != f.spec_offset()) ==> field_value(
            set_field(v, n, f, value),
            m,
            g,
        ) == field_value(v, m, g),
        v.nodes[m.index as int] == v.default ==> field_value(v, m, g) == U::value_of(
            v.default[g.spec_offset() as int],
        ),
{
    T::lemma_round_trip(value);
}

/// Raw values name nodes: two references have the same raw value exactly when they name the
/// same node, and turning a raw value back gives the node.
pub proof fn lemma_raw_names_node(a: NodeRef, b: NodeRef)
    ensures
        ((a.index, a.layout) == (b.index, b.layout)) == (a == b),
        (NodeRef { index: a.index, layout: a.layout }) == a,
{
}

} // verus!
