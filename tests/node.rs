use mkpath::node::{LayoutId, NodeBuilder, NodeRef};

#[test]
fn node_fields_start_at_defaults() {
    let mut b = NodeBuilder::new(LayoutId::new(7));
    let g = b.add_field(5u64);
    let pos = b.add_field((3i32, -4i32));
    let flag = b.add_field(true);
    let idx = b.add_field(usize::MAX);
    let mut nodes = b.build();
    let n = nodes.new_node();
    assert_eq!(n.get(&nodes, g), 5);
    assert_eq!(n.get(&nodes, pos), (3, -4));
    assert!(n.get(&nodes, flag));
    assert_eq!(n.get(&nodes, idx), usize::MAX);
    assert_eq!(n.layout_id(), LayoutId::new(7));
    assert_eq!(nodes.layout_id(), LayoutId::new(7));
}

#[test]
fn node_get_returns_last_set() {
    let mut b = NodeBuilder::new(LayoutId::new(1));
    let a = b.add_field(0u32);
    let p = b.add_field((0u32, 0u32));
    let s = b.add_field((0i32, 0i32));
    let mut nodes = b.build_with_capacity(4);
    let n1 = nodes.new_node();
    let n2 = nodes.new_node();
    n1.set(&mut nodes, a, 10);
    n2.set(&mut nodes, a, 20);
    n1.set(&mut nodes, a, 11);
    n2.set(&mut nodes, p, (u32::MAX, 3));
    n1.set(&mut nodes, s, (i32::MIN, i32::MAX));
    assert_eq!(n1.get(&nodes, a), 11);
    assert_eq!(n2.get(&nodes, a), 20);
    assert_eq!(n2.get(&nodes, p), (u32::MAX, 3));
    assert_eq!(n1.get(&nodes, p), (0, 0));
    assert_eq!(n1.get(&nodes, s), (i32::MIN, i32::MAX));
    assert!(!n1.ptr_eq(n2));
    assert!(n1.same_ptr(n1));
}

#[test]
fn node_parents_and_reset() {
    let mut b = NodeBuilder::new(LayoutId::new(2));
    let f = b.add_field(1u64);
    let mut nodes = b.build();
    let a = nodes.new_node();
    let c = nodes.new_node();
    assert_eq!(c.get_parent(&nodes), None);
    c.set_parent(&mut nodes, Some(a));
    assert_eq!(c.get_parent(&nodes), Some(a));
    c.set_parent(&mut nodes, None);
    assert_eq!(c.get_parent(&nodes), None);
    a.set(&mut nodes, f, 9);
    nodes.reset();
    let again = nodes.new_node();
    assert_eq!(again.get(&nodes, f), 1);
    assert_eq!(again.into_raw(), (0, LayoutId::new(2)));
    assert_eq!(again.raw(), (0, LayoutId::new(2)));
    assert_eq!(NodeRef::from_raw(again.into_raw()), again);
    let mut other = NodeBuilder::new(LayoutId::new(5)).build();
    let foreign = other.new_node();
    // Same position, different layout: different raw values, different nodes.
    assert_ne!(foreign.into_raw(), again.into_raw());
    assert!(!foreign.ptr_eq(again));
    assert!(again.check_layout(LayoutId::new(2)));
    assert!(!again.check_layout(LayoutId::new(3)));
}
