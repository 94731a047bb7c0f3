use mkpath::node::{LayoutId, NodeBuilder};
use mkpath::pqueue::PriorityQueueFactory;

#[test]
fn pqueue_pops_in_key_order_with_decrease_key() {
    let mut b = NodeBuilder::new(LayoutId::new(21));
    let key = b.add_field(u64::MAX);
    let factory = PriorityQueueFactory::new(&mut b);
    let mut nodes = b.build();
    let mut q = factory.new_queue(key);
    let mut state: u64 = 7;
    let mut all = vec![];
    for _ in 0..40 {
        state = state.wrapping_mul(6364136223846793005).wrapping_add(1442695040888963407);
        let n = nodes.new_node();
        n.set(&mut nodes, key, (state >> 40) % 1000);
        q.relaxed(&mut nodes, n);
        all.push(n);
    }
    // lower some keys and reposition those nodes
    for (i, &n) in all.iter().enumerate() {
        if i % 3 == 0 {
            let k = n.get(&nodes, key);
            n.set(&mut nodes, key, k / 2);
            q.relaxed(&mut nodes, n);
        }
    }
    let mut out = vec![];
    while let Some(n) = q.next(&mut nodes) {
        out.push(n.get(&nodes, key));
    }
    assert_eq!(out.len(), 40);
    for w in out.windows(2) {
        assert!(w[0] <= w[1]);
    }
    assert!(q.next(&mut nodes).is_none());
}

#[test]
fn pqueue_relaxing_twice_keeps_one_entry() {
    let mut b = NodeBuilder::new(LayoutId::new(22));
    let key = b.add_field(0u64);
    let factory = PriorityQueueFactory::new(&mut b);
    let mut nodes = b.build();
    let mut q = factory.new_queue(key);
    let a = nodes.new_node();
    let c = nodes.new_node();
    a.set(&mut nodes, key, 5);
    c.set(&mut nodes, key, 3);
    q.relaxed(&mut nodes, a);
    q.relaxed(&mut nodes, c);
    q.relaxed(&mut nodes, a);
    assert_eq!(q.next(&mut nodes), Some(c));
    assert_eq!(q.next(&mut nodes), Some(a));
    assert_eq!(q.next(&mut nodes), None);
}
