//! A monotone open list of integer buckets: nodes leave in order of their bucket number.
use vstd::prelude::*;
use crate::node::{NodeAllocator, NodeBuilder, NodeField, NodeMemberPointer, NodeRef, NodesView, field_value, valid_access};

verus! {

/// Makes bucket queues for nodes of one layout; the queue keeps each node's position in a field.
pub struct BucketQueueFactory {
    bucket_pos: NodeMemberPointer<(u32, u32)>,
}

/// Marks a node that is in no bucket.
pub const NO_BUCKET: u32 = u32::MAX;

impl BucketQueueFactory {
    /// Adds the position field to `builder`; new nodes start in no bucket.
    pub fn new(builder: &mut NodeBuilder) -> (f: BucketQueueFactory)
        ensures
            final(builder).spec_layout() == old(builder).spec_layout(),
            final(builder).spec_defaults() == old(builder).spec_defaults().push((NO_BUCKET, NO_BUCKET).word_of()),
            f.spec_pos().spec_layout() == old(builder).spec_layout(),
            f.spec_pos().spec_offset() == old(builder).spec_defaults().len(),
    {
        BucketQueueFactory { bucket_pos: builder.add_field((NO_BUCKET, NO_BUCKET)) }
    }

    /// The position field.
    pub closed spec fn spec_pos(&self) -> NodeMemberPointer<(u32, u32)> {
        self.bucket_pos
    }

    /// An empty queue starting at bucket 0.
    pub fn new_queue(&self) -> (q: BucketQueue)
        ensures
            q.spec_bucket_number() == 0,
            q.spec_buckets().len() == 0,
            q.spec_pos() == self.spec_pos(),
    {
        BucketQueue { bucket_number: 0, bucket_pos: self.bucket_pos, queue: Vec::new() }
    }
}

/// Nodes held in buckets `bucket_number`, `bucket_number + 1`, ...
pub struct BucketQueue {
    bucket_number: u32,
    bucket_pos: NodeMemberPointer<(u32, u32)>,
    queue: Vec<Vec<NodeRef>>,
}

impl BucketQueue {
    /// The bucket at the front.
    pub closed spec fn spec_bucket_number(&self) -> nat {
        self.bucket_number as nat
    }

    /// The position field.
    pub closed spec fn spec_pos(&self) -> NodeMemberPointer<(u32, u32)> {
        self.bucket_pos
    }

    /// The buckets from the front on.
    pub closed spec fn spec_buckets(&self) -> Seq<Seq<NodeRef>> {
        Seq::new(self.queue@.len(), |i: int| self.queue@[i]@)
    }

    /// The bucket of `n` according to its position field.
    pub open spec fn bucket_of(&self, nodes: NodesView, n: NodeRef) -> u32 {
        field_value(nodes, n, self.spec_pos()).0
    }

    /// Every queued node records its bucket and slot, and bucket numbers fit in 32 bits.
    pub open spec fn inv(&self, nodes: NodesView) -> bool {
        let b = self.spec_buckets();
        &&& self.spec_bucket_number() + b.len() <= NO_BUCKET
        &&& forall|i: int| 0 <= i < b.len() ==> (#[trigger] b[i]).len() < NO_BUCKET
        &&& forall|i: int, j: int|
            0 <= i < b.len() && 0 <= j < b[i].len() ==> {
                let n = #[trigger] b[i][j];
                &&& valid_access(nodes, n, self.spec_pos())
                &&& field_value(nodes, n, self.spec_pos()) == ((self.spec_bucket_number() + i) as u32, j as u32)
            }
    }

    /// Whether `n` is queued.
    pub open spec fn queued(&self, n: NodeRef) -> bool {
        exists|i: int, j: int|
            0 <= i < self.spec_buckets().len() && 0 <= j < self.spec_buckets()[i].len() && #[trigger] self.spec_buckets()[i][j] == n
    }

    /// Removes a node of the first non-empty bucket, moving the front past empty buckets.
    pub fn next(&mut self, nodes: &NodeAllocator) -> (r: Option<NodeRef>)
        requires
            old(self).inv(nodes@),
        ensures
            final(self).inv(nodes@),
            final(self).spec_pos() == old(self).spec_pos(),
            final(self).spec_bucket_number() >= old(self).spec_bucket_number(),
            r matches Some(n) ==> old(self).queued(n) && old(self).bucket_of(nodes@, n) == final(self).spec_bucket_number()
                && forall|m: NodeRef| #[trigger] old(self).queued(m) ==> old(self).bucket_of(nodes@, n) <= old(self).bucket_of(nodes@, m),
            r matches Some(n) ==> forall|m: NodeRef| #[trigger] final(self).queued(m) <==> (old(self).queued(m) && m != n),
            forall|m: NodeRef| #[trigger] final(self).bucket_of(nodes@, m) == old(self).bucket_of(nodes@, m),
            r is None ==> forall|m: NodeRef| !#[trigger] old(self).queued(m),
    {
        let ghost q0 = *self;
        while self.queue.len() > 0
            invariant
                self.inv(nodes@),
                q0 == *old(self),
                self.spec_pos() == q0.spec_pos(),
                self.spec_bucket_number() >= q0.spec_bucket_number(),
                forall|m: NodeRef| #[trigger] q0.queued(m) ==> self.queued(m),
                forall|m: NodeRef| #[trigger] self.queued(m) ==> q0.queued(m),
                forall|m: NodeRef| #[trigger] q0.queued(m) ==> self.bucket_of(nodes@, m) >= self.spec_bucket_number(),
            decreases self.queue@.len(),
        {
            let len0 = self.queue[0].len();
            if len0 > 0 {
                let ghost before = *self;
                let node = self.queue[0].pop().unwrap();
                proof {
                    assert(self.spec_pos() == before.spec_pos());
                    assert(self.spec_bucket_number() == before.spec_bucket_number());
                    let b = before.spec_buckets();
                    assert(b[0][len0 - 1] == node);
                    assert(before.queued(node));
                    assert(self.spec_buckets() =~= b.update(0, b[0].drop_last()));
                    assert forall|m: NodeRef| #[trigger] q0.queued(m) implies self.bucket_of(nodes@, node) <= self.bucket_of(nodes@, m) by {
                        assert(self.bucket_of(nodes@, m) >= self.spec_bucket_number());
                    }
                    assert forall|m: NodeRef| #[trigger] self.queued(m) <==> (q0.queued(m) && m != node) by {
                        if self.queued(m) {
                            let (i, j) = choose|i: int, j: int| 0 <= i < self.spec_buckets().len() && 0 <= j < self.spec_buckets()[i].len() && #[trigger] self.spec_buckets()[i][j] == m;
                            assert(b[i][j] == m);
                            assert(before.queued(m));
                            assert(field_value(nodes@, m, self.bucket_pos) == ((before.spec_bucket_number() + i) as u32, j as u32));
                            assert(field_value(nodes@, node, self.bucket_pos) == ((before.spec_bucket_number() + 0) as u32, (len0 - 1) as u32));
                        }
                        if q0.queued(m) && m != node {
                            assert(before.queued(m));
                            let (i, j) = choose|i: int, j: int| 0 <= i < b.len() && 0 <= j < b[i].len() && #[trigger] b[i][j] == m;
                            assert(!(i == 0 && j == len0 - 1));
                            assert(self.spec_buckets()[i][j] == m);
                        }
                    }
                }
                return Some(node);
            }
            let ghost before = *self;
            self.queue.remove(0);
            self.bucket_number = self.bucket_number + 1;
            proof {
                let b = before.spec_buckets();
                assert(self.spec_buckets() =~= b.subrange(1, b.len() as int));
                assert forall|m: NodeRef| #[trigger] q0.queued(m) implies self.queued(m) by {
                    assert(before.queued(m));
                    let (i, j) = choose|i: int, j: int| 0 <= i < b.len() && 0 <= j < b[i].len() && #[trigger] b[i][j] == m;
                    assert(i >= 1);
                    assert(self.spec_buckets()[i - 1][j] == m);
                }
                assert forall|m: NodeRef| #[trigger] self.queued(m) implies q0.queued(m) by {
                    let (i, j) = choose|i: int, j: int| 0 <= i < self.spec_buckets().len() && 0 <= j < self.spec_buckets()[i].len() && #[trigger] self.spec_buckets()[i][j] == m;
                    assert(b[i + 1][j] == m);
                    assert(before.queued(m));
                }
                assert forall|m: NodeRef| #[trigger] q0.queued(m) implies self.bucket_of(nodes@, m) >= self.spec_bucket_number() by {
                    assert(self.queued(m));
                    let (i, j) = choose|i: int, j: int| 0 <= i < self.spec_buckets().len() && 0 <= j < self.spec_buckets()[i].len() && #[trigger] self.spec_buckets()[i][j] == m;
                    assert(b[i + 1][j] == m);
                }
            }
        }
        proof {
            assert forall|m: NodeRef| !#[trigger] q0.queued(m) by {
                if q0.queued(m) {
                    assert(self.queued(m));
                }
            }
        }
        None
    }

    #[verifier::rlimit(60)]
    /// Moves `node` into bucket `new_bucket` (or puts it there if it is in none); a node
    /// already in that bucket stays where it is. Only position fields change.
    pub fn relaxed_to(&mut self, nodes: &mut NodeAllocator, node: NodeRef, new_bucket: u32)
        requires
            old(self).inv(old(nodes)@),
            old(nodes).wf(),
            valid_access(old(nodes)@, node, old(self).spec_pos()),
            forall|i: int| 0 <= i < old(nodes)@.nodes.len() ==> (#[trigger] old(nodes)@.nodes[i]).len() == old(nodes)@.default.len(),
            old(self).spec_bucket_number() <= new_bucket < NO_BUCKET,
            old(self).bucket_of(old(nodes)@, node) != NO_BUCKET ==> old(self).queued(node),
            new_bucket - old(self).spec_bucket_number() < old(self).spec_buckets().len() ==>
                old(self).spec_buckets()[new_bucket - old(self).spec_bucket_number()].len() + 1 < NO_BUCKET,
        ensures
            final(self).inv(final(nodes)@),
            final(nodes).wf(),
            final(self).spec_pos() == old(self).spec_pos(),
            final(self).spec_bucket_number() == old(self).spec_bucket_number(),
            final(self).queued(node),
            final(self).bucket_of(final(nodes)@, node) == new_bucket,
            forall|m: NodeRef| #[trigger] final(self).queued(m) <==> (old(self).queued(m) || m == node),
            forall|m: NodeRef| m != node && #[trigger] old(self).queued(m) ==> final(self).bucket_of(final(nodes)@, m) == old(self).bucket_of(old(nodes)@, m),
            final(nodes)@.layout == old(nodes)@.layout,
            final(nodes)@.default == old(nodes)@.default,
            final(nodes)@.nodes.len() == old(nodes)@.nodes.len(),
            forall|k: int, o: int| 0 <= k < old(nodes)@.nodes.len() && 0 <= o < old(nodes)@.default.len() && o != old(self).spec_pos().spec_offset() ==>
                #[trigger] final(nodes)@.nodes[k][o] == old(nodes)@.nodes[k][o],
    {
        let pos = self.bucket_pos;
        let (bucket, index) = node.get(nodes, pos);
        if bucket == new_bucket {
            proof {
                let b = self.spec_buckets();
                let (i, j) = choose|i: int, j: int| 0 <= i < b.len() && 0 <= j < b[i].len() && #[trigger] b[i][j] == node;
            }
            return;
        }
        let ghost q0 = *self;
        let ghost n0 = nodes@;
        let ghost b0 = self.spec_buckets();
        let ghost off = pos.spec_offset() as int;
        if bucket != NO_BUCKET {
            let i = (bucket - self.bucket_number) as usize;
            proof {
                let (i2, j2) = choose|i: int, j: int| 0 <= i < b0.len() && 0 <= j < b0[i].len() && #[trigger] b0[i][j] == node;
                assert(i2 == i && j2 == index);
            }
            let last = self.queue[i].pop().unwrap();
            let ghost lastpos = (b0[i as int].len() - 1) as int;
            proof {
                assert(last == b0[i as int][lastpos]);
            }
            if !last.ptr_eq(node) {
                self.queue[i][index as usize] = last;
                proof {
                    <(u32, u32) as NodeField>::lemma_round_trip((bucket, index));
                }
                last.set(nodes, pos, (bucket, index));
                proof {
                    crate::node::lemma_layout_safety(n0, last, pos, (bucket, index), last, pos);
                    assert(index < lastpos);
                }
            }
            proof {
                let b1 = self.spec_buckets();
                let n1 = nodes@;
                assert(b1.len() == b0.len());
                assert forall|k: int| 0 <= k < b0.len() && k != i implies #[trigger] b1[k] == b0[k] by {}
                assert(b1[i as int].len() == b0[i as int].len() - 1);
                assert forall|k: int, o: int| 0 <= k < n0.nodes.len() && 0 <= o < n0.default.len() && o != off implies #[trigger] n1.nodes[k][o] == n0.nodes[k][o] by {
                    assert(n0.nodes[k].len() == n0.default.len());
                }
                assert forall|i2: int, j2: int| 0 <= i2 < b1.len() && 0 <= j2 < b1[i2].len() implies {
                    let n = #[trigger] b1[i2][j2];
                    &&& valid_access(n1, n, pos)
                    &&& field_value(n1, n, pos) == ((self.spec_bucket_number() + i2) as u32, j2 as u32)
                    &&& n != node
                } by {
                    let e = b1[i2][j2];
                    if i2 == i && j2 == index && last != node {
                        assert(e == last);
                    } else {
                        assert(e == b0[i2][j2]);
                        assert(field_value(n0, e, pos) == ((q0.spec_bucket_number() + i2) as u32, j2 as u32));
                        if last != node {
                            assert(e != last);
                            crate::node::lemma_layout_safety(n0, last, pos, (bucket, index), e, pos);
                        }
                    }
                }
                assert forall|m: NodeRef| #[trigger] self.queued(m) <==> (q0.queued(m) && m != node) by {
                    if self.queued(m) {
                        let (i2, j2) = choose|i2: int, j2: int| 0 <= i2 < b1.len() && 0 <= j2 < b1[i2].len() && #[trigger] b1[i2][j2] == m;
                        if i2 == i && j2 == index && last != node {
                            assert(b0[i as int][lastpos] == m);
                        } else {
                            assert(b0[i2][j2] == m);
                        }
                    }
                    if q0.queued(m) && m != node {
                        let (i2, j2) = choose|i2: int, j2: int| 0 <= i2 < b0.len() && 0 <= j2 < b0[i2].len() && #[trigger] b0[i2][j2] == m;
                        if i2 == i && j2 == lastpos {
                            assert(m == last);
                            assert(b1[i as int][index as int] == m);
                        } else {
                            assert(j2 != index || i2 != i);
                            assert(b1[i2][j2] == m);
                        }
                    }
                }
                assert forall|m: NodeRef| m != node && #[trigger] q0.queued(m) implies self.bucket_of(nodes@, m) == q0.bucket_of(n0, m) && valid_access(n0, m, pos) by {
                    let (i2, j2) = choose|i2: int, j2: int| 0 <= i2 < b0.len() && 0 <= j2 < b0[i2].len() && #[trigger] b0[i2][j2] == m;
                    if last != node {
                        crate::node::lemma_layout_safety(n0, last, pos, (bucket, index), m, pos);
                    }
                }
            }
        }
        let ghost q1 = *self;
        let ghost n1 = nodes@;
        let ghost b1 = self.spec_buckets();
        proof {
            assert(b1.len() == b0.len());
            assert forall|k: int| 0 <= k < b0.len() implies (#[trigger] b1[k]).len() <= b0[k].len() by {
                if bucket != NO_BUCKET && k == (bucket - q0.spec_bucket_number()) {
                } else {
                }
            }
            if bucket == NO_BUCKET {
                assert(!q0.queued(node));
                assert forall|i2: int, j2: int| 0 <= i2 < b1.len() && 0 <= j2 < b1[i2].len() implies #[trigger] b1[i2][j2] != node by {
                    assert(q0.spec_buckets()[i2][j2] == b1[i2][j2]);
                }
            }
        }
        let ni = (new_bucket - self.bucket_number) as usize;
        while self.queue.len() <= ni
            invariant
                self.spec_pos() == q1.spec_pos(),
                self.spec_bucket_number() == q1.spec_bucket_number(),
                self.queue@.len() >= b1.len(),
                self.queue@.len() <= ni + 1 || self.queue@.len() == b1.len(),
                ni == new_bucket - q1.spec_bucket_number(),
                forall|i2: int| 0 <= i2 < b1.len() ==> #[trigger] self.spec_buckets()[i2] == b1[i2],
                forall|i2: int| b1.len() <= i2 < self.queue@.len() ==> #[trigger] self.spec_buckets()[i2].len() == 0,
            decreases ni + 1 - self.queue@.len(),
        {
            let ghost before = self.spec_buckets();
            let empty: Vec<NodeRef> = Vec::new();
            assert(empty@.len() == 0);
            self.queue.push(empty);
            proof {
                assert forall|i2: int| b1.len() <= i2 < self.queue@.len() implies #[trigger] self.spec_buckets()[i2].len() == 0 by {
                    if i2 < before.len() {
                        assert(self.spec_buckets()[i2] == before[i2]);
                    }
                }
                assert forall|i2: int| 0 <= i2 < b1.len() implies #[trigger] self.spec_buckets()[i2] == b1[i2] by {
                    assert(self.spec_buckets()[i2] == before[i2]);
                }
            }
        }
        let len = self.queue[ni].len();
        proof {
            if (ni as int) < b0.len() {
                assert(self.spec_buckets()[ni as int] == b1[ni as int]);
                assert(b1[ni as int].len() <= b0[ni as int].len());
                assert(len <= b0[ni as int].len());
            }
            <(u32, u32) as NodeField>::lemma_round_trip((new_bucket, len as u32));
        }
        let ghost b2 = self.spec_buckets();
        node.set(nodes, pos, (new_bucket, len as u32));
        self.queue[ni].push(node);
        proof {
            let b3 = self.spec_buckets();
            let n3 = nodes@;
            assert(b3 =~= b2.update(ni as int, b2[ni as int].push(node)));
            assert forall|i2: int, j2: int| 0 <= i2 < b3.len() && 0 <= j2 < b3[i2].len() implies {
                let n = #[trigger] b3[i2][j2];
                &&& valid_access(n3, n, pos)
                &&& field_value(n3, n, pos) == ((self.spec_bucket_number() + i2) as u32, j2 as u32)
            } by {
                let e = b3[i2][j2];
                if i2 == ni && j2 == len {
                    crate::node::lemma_layout_safety(n1, node, pos, (new_bucket, len as u32), node, pos);
                } else {
                    assert(e == b2[i2][j2]);
                    assert(i2 < b1.len());
                    assert(e == b1[i2][j2]);
                    crate::node::lemma_layout_safety(n1, node, pos, (new_bucket, len as u32), e, pos);
                }
            }
            assert(self.queued(node)) by {
                assert(b3[ni as int][len as int] == node);
            }
            crate::node::lemma_layout_safety(n1, node, pos, (new_bucket, len as u32), node, pos);
            assert forall|m: NodeRef| #[trigger] self.queued(m) <==> (q0.queued(m) || m == node) by {
                if self.queued(m) && m != node {
                    let (i2, j2) = choose|i2: int, j2: int| 0 <= i2 < b3.len() && 0 <= j2 < b3[i2].len() && #[trigger] b3[i2][j2] == m;
                    assert(b1[i2][j2] == m);
                    assert(q1.queued(m));
                }
                if q0.queued(m) && m != node {
                    assert(q1.queued(m));
                    let (i2, j2) = choose|i2: int, j2: int| 0 <= i2 < b1.len() && 0 <= j2 < b1[i2].len() && #[trigger] b1[i2][j2] == m;
                    assert(b3[i2][j2] == m);
                }
            }
            assert forall|k: int, o: int| 0 <= k < n0.nodes.len() && 0 <= o < n0.default.len() && o != off implies #[trigger] n3.nodes[k][o] == n0.nodes[k][o] by {
                assert(n1.nodes[k].len() == n0.default.len());
                assert(n3.nodes[k][o] == n1.nodes[k][o]);
            }
            assert forall|m: NodeRef| m != node && #[trigger] q0.queued(m) implies self.bucket_of(nodes@, m) == q0.bucket_of(n0, m) by {
                assert(q1.queued(m));
                let (i2, j2) = choose|i2: int, j2: int| 0 <= i2 < b1.len() && 0 <= j2 < b1[i2].len() && #[trigger] b1[i2][j2] == m;
                crate::node::lemma_layout_safety(n1, node, pos, (new_bucket, len as u32), m, pos);
            }
        }
    }
}

/// Nodes leave a bucket queue in order of their buckets. `next` returns a node of the front
/// bucket, and neither `next` nor `relaxed_to` moves the front back. So when `a` came out of
/// state `qa` and `b` came out of a later state `qb`, the bucket of `a` is no larger than that
/// of `b`.
pub proof fn lemma_next_in_bucket_order(qa: BucketQueue, na: NodesView, a: NodeRef, qb: BucketQueue, nb: NodesView, b: NodeRef)
    requires
        qa.bucket_of(na, a) == qa.spec_bucket_number(),
        qb.bucket_of(nb, b) == qb.spec_bucket_number(),
        qa.spec_bucket_number() <= qb.spec_bucket_number(),
    ensures
        qa.bucket_of(na, a) <= qb.bucket_of(nb, b),
{
}

} // verus!
