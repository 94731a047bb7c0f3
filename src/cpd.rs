//! Rows of a compressed path database: for one source, the first move towards every target id,
//! stored as runs of ids that share a move, laid out in Eytzinger order.
use vstd::prelude::*;
use vstd::bytes::{
    spec_u32_from_le_bytes, spec_u32_to_le_bytes, u32_from_le_bytes, u32_to_le_bytes,
    lemma_auto_spec_u32_to_from_le_bytes,
};

verus! {

/// Largest number of state ids that a row can address: a run start holds 26 bits.
pub const MAX_IDS: usize = 0x400_0000;

/// One run of a row: its first target id in the high 26 bits, its move index in the low 6.
#[derive(Clone, Copy, Debug, PartialEq, Eq, Structural)]
pub struct CpdEntry(pub u32);

/// The first id of a run.
pub open spec fn entry_start(e: CpdEntry) -> u32 {
    e.0 >> 6u32
}

/// The move index of a run.
pub open spec fn entry_edge(e: CpdEntry) -> u32 {
    e.0 & 0x3fu32
}

impl CpdEntry {
    /// The first id of this run.
    pub fn start(self) -> (r: usize)
        ensures
            r == entry_start(self),
    {
        (self.0 >> 6) as usize
    }

    /// The move index of this run.
    pub fn edge(self) -> (r: usize)
        ensures
            r == entry_edge(self),
    {
        (self.0 & 0x3f) as usize
    }
}

/// The number of trailing zero bits of `m` from bit `k` on; 64 when no bit from `k` on is set.
pub open spec fn tz_from(m: u64, k: nat) -> nat
    decreases 64 - k,
{
    if k >= 64 {
        64
    } else if (m >> (k as u64)) & 1 == 1 {
        k
    } else {
        tz_from(m, k + 1)
    }
}

/// The number of trailing zero bits of `m` (64 for zero).
pub open spec fn trailing_zeros(m: u64) -> nat {
    tz_from(m, 0)
}

/// The lowest set bit of a non-zero word is set, and it is the lowest one.
pub(crate) proof fn lemma_tz_from(m: u64, k: nat)
    requires
        k < 64,
        (m >> (k as u64)) != 0,
    ensures
        k <= tz_from(m, k) < 64,
        (m >> (tz_from(m, k) as u64)) & 1 == 1,
    decreases 64 - k,
{
    let kk = k as u64;
    if (m >> kk) & 1 != 1 {
        if k == 63 {
            assert((m >> kk) != 0 && kk == 63 ==> (m >> kk) & 1 == 1) by (bit_vector);
        } else {
            assert((m >> kk) != 0 && (m >> kk) & 1 != 1 && kk < 63 ==> (m >> (kk + 1)) != 0)
                by (bit_vector);
            lemma_tz_from(m, k + 1);
        }
    }
}

/// The lowest set bit of a non-zero word is one of its bits.
pub proof fn lemma_trailing_zeros(m: u64)
    requires
        m != 0,
    ensures
        trailing_zeros(m) < 64,
        m & (1u64 << (trailing_zeros(m) as u64)) != 0,
{
    let t = trailing_zeros(m) as u64;
    assert(m >> 0u64 == m && ((m >> t) & 1 == 1 && t < 64 ==> m & (1u64 << t) != 0)) by (bit_vector);
    lemma_tz_from(m, 0);
}

/// The number of trailing zero bits of `m`, 64 when `m` is zero.
pub(crate) fn trailing_zeros_u64(m: u64) -> (r: u32)
    ensures
        r == trailing_zeros(m),
{
    let mut k: u32 = 0;
    while k < 64
        invariant
            k <= 64,
            tz_from(m, k as nat) == tz_from(m, 0),
        decreases 64 - k,
    {
        if (m >> k) & 1 == 1 {
            return k;
        }
        k = k + 1;
    }
    64
}

/// The run that starts at `id` and commits to the lowest move of `moves`.
pub open spec fn pack_run(id: u32, moves: u64) -> CpdEntry {
    CpdEntry((id << 6u32) | ((trailing_zeros(moves) as u32) & 0x3fu32))
}

/// The runs emitted, and the pending run `(id, moves)`, after the first `k` items of
/// `(id, first-move set)` pairs.
pub open spec fn run_state(items: Seq<(usize, u64)>, k: nat) -> (Seq<CpdEntry>, u32, u64)
    decreases k,
{
    if k == 0 {
        (Seq::empty(), 0u32, !0u64)
    } else {
        let (runs, id, moves) = run_state(items, (k - 1) as nat);
        let (next_id, next_moves) = items[k - 1];
        if moves & next_moves == 0 {
            (runs.push(pack_run(id, moves)), next_id as u32, next_moves)
        } else {
            (runs, id, moves & next_moves)
        }
    }
}

/// The sorted runs of a row built from `(id, first-move set)` pairs: a new run starts whenever
/// the moves shared by the pending run would become empty, and each run commits to the
/// lowest-numbered move it shares. No items give no runs.
pub open spec fn sorted_runs(items: Seq<(usize, u64)>) -> Seq<CpdEntry> {
    if items.len() == 0 {
        Seq::empty()
    } else {
        let (runs, id, moves) = run_state(items, items.len());
        runs.push(pack_run(id, moves))
    }
}

/// Each first-move set paired with its position.
pub open spec fn enumerate_moves(fm: Seq<u64>) -> Seq<(usize, u64)> {
    Seq::new(fm.len(), |i: int| (i as usize, fm[i]))
}

/// The move of the last run in `runs` whose start is at most `id`; 0 when there is none.
pub open spec fn sorted_lookup(runs: Seq<CpdEntry>, id: int) -> u32
    decreases runs.len(),
{
    if runs.len() == 0 {
        0
    } else if entry_start(runs.last()) <= id {
        entry_edge(runs.last())
    } else {
        sorted_lookup(runs.drop_last(), id)
    }
}

/// Run starts never decrease.
pub open spec fn starts_sorted(runs: Seq<CpdEntry>) -> bool {
    forall|i: int, j: int|
        0 <= i <= j < runs.len() ==> entry_start(#[trigger] runs[i]) <= entry_start(#[trigger] runs[j])
}

// ---------------------------------------------------------------------------------------------
// Eytzinger layout: node k of an implicit binary tree has children 2k+1 and 2k+2.

/// The number of nodes in the subtree rooted at `k` of a tree of `n` nodes.
pub open spec fn subtree_size(k: nat, n: nat) -> nat
    decreases if k < n { n - k } else { 0 },
{
    if k >= n {
        0
    } else {
        subtree_size(2 * k + 1, n) + subtree_size(2 * k + 2, n) + 1
    }
}

/// The subtree rooted at `k` of `e` holds, in order, the items of `s` from position `lo` on.
pub open spec fn placed(e: Seq<CpdEntry>, s: Seq<CpdEntry>, k: nat, lo: nat) -> bool
    decreases if k < e.len() { e.len() - k } else { 0 },
{
    if k >= e.len() {
        true
    } else {
        let mid = lo + subtree_size(2 * k + 1, e.len());
        &&& e[k as int] == s[mid as int]
        &&& placed(e, s, 2 * k + 1, lo)
        &&& placed(e, s, 2 * k + 2, mid + 1)
    }
}

/// `e` is the Eytzinger layout of the sorted sequence `s`.
pub open spec fn eytzinger_of(e: Seq<CpdEntry>, s: Seq<CpdEntry>) -> bool {
    e.len() == s.len() && placed(e, s, 0, 0)
}

/// Whether node `j` lies in the subtree rooted at `k`.
pub open spec fn in_subtree(j: nat, k: nat) -> bool
    decreases j,
{
    j == k || (j > k && j > 0 && in_subtree(((j - 1) / 2) as nat, k))
}

/// Below `k`, node `j` is in the subtree of `k` exactly when it is in the subtree of one of the
/// two children of `k`, and never in both.
proof fn lemma_in_subtree_children(j: nat, k: nat)
    requires
        j > k,
    ensures
        in_subtree(j, k) <==> (in_subtree(j, 2 * k + 1) || in_subtree(j, 2 * k + 2)),
        !(in_subtree(j, 2 * k + 1) && in_subtree(j, 2 * k + 2)),
    decreases j,
{
    let p = ((j - 1) / 2) as nat;
    if j == 2 * k + 1 || j == 2 * k + 2 {
        assert(p == k);
        assert(in_subtree(k, k));
        assert(!in_subtree(k, 2 * k + 1));
        assert(!in_subtree(2 * k + 1, 2 * k + 2));
    } else if j < 2 * k + 1 {
        assert(p < k);
        assert(!in_subtree(p, k));
    } else {
        assert(p > k);
        lemma_in_subtree_children(p, k);
    }
}

/// Every node is in the subtree of the root.
proof fn lemma_in_subtree_root(j: nat)
    ensures
        in_subtree(j, 0),
    decreases j,
{
    if j > 0 {
        lemma_in_subtree_root(((j - 1) / 2) as nat);
    }
}

/// Adding node `n` to the tree grows exactly the subtrees that contain it.
proof fn lemma_subtree_size_step(k: nat, n: nat)
    ensures
        subtree_size(k, n + 1) == subtree_size(k, n) + if in_subtree(n, k) { 1nat } else { 0nat },
    decreases if k <= n { n + 1 - k } else { 0 },
{
    if k > n {
    } else if k == n {
        assert(subtree_size(2 * k + 1, n + 1) == 0);
        assert(subtree_size(2 * k + 2, n + 1) == 0);
    } else {
        lemma_subtree_size_step(2 * k + 1, n);
        lemma_subtree_size_step(2 * k + 2, n);
        lemma_in_subtree_children(n, k);
    }
}

/// The root's subtree holds the whole tree.
proof fn lemma_subtree_size_root(n: nat)
    ensures
        subtree_size(0, n) == n,
    decreases n,
{
    if n > 0 {
        lemma_subtree_size_root((n - 1) as nat);
        lemma_subtree_size_step(0, (n - 1) as nat);
        lemma_in_subtree_root((n - 1) as nat);
    }
}

/// Whether `placed` holds depends only on the nodes of the subtree.
proof fn lemma_placed_frame(e1: Seq<CpdEntry>, e2: Seq<CpdEntry>, s: Seq<CpdEntry>, k: nat, lo: nat)
    requires
        e1.len() == e2.len(),
        forall|j: nat| j < e1.len() && in_subtree(j, k) ==> e1[j as int] == e2[j as int],
    ensures
        placed(e1, s, k, lo) == placed(e2, s, k, lo),
    decreases if k < e1.len() { e1.len() - k } else { 0 },
{
    if k < e1.len() {
        let mid = lo + subtree_size(2 * k + 1, e1.len());
        assert(in_subtree(k, k));
        assert forall|j: nat| j < e1.len() && in_subtree(j, 2 * k + 1) implies e1[j as int]
            == e2[j as int] by {
            lemma_in_subtree_children(j, k);
        }
        assert forall|j: nat| j < e1.len() && in_subtree(j, 2 * k + 2) implies e1[j as int]
            == e2[j as int] by {
            lemma_in_subtree_children(j, k);
        }
        lemma_placed_frame(e1, e2, s, 2 * k + 1, lo);
        lemma_placed_frame(e1, e2, s, 2 * k + 2, mid + 1);
    }
}

/// Writes the items of `sorted` from position `*next` on into the subtree rooted at `k` of
/// `into`, in order, so that an in-order walk of the tree visits them sorted.
fn reorder_eytzinger(sorted: &Vec<CpdEntry>, into: &mut Vec<CpdEntry>, k: usize, next: &mut usize)
    requires
        old(into)@.len() == sorted@.len(),
        sorted@.len() < MAX_IDS + 1,
        *old(next) + subtree_size(k as nat, sorted@.len()) <= sorted@.len(),
    ensures
        final(into)@.len() == old(into)@.len(),
        *final(next) == *old(next) + subtree_size(k as nat, sorted@.len()),
        placed(final(into)@, sorted@, k as nat, *old(next) as nat),
        forall|j: nat|
            j < old(into)@.len() && !in_subtree(j, k as nat) ==> final(into)@[j as int]
                == old(into)@[j as int],
    decreases if k < sorted@.len() { sorted@.len() - k } else { 0 },
{
    let n = into.len();
    if k < n {
        let ghost start = *next;
        let ghost before = into@;
        reorder_eytzinger(sorted, into, 2 * k + 1, next);
        let ghost after_left = into@;
        let item = sorted[*next];
        into.set(k, item);
        *next = *next + 1;
        let ghost after_mid = into@;
        reorder_eytzinger(sorted, into, 2 * k + 2, next);
        proof {
            let mid = start + subtree_size(2 * k as nat + 1, n as nat);
            assert(!in_subtree(k as nat, 2 * k as nat + 1));
            assert(!in_subtree(k as nat, 2 * k as nat + 2));
            assert forall|j: nat| j < n && in_subtree(j, 2 * k as nat + 1) implies into@[j as int]
                == after_left[j as int] by {
                lemma_in_subtree_children(j, k as nat);
            }
            lemma_placed_frame(into@, after_left, sorted@, 2 * k as nat + 1, start as nat);
            assert forall|j: nat| j < n && !in_subtree(j, k as nat) implies into@[j as int]
                == before[j as int] by {
                if j > k {
                    lemma_in_subtree_children(j, k as nat);
                }
                assert(!in_subtree(j, 2 * k as nat + 1));
                assert(!in_subtree(j, 2 * k as nat + 2));
                assert(j != k);
                assert(after_left[j as int] == before[j as int]);
                assert(after_mid[j as int] == after_left[j as int]);
            }
        }
    }
}

/// Lays out the sorted runs `sorted` in Eytzinger order.
fn eytzinger_layout(sorted: &Vec<CpdEntry>) -> (e: Vec<CpdEntry>)
    requires
        sorted@.len() <= MAX_IDS,
    ensures
        eytzinger_of(e@, sorted@),
{
    let mut into = sorted.clone();
    let mut next: usize = 0;
    proof {
        lemma_subtree_size_root(sorted@.len());
    }
    reorder_eytzinger(sorted, &mut into, 0, &mut next);
    into
}

/// The move found by the Eytzinger search of `e` for `id`, started at node `i` with answer
/// `acc` so far: go left past a run that starts after `id`, otherwise take its move and go right.
pub open spec fn eytzinger_search(e: Seq<CpdEntry>, i: nat, id: int, acc: u32) -> u32
    decreases if i < e.len() { e.len() - i } else { 0 },
{
    if i >= e.len() {
        acc
    } else if id < entry_start(e[i as int]) {
        eytzinger_search(e, 2 * i + 1, id, acc)
    } else {
        eytzinger_search(e, 2 * i + 2, id, entry_edge(e[i as int]))
    }
}

proof fn lemma_sorted_lookup_skip(s: Seq<CpdEntry>, m: nat, hi: nat, id: int)
    requires
        starts_sorted(s),
        m <= hi <= s.len(),
        m < s.len(),
        id < entry_start(s[m as int]),
    ensures
        sorted_lookup(s.take(hi as int), id) == sorted_lookup(s.take(m as int), id),
    decreases hi,
{
    if hi > m {
        let t = s.take(hi as int);
        assert(t.last() == s[hi - 1]);
        assert(t.drop_last() =~= s.take(hi - 1));
        lemma_sorted_lookup_skip(s, m, (hi - 1) as nat, id);
    }
}

proof fn lemma_search_subtree(e: Seq<CpdEntry>, s: Seq<CpdEntry>, i: nat, lo: nat, id: int, acc: u32)
    requires
        e.len() == s.len(),
        starts_sorted(s),
        placed(e, s, i, lo),
        lo + subtree_size(i, e.len()) <= s.len(),
        acc == sorted_lookup(s.take(lo as int), id),
        sorted_lookup(s.take((lo + subtree_size(i, e.len())) as int), id) == sorted_lookup(s, id),
    ensures
        eytzinger_search(e, i, id, acc) == sorted_lookup(s, id),
    decreases if i < e.len() { e.len() - i } else { 0 },
{
    let n = e.len();
    if i < n {
        let mid = lo + subtree_size(2 * i + 1, n);
        let hi = lo + subtree_size(i, n);
        if id < entry_start(e[i as int]) {
            lemma_sorted_lookup_skip(s, mid, hi, id);
            lemma_search_subtree(e, s, 2 * i + 1, lo, id, acc);
        } else {
            let t = s.take(mid + 1 as int);
            assert(t.last() == s[mid as int]);
            lemma_search_subtree(e, s, 2 * i + 2, mid + 1, id, entry_edge(e[i as int]));
        }
    }
}

/// Searching the Eytzinger layout of sorted runs gives the move of the last run that starts at
/// or before `id`, as a binary search of the sorted runs does.
pub proof fn lemma_eytzinger_lookup(e: Seq<CpdEntry>, s: Seq<CpdEntry>, id: int)
    requires
        eytzinger_of(e, s),
        starts_sorted(s),
    ensures
        eytzinger_search(e, 0, id, 0) == sorted_lookup(s, id),
{
    lemma_subtree_size_root(s.len());
    assert(s.take(0) =~= Seq::<CpdEntry>::empty());
    assert(s.take(s.len() as int) =~= s);
    lemma_search_subtree(e, s, 0, 0, id, 0);
}

/// The first-move row of one source: runs of target ids in Eytzinger order.
pub struct CpdRow {
    runs: Vec<CpdEntry>,
}

impl CpdRow {
    #[verifier::type_invariant]
    spec fn fits(&self) -> bool {
        self.runs@.len() <= MAX_IDS
    }
}

impl View for CpdRow {
    type V = Seq<CpdEntry>;

    closed spec fn view(&self) -> Seq<CpdEntry> {
        self.runs@
    }
}

proof fn lemma_pack_run(id: u32, moves: u64)
    requires
        id < MAX_IDS,
        trailing_zeros(moves) < 64,
    ensures
        entry_start(pack_run(id, moves)) == id,
        entry_edge(pack_run(id, moves)) == trailing_zeros(moves),
{
    let t = trailing_zeros(moves) as u32;
    assert(id < 0x400_0000u32 && t < 64u32 ==> ((id << 6u32) | (t & 0x3fu32)) >> 6u32 == id
        && ((id << 6u32) | (t & 0x3fu32)) & 0x3fu32 == t) by (bit_vector);
}

proof fn lemma_pack_run_start(id: u32, moves: u64)
    requires
        id < MAX_IDS,
    ensures
        entry_start(pack_run(id, moves)) == id,
{
    let t = trailing_zeros(moves) as u32;
    assert(id < 0x400_0000u32 ==> ((id << 6u32) | (t & 0x3fu32)) >> 6u32 == id) by (bit_vector);
}

/// What holds of the runs and the pending run after the first `k` first-move sets.
pub open spec fn run_state_inv(fm: Seq<u64>, k: nat) -> bool {
    let (runs, c, m) = run_state(enumerate_moves(fm), k);
    &&& c <= k
    &&& (k > 0 ==> c < k)
    &&& runs.len() <= k
    &&& forall|j: int| c <= j < k ==> m & !fm[j] == 0
    &&& (m == 0 ==> k == c + 1 && fm[c as int] == 0)
    &&& starts_sorted(runs)
    &&& forall|x: int| 0 <= x < runs.len() ==> entry_start(#[trigger] runs[x]) <= c
    &&& forall|j: int|
        0 <= j < c && fm[j] != 0 ==> fm[j] & (1u64 << (sorted_lookup(runs, j) as u64)) != 0
}

proof fn lemma_flush(fm: Seq<u64>, runs: Seq<CpdEntry>, c: u32, m: u64, k: nat)
    requires
        k <= fm.len() < MAX_IDS,
        c <= k,
        forall|j: int| c <= j < k ==> m & !fm[j] == 0,
        m == 0 ==> k == c + 1 && fm[c as int] == 0,
        starts_sorted(runs),
        forall|x: int| 0 <= x < runs.len() ==> entry_start(#[trigger] runs[x]) <= c,
        forall|j: int|
            0 <= j < c && fm[j] != 0 ==> fm[j] & (1u64 << (sorted_lookup(runs, j) as u64)) != 0,
    ensures
        ({
            let r = runs.push(pack_run(c, m));
            &&& starts_sorted(r)
            &&& forall|x: int| 0 <= x < r.len() ==> entry_start(#[trigger] r[x]) <= c
            &&& forall|j: int|
                0 <= j < k && fm[j] != 0 ==> fm[j] & (1u64 << (sorted_lookup(r, j) as u64)) != 0
        }),
{
    let r = runs.push(pack_run(c, m));
    lemma_pack_run_start(c, m);
    assert(r.drop_last() =~= runs);
    assert forall|j: int| 0 <= j < k && fm[j] != 0 implies fm[j] & (1u64 << (sorted_lookup(
        r,
        j,
    ) as u64)) != 0 by {
        if j >= c {
            if m != 0 {
                lemma_trailing_zeros(m);
                lemma_pack_run(c, m);
                let t = trailing_zeros(m) as u64;
                let f = fm[j];
                assert(m & !f == 0 && m & (1u64 << t) != 0 ==> f & (1u64 << t) != 0)
                    by (bit_vector);
            }
        }
    }
}

proof fn lemma_run_state(fm: Seq<u64>, k: nat)
    requires
        k <= fm.len() < MAX_IDS,
    ensures
        run_state_inv(fm, k),
    decreases k,
{
    let items = enumerate_moves(fm);
    if k == 0 {
        assert(!0u64 != 0u64) by (bit_vector);
    } else {
        lemma_run_state(fm, (k - 1) as nat);
        let (runs, c, m) = run_state(items, (k - 1) as nat);
        let mv = fm[k - 1];
        assert(items[k - 1] == ((k - 1) as usize, mv));
        if m & mv == 0 {
            lemma_flush(fm, runs, c, m, (k - 1) as nat);
            assert(mv & !mv == 0) by (bit_vector);
            assert(((k - 1) as usize) as u32 == k - 1);
            let r2 = runs.push(pack_run(c, m));
            assert(run_state(items, k) == (r2, (k - 1) as u32, mv));
            assert forall|x: int| 0 <= x < r2.len() implies entry_start(#[trigger] r2[x]) <= (k
                - 1) as u32 by {}
            assert forall|j: int| (k - 1) as u32 <= j < k implies mv & !fm[j] == 0 by {
                assert(j == k - 1);
            }
        } else {
            assert(run_state(items, k) == (runs, c, m & mv));
            assert forall|j: int| c <= j < k implies (m & mv) & !fm[j] == 0 by {
                let f = fm[j];
                assert((m & !f == 0 ==> (m & mv) & !f == 0) && (m & mv) & !mv == 0) by (bit_vector);
            }
        }
    }
}

/// A compressed row answers, for every target whose first-move set is not empty, one of the
/// moves of that set.
pub proof fn lemma_compress_lookup(fm: Seq<u64>, i: int)
    requires
        fm.len() < MAX_IDS,
        0 <= i < fm.len(),
        fm[i] != 0,
    ensures
        starts_sorted(sorted_runs(enumerate_moves(fm))),
        fm[i] & (1u64 << (sorted_lookup(sorted_runs(enumerate_moves(fm)), i) as u64)) != 0,
{
    let n = fm.len();
    lemma_run_state(fm, n);
    let (runs, c, m) = run_state(enumerate_moves(fm), n);
    lemma_flush(fm, runs, c, m, n);
}

/// Looking up a target in the row built from first-move sets `fm` gives one of the moves of
/// its set, whenever that set is not empty.
pub proof fn lemma_cpd_round_trip(e: Seq<CpdEntry>, fm: Seq<u64>, i: int)
    requires
        fm.len() < MAX_IDS,
        eytzinger_of(e, sorted_runs(enumerate_moves(fm))),
        0 <= i < fm.len(),
        fm[i] != 0,
    ensures
        fm[i] & (1u64 << (eytzinger_search(e, 0, i, 0) as u64)) != 0,
{
    lemma_compress_lookup(fm, i);
    lemma_eytzinger_lookup(e, sorted_runs(enumerate_moves(fm)), i);
}

/// A row never holds more runs than it was given items.
pub proof fn lemma_run_count(items: Seq<(usize, u64)>, k: nat)
    requires
        k <= items.len(),
    ensures
        run_state(items, k).0.len() <= k,
    decreases k,
{
    if k > 0 {
        lemma_run_count(items, (k - 1) as nat);
    }
}

/// Ids strictly increase and fit a run start.
pub open spec fn ids_increasing(items: Seq<(usize, u64)>) -> bool {
    &&& forall|i: int| 0 <= i < items.len() ==> #[trigger] items[i].0 < MAX_IDS
    &&& forall|i: int, j: int| 0 <= i < j < items.len() ==> #[trigger] items[i].0 < #[trigger] items[j].0
}

proof fn lemma_run_state_sorted(items: Seq<(usize, u64)>, k: nat)
    requires
        k <= items.len(),
        ids_increasing(items),
    ensures
        ({
            let (runs, c, m) = run_state(items, k);
            &&& starts_sorted(runs)
            &&& forall|x: int| 0 <= x < runs.len() ==> entry_start(#[trigger] runs[x]) <= c
            &&& forall|j: int| k <= j < items.len() ==> c <= #[trigger] items[j].0
            &&& c < MAX_IDS
        }),
    decreases k,
{
    if k > 0 {
        lemma_run_state_sorted(items, (k - 1) as nat);
        let (runs, c, m) = run_state(items, (k - 1) as nat);
        let (nid, mv) = items[k - 1];
        if m & mv == 0 {
            lemma_pack_run_start(c, m);
            let r = runs.push(pack_run(c, m));
            assert forall|i: int, j: int| 0 <= i <= j < r.len() implies entry_start(#[trigger] r[i]) <= entry_start(#[trigger] r[j]) by {
                if j == r.len() - 1 && i < j {
                    assert(entry_start(r[i]) <= c);
                }
            }
            assert forall|x: int| 0 <= x < r.len() implies entry_start(#[trigger] r[x]) <= nid as u32 by {
                assert(c <= items[k - 1].0);
            }
        }
    }
}

/// A row built from items with strictly increasing ids has sorted run starts, so looking it
/// up agrees with a search of its sorted runs.
pub proof fn lemma_compress_runs_sorted(items: Seq<(usize, u64)>)
    requires
        ids_increasing(items),
    ensures
        starts_sorted(sorted_runs(items)),
        sorted_runs(items).len() <= items.len() + 1,
{
    lemma_run_count(items, items.len());
    if items.len() > 0 {
        lemma_run_state_sorted(items, items.len());
        let (runs, c, m) = run_state(items, items.len());
        lemma_pack_run_start(c, m);
        let r = runs.push(pack_run(c, m));
        assert forall|i: int, j: int| 0 <= i <= j < r.len() implies entry_start(#[trigger] r[i]) <= entry_start(#[trigger] r[j]) by {
            if j == r.len() - 1 && i < j {
                assert(entry_start(r[i]) <= c);
            }
        }
    }
}

impl CpdRow {
    /// Compresses `(id, first-move set)` pairs, given in increasing id order, into a row.
    pub fn compress_runs(first_move_bits: &Vec<(usize, u64)>) -> (row: CpdRow)
        requires
            first_move_bits@.len() < MAX_IDS,
            forall|i: int| 0 <= i < first_move_bits@.len() ==> #[trigger] first_move_bits@[i].0 < MAX_IDS,
        ensures
            eytzinger_of(row@, sorted_runs(first_move_bits@)),
    {
        let ghost items = first_move_bits@;
        let mut runs: Vec<CpdEntry> = Vec::new();
        let mut current_id: u32 = 0;
        let mut current_moves: u64 = !0;
        let mut k: usize = 0;
        while k < first_move_bits.len()
            invariant
                items == first_move_bits@,
                k <= items.len(),
                (runs@, current_id, current_moves) == run_state(items, k as nat),
                forall|i: int| 0 <= i < items.len() ==> #[trigger] items[i].0 < MAX_IDS,
            decreases items.len() - k,
        {
            let (id, moves) = first_move_bits[k];
            if current_moves & moves == 0 {
                let tz = trailing_zeros_u64(current_moves);
                runs.push(CpdEntry((current_id << 6) | (tz & 0x3f)));
                current_id = id as u32;
                current_moves = moves;
            } else {
                current_moves = current_moves & moves;
            }
            k = k + 1;
        }
        if k > 0 {
            let tz = trailing_zeros_u64(current_moves);
            runs.push(CpdEntry((current_id << 6) | (tz & 0x3f)));
        }
        proof {
            lemma_run_count(items, items.len());
        }
        CpdRow { runs: eytzinger_layout(&runs) }
    }

    /// Compresses the first-move sets of targets `0, 1, ...` into a row.
    pub fn compress(first_move_bits: &Vec<u64>) -> (row: CpdRow)
        requires
            first_move_bits@.len() < MAX_IDS,
        ensures
            eytzinger_of(row@, sorted_runs(enumerate_moves(first_move_bits@))),
    {
        let mut items: Vec<(usize, u64)> = Vec::new();
        let mut i: usize = 0;
        while i < first_move_bits.len()
            invariant
                i <= first_move_bits@.len() < MAX_IDS,
                items@ == enumerate_moves(first_move_bits@).take(i as int),
            decreases first_move_bits@.len() - i,
        {
            items.push((i, first_move_bits[i]));
            i = i + 1;
            assert(items@ =~= enumerate_moves(first_move_bits@).take(i as int));
        }
        assert(items@ =~= enumerate_moves(first_move_bits@));
        CpdRow::compress_runs(&items)
    }

    /// The number of runs in the row.
    pub fn len(&self) -> (r: usize)
        ensures
            r == self@.len(),
    {
        self.runs.len()
    }

    /// The index of the first move from the source towards target `id`.
    pub fn lookup(&self, id: usize) -> (r: usize)
        ensures
            r == eytzinger_search(self@, 0, id as int, 0),
    {
        proof {
            use_type_invariant(self);
        }
        let n = self.runs.len();
        let mut i: usize = 0;
        let mut result: usize = 0;
        while i < n
            invariant
                n == self@.len(),
                n <= MAX_IDS,
                eytzinger_search(self@, i as nat, id as int, result as u32)
                    == eytzinger_search(self@, 0, id as int, 0),
                result < 64,
            decreases if i < n { n - i } else { 0 },
        {
            let entry = self.runs[i];
            if id < entry.start() {
                i = 2 * i + 1;
            } else {
                let x = entry.0;
                assert(x & 0x3fu32 < 64u32) by (bit_vector);
                result = entry.edge();
                i = 2 * i + 2;
            }
        }
        result
    }
}

/// The little-endian bytes of each run, one after the other.
pub open spec fn entries_bytes(e: Seq<CpdEntry>) -> Seq<u8>
    decreases e.len(),
{
    if e.len() == 0 {
        Seq::empty()
    } else {
        entries_bytes(e.drop_last()) + spec_u32_to_le_bytes(e.last().0)
    }
}

/// The stored form of a row: its run count as a little-endian `u32`, then each run.
pub open spec fn row_bytes(e: Seq<CpdEntry>) -> Seq<u8> {
    spec_u32_to_le_bytes(e.len() as u32) + entries_bytes(e)
}

/// The `u32` stored little-endian at byte `at` of `b`.
pub open spec fn u32_at(b: Seq<u8>, at: int) -> u32 {
    spec_u32_from_le_bytes(b.subrange(at, at + 4))
}

/// The row stored at the start of `b`, with the number of bytes it takes, if `b` holds one.
pub open spec fn parse_row(b: Seq<u8>) -> Option<(Seq<CpdEntry>, nat)> {
    if b.len() < 4 {
        None
    } else {
        let n = u32_at(b, 0) as nat;
        if n > MAX_IDS || b.len() < 4 + 4 * n {
            None
        } else {
            Some((Seq::new(n, |i: int| CpdEntry(u32_at(b, 4 + 4 * i))), 4 + 4 * n))
        }
    }
}

proof fn lemma_entries_bytes(e: Seq<CpdEntry>)
    ensures
        entries_bytes(e).len() == 4 * e.len(),
        forall|i: int|
            0 <= i < e.len() ==> #[trigger] entries_bytes(e).subrange(4 * i, 4 * i + 4)
                == spec_u32_to_le_bytes(e[i].0),
    decreases e.len(),
{
    lemma_auto_spec_u32_to_from_le_bytes();
    if e.len() > 0 {
        let p = e.drop_last();
        lemma_entries_bytes(p);
        let b = entries_bytes(e);
        assert forall|i: int| 0 <= i < e.len() implies #[trigger] b.subrange(4 * i, 4 * i + 4)
            == spec_u32_to_le_bytes(e[i].0) by {
            if i < p.len() {
                assert(b.subrange(4 * i, 4 * i + 4) =~= entries_bytes(p).subrange(4 * i, 4 * i + 4));
            } else {
                assert(b.subrange(4 * i, 4 * i + 4) =~= spec_u32_to_le_bytes(e.last().0));
            }
        }
    }
}

/// Reading back the stored form of a row gives the same runs, and consumes exactly its bytes.
pub proof fn lemma_row_bytes_round_trip(e: Seq<CpdEntry>, rest: Seq<u8>)
    requires
        e.len() <= MAX_IDS,
    ensures
        parse_row(row_bytes(e) + rest) == Some((e, 4 + 4 * e.len())),
{
    lemma_auto_spec_u32_to_from_le_bytes();
    lemma_entries_bytes(e);
    let b = row_bytes(e) + rest;
    let hd = spec_u32_to_le_bytes(e.len() as u32);
    assert(b.subrange(0, 4) =~= hd);
    assert(u32_at(b, 0) == e.len() as u32);
    let parsed = Seq::new(e.len(), |i: int| CpdEntry(u32_at(b, 4 + 4 * i)));
    assert forall|i: int| 0 <= i < e.len() implies parsed[i] == e[i] by {
        assert(b.subrange(4 + 4 * i, 4 + 4 * i + 4) =~= entries_bytes(e).subrange(4 * i, 4 * i + 4));
    }
    assert(parsed =~= e);
}

fn read_u32(bytes: &[u8], at: usize) -> (r: u32)
    requires
        at + 4 <= bytes@.len(),
    ensures
        r == u32_at(bytes@, at as int),
{
    let mut word: Vec<u8> = Vec::new();
    word.push(bytes[at]);
    word.push(bytes[at + 1]);
    word.push(bytes[at + 2]);
    word.push(bytes[at + 3]);
    assert(word@ =~= bytes@.subrange(at as int, at + 4));
    u32_from_le_bytes(word.as_slice())
}

impl CpdRow {
    /// The stored form of the row: the run count, then each run, as little-endian `u32`s.
    pub fn save(&self) -> (bytes: Vec<u8>)
        ensures
            bytes@ == row_bytes(self@),
    {
        proof {
            use_type_invariant(self);
        }
        let mut bytes = u32_to_le_bytes(self.runs.len() as u32);
        let mut i: usize = 0;
        while i < self.runs.len()
            invariant
                i <= self@.len() <= MAX_IDS,
                bytes@ == spec_u32_to_le_bytes(self@.len() as u32) + entries_bytes(self@.take(
                    i as int,
                )),
            decreases self@.len() - i,
        {
            let mut word = u32_to_le_bytes(self.runs[i].0);
            bytes.append(&mut word);
            proof {
                let t = self@.take(i + 1 as int);
                assert(t.drop_last() =~= self@.take(i as int));
            }
            i = i + 1;
            assert(bytes@ =~= spec_u32_to_le_bytes(self@.len() as u32) + entries_bytes(self@.take(
                i as int,
            )));
        }
        assert(self@.take(self@.len() as int) =~= self@);
        bytes
    }

    /// Reads a row stored at the start of `bytes`; gives the row and the number of bytes it
    /// took, or `None` when `bytes` is too short for the row it announces or announces more runs
    /// than a row can address.
    pub fn load(bytes: &[u8]) -> (r: Option<(CpdRow, usize)>)
        ensures
            match (r, parse_row(bytes@)) {
                (Some((row, used)), Some((e, n))) => row@ == e && used == n,
                (None, None) => true,
                _ => false,
            },
    {
        if bytes.len() < 4 {
            return None;
        }
        let n = read_u32(bytes, 0) as usize;
        if n > MAX_IDS || (bytes.len() - 4) / 4 < n {
            return None;
        }
        let mut runs: Vec<CpdEntry> = Vec::new();
        let mut i: usize = 0;
        while i < n
            invariant
                i <= n <= MAX_IDS,
                4 + 4 * n <= bytes@.len(),
                runs@ =~= Seq::new(i as nat, |j: int| CpdEntry(u32_at(bytes@, 4 + 4 * j))),
            decreases n - i,
        {
            let v = read_u32(bytes, 4 + 4 * i);
            runs.push(CpdEntry(v));
            i = i + 1;
        }
        Some((CpdRow { runs }, 4 + 4 * n))
    }
}

} // verus!
