//! The tournament ("winner") tree that picks the smallest live candidate
//! among the runs being merged.
//!
//! With `k` runs (`k` a power of two) the tree is an array of `k` internal
//! nodes. Node 1 is the root, the children of node `n` are `2n` and `2n + 1`,
//! and nodes `k/2 .. k` are leaves, leaf `n` comparing external nodes
//! `2n - k` and `2n - k + 1`. Node 0 is not used. The external-node array
//! holds one optional candidate per run, then, at index `k`, the terminator.
use crate::record::{
    compare_records, lemma_rec_cmp_antisymmetric, lemma_rec_cmp_equal_keys,
    lemma_rec_le_transitive, lemma_rec_lt_le_transitive, rec_cmp, RawRecord, RecordModel,
};
use std::cmp::Ordering;
use vstd::prelude::*;

verus! {

/// One node of the tournament tree: whether it is a leaf, and the index of
/// the external node that won its subtree, or `None` while that has to be
/// computed again.
#[derive(Clone, Copy, Debug, PartialEq, Eq)]
pub struct InternalNode {
    pub is_leaf: bool,
    pub ptr: Option<usize>,
}

impl InternalNode {
    /// A leaf whose winner is not computed yet.
    pub fn new_leaf_inode() -> (r: InternalNode)
        ensures
            r.is_leaf,
            r.ptr is None,
    {
        InternalNode { is_leaf: true, ptr: None }
    }

    /// An inner node whose winner is not computed yet.
    pub fn new_non_leaf_inode() -> (r: InternalNode)
        ensures
            !r.is_leaf,
            r.ptr is None,
    {
        InternalNode { is_leaf: false, ptr: None }
    }
}

/// `x` is a positive power of two.
pub open spec fn is_pow2(x: int) -> bool
    decreases x,
{
    if x <= 0 {
        false
    } else if x == 1 {
        true
    } else {
        x % 2 == 0 && is_pow2(x / 2)
    }
}

/// External node `i` holds a real record (not empty, not the terminator).
pub open spec fn live(ext: Seq<Option<RawRecord>>, i: int) -> bool {
    0 <= i < ext.len() && ext[i] is Some && !ext[i]->Some_0@.is_end
}

/// The record model held by external node `i`.
pub open spec fn cand(ext: Seq<Option<RawRecord>>, i: int) -> RecordModel {
    ext[i]->Some_0@
}

/// Candidate `i` is to be emitted no later than candidate `j`: its keys are
/// smaller, or equal and it stands further left.
pub open spec fn precedes(ext: Seq<Option<RawRecord>>, i: int, j: int) -> bool {
    let c = rec_cmp(cand(ext, i), cand(ext, j));
    c < 0 || (c == 0 && i <= j)
}

/// The rule at one node: two dead candidates give the terminator (the last
/// index), one dead candidate gives the other, two live ones give the one
/// with smaller keys, and the left one on a tie.
pub open spec fn pick(ext: Seq<Option<RawRecord>>, i: int, j: int) -> int {
    let t = ext.len() - 1;
    if !live(ext, i) && !live(ext, j) {
        t
    } else if !live(ext, i) {
        j
    } else if !live(ext, j) {
        i
    } else if rec_cmp(cand(ext, i), cand(ext, j)) <= 0 {
        i
    } else {
        j
    }
}

/// The winner of a tournament over the `w` external nodes from `lo` on.
pub open spec fn tour(ext: Seq<Option<RawRecord>>, lo: int, w: int) -> int
    decreases w,
{
    if w <= 2 {
        pick(ext, lo, lo + 1)
    } else {
        pick(ext, tour(ext, lo, w / 2), tour(ext, lo + w / 2, w / 2))
    }
}

/// How many external nodes the subtree of node `n` covers, in a tree of `k`
/// runs.
pub open spec fn width(k: int, n: int) -> int
    decreases k - n,
{
    if n <= 0 || n >= k {
        0
    } else if 2 * n >= k {
        2
    } else {
        2 * width(k, 2 * n)
    }
}

/// The first external node that the subtree of node `n` covers.
pub open spec fn first(k: int, n: int) -> int
    decreases k - n,
{
    if n <= 0 || n >= k {
        0
    } else if 2 * n >= k {
        2 * n - k
    } else {
        first(k, 2 * n)
    }
}

/// The winner of the subtree of node `n`.
pub open spec fn node_winner(ext: Seq<Option<RawRecord>>, k: int, n: int) -> int {
    tour(ext, first(k, n), width(k, n))
}

/// `r` is the winner of the whole tournament: the live candidate that
/// precedes every live candidate, or the terminator index when none is live.
pub open spec fn is_winner(ext: Seq<Option<RawRecord>>, k: int, r: int) -> bool {
    ||| r == k && forall|i: int| 0 <= i < k ==> !#[trigger] live(ext, i)
    ||| 0 <= r < k && live(ext, r) && forall|i: int|
        0 <= i < k && #[trigger] live(ext, i) ==> precedes(ext, r, i)
}

/// The external nodes fit the tree: one per run plus a terminator slot that
/// is never live, and every record held has well-formed key spans.
pub open spec fn ext_ok(ext: Seq<Option<RawRecord>>, k: int) -> bool {
    &&& ext.len() == k + 1
    &&& !live(ext, k)
    &&& forall|i: int| 0 <= i < ext.len() && #[trigger] ext[i] is Some ==> ext[i]->Some_0@.wf()
}

/// The node array has the layout of a tree over `nodes.len()` runs, and
/// every winner it caches is the winner of that node's subtree.
pub open spec fn tree_ok(nodes: Seq<InternalNode>, ext: Seq<Option<RawRecord>>) -> bool {
    let k = nodes.len() as int;
    &&& is_pow2(k)
    &&& ext_ok(ext, k)
    &&& forall|n: int| 1 <= n < k ==> (#[trigger] nodes[n]).is_leaf == (2 * n >= k)
    &&& forall|n: int|
        1 <= n < k && (#[trigger] nodes[n]).ptr is Some ==> nodes[n].ptr->Some_0 == node_winner(
            ext,
            k,
            n,
        )
}

proof fn lemma_pow2_half(x: int)
    requires
        is_pow2(x),
        x >= 2,
    ensures
        x % 2 == 0,
        is_pow2(x / 2),
{
}

proof fn lemma_pow2_double(x: int)
    requires
        x >= 1,
    ensures
        is_pow2(2 * x) == is_pow2(x),
{
    assert((2 * x) / 2 == x);
}

proof fn lemma_pow2_below(a: int, b: int)
    requires
        is_pow2(a),
        is_pow2(b),
        a < b,
    ensures
        2 * a <= b,
    decreases a,
{
    if a > 1 {
        lemma_pow2_below(a / 2, b / 2);
    }
}

/// Neighbouring nodes of one level cover neighbouring ranges of equal width.
proof fn lemma_neighbours(k: int, a: int)
    requires
        is_pow2(k),
        1 <= a,
        a + 1 < k,
        !is_pow2(a + 1),
    ensures
        first(k, a + 1) == first(k, a) + width(k, a),
        width(k, a + 1) == width(k, a),
    decreases k - a,
{
    lemma_pow2_half(k);
    if 2 * a < k {
        if 2 * a + 2 == k {
            assert((a + 1) == k / 2);
        }
        assert(!is_pow2(2 * a + 1));
        lemma_pow2_double(a + 1);
        lemma_neighbours(k, 2 * a);
        lemma_neighbours(k, 2 * a + 1);
    }
}

/// The ranges of the two children of an inner node split its range in half.
proof fn lemma_children(k: int, n: int)
    requires
        is_pow2(k),
        1 <= n,
        2 * n < k,
    ensures
        first(k, 2 * n) == first(k, n),
        first(k, 2 * n + 1) == first(k, n) + width(k, n) / 2,
        width(k, 2 * n) == width(k, n) / 2,
        width(k, 2 * n + 1) == width(k, n) / 2,
        width(k, n) > 2,
{
    assert(!is_pow2(2 * n + 1));
    lemma_neighbours(k, 2 * n);
    lemma_node_range(k, 2 * n);
}

/// Every node covers a range of external nodes inside `0 .. k` whose width
/// is a power of two.
pub proof fn lemma_node_range(k: int, n: int)
    requires
        is_pow2(k),
        1 <= n < k,
    ensures
        0 <= first(k, n),
        first(k, n) + width(k, n) <= k,
        is_pow2(width(k, n)),
        width(k, n) >= 2,
    decreases k - n,
{
    lemma_pow2_half(k);
    reveal_with_fuel(is_pow2, 2);
    if 2 * n < k {
        assert(!is_pow2(2 * n + 1));
        lemma_neighbours(k, 2 * n);
        lemma_node_range(k, 2 * n);
        lemma_node_range(k, 2 * n + 1);
        lemma_pow2_double(width(k, 2 * n));
    }
}

/// The root covers all the runs.
proof fn lemma_root_range(k: int, n: int)
    requires
        is_pow2(k),
        is_pow2(n),
        n < k,
    ensures
        first(k, n) == 0,
        n * width(k, n) == k,
    decreases k - n,
{
    lemma_pow2_below(n, k);
    if 2 * n < k {
        lemma_pow2_double(n);
        lemma_root_range(k, 2 * n);
        assert(n * (2 * width(k, 2 * n)) == (2 * n) * width(k, 2 * n)) by (nonlinear_arith);
    }
}

/// `precedes` never holds both ways between different candidates.
proof fn lemma_precedes_antisymmetric(ext: Seq<Option<RawRecord>>, i: int, j: int)
    requires
        precedes(ext, i, j),
        precedes(ext, j, i),
    ensures
        i == j,
{
    lemma_rec_cmp_antisymmetric(cand(ext, i), cand(ext, j));
}

/// `precedes` is transitive.
proof fn lemma_precedes_transitive(ext: Seq<Option<RawRecord>>, i: int, j: int, l: int)
    requires
        precedes(ext, i, j),
        precedes(ext, j, l),
    ensures
        precedes(ext, i, l),
{
    let (x, y, z) = (cand(ext, i), cand(ext, j), cand(ext, l));
    lemma_rec_le_transitive(x, y, z);
    if rec_cmp(x, y) < 0 {
        lemma_rec_lt_le_transitive(x, y, z);
    } else if rec_cmp(y, z) < 0 {
        lemma_rec_cmp_equal_keys(x, y, z);
    } else {
        lemma_rec_cmp_equal_keys(x, y, z);
    }
}

/// A tournament over a range yields the candidate of that range that
/// precedes all its live candidates, or the terminator when none is live.
proof fn lemma_tour_min(ext: Seq<Option<RawRecord>>, lo: int, w: int)
    requires
        is_pow2(w),
        w >= 2,
        0 <= lo,
        lo + w < ext.len(),
        !live(ext, ext.len() - 1),
    ensures
        ({
            let r = tour(ext, lo, w);
            ||| r == ext.len() - 1 && forall|i: int| lo <= i < lo + w ==> !#[trigger] live(ext, i)
            ||| lo <= r < lo + w && live(ext, r) && forall|i: int|
                lo <= i < lo + w && #[trigger] live(ext, i) ==> precedes(ext, r, i)
        }),
    decreases w,
{
    let r = tour(ext, lo, w);
    if w == 2 {
        if live(ext, lo) && live(ext, lo + 1) {
            lemma_rec_cmp_antisymmetric(cand(ext, lo), cand(ext, lo + 1));
        }
        assert forall|i: int| lo <= i < lo + w && #[trigger] live(ext, i) implies precedes(ext, r, i)
            by {
            lemma_rec_cmp_antisymmetric(cand(ext, r), cand(ext, i));
        }
    } else {
        lemma_pow2_half(w);
        let h = w / 2;
        lemma_tour_min(ext, lo, h);
        lemma_tour_min(ext, lo + h, h);
        let a = tour(ext, lo, h);
        let b = tour(ext, lo + h, h);
        if live(ext, a) && live(ext, b) {
            lemma_rec_cmp_antisymmetric(cand(ext, a), cand(ext, b));
            if rec_cmp(cand(ext, a), cand(ext, b)) <= 0 {
                assert(precedes(ext, a, b));
                assert forall|i: int| lo <= i < lo + w && #[trigger] live(ext, i) implies precedes(
                    ext,
                    r,
                    i,
                ) by {
                    if i >= lo + h {
                        lemma_precedes_transitive(ext, a, b, i);
                    }
                }
            } else {
                assert(precedes(ext, b, a));
                assert forall|i: int| lo <= i < lo + w && #[trigger] live(ext, i) implies precedes(
                    ext,
                    r,
                    i,
                ) by {
                    if i < lo + h {
                        lemma_precedes_transitive(ext, b, a, i);
                    }
                }
            }
        }
    }
}

/// Applies the rule at one node.
fn pick_winner(ext: &Vec<Option<RawRecord>>, i: usize, j: usize) -> (r: usize)
    requires
        i < ext.len(),
        j < ext.len(),
        forall|x: int| 0 <= x < ext.len() && #[trigger] ext@[x] is Some ==> ext@[x]->Some_0@.wf(),
    ensures
        r == pick(ext@, i as int, j as int),
{
    let t = ext.len() - 1;
    match (&ext[i], &ext[j]) {
        (Some(a), Some(b)) => {
            if a.record_end && b.record_end {
                t
            } else if a.record_end {
                j
            } else if b.record_end {
                i
            } else {
                match compare_records(a, b) {
                    Ordering::Greater => j,
                    _ => i,
                }
            }
        },
        (Some(a), None) => {
            if a.record_end {
                t
            } else {
                i
            }
        },
        (None, Some(b)) => {
            if b.record_end {
                t
            } else {
                j
            }
        },
        (None, None) => t,
    }
}

/// Node `n` lies on the path from the root to the leaf of external node
/// `top`; when `top` is the terminator, every node does.
pub open spec fn on_path(k: int, n: int, top: int) -> bool {
    top == k || first(k, n) <= top < first(k, n) + width(k, n)
}

/// The nodes whose subtree the overall winner `top` wins are exactly the
/// nodes on its path.
proof fn lemma_path(ext: Seq<Option<RawRecord>>, k: int, n: int, top: int)
    requires
        is_pow2(k),
        ext_ok(ext, k),
        is_winner(ext, k, top),
        1 <= n < k,
    ensures
        node_winner(ext, k, n) == top <==> on_path(k, n, top),
{
    lemma_node_range(k, n);
    let (lo, w) = (first(k, n), width(k, n));
    lemma_tour_min(ext, lo, w);
    let t = node_winner(ext, k, n);
    if top < k && lo <= top < lo + w {
        assert(live(ext, top));
        assert(precedes(ext, t, top));
        assert(live(ext, t));
        assert(precedes(ext, top, t));
        lemma_precedes_antisymmetric(ext, t, top);
    }
    if top == k {
        assert forall|i: int| lo <= i < lo + w implies !#[trigger] live(ext, i) by {
            assert(0 <= i < k);
        }
    }
}

/// Finds the external node that wins the tournament, that is the live
/// record with the smallest (primary key, secondary key), the leftmost one
/// among equals, or the terminator index `k` when no record is live.
///
/// Nodes whose winner is cached are taken as they are; the others are
/// computed bottom-up. Afterwards every node whose winner is `top` (the
/// nodes on `top`'s path) is reset to `None`, so that the next call
/// recomputes only that path once the caller has replaced `top`'s record.
pub fn winner_tree_by_idx(
    internal_node: &mut Vec<InternalNode>,
    external_node: &Vec<Option<RawRecord>>,
) -> (top: usize)
    requires
        tree_ok(old(internal_node)@, external_node@),
    ensures
        final(internal_node)@.len() == old(internal_node)@.len(),
        tree_ok(final(internal_node)@, external_node@),
        is_winner(external_node@, old(internal_node)@.len() as int, top as int),
        forall|n: int|
            1 <= n < old(internal_node)@.len() ==> ((#[trigger] final(internal_node)@[n]).ptr is None
                <==> on_path(old(internal_node)@.len() as int, n, top as int)),
{
    let k = internal_node.len();
    let ghost ext = external_node@;
    if k == 1 {
        let top = pick_winner(external_node, 0, 1);
        proof {
            assert forall|i: int| 0 <= i < 1 && #[trigger] live(ext, i) implies precedes(
                ext,
                top as int,
                i,
            ) by {
                lemma_rec_cmp_antisymmetric(cand(ext, i), cand(ext, i));
            }
        }
        return top;
    }
    proof {
        lemma_pow2_half(k as int);
    }
    // Leaves compare their two external nodes.
    let mut i: usize = k / 2;
    while i < k
        invariant
            internal_node@.len() == k,
            k >= 2,
            k % 2 == 0,
            k / 2 <= i <= k,
            external_node@ == ext,
            tree_ok(internal_node@, ext),
            forall|n: int| k / 2 <= n < i ==> (#[trigger] internal_node@[n]).ptr is Some,
        decreases k - i,
    {
        let node = internal_node[i];
        if node.is_leaf && node.ptr.is_none() {
            let e = 2 * (i - k / 2);
            let w = pick_winner(external_node, e, e + 1);
            internal_node.set(i, InternalNode { is_leaf: true, ptr: Some(w) });
        }
        i = i + 1;
    }
    // Inner nodes, level by level up to the root.
    let mut size: usize = k / 2;
    while size > 1
        invariant
            internal_node@.len() == k,
            k >= 2,
            is_pow2(size as int),
            1 <= size,
            2 * size <= k,
            external_node@ == ext,
            tree_ok(internal_node@, ext),
            forall|n: int| size <= n < k ==> (#[trigger] internal_node@[n]).ptr is Some,
        decreases size,
    {
        proof {
            lemma_pow2_half(size as int);
        }
        let mut i: usize = size / 2;
        while i < size
            invariant
                internal_node@.len() == k,
                k >= 2,
                size >= 2,
                size % 2 == 0,
                2 * size <= k,
                size / 2 <= i <= size,
                external_node@ == ext,
                tree_ok(internal_node@, ext),
                forall|n: int|
                    (size / 2 <= n < i || size <= n < k) ==> (#[trigger] internal_node@[n]).ptr is Some,
            decreases size - i,
        {
            let node = internal_node[i];
            if !node.is_leaf && node.ptr.is_none() {
                proof {
                    lemma_children(k as int, i as int);
                    lemma_node_range(k as int, 2 * i);
                    lemma_node_range(k as int, 2 * i + 1);
                    lemma_tour_min(ext, first(k as int, 2 * i), width(k as int, 2 * i));
                    lemma_tour_min(ext, first(k as int, 2 * i + 1), width(k as int, 2 * i + 1));
                }
                let l = internal_node[2 * i].ptr.unwrap();
                let r = internal_node[2 * i + 1].ptr.unwrap();
                let w = pick_winner(external_node, l, r);
                internal_node.set(i, InternalNode { is_leaf: false, ptr: Some(w) });
            }
            i = i + 1;
        }
        size = size / 2;
    }
    proof {
        lemma_root_range(k as int, 1);
        lemma_tour_min(ext, 0, k as int);
    }
    let top = internal_node[1].ptr.unwrap();
    // Reset the winner's path.
    let ghost computed = internal_node@;
    let mut i: usize = 0;
    while i < k
        invariant
            internal_node@.len() == k,
            computed.len() == k,
            0 <= i <= k,
            external_node@ == ext,
            tree_ok(computed, ext),
            forall|n: int| 1 <= n < k ==> (#[trigger] computed[n]).ptr is Some,
            forall|n: int|
                0 <= n < k ==> (#[trigger] internal_node@[n]).is_leaf == computed[n].is_leaf,
            forall|n: int|
                0 <= n < k ==> (#[trigger] internal_node@[n]).ptr == if n < i && computed[n].ptr
                    == Some(top) {
                    None
                } else {
                    computed[n].ptr
                },
        decreases k - i,
    {
        let node = internal_node[i];
        match node.ptr {
            Some(p) => {
                if p == top {
                    internal_node.set(i, InternalNode { is_leaf: node.is_leaf, ptr: None });
                }
            },
            None => {},
        }
        i = i + 1;
    }
    proof {
        assert forall|n: int| 1 <= n < k implies ((#[trigger] internal_node@[n]).ptr is None
            <==> on_path(k as int, n, top as int)) by {
            lemma_path(ext, k as int, n, top as int);
        }
    }
    top
}

/// A node's winner depends only on the external nodes of its range and on
/// the terminator slot.
pub proof fn lemma_node_winner_local(
    e1: Seq<Option<RawRecord>>,
    e2: Seq<Option<RawRecord>>,
    k: int,
    n: int,
)
    requires
        is_pow2(k),
        1 <= n < k,
        e1.len() == k + 1,
        e2.len() == k + 1,
        !live(e1, k),
        !live(e2, k),
        forall|j: int|
            first(k, n) <= j < first(k, n) + width(k, n) ==> #[trigger] e1[j] == e2[j],
    ensures
        node_winner(e1, k, n) == node_winner(e2, k, n),
{
    lemma_node_range(k, n);
    lemma_tour_local(e1, e2, first(k, n), width(k, n));
}

proof fn lemma_tour_local(e1: Seq<Option<RawRecord>>, e2: Seq<Option<RawRecord>>, lo: int, w: int)
    requires
        is_pow2(w),
        w >= 2,
        0 <= lo,
        lo + w < e1.len(),
        e1.len() == e2.len(),
        !live(e1, e1.len() - 1),
        !live(e2, e2.len() - 1),
        forall|j: int| lo <= j < lo + w ==> #[trigger] e1[j] == e2[j],
    ensures
        tour(e1, lo, w) == tour(e2, lo, w),
    decreases w,
{
    if w > 2 {
        lemma_pow2_half(w);
        let h = w / 2;
        lemma_tour_local(e1, e2, lo, h);
        lemma_tour_local(e1, e2, lo + h, h);
        lemma_tour_min(e1, lo, h);
        lemma_tour_min(e1, lo + h, h);
    }
}

/// Whether `x` is a positive power of two.
pub fn is_power_of_two(x: usize) -> (r: bool)
    ensures
        r == is_pow2(x as int),
{
    let mut y = x;
    while y > 1 && y % 2 == 0
        invariant
            y >= 1 ==> (is_pow2(y as int) == is_pow2(x as int)),
            y == 0 ==> x == 0,
            y <= x,
        decreases y,
    {
        y = y / 2;
    }
    y == 1
}

} // verus!
