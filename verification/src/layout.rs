//! The shape of the tree in its flat storage: the root at index 0, the
//! children of node `i` at `2i + 1` and `2i + 2`, each node's index range cut
//! at its midpoint.

use vstd::prelude::*;

verus! {

/// `c` is a power of two.
pub open spec fn is_pow2(c: int) -> bool
    decreases c,
{
    c == 1 || (c > 1 && c % 2 == 0 && is_pow2(c / 2))
}

/// The first of `p, 2p, 4p, ..` that reaches `n`.
pub open spec fn grow(p: int, n: int) -> int
    decreases (if p < n { n - p } else { 0 }),
{
    if p < 1 || p >= n {
        p
    } else {
        grow(2 * p, n)
    }
}

/// The number of leaves the storage provides for `n` elements: the least
/// power of two that is at least `n` (see `lemma_capacity`).
pub open spec fn capacity(n: int) -> int {
    grow(1, n)
}

/// The length of the flat storage for `n` elements: a complete binary tree
/// with `capacity(n)` leaves.
pub open spec fn tree_len(n: int) -> int {
    2 * capacity(n) - 1
}

/// Midpoint of an index range, rounded down.
pub open spec fn mid_of(begin: int, end: int) -> int {
    (begin + end) / 2
}

/// Node `root`, which stands for the indices `begin ..= end`, and all nodes
/// below it lie inside a storage of length `len`.
pub open spec fn fits(root: int, begin: int, end: int, len: int) -> bool
    decreases end - begin,
{
    &&& 0 <= root < len
    &&& 0 <= begin <= end
    &&& if begin < end {
        &&& fits(2 * root + 1, begin, mid_of(begin, end), len)
        &&& fits(2 * root + 2, mid_of(begin, end) + 1, end, len)
    } else {
        true
    }
}

/// Index `j` is one of the nodes of the tree that has node `root`, which
/// stands for `begin ..= end`, at its top.
pub open spec fn in_shape(j: int, root: int, begin: int, end: int) -> bool
    decreases end - begin,
{
    j == root || (begin < end && (in_shape(j, 2 * root + 1, begin, mid_of(begin, end))
        || in_shape(j, 2 * root + 2, mid_of(begin, end) + 1, end)))
}

/// Index `j` is a node that a walk for the range `qbegin ..= qend` reaches
/// from node `root`, which stands for `begin ..= end`, or a child of such a
/// node. The walk goes below a node only where the range meets the node's
/// range without holding all of it.
pub open spec fn visited(j: int, root: int, begin: int, end: int, qbegin: int, qend: int) -> bool
    decreases end - begin,
{
    ||| j == root
    ||| j == 2 * root + 1
    ||| j == 2 * root + 2
    ||| (begin < end && !(qbegin <= begin && end <= qend) && !(qend < begin || end < qbegin) && (
    visited(j, 2 * root + 1, begin, mid_of(begin, end), qbegin, qend) || visited(
        j,
        2 * root + 2,
        mid_of(begin, end) + 1,
        end,
        qbegin,
        qend,
    )))
}

/// Index `j` is `root` or lies below it.
pub open spec fn under(j: int, root: int) -> bool
    decreases j,
{
    if j <= root || j <= 0 {
        j == root
    } else {
        under((j - 1) / 2, root)
    }
}

proof fn lemma_grow(p: int, n: int)
    requires
        is_pow2(p),
        1 <= n,
        p == 1 || p < 2 * n,
    ensures
        is_pow2(grow(p, n)),
        n <= grow(p, n),
        grow(p, n) == 1 || grow(p, n) < 2 * n,
    decreases (if p < n { n - p } else { 0 }),
{
    if p < n {
        assert(is_pow2(2 * p));
        lemma_grow(2 * p, n);
    }
}

/// The capacity for `n >= 1` elements is the least power of two that is at
/// least `n`.
pub proof fn lemma_capacity(n: int)
    requires
        1 <= n,
    ensures
        is_pow2(capacity(n)),
        n <= capacity(n),
        capacity(n) == 1 || capacity(n) < 2 * n,
{
    lemma_grow(1, n);
}

/// A node with at most `cap` indices, `cap` a power of two, whose index
/// leaves room for a complete subtree with `cap` leaves, fits the storage.
pub proof fn lemma_fits(root: int, begin: int, end: int, cap: int, len: int)
    requires
        is_pow2(cap),
        0 <= root,
        0 <= begin <= end,
        end - begin + 1 <= cap,
        (root + 2) * cap <= len + 1,
    ensures
        fits(root, begin, end, len),
    decreases end - begin,
{
    assert(root + 2 <= (root + 2) * cap) by (nonlinear_arith)
        requires
            cap >= 1,
            root >= 0,
    ;
    if begin < end {
        let half = cap / 2;
        assert((2 * root + 4) * half == (root + 2) * cap) by (nonlinear_arith)
            requires
                cap == 2 * half,
        ;
        assert((2 * root + 3) * half <= (2 * root + 4) * half) by (nonlinear_arith)
            requires
                half >= 0,
        ;
        lemma_fits(2 * root + 1, begin, mid_of(begin, end), half, len);
        lemma_fits(2 * root + 2, mid_of(begin, end) + 1, end, half, len);
    }
}

/// The storage for `n >= 1` elements holds the whole tree over `0 ..= n - 1`.
pub proof fn lemma_tree_fits(n: int)
    requires
        1 <= n,
    ensures
        fits(0, 0, n - 1, tree_len(n)),
{
    lemma_capacity(n);
    lemma_fits(0, 0, n - 1, capacity(n), tree_len(n));
}

/// What lies under a child lies under its parent, and is not the parent.
pub proof fn lemma_under_child(j: int, root: int)
    requires
        0 <= root,
        under(j, 2 * root + 1) || under(j, 2 * root + 2),
    ensures
        under(j, root),
        j != root,
    decreases j,
{
    assert(under(root, root));
    if j == 2 * root + 1 || j == 2 * root + 2 {
        assert((j - 1) / 2 == root);
    } else if j > 2 * root + 1 {
        assert(under((j - 1) / 2, 2 * root + 1) || under((j - 1) / 2, 2 * root + 2));
        lemma_under_child((j - 1) / 2, root);
    }
}

/// Every node of the tree with `root` at its top is `root` or lies below it.
pub proof fn lemma_shape_under(j: int, root: int, begin: int, end: int)
    requires
        0 <= root,
        in_shape(j, root, begin, end),
    ensures
        under(j, root),
    decreases end - begin,
{
    if j != root {
        let mid = mid_of(begin, end);
        if in_shape(j, 2 * root + 1, begin, mid) {
            lemma_shape_under(j, 2 * root + 1, begin, mid);
        } else {
            lemma_shape_under(j, 2 * root + 2, mid + 1, end);
        }
        lemma_under_child(j, root);
    }
}

/// Every index that a walk from `root` visits is `root` or lies below it.
pub proof fn lemma_visited_under(j: int, root: int, begin: int, end: int, qbegin: int, qend: int)
    requires
        0 <= root,
        visited(j, root, begin, end, qbegin, qend),
    ensures
        under(j, root),
    decreases end - begin,
{
    assert(under(root, root));
    assert(under(2 * root + 1, root));
    assert(under(2 * root + 2, root));
    if j != root && j != 2 * root + 1 && j != 2 * root + 2 {
        let mid = mid_of(begin, end);
        if visited(j, 2 * root + 1, begin, mid, qbegin, qend) {
            lemma_visited_under(j, 2 * root + 1, begin, mid, qbegin, qend);
        } else {
            lemma_visited_under(j, 2 * root + 2, mid + 1, end, qbegin, qend);
        }
        lemma_under_child(j, root);
    }
}

/// Nothing lies under both children of a node.
pub proof fn lemma_under_apart(j: int, root: int)
    requires
        0 <= root,
    ensures
        !(under(j, 2 * root + 1) && under(j, 2 * root + 2)),
    decreases j,
{
    if j > 2 * root + 2 {
        lemma_under_apart((j - 1) / 2, root);
    } else if j == 2 * root + 2 {
        assert((j - 1) / 2 == root);
        assert(!under(root, 2 * root + 1));
    }
}

} // verus!
