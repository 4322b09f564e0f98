//! What ties the tree's storage to the array it stands for, and the facts
//! about which part of the storage an operation may change.

use vstd::prelude::*;
use crate::layout::{
    fits, in_shape, lemma_shape_under, lemma_under_apart, lemma_under_child, lemma_visited_under,
    mid_of, under, visited,
};
use crate::segtree::MAX_LEN;
use crate::sums::{lemma_range_sum_const, lemma_range_sum_ext, range_sum};

verus! {

/// Node `root`, which stands for `begin ..= end`, and the nodes below it
/// describe `model`: a node with a pending value stands for a range that holds
/// that value throughout, whatever lies below it; a node without one holds the
/// sum of its range, and its children describe `model` in turn.
pub open spec fn node_inv(
    st: Seq<i64>,
    lazy: Seq<Option<i32>>,
    model: Seq<i32>,
    root: int,
    begin: int,
    end: int,
) -> bool
    decreases end - begin,
{
    match lazy[root] {
        Some(t) => forall|i: int| begin <= i <= end ==> #[trigger] model[i] == t,
        None => {
            &&& st[root] == range_sum(model, begin, end)
            &&& if begin < end {
                &&& node_inv(st, lazy, model, 2 * root + 1, begin, mid_of(begin, end))
                &&& node_inv(st, lazy, model, 2 * root + 2, mid_of(begin, end) + 1, end)
            } else {
                true
            }
        },
    }
}

/// The two storages agree at every index that is not `root` nor below it.
pub open spec fn same_outside(
    st1: Seq<i64>,
    lazy1: Seq<Option<i32>>,
    st2: Seq<i64>,
    lazy2: Seq<Option<i32>>,
    root: int,
) -> bool {
    &&& st1.len() == st2.len()
    &&& lazy1.len() == lazy2.len()
    &&& forall|j: int|
        0 <= j < st1.len() && !#[trigger] under(j, root) ==> st1[j] == st2[j] && lazy1[j]
            == lazy2[j]
}

/// The two storages agree at `root` and at every index below it.
pub open spec fn same_under(
    st1: Seq<i64>,
    lazy1: Seq<Option<i32>>,
    st2: Seq<i64>,
    lazy2: Seq<Option<i32>>,
    root: int,
) -> bool {
    forall|j: int|
        0 <= j < st1.len() && #[trigger] under(j, root) ==> st1[j] == st2[j] && lazy1[j]
            == lazy2[j]
}

/// A node keeps describing its range when neither the storage under it nor
/// the model on its range changes.
pub proof fn lemma_node_transfer(
    st1: Seq<i64>,
    lazy1: Seq<Option<i32>>,
    m1: Seq<i32>,
    st2: Seq<i64>,
    lazy2: Seq<Option<i32>>,
    m2: Seq<i32>,
    root: int,
    begin: int,
    end: int,
)
    requires
        fits(root, begin, end, st1.len() as int),
        node_inv(st1, lazy1, m1, root, begin, end),
        same_under(st1, lazy1, st2, lazy2, root),
        forall|i: int| begin <= i <= end ==> m1[i] == m2[i],
    ensures
        node_inv(st2, lazy2, m2, root, begin, end),
    decreases end - begin,
{
    assert(under(root, root));
    if lazy1[root] is None {
        lemma_range_sum_ext(m1, m2, begin, end);
        if begin < end {
            assert forall|j: int| 0 <= j < st1.len() && #[trigger] under(j, 2 * root + 1) implies st1[j]
                == st2[j] && lazy1[j] == lazy2[j] by {
                lemma_under_child(j, root);
            }
            assert forall|j: int| 0 <= j < st1.len() && #[trigger] under(j, 2 * root + 2) implies st1[j]
                == st2[j] && lazy1[j] == lazy2[j] by {
                lemma_under_child(j, root);
            }
            lemma_node_transfer(st1, lazy1, m1, st2, lazy2, m2, 2 * root + 1, begin, mid_of(begin, end));
            lemma_node_transfer(st1, lazy1, m1, st2, lazy2, m2, 2 * root + 2, mid_of(begin, end) + 1, end);
        }
    }
}

/// The storage under a node admits one model only: two models that the same
/// node describes agree on the node's range.
pub proof fn lemma_node_determines(
    st: Seq<i64>,
    lazy: Seq<Option<i32>>,
    m1: Seq<i32>,
    m2: Seq<i32>,
    root: int,
    begin: int,
    end: int,
)
    requires
        begin <= end,
        node_inv(st, lazy, m1, root, begin, end),
        node_inv(st, lazy, m2, root, begin, end),
    ensures
        forall|i: int| begin <= i <= end ==> m1[i] == m2[i],
    decreases end - begin,
{
    if lazy[root] is None {
        if begin < end {
            lemma_node_determines(st, lazy, m1, m2, 2 * root + 1, begin, mid_of(begin, end));
            lemma_node_determines(st, lazy, m1, m2, 2 * root + 2, mid_of(begin, end) + 1, end);
        } else {
            assert(range_sum(m1, begin, begin - 1) == 0);
            assert(range_sum(m2, begin, begin - 1) == 0);
        }
    }
}

/// What changes only under one child leaves the other child and the parent
/// itself alone, and changes only under the parent.
pub proof fn lemma_child_frame(
    st1: Seq<i64>,
    lazy1: Seq<Option<i32>>,
    st2: Seq<i64>,
    lazy2: Seq<Option<i32>>,
    root: int,
    child: int,
    other: int,
)
    requires
        0 <= root < st1.len(),
        (child == 2 * root + 1 && other == 2 * root + 2) || (child == 2 * root + 2 && other == 2
            * root + 1),
        same_outside(st1, lazy1, st2, lazy2, child),
    ensures
        same_under(st1, lazy1, st2, lazy2, other),
        same_outside(st1, lazy1, st2, lazy2, root),
        st1[root] == st2[root],
        lazy1[root] == lazy2[root],
{
    assert forall|j: int| 0 <= j < st1.len() && #[trigger] under(j, other) implies st1[j] == st2[j]
        && lazy1[j] == lazy2[j] by {
        lemma_under_apart(j, root);
    }
    assert forall|j: int| 0 <= j < st1.len() && !#[trigger] under(j, root) implies st1[j] == st2[j]
        && lazy1[j] == lazy2[j] by {
        if under(j, child) {
            lemma_under_child(j, root);
        }
    }
    if under(root, child) {
        lemma_under_child(root, root);
    }
}

/// Writing a node's own aggregate leaves both children alone, and changes
/// only under the node.
pub proof fn lemma_root_frame(st: Seq<i64>, lazy: Seq<Option<i32>>, root: int, value: i64)
    requires
        0 <= root < st.len(),
    ensures
        same_under(st, lazy, st.update(root, value), lazy, 2 * root + 1),
        same_under(st, lazy, st.update(root, value), lazy, 2 * root + 2),
        same_outside(st, lazy, st.update(root, value), lazy, root),
{
    assert(under(root, root));
    assert forall|j: int| 0 <= j < st.len() && #[trigger] under(j, 2 * root + 1) implies j
        != root by {
        lemma_under_child(j, root);
    }
    assert forall|j: int| 0 <= j < st.len() && #[trigger] under(j, 2 * root + 2) implies j
        != root by {
        lemma_under_child(j, root);
    }
}

/// The two storages agree everywhere but at `root` and its two children.
pub open spec fn same_beside(
    st1: Seq<i64>,
    lazy1: Seq<Option<i32>>,
    st2: Seq<i64>,
    lazy2: Seq<Option<i32>>,
    root: int,
) -> bool {
    &&& st1.len() == st2.len()
    &&& lazy1.len() == lazy2.len()
    &&& forall|j: int|
        0 <= j < st1.len() && j != root && j != 2 * root + 1 && j != 2 * root + 2 ==> #[trigger] st1[j]
            == st2[j]
    &&& forall|j: int|
        0 <= j < st1.len() && j != root && j != 2 * root + 1 && j != 2 * root + 2 ==> #[trigger] lazy1[j]
            == lazy2[j]
}

/// The two storages agree at every index that a walk for `qbegin ..= qend`
/// from node `root` over `begin ..= end` does not visit.
pub open spec fn same_unvisited(
    st1: Seq<i64>,
    lazy1: Seq<Option<i32>>,
    st2: Seq<i64>,
    lazy2: Seq<Option<i32>>,
    root: int,
    begin: int,
    end: int,
    qbegin: int,
    qend: int,
) -> bool {
    &&& st1.len() == st2.len()
    &&& lazy1.len() == lazy2.len()
    &&& forall|j: int|
        0 <= j < st1.len() && !#[trigger] visited(j, root, begin, end, qbegin, qend) ==> st1[j]
            == st2[j] && lazy1[j] == lazy2[j]
}

/// The two aggregate storages agree at every index that is not a node of the
/// tree with `root` over `begin ..= end` at its top.
pub open spec fn same_off_shape(st1: Seq<i64>, st2: Seq<i64>, root: int, begin: int, end: int) -> bool {
    &&& st1.len() == st2.len()
    &&& forall|j: int|
        0 <= j < st1.len() && !#[trigger] in_shape(j, root, begin, end) ==> st1[j] == st2[j]
}

/// A change at the nodes of a tree is a change under its top.
pub proof fn lemma_off_shape_outside(
    st1: Seq<i64>,
    st2: Seq<i64>,
    lazy: Seq<Option<i32>>,
    root: int,
    begin: int,
    end: int,
)
    requires
        0 <= root,
        same_off_shape(st1, st2, root, begin, end),
    ensures
        same_outside(st1, lazy, st2, lazy, root),
{
    assert forall|j: int| 0 <= j < st1.len() && !#[trigger] under(j, root) implies st1[j]
        == st2[j] by {
        if in_shape(j, root, begin, end) {
            lemma_shape_under(j, root, begin, end);
        }
    }
}

/// A change at visited indices is a change under the node the walk began at.
pub proof fn lemma_unvisited_outside(
    st1: Seq<i64>,
    lazy1: Seq<Option<i32>>,
    st2: Seq<i64>,
    lazy2: Seq<Option<i32>>,
    root: int,
    begin: int,
    end: int,
    qbegin: int,
    qend: int,
)
    requires
        0 <= root,
        same_unvisited(st1, lazy1, st2, lazy2, root, begin, end, qbegin, qend),
    ensures
        same_outside(st1, lazy1, st2, lazy2, root),
{
    assert forall|j: int| 0 <= j < st1.len() && !#[trigger] under(j, root) implies st1[j]
        == st2[j] && lazy1[j] == lazy2[j] by {
        if visited(j, root, begin, end, qbegin, qend) {
            lemma_visited_under(j, root, begin, end, qbegin, qend);
        }
    }
}

/// A change at a node and its children is a change at visited indices.
pub proof fn lemma_beside_unvisited(
    st1: Seq<i64>,
    lazy1: Seq<Option<i32>>,
    st2: Seq<i64>,
    lazy2: Seq<Option<i32>>,
    root: int,
    begin: int,
    end: int,
    qbegin: int,
    qend: int,
)
    requires
        same_beside(st1, lazy1, st2, lazy2, root),
    ensures
        same_unvisited(st1, lazy1, st2, lazy2, root, begin, end, qbegin, qend),
{
}

/// Two changes in a row at visited indices are a change at visited indices.
pub proof fn lemma_unvisited_trans(
    st1: Seq<i64>,
    lazy1: Seq<Option<i32>>,
    st2: Seq<i64>,
    lazy2: Seq<Option<i32>>,
    st3: Seq<i64>,
    lazy3: Seq<Option<i32>>,
    root: int,
    begin: int,
    end: int,
    qbegin: int,
    qend: int,
)
    requires
        same_unvisited(st1, lazy1, st2, lazy2, root, begin, end, qbegin, qend),
        same_unvisited(st2, lazy2, st3, lazy3, root, begin, end, qbegin, qend),
    ensures
        same_unvisited(st1, lazy1, st3, lazy3, root, begin, end, qbegin, qend),
{
}

/// Where the walk goes below a node, what it visits from either child it
/// visits from the node.
pub proof fn lemma_unvisited_child(
    st1: Seq<i64>,
    lazy1: Seq<Option<i32>>,
    st2: Seq<i64>,
    lazy2: Seq<Option<i32>>,
    root: int,
    begin: int,
    end: int,
    qbegin: int,
    qend: int,
)
    requires
        begin < end,
        !(qbegin <= begin && end <= qend),
        !(qend < begin || end < qbegin),
        same_unvisited(
            st1,
            lazy1,
            st2,
            lazy2,
            2 * root + 1,
            begin,
            mid_of(begin, end),
            qbegin,
            qend,
        ) || same_unvisited(
            st1,
            lazy1,
            st2,
            lazy2,
            2 * root + 2,
            mid_of(begin, end) + 1,
            end,
            qbegin,
            qend,
        ),
    ensures
        same_unvisited(st1, lazy1, st2, lazy2, root, begin, end, qbegin, qend),
{
    assert forall|j: int|
        0 <= j < st1.len() && !#[trigger] visited(j, root, begin, end, qbegin, qend) implies st1[j]
        == st2[j] && lazy1[j] == lazy2[j] by {
        assert(!visited(j, 2 * root + 1, begin, mid_of(begin, end), qbegin, qend));
        assert(!visited(j, 2 * root + 2, mid_of(begin, end) + 1, end, qbegin, qend));
    }
}

/// The product of an element and the width of a range fits an `i64`.
pub proof fn lemma_product_bound(v: i32, width: int)
    requires
        1 <= width <= MAX_LEN,
    ensures
        -0x1000_0000_0000_0000 <= v * width <= 0x1000_0000_0000_0000,
{
    assert(-0x1000_0000_0000_0000 <= v * width <= 0x1000_0000_0000_0000) by (nonlinear_arith)
        requires
            1 <= width <= 0x2000_0000,
            -0x8000_0000 <= v <= 0x8000_0000,
    ;
}

/// A node without a pending value whose aggregate is `v` times its width,
/// over a range that holds `v` throughout, describes that range as soon as
/// its children, if it has any, hold `v` as their pending value.
pub proof fn lemma_covered(
    st: Seq<i64>,
    lazy: Seq<Option<i32>>,
    model: Seq<i32>,
    root: int,
    begin: int,
    end: int,
    v: i32,
)
    requires
        begin <= end,
        lazy[root] is None,
        st[root] == v * (end - begin + 1),
        begin < end ==> lazy[2 * root + 1] == Some(v) && lazy[2 * root + 2] == Some(v),
        forall|i: int| begin <= i <= end ==> model[i] == v,
    ensures
        node_inv(st, lazy, model, root, begin, end),
        st[root] == range_sum(model, begin, end),
{
    lemma_range_sum_const(model, begin, end, v);
    if begin < end {
        let mid = mid_of(begin, end);
        assert(node_inv(st, lazy, model, 2 * root + 1, begin, mid));
        assert(node_inv(st, lazy, model, 2 * root + 2, mid + 1, end));
    }
}

} // verus!
