//! The mathematical vocabulary of the tree's contracts: sums over index
//! ranges of a sequence, range assignment, and the facts that relate them.

use vstd::prelude::*;

verus! {

/// Largest magnitude of an `i32`.
pub open spec fn elem_bound() -> int {
    0x8000_0000
}

/// Sum of the elements of `s` at the indices `lo ..= hi`; zero when `lo > hi`.
pub open spec fn range_sum(s: Seq<i32>, lo: int, hi: int) -> int
    decreases hi - lo + 1,
{
    if lo > hi {
        0
    } else {
        range_sum(s, lo, hi - 1) + s[hi]
    }
}

/// `s` with `v` written at every index in `lo ..= hi`, the rest unchanged.
pub open spec fn assign(s: Seq<i32>, lo: int, hi: int, v: i32) -> Seq<i32> {
    Seq::new(s.len(), |i: int| if lo <= i <= hi { v } else { s[i] })
}

/// Sum of all elements of `s`, taken from the left.
pub open spec fn total(s: Seq<i32>) -> int {
    s.fold_left(0int, |acc: int, x: i32| acc + x)
}

/// The larger of two indices.
pub open spec fn max_of(a: int, b: int) -> int {
    if a >= b { a } else { b }
}

/// The smaller of two indices.
pub open spec fn min_of(a: int, b: int) -> int {
    if a <= b { a } else { b }
}

/// A range sum is the sum of its two halves, wherever it is cut.
pub proof fn lemma_range_sum_split(s: Seq<i32>, lo: int, mid: int, hi: int)
    requires
        lo <= mid + 1,
        mid <= hi,
    ensures
        range_sum(s, lo, hi) == range_sum(s, lo, mid) + range_sum(s, mid + 1, hi),
    decreases hi - mid,
{
    if mid < hi {
        lemma_range_sum_split(s, lo, mid, hi - 1);
    }
}

/// Over a range on which `s` is constantly `v`, the sum is `v` times the width.
pub proof fn lemma_range_sum_const(s: Seq<i32>, lo: int, hi: int, v: i32)
    requires
        lo <= hi + 1,
        forall|i: int| lo <= i <= hi ==> s[i] == v,
    ensures
        range_sum(s, lo, hi) == v * (hi - lo + 1),
    decreases hi - lo + 1,
{
    let x = v as int;
    if lo <= hi {
        lemma_range_sum_const(s, lo, hi - 1, v);
        assert(s[hi] == v);
        assert(x * (hi - lo) + x == x * (hi - lo + 1)) by (nonlinear_arith);
    } else {
        assert(x * (hi - lo + 1) == 0) by (nonlinear_arith)
            requires
                hi - lo + 1 == 0,
        ;
    }
}

/// Two sequences that agree on a range have the same sum over it.
pub proof fn lemma_range_sum_ext(s1: Seq<i32>, s2: Seq<i32>, lo: int, hi: int)
    requires
        forall|i: int| lo <= i <= hi ==> s1[i] == s2[i],
    ensures
        range_sum(s1, lo, hi) == range_sum(s2, lo, hi),
    decreases hi - lo + 1,
{
    if lo <= hi {
        lemma_range_sum_ext(s1, s2, lo, hi - 1);
    }
}

/// A range sum is bounded by the width times the largest element magnitude.
pub proof fn lemma_range_sum_bound(s: Seq<i32>, lo: int, hi: int)
    requires
        lo <= hi + 1,
    ensures
        -(hi - lo + 1) * elem_bound() <= range_sum(s, lo, hi) <= (hi - lo + 1) * elem_bound(),
    decreases hi - lo + 1,
{
    if lo <= hi {
        lemma_range_sum_bound(s, lo, hi - 1);
        assert((hi - lo) * elem_bound() + elem_bound() == (hi - lo + 1) * elem_bound())
            by (nonlinear_arith);
        assert(-(hi - lo) * elem_bound() - elem_bound() == -(hi - lo + 1) * elem_bound())
            by (nonlinear_arith);
    }
}

/// The sum over the whole index range is the sum of all elements: what a
/// query for `0 ..= n - 1` returns on a tree whose view is still its array.
pub proof fn law_whole_range_total(s: Seq<i32>)
    ensures
        range_sum(s, 0, s.len() - 1) == total(s),
    decreases s.len(),
{
    if s.len() > 0 {
        let t = s.drop_last();
        law_whole_range_total(t);
        lemma_range_sum_ext(s, t, 0, s.len() - 2);
    }
}

/// Assigning to the part of a range that lies in `begin ..= mid` and then to
/// the part that lies in `mid + 1 ..= end` assigns to the part that lies in
/// `begin ..= end`.
pub proof fn lemma_assign_halves(
    s: Seq<i32>,
    begin: int,
    mid: int,
    end: int,
    qbegin: int,
    qend: int,
    v: i32,
)
    requires
        begin <= mid < end,
    ensures
        assign(
            assign(s, max_of(qbegin, begin), min_of(qend, mid), v),
            max_of(qbegin, mid + 1),
            min_of(qend, end),
            v,
        ) == assign(s, max_of(qbegin, begin), min_of(qend, end), v),
{
    assert(assign(
        assign(s, max_of(qbegin, begin), min_of(qend, mid), v),
        max_of(qbegin, mid + 1),
        min_of(qend, end),
        v,
    ) =~= assign(s, max_of(qbegin, begin), min_of(qend, end), v));
}

/// Assigning to an empty range changes nothing.
pub proof fn lemma_assign_empty(s: Seq<i32>, lo: int, hi: int, v: i32)
    requires
        lo > hi,
    ensures
        assign(s, lo, hi, v) == s,
{
    assert(assign(s, lo, hi, v) =~= s);
}

/// Assigning the same value to the same range a second time changes nothing.
pub proof fn law_assign_idempotent(s: Seq<i32>, a: int, b: int, v: i32)
    ensures
        assign(assign(s, a, b, v), a, b, v) == assign(s, a, b, v),
        forall|lo: int, hi: int|
            range_sum(assign(assign(s, a, b, v), a, b, v), lo, hi) == range_sum(
                assign(s, a, b, v),
                lo,
                hi,
            ),
{
    assert(assign(assign(s, a, b, v), a, b, v) =~= assign(s, a, b, v));
}

/// An assignment to `a ..= b` leaves the sum over every range that lies
/// wholly before `a` or wholly after `b` as it was.
pub proof fn law_assign_isolated(s: Seq<i32>, a: int, b: int, v: i32, lo: int, hi: int)
    requires
        0 <= lo,
        hi < s.len(),
        hi < a || lo > b,
    ensures
        range_sum(assign(s, a, b, v), lo, hi) == range_sum(s, lo, hi),
{
    lemma_range_sum_ext(assign(s, a, b, v), s, lo, hi);
}

/// What two assignments in a row leave behind: the later value on the later
/// range, the earlier value on the rest of the earlier range, and the old
/// elements everywhere else.
pub open spec fn overlay(s: Seq<i32>, a: int, b: int, v: i32, c: int, d: int, w: i32) -> Seq<i32> {
    Seq::new(
        s.len(),
        |i: int|
            if c <= i <= d {
                w
            } else if a <= i <= b {
                v
            } else {
                s[i]
            },
    )
}

/// After an assignment of `v` to `a ..= b` and then of `w` to `c ..= d`, every
/// element, and so every range sum, shows the later assignment where the two
/// overlap and on the rest of `c ..= d`, and the earlier one elsewhere in
/// `a ..= b`.
pub proof fn law_assign_compose(s: Seq<i32>, a: int, b: int, v: i32, c: int, d: int, w: i32)
    ensures
        assign(assign(s, a, b, v), c, d, w) == overlay(s, a, b, v, c, d, w),
        forall|lo: int, hi: int|
            range_sum(assign(assign(s, a, b, v), c, d, w), lo, hi) == range_sum(
                overlay(s, a, b, v, c, d, w),
                lo,
                hi,
            ),
{
    assert(assign(assign(s, a, b, v), c, d, w) =~= overlay(s, a, b, v, c, d, w));
}

} // verus!
