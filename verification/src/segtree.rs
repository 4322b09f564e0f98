//! The segment tree: construction, build, range assignment and range sum.

use vstd::prelude::*;
use crate::node::{
    lemma_beside_unvisited, lemma_child_frame, lemma_covered, lemma_node_determines,
    lemma_node_transfer, lemma_off_shape_outside, lemma_product_bound, lemma_root_frame,
    lemma_unvisited_child, lemma_unvisited_outside, lemma_unvisited_trans, node_inv,
    same_beside, same_off_shape, same_unvisited,
};
use crate::layout::{
    capacity, fits, grow, in_shape, lemma_capacity, lemma_tree_fits, mid_of, tree_len,
};
use crate::sums::{
    assign, law_whole_range_total, lemma_assign_empty, lemma_assign_halves,
    lemma_range_sum_bound, lemma_range_sum_ext, lemma_range_sum_split, max_of, min_of,
    range_sum, total,
};

verus! {

/// The largest array the tree is built over. With at most this many `i32`
/// elements the storage length and every node index fit a 32-bit `usize`, and
/// every sum fits an `i64`.
pub const MAX_LEN: usize = 0x2000_0000;

/// What a slot of the aggregate storage holds until a build writes it: the
/// largest `i32`.
pub const SENTINEL: i64 = 0x7fff_ffff;

/// Why a range was refused.
#[derive(Debug, Clone, Copy, PartialEq, Eq)]
pub enum RangeError {
    /// The range ends at or beyond the array's length.
    OutOfRange,
    /// The range begins after its end.
    Reversed,
}

/// A segment tree over a borrowed array. `st` holds one aggregate per node,
/// wide enough for the sum of any range; `lazy` holds one pending assignment
/// per node, `None` where nothing is pending; `model` is the array as the
/// assignments made so far have left it. The root is node 0 and stands for
/// the whole array; the children of node `i` are `2i + 1` and `2i + 2`.
pub struct Segtree<'a> {
    pub nums: &'a Vec<i32>,
    pub st: Vec<i64>,
    pub lazy: Vec<Option<i32>>,
    pub model: Ghost<Seq<i32>>,
}

impl<'a> View for Segtree<'a> {
    type V = Seq<i32>;

    /// The array as the assignments made so far have left it.
    open spec fn view(&self) -> Seq<i32> {
        self.model@
    }
}

impl<'a> Segtree<'a> {
    /// The storages have the length that the array calls for.
    pub open spec fn wf(&self) -> bool {
        &&& 1 <= self.nums@.len() <= MAX_LEN
        &&& self.st@.len() == tree_len(self.nums@.len() as int)
        &&& self.lazy@.len() == self.st@.len()
        &&& self.model@.len() == self.nums@.len()
        &&& fits(0, 0, self.nums@.len() - 1, self.st@.len() as int)
    }

    /// No node holds a pending assignment.
    pub open spec fn untagged(&self) -> bool {
        forall|j: int| 0 <= j < self.lazy@.len() ==> self.lazy@[j] is None
    }

    /// Node `root` over `begin ..= end` describes the tree's view.
    pub open spec fn node_ok(&self, root: int, begin: int, end: int) -> bool {
        node_inv(self.st@, self.lazy@, self.model@, root, begin, end)
    }

    /// The tree is built: well formed, and its root describes its view.
    pub open spec fn built(&self) -> bool {
        &&& self.wf()
        &&& self.node_ok(0, 0, self.nums@.len() - 1)
    }

    /// Two built trees with the same storage have the same view.
    pub proof fn law_storage_determines_view(&self, other: &Self)
        requires
            self.built(),
            other.built(),
            self.nums@.len() == other.nums@.len(),
            self.st@ == other.st@,
            self.lazy@ == other.lazy@,
        ensures
            self@ == other@,
    {
        lemma_node_determines(
            self.st@,
            self.lazy@,
            self.model@,
            other.model@,
            0,
            0,
            self.nums@.len() - 1,
        );
        assert(self.model@ =~= other.model@);
    }

    /// A tree over `nums` that is not built yet: every aggregate is the
    /// sentinel, no assignment is pending. The array holds at least one
    /// element and at most `MAX_LEN`.
    pub fn new(nums: &'a Vec<i32>) -> (tree: Segtree<'a>)
        requires
            1 <= nums@.len() <= MAX_LEN,
        ensures
            tree.wf(),
            tree.untagged(),
            tree.nums@ == nums@,
            tree@ == nums@,
            tree.st@ == Seq::new(tree_len(nums@.len() as int) as nat, |j: int| SENTINEL),
    {
        let n: usize = nums.len();
        let mut cap: usize = 1;
        while cap < n
            invariant
                1 <= cap,
                cap == 1 || cap < 2 * n,
                n <= MAX_LEN,
                grow(cap as int, n as int) == capacity(n as int),
            decreases 2 * n - cap,
        {
            cap = cap * 2;
        }
        let len: usize = cap * 2 - 1;
        let st: Vec<i64> = vec![SENTINEL; len];
        let none: Option<i32> = None;
        let lazy: Vec<Option<i32>> = vec![none; len];
        proof {
            lemma_tree_fits(n as int);
            assert(st@ =~= Seq::new(tree_len(n as int) as nat, |j: int| SENTINEL));
        }
        Segtree { nums, st, lazy, model: Ghost(nums@) }
    }

    /// Applies the assignment pending at `root`, if there is one: the node
    /// takes the value times its width, both children take the pending value,
    /// and the node's own is cleared.
    fn flush(&mut self, root: usize, begin: usize, end: usize)
        requires
            old(self).wf(),
            fits(root as int, begin as int, end as int, old(self).st@.len() as int),
            end < old(self).nums@.len(),
            old(self).node_ok(root as int, begin as int, end as int),
        ensures
            final(self).wf(),
            final(self).nums@ == old(self).nums@,
            final(self)@ == old(self)@,
            final(self).lazy@[root as int] is None,
            final(self).node_ok(root as int, begin as int, end as int),
            same_beside(
                old(self).st@,
                old(self).lazy@,
                final(self).st@,
                final(self).lazy@,
                root as int,
            ),
            old(self).lazy@[root as int] is None ==> final(self).st@ == old(self).st@
                && final(self).lazy@ == old(self).lazy@,
    {
        let pending: Option<i32> = self.lazy[root];
        match pending {
            Some(tag) => {
                proof {
                    lemma_capacity(self.nums@.len() as int);
                    lemma_product_bound(tag, end - begin + 1);
                    if begin < end {
                        let mid = mid_of(begin as int, end as int);
                        assert(fits(2 * root + 1, begin as int, mid, self.st@.len() as int));
                        assert(fits(2 * root + 2, mid + 1, end as int, self.st@.len() as int));
                    }
                }
                let width: i64 = (end - begin + 1) as i64;
                let total: i64 = (tag as i64) * width;
                self.st.set(root, total);
                if root * 2 + 2 < self.st.len() {
                    self.lazy.set(root * 2 + 1, Some(tag));
                    self.lazy.set(root * 2 + 2, Some(tag));
                }
                self.lazy.set(root, None);
                proof {
                    lemma_covered(
                        self.st@,
                        self.lazy@,
                        self.model@,
                        root as int,
                        begin as int,
                        end as int,
                        tag,
                    );
                }
            },
            None => {},
        }
    }

    /// Fills the aggregates of node `root` over `begin ..= end` and of the
    /// nodes below it from the array, and returns the node's aggregate.
    pub fn create_runner(&mut self, root: usize, begin: usize, end: usize) -> (res: i64)
        requires
            old(self).wf(),
            old(self).untagged(),
            old(self)@ == old(self).nums@,
            fits(root as int, begin as int, end as int, old(self).st@.len() as int),
            end < old(self).nums@.len(),
        ensures
            final(self).wf(),
            final(self).nums@ == old(self).nums@,
            final(self)@ == old(self)@,
            final(self).lazy@ == old(self).lazy@,
            final(self).node_ok(root as int, begin as int, end as int),
            res == final(self).st@[root as int],
            res == range_sum(old(self).nums@, begin as int, end as int),
            same_off_shape(
                old(self).st@,
                final(self).st@,
                root as int,
                begin as int,
                end as int,
            ),
        decreases end - begin,
    {
        let ghost m = self.model@;
        let ghost len = self.st@.len() as int;
        let ghost st0 = self.st@;
        let ghost lazy0 = self.lazy@;
        proof {
            lemma_capacity(self.nums@.len() as int);
        }
        if begin == end {
            let value: i64 = self.nums[begin] as i64;
            self.st.set(root, value);
            proof {
                assert(range_sum(m, begin as int, begin - 1) == 0);
            }
            return value;
        }
        let mid: usize = (begin + end) / 2;
        let left: i64 = self.create_runner(2 * root + 1, begin, mid);
        let ghost st2 = self.st@;
        let right: i64 = self.create_runner(2 * root + 2, mid + 1, end);
        let ghost st3 = self.st@;
        proof {
            lemma_off_shape_outside(st0, st2, lazy0, 2 * root + 1, begin as int, mid as int);
            lemma_off_shape_outside(st2, st3, lazy0, 2 * root + 2, mid + 1, end as int);
            lemma_child_frame(st0, lazy0, st2, lazy0, root as int, 2 * root + 1, 2 * root + 2);
            lemma_child_frame(st2, lazy0, st3, lazy0, root as int, 2 * root + 2, 2 * root + 1);
            lemma_node_transfer(st2, lazy0, m, st3, lazy0, m, 2 * root + 1, begin as int, mid as int);
            lemma_range_sum_split(m, begin as int, mid as int, end as int);
            lemma_range_sum_bound(m, begin as int, mid as int);
            lemma_range_sum_bound(m, mid + 1, end as int);
        }
        let total: i64 = left + right;
        self.st.set(root, total);
        proof {
            let st4 = self.st@;
            lemma_root_frame(st3, lazy0, root as int, total);
            lemma_node_transfer(st3, lazy0, m, st4, lazy0, m, 2 * root + 1, begin as int, mid as int);
            lemma_node_transfer(st3, lazy0, m, st4, lazy0, m, 2 * root + 2, mid + 1, end as int);
            assert forall|j: int|
                0 <= j < len && !#[trigger] in_shape(
                    j,
                    root as int,
                    begin as int,
                    end as int,
                ) implies st0[j] == st4[j] by {
                assert(!in_shape(j, 2 * root + 1, begin as int, mid as int));
                assert(!in_shape(j, 2 * root + 2, mid + 1, end as int));
                assert(st0[j] == st2[j]);
                assert(st2[j] == st3[j]);
            }
        }
        total
    }

    /// Builds the tree from its array: every node of the tree takes the sum
    /// of its range, the other slots and the pending assignments stay as they
    /// are. It takes a tree on which nothing is pending: a new one, or a built
    /// one that no assignment has touched since.
    pub fn create(&mut self)
        requires
            old(self).wf(),
            old(self).untagged(),
        ensures
            final(self).built(),
            final(self).untagged(),
            final(self).nums@ == old(self).nums@,
            final(self)@ == old(self).nums@,
            final(self).lazy@ == old(self).lazy@,
            final(self).st@[0] == total(old(self).nums@),
            same_off_shape(old(self).st@, final(self).st@, 0, 0, old(self).nums@.len() - 1),
    {
        self.model = Ghost(self.nums@);
        let n: usize = self.nums.len();
        self.create_runner(0, 0, n - 1);
        proof {
            law_whole_range_total(self.nums@);
        }
    }

    /// Assigns `new_val` to the part of `qbegin ..= qend` that lies in the
    /// range `begin ..= end` of node `root`, and returns the node's new sum.
    pub fn modify_runner(
        &mut self,
        root: usize,
        begin: usize,
        end: usize,
        qbegin: usize,
        qend: usize,
        new_val: i32,
    ) -> (res: i64)
        requires
            old(self).wf(),
            fits(root as int, begin as int, end as int, old(self).st@.len() as int),
            end < old(self).nums@.len(),
            old(self).node_ok(root as int, begin as int, end as int),
        ensures
            final(self).wf(),
            final(self).nums@ == old(self).nums@,
            final(self)@ == assign(
                old(self)@,
                max_of(qbegin as int, begin as int),
                min_of(qend as int, end as int),
                new_val,
            ),
            final(self).node_ok(root as int, begin as int, end as int),
            final(self).lazy@[root as int] is None,
            res == final(self).st@[root as int],
            res == range_sum(final(self)@, begin as int, end as int),
            same_unvisited(
                old(self).st@,
                old(self).lazy@,
                final(self).st@,
                final(self).lazy@,
                root as int,
                begin as int,
                end as int,
                qbegin as int,
                qend as int,
            ),
        decreases end - begin,
    {
        self.flush(root, begin, end);
        let ghost len = self.st@.len() as int;
        let ghost st0 = old(self).st@;
        let ghost lazy0 = old(self).lazy@;
        let ghost st1 = self.st@;
        let ghost lazy1 = self.lazy@;
        let ghost m = self.model@;
        let ghost m2 = assign(
            m,
            max_of(qbegin as int, begin as int),
            min_of(qend as int, end as int),
            new_val,
        );
        let ghost (qb, qe) = (qbegin as int, qend as int);
        proof {
            lemma_capacity(self.nums@.len() as int);
            if begin < end {
                let mid = mid_of(begin as int, end as int);
                assert(fits(2 * root + 1, begin as int, mid, len));
                assert(fits(2 * root + 2, mid + 1, end as int, len));
            }
            lemma_beside_unvisited(st0, lazy0, st1, lazy1, root as int, begin as int, end as int, qb, qe);
        }
        if qbegin <= begin && qend >= end {
            proof {
                lemma_product_bound(new_val, end - begin + 1);
            }
            let width: i64 = (end - begin + 1) as i64;
            let total: i64 = (new_val as i64) * width;
            self.st.set(root, total);
            if root * 2 + 2 < self.st.len() {
                self.lazy.set(root * 2 + 1, Some(new_val));
                self.lazy.set(root * 2 + 2, Some(new_val));
            }
            self.model = Ghost(m2);
            proof {
                lemma_covered(self.st@, self.lazy@, m2, root as int, begin as int, end as int, new_val);
                assert(same_beside(st1, lazy1, self.st@, self.lazy@, root as int));
                lemma_beside_unvisited(st1, lazy1, self.st@, self.lazy@, root as int, begin as int, end as int, qb, qe);
                lemma_unvisited_trans(st0, lazy0, st1, lazy1, self.st@, self.lazy@, root as int, begin as int, end as int, qb, qe);
            }
            total
        } else if qend < begin || qbegin > end {
            proof {
                lemma_assign_empty(
                    m,
                    max_of(qbegin as int, begin as int),
                    min_of(qend as int, end as int),
                    new_val,
                );
            }
            self.st[root]
        } else {
            let mid: usize = (begin + end) / 2;
            let left: i64 = self.modify_runner(root * 2 + 1, begin, mid, qbegin, qend, new_val);
            let ghost st2 = self.st@;
            let ghost lazy2 = self.lazy@;
            let ghost ml = self.model@;
            proof {
                lemma_unvisited_outside(st1, lazy1, st2, lazy2, 2 * root + 1, begin as int, mid as int, qb, qe);
                lemma_child_frame(st1, lazy1, st2, lazy2, root as int, 2 * root + 1, 2 * root + 2);
                lemma_node_transfer(st1, lazy1, m, st2, lazy2, ml, 2 * root + 2, mid + 1, end as int);
            }
            let right: i64 = self.modify_runner(root * 2 + 2, mid + 1, end, qbegin, qend, new_val);
            let ghost st3 = self.st@;
            let ghost lazy3 = self.lazy@;
            proof {
                lemma_assign_halves(m, begin as int, mid as int, end as int, qb, qe, new_val);
                lemma_unvisited_outside(st2, lazy2, st3, lazy3, 2 * root + 2, mid + 1, end as int, qb, qe);
                lemma_child_frame(st2, lazy2, st3, lazy3, root as int, 2 * root + 2, 2 * root + 1);
                lemma_node_transfer(st2, lazy2, ml, st3, lazy3, m2, 2 * root + 1, begin as int, mid as int);
                lemma_range_sum_ext(ml, m2, begin as int, mid as int);
                lemma_range_sum_split(m2, begin as int, mid as int, end as int);
                lemma_range_sum_bound(m2, begin as int, mid as int);
                lemma_range_sum_bound(m2, mid + 1, end as int);
            }
            let total: i64 = left + right;
            self.st.set(root, total);
            proof {
                let st4 = self.st@;
                lemma_root_frame(st3, lazy3, root as int, total);
                lemma_node_transfer(st3, lazy3, m2, st4, lazy3, m2, 2 * root + 1, begin as int, mid as int);
                lemma_node_transfer(st3, lazy3, m2, st4, lazy3, m2, 2 * root + 2, mid + 1, end as int);
                lemma_unvisited_child(st1, lazy1, st2, lazy2, root as int, begin as int, end as int, qb, qe);
                lemma_unvisited_child(st2, lazy2, st3, lazy3, root as int, begin as int, end as int, qb, qe);
                assert(same_beside(st3, lazy3, st4, lazy3, root as int));
                lemma_beside_unvisited(st3, lazy3, st4, lazy3, root as int, begin as int, end as int, qb, qe);
                lemma_unvisited_trans(st0, lazy0, st1, lazy1, st2, lazy2, root as int, begin as int, end as int, qb, qe);
                lemma_unvisited_trans(st0, lazy0, st2, lazy2, st3, lazy3, root as int, begin as int, end as int, qb, qe);
                lemma_unvisited_trans(st0, lazy0, st3, lazy3, st4, lazy3, root as int, begin as int, end as int, qb, qe);
            }
            total
        }
    }

    /// Assigns `new_val` to every element at an index in `qbegin ..= qend`.
    /// A range that ends beyond the array, or begins after its end, is
    /// refused, and the tree stays as it was.
    pub fn modify(&mut self, qbegin: usize, qend: usize, new_val: i32) -> (res: Result<
        (),
        RangeError,
    >)
        requires
            old(self).built(),
        ensures
            final(self).built(),
            final(self).nums@ == old(self).nums@,
            match res {
                Ok(_) => {
                    &&& qbegin <= qend < old(self).nums@.len()
                    &&& final(self)@ == assign(old(self)@, qbegin as int, qend as int, new_val)
                    &&& same_unvisited(
                        old(self).st@,
                        old(self).lazy@,
                        final(self).st@,
                        final(self).lazy@,
                        0,
                        0,
                        old(self).nums@.len() - 1,
                        qbegin as int,
                        qend as int,
                    )
                },
                Err(RangeError::OutOfRange) => {
                    &&& qend >= old(self).nums@.len()
                    &&& final(self)@ == old(self)@
                    &&& final(self).st@ == old(self).st@
                    &&& final(self).lazy@ == old(self).lazy@
                },
                Err(RangeError::Reversed) => {
                    &&& qend < old(self).nums@.len()
                    &&& qbegin > qend
                    &&& final(self)@ == old(self)@
                    &&& final(self).st@ == old(self).st@
                    &&& final(self).lazy@ == old(self).lazy@
                },
            },
    {
        let n: usize = self.nums.len();
        if qend >= n {
            return Err(RangeError::OutOfRange);
        }
        if qbegin > qend {
            return Err(RangeError::Reversed);
        }
        self.modify_runner(0, 0, n - 1, qbegin, qend, new_val);
        Ok(())
    }

    /// The sum of the part of `qbegin ..= qend` that lies in the range
    /// `begin ..= end` of node `root`. Pending assignments met on the way are
    /// applied; the tree's view stays as it was.
    pub fn sum_runner(
        &mut self,
        root: usize,
        begin: usize,
        end: usize,
        qbegin: usize,
        qend: usize,
    ) -> (res: i64)
        requires
            old(self).wf(),
            fits(root as int, begin as int, end as int, old(self).st@.len() as int),
            end < old(self).nums@.len(),
            old(self).node_ok(root as int, begin as int, end as int),
        ensures
            final(self).wf(),
            final(self).nums@ == old(self).nums@,
            final(self)@ == old(self)@,
            final(self).node_ok(root as int, begin as int, end as int),
            res == range_sum(
                old(self)@,
                max_of(qbegin as int, begin as int),
                min_of(qend as int, end as int),
            ),
            old(self).untagged() ==> final(self).st@ == old(self).st@ && final(self).lazy@ == old(
                self,
            ).lazy@,
            same_unvisited(
                old(self).st@,
                old(self).lazy@,
                final(self).st@,
                final(self).lazy@,
                root as int,
                begin as int,
                end as int,
                qbegin as int,
                qend as int,
            ),
        decreases end - begin,
    {
        self.flush(root, begin, end);
        let ghost len = self.st@.len() as int;
        let ghost st0 = old(self).st@;
        let ghost lazy0 = old(self).lazy@;
        let ghost st1 = self.st@;
        let ghost lazy1 = self.lazy@;
        let ghost m = self.model@;
        let ghost lo = max_of(qbegin as int, begin as int);
        let ghost hi = min_of(qend as int, end as int);
        let ghost (qb, qe) = (qbegin as int, qend as int);
        proof {
            lemma_beside_unvisited(st0, lazy0, st1, lazy1, root as int, begin as int, end as int, qb, qe);
            lemma_capacity(self.nums@.len() as int);
            if begin < end {
                let mid = mid_of(begin as int, end as int);
                assert(fits(2 * root + 1, begin as int, mid, len));
                assert(fits(2 * root + 2, mid + 1, end as int, len));
            }
        }
        if qbegin <= begin && qend >= end {
            self.st[root]
        } else if qbegin > end || qend < begin {
            0
        } else {
            let mid: usize = (begin + end) / 2;
            let left: i64 = self.sum_runner(root * 2 + 1, begin, mid, qbegin, qend);
            let ghost st2 = self.st@;
            let ghost lazy2 = self.lazy@;
            proof {
                lemma_unvisited_outside(st1, lazy1, st2, lazy2, 2 * root + 1, begin as int, mid as int, qb, qe);
                lemma_child_frame(st1, lazy1, st2, lazy2, root as int, 2 * root + 1, 2 * root + 2);
                lemma_node_transfer(st1, lazy1, m, st2, lazy2, m, 2 * root + 2, mid + 1, end as int);
            }
            let right: i64 = self.sum_runner(root * 2 + 2, mid + 1, end, qbegin, qend);
            let ghost st3 = self.st@;
            let ghost lazy3 = self.lazy@;
            proof {
                lemma_unvisited_outside(st2, lazy2, st3, lazy3, 2 * root + 2, mid + 1, end as int, qb, qe);
                lemma_child_frame(st2, lazy2, st3, lazy3, root as int, 2 * root + 2, 2 * root + 1);
                lemma_node_transfer(st2, lazy2, m, st3, lazy3, m, 2 * root + 1, begin as int, mid as int);
                lemma_unvisited_child(st1, lazy1, st2, lazy2, root as int, begin as int, end as int, qb, qe);
                lemma_unvisited_child(st2, lazy2, st3, lazy3, root as int, begin as int, end as int, qb, qe);
                lemma_unvisited_trans(st0, lazy0, st1, lazy1, st2, lazy2, root as int, begin as int, end as int, qb, qe);
                lemma_unvisited_trans(st0, lazy0, st2, lazy2, st3, lazy3, root as int, begin as int, end as int, qb, qe);
                if lo <= mid < hi {
                    lemma_range_sum_split(m, lo, mid as int, hi);
                }
                let left_hi = min_of(qend as int, mid as int);
                let right_lo = max_of(qbegin as int, mid + 1);
                if lo <= left_hi {
                    lemma_range_sum_bound(m, lo, left_hi);
                }
                if right_lo <= hi {
                    lemma_range_sum_bound(m, right_lo, hi);
                }
            }
            right + left
        }
    }

    /// The sum of the elements at the indices `qbegin ..= qend`, as the
    /// assignments made so far have left them. A range that ends beyond the
    /// array, or begins after its end, is refused, and the tree stays as it
    /// was.
    pub fn sum(&mut self, qbegin: usize, qend: usize) -> (res: Result<i64, RangeError>)
        requires
            old(self).built(),
        ensures
            final(self).built(),
            final(self).nums@ == old(self).nums@,
            final(self)@ == old(self)@,
            old(self).untagged() ==> final(self).st@ == old(self).st@ && final(self).lazy@ == old(
                self,
            ).lazy@,
            match res {
                Ok(value) => {
                    &&& qbegin <= qend < old(self).nums@.len()
                    &&& value == range_sum(old(self)@, qbegin as int, qend as int)
                    &&& same_unvisited(
                        old(self).st@,
                        old(self).lazy@,
                        final(self).st@,
                        final(self).lazy@,
                        0,
                        0,
                        old(self).nums@.len() - 1,
                        qbegin as int,
                        qend as int,
                    )
                },
                Err(RangeError::OutOfRange) => {
                    &&& qend >= old(self).nums@.len()
                    &&& final(self).st@ == old(self).st@
                    &&& final(self).lazy@ == old(self).lazy@
                },
                Err(RangeError::Reversed) => {
                    &&& qend < old(self).nums@.len()
                    &&& qbegin > qend
                    &&& final(self).st@ == old(self).st@
                    &&& final(self).lazy@ == old(self).lazy@
                },
            },
    {
        let n: usize = self.nums.len();
        if qend >= n {
            return Err(RangeError::OutOfRange);
        }
        if qbegin > qend {
            return Err(RangeError::Reversed);
        }
        let value: i64 = self.sum_runner(0, 0, n - 1, qbegin, qend);
        Ok(value)
    }
}

} // verus!
