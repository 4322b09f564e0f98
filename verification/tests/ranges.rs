use lazy_segtree::segtree::{RangeError, Segtree};

fn naive_sum(a: &[i32], lo: usize, hi: usize) -> i64 {
    let mut s: i64 = 0;
    for i in lo..=hi {
        s += i64::from(a[i]);
    }
    s
}

#[test]
fn four_item_scenario() {
    let arr = vec![-1, 7, 1, 3];
    let mut st = Segtree::new(&arr);
    st.create();
    assert_eq!(st.sum(0, 3), Ok(10));

    assert_eq!(st.modify(1, 2, 5), Ok(()));
    assert_eq!(st.sum(0, 3), Ok(12));
    assert_eq!(st.sum(1, 2), Ok(10));

    assert_eq!(st.modify(0, 3, 0), Ok(()));
    assert_eq!(st.sum(0, 3), Ok(0));
}

#[test]
fn assign_zero_reaches_every_element() {
    let arr = vec![-1, 7, 1, 3];
    let mut st = Segtree::new(&arr);
    st.create();
    assert_eq!(st.modify(0, 3, 0), Ok(()));
    assert_eq!(st.sum(1, 2), Ok(0));
    assert_eq!(st.sum(0, 0), Ok(0));
    assert_eq!(st.sum(3, 3), Ok(0));
    assert_eq!(st.sum(0, 3), Ok(0));
}

#[test]
fn assign_zero_to_part() {
    let arr = vec![4, 4, 4, 4, 4, 4];
    let mut st = Segtree::new(&arr);
    st.create();
    assert_eq!(st.modify(0, 2, 0), Ok(()));
    assert_eq!(st.sum(0, 1), Ok(0));
    assert_eq!(st.sum(1, 4), Ok(8));
    assert_eq!(st.sum(0, 5), Ok(12));
}

#[test]
fn query_right_after_covering_assign_flushes_with_width() {
    let arr = vec![-1, 7, 1, 3];
    let mut st = Segtree::new(&arr);
    st.create();
    assert_eq!(st.modify(0, 3, 5), Ok(()));
    // The first query below a covered node applies the pending value to a
    // node of width two.
    assert_eq!(st.sum(0, 1), Ok(10));
    assert_eq!(st.sum(2, 3), Ok(10));
    assert_eq!(st.sum(1, 2), Ok(10));
    assert_eq!(st.sum(0, 3), Ok(20));
}

#[test]
fn query_after_partial_assign() {
    let arr = vec![1, 2, 3, 4, 5, 6, 7, 8];
    let mut st = Segtree::new(&arr);
    st.create();
    assert_eq!(st.modify(0, 5, 9), Ok(()));
    assert_eq!(st.sum(0, 3), Ok(36));
    assert_eq!(st.sum(2, 3), Ok(18));
    assert_eq!(st.sum(4, 7), Ok(33));
    assert_eq!(st.sum(5, 6), Ok(16));
    assert_eq!(st.sum(0, 7), Ok(69));
}

#[test]
fn single_element_sums() {
    let arr = vec![-1, 7, 1];
    let mut st = Segtree::new(&arr);
    st.create();
    assert_eq!(st.sum(0, 0), Ok(-1));
    assert_eq!(st.sum(1, 1), Ok(7));
    assert_eq!(st.sum(2, 2), Ok(1));
    assert_eq!(st.sum(1, 2), Ok(8));
}

#[test]
fn one_item_tree() {
    let arr = vec![-1];
    let mut st = Segtree::new(&arr);
    st.create();
    assert_eq!(st.sum(0, 0), Ok(-1));
    assert_eq!(st.modify(0, 0, 42), Ok(()));
    assert_eq!(st.sum(0, 0), Ok(42));
    assert_eq!(st.st, vec![42]);
    assert_eq!(st.sum(0, 1), Err(RangeError::OutOfRange));
}

#[test]
fn sum_out_of_range_is_refused() {
    let arr = vec![-1, 7, 1, 3];
    let mut st = Segtree::new(&arr);
    st.create();
    assert_eq!(st.modify(1, 2, 5), Ok(()));
    let before_st = st.st.clone();
    let before_lazy = st.lazy.clone();
    assert_eq!(st.sum(0, 4), Err(RangeError::OutOfRange));
    assert_eq!(st.sum(4, 4), Err(RangeError::OutOfRange));
    assert_eq!(st.sum(7, 100), Err(RangeError::OutOfRange));
    assert_eq!(st.sum(0, usize::MAX), Err(RangeError::OutOfRange));
    assert_eq!(st.st, before_st);
    assert_eq!(st.lazy, before_lazy);
    assert_eq!(st.sum(0, 3), Ok(12));
}

#[test]
fn modify_out_of_range_is_refused() {
    let arr = vec![-1, 7, 1, 3];
    let mut st = Segtree::new(&arr);
    st.create();
    let whole = st.sum(0, 3);
    let before_st = st.st.clone();
    let before_lazy = st.lazy.clone();
    assert_eq!(st.modify(0, 4, 9), Err(RangeError::OutOfRange));
    assert_eq!(st.modify(2, 17, 9), Err(RangeError::OutOfRange));
    assert_eq!(st.modify(5, 4, 9), Err(RangeError::OutOfRange));
    assert_eq!(st.st, before_st);
    assert_eq!(st.lazy, before_lazy);
    assert_eq!(st.sum(0, 3), whole);
    assert_eq!(st.sum(0, 3), Ok(10));
}

#[test]
fn reversed_range_is_refused() {
    let arr = vec![-1, 7, 1, 3];
    let mut st = Segtree::new(&arr);
    st.create();
    assert_eq!(st.modify(0, 3, 2), Ok(()));
    let before_st = st.st.clone();
    let before_lazy = st.lazy.clone();
    assert_eq!(st.sum(2, 1), Err(RangeError::Reversed));
    assert_eq!(st.modify(3, 0, 9), Err(RangeError::Reversed));
    assert_eq!(st.st, before_st);
    assert_eq!(st.lazy, before_lazy);
    assert_eq!(st.sum(0, 3), Ok(8));
}

#[test]
fn assign_twice_is_assign_once() {
    let arr = vec![3, 1, 4, 1, 5, 9, 2, 6];
    let mut once = Segtree::new(&arr);
    once.create();
    let mut twice = Segtree::new(&arr);
    twice.create();
    assert_eq!(once.modify(2, 6, -7), Ok(()));
    assert_eq!(twice.modify(2, 6, -7), Ok(()));
    assert_eq!(twice.modify(2, 6, -7), Ok(()));
    for lo in 0..8 {
        for hi in lo..8 {
            assert_eq!(once.sum(lo, hi), twice.sum(lo, hi));
        }
    }
    assert_eq!(twice.sum(0, 7), Ok(3 + 1 - 35 + 6));
}

#[test]
fn assign_leaves_ranges_outside_alone() {
    let arr = vec![3, 1, 4, 1, 5, 9, 2, 6];
    let mut st = Segtree::new(&arr);
    st.create();
    assert_eq!(st.modify(3, 5, 100), Ok(()));
    for lo in 0..3 {
        for hi in lo..3 {
            assert_eq!(st.sum(lo, hi), Ok(naive_sum(&arr, lo, hi)));
        }
    }
    for lo in 6..8 {
        for hi in lo..8 {
            assert_eq!(st.sum(lo, hi), Ok(naive_sum(&arr, lo, hi)));
        }
    }
    assert_eq!(st.sum(0, 2), Ok(8));
    assert_eq!(st.sum(6, 7), Ok(8));
    assert_eq!(st.sum(3, 5), Ok(300));
}

#[test]
fn later_assign_wins_where_ranges_overlap() {
    let arr = vec![1, 1, 1, 1, 1, 1, 1];
    let mut st = Segtree::new(&arr);
    st.create();
    assert_eq!(st.modify(1, 4, 10), Ok(()));
    assert_eq!(st.modify(3, 5, 20), Ok(()));
    let now = [1, 10, 10, 20, 20, 20, 1];
    for lo in 0..7 {
        for hi in lo..7 {
            assert_eq!(st.sum(lo, hi), Ok(naive_sum(&now, lo, hi)));
        }
    }
    assert_eq!(st.sum(0, 6), Ok(82));
    assert_eq!(st.sum(2, 3), Ok(30));
}

#[test]
fn sums_beyond_i32_are_exact() {
    let arr = vec![i32::MAX, i32::MAX, i32::MAX];
    let mut st = Segtree::new(&arr);
    st.create();
    assert_eq!(st.sum(0, 2), Ok(6442450941));
    assert_eq!(st.modify(0, 2, i32::MIN), Ok(()));
    assert_eq!(st.sum(0, 2), Ok(-6442450944));
    assert_eq!(st.sum(1, 2), Ok(-4294967296));
}

#[test]
fn assign_runner_touches_only_its_part() {
    let arr = vec![-1, 7, 1, 3];
    let mut st = Segtree::new(&arr);
    st.create();
    // Node 2 stands for 2 ..= 3; the query 1 ..= 2 meets it at index 2 only.
    assert_eq!(st.modify_runner(2, 2, 3, 1, 2, 5), 8);
    assert_eq!(st.st[2], 8);
    assert_eq!(st.st[5], 5);
    assert_eq!(st.st[6], 3);
    assert_eq!(st.st[0], 10);
    assert_eq!(st.st[1], 6);
}

#[test]
fn sum_runner_adds_only_its_part() {
    let arr = vec![-1, 7, 1, 3];
    let mut st = Segtree::new(&arr);
    st.create();
    assert_eq!(st.sum_runner(1, 0, 1, 1, 3), 7);
    assert_eq!(st.sum_runner(2, 2, 3, 1, 3), 4);
    assert_eq!(st.sum_runner(2, 2, 3, 0, 1), 0);
    assert_eq!(st.sum_runner(0, 0, 3, 1, 3), 11);
}

#[test]
fn matches_plain_array_over_many_operations() {
    let mut seed: u64 = 0x2545_F491_4F6C_DD1D;
    let mut next = move || {
        seed ^= seed << 13;
        seed ^= seed >> 7;
        seed ^= seed << 17;
        seed
    };
    for n in 1..=13usize {
        let arr: Vec<i32> = (0..n).map(|_| (next() % 201) as i32 - 100).collect();
        let mut plain = arr.clone();
        let mut st = Segtree::new(&arr);
        st.create();
        for _ in 0..200 {
            let a = (next() % n as u64) as usize;
            let b = (next() % n as u64) as usize;
            let (lo, hi) = if a <= b { (a, b) } else { (b, a) };
            if next() % 2 == 0 {
                let v = (next() % 7) as i32 - 3;
                assert_eq!(st.modify(lo, hi, v), Ok(()));
                for x in plain[lo..=hi].iter_mut() {
                    *x = v;
                }
            } else {
                assert_eq!(st.sum(lo, hi), Ok(naive_sum(&plain, lo, hi)));
            }
        }
        for lo in 0..n {
            for hi in lo..n {
                assert_eq!(st.sum(lo, hi), Ok(naive_sum(&plain, lo, hi)));
            }
        }
    }
}
