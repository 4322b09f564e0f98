use lazy_segtree::segtree::{Segtree, SENTINEL};

#[test]
fn create_four_item() {
    let arr = vec![-1, 7, 1, 3];
    let mut st = Segtree::new(&arr);

    st.create();

    assert_eq!(vec![10, 6, 4, -1, 7, 1, 3], st.st);
}

#[test]
fn create_three_item() {
    let arr = vec![-1, 7, 1];
    let mut st = Segtree::new(&arr);

    st.create();

    assert_eq!(
        vec![7, 6, 1, -1, 7, i64::from(std::i32::MAX), i64::from(std::i32::MAX)],
        st.st
    );
}

#[test]
fn create_two_item() {
    let arr = vec![-1, 7];
    let mut st = Segtree::new(&arr);

    st.create();

    assert_eq!(vec![6, -1, 7], st.st);
}

#[test]
fn create_one_item() {
    let arr = vec![-1];
    let mut st = Segtree::new(&arr);

    st.create();

    assert_eq!(vec![-1], st.st);
}

#[test]
fn sentinel_is_largest_i32() {
    assert_eq!(SENTINEL, 2147483647);
    assert_eq!(SENTINEL, i64::from(i32::MAX));
}

#[test]
fn new_allocates_complete_tree() {
    let expected: [(usize, usize); 9] =
        [(1, 1), (2, 3), (3, 7), (4, 7), (5, 15), (8, 15), (9, 31), (16, 31), (17, 63)];
    for (n, len) in expected {
        let arr = vec![0; n];
        let st = Segtree::new(&arr);
        assert_eq!(st.st.len(), len);
        assert_eq!(st.lazy.len(), len);
    }
}

#[test]
fn new_fills_sentinel_and_no_pending() {
    let arr = vec![4, 5, 6, 7, 8];
    let st = Segtree::new(&arr);
    assert_eq!(st.st, vec![SENTINEL; 15]);
    assert_eq!(st.lazy, vec![None; 15]);
    assert_eq!(st.nums, &arr);
}

#[test]
fn create_five_item_layout() {
    let arr = vec![4, 5, 6, 7, 8];
    let mut st = Segtree::new(&arr);
    st.create();
    let m = SENTINEL;
    // root [0,4]; children [0,2] and [3,4]; [0,2] splits into [0,1] and [2,2].
    assert_eq!(
        st.st,
        vec![30, 15, 15, 9, 6, 7, 8, 4, 5, m, m, m, m, m, m]
    );
    assert_eq!(st.lazy, vec![None; 15]);
}

#[test]
fn create_leaves_backing_array_alone() {
    let arr = vec![3, -3, 9];
    let mut st = Segtree::new(&arr);
    st.create();
    assert_eq!(arr, vec![3, -3, 9]);
    assert_eq!(st.nums, &vec![3, -3, 9]);
}

#[test]
fn create_twice_gives_same_tree() {
    let arr = vec![-1, 7, 1, 3, 12];
    let mut st = Segtree::new(&arr);
    st.create();
    let first = st.st.clone();
    st.create();
    assert_eq!(first, st.st);
    assert_eq!(st.sum(0, 4), Ok(22));
}

#[test]
fn create_after_queries_on_untouched_tree() {
    let arr = vec![2, 4, 6];
    let mut st = Segtree::new(&arr);
    st.create();
    assert_eq!(st.sum(1, 2), Ok(10));
    assert_eq!(st.lazy, vec![None; 7]);
    st.create();
    assert_eq!(st.sum(0, 2), Ok(12));
}

#[test]
fn build_total_equals_sum_of_all() {
    let arr = vec![5, -9, 14, 0, 33, -2, 8];
    let mut st = Segtree::new(&arr);
    st.create();
    let expected: i64 = arr.iter().map(|&x| i64::from(x)).sum();
    assert_eq!(expected, 49);
    assert_eq!(st.sum(0, 6), Ok(49));
    assert_eq!(st.st[0], 49);
}

#[test]
fn runner_returns_node_sum() {
    let arr = vec![-1, 7, 1, 3];
    let mut st = Segtree::new(&arr);
    assert_eq!(st.create_runner(2, 2, 3), 4);
    assert_eq!(st.st[2], 4);
    assert_eq!(st.st[5], 1);
    assert_eq!(st.st[6], 3);
    assert_eq!(st.st[0], SENTINEL);
    assert_eq!(st.st[1], SENTINEL);
}
