use arith_coder::sum_tree::SumTree;

#[test]
fn test_tree() {
    let mut tree = SumTree::new(8);
    tree.increment(0, 10);
    tree.increment(1, 10);
    tree.increment(2, 10);
    tree.increment(7, 1);

    assert!(tree.get_before(0) == 0);
    assert!(tree.get_before(0) + tree.get(0) == 10);
    assert!(tree.get_before(1) == 10);
    assert!(tree.get_before(2) == 20);
    assert!(tree.get_before(3) == 30);
    assert!(tree.get_before(7) == 30);

    assert!(tree.get_index(0) == 0);
    assert!(tree.get_index(1) == 0);
    assert!(tree.get_index(9) == 0);
    assert!(tree.get_index(10) == 1);
    assert!(tree.get_index(29) == 2);
    assert!(tree.get_index(30) == 7);
}

#[test]
fn test_tree_total() {
    let mut tree = SumTree::new(8);
    assert_eq!(tree.get_total(), 0);
    tree.increment(3, 5);
    tree.increment(5, 7);
    assert_eq!(tree.get_total(), 12);
    assert_eq!(tree.get(3), 5);
    assert_eq!(tree.get(5), 7);
    assert_eq!(tree.get(4), 0);
}

// One update moves exactly one bucket and the total, by exactly the
// increment.
#[test]
fn test_increment_moves_one_bucket() {
    let mut tree = SumTree::new(8);
    for i in 0..8u32 {
        tree.increment(i, i + 1);
    }
    let before: Vec<u32> = (0..8usize).map(|i| tree.get(i)).collect();
    let total_before = tree.get_total();
    tree.increment(4, 9);
    for i in 0..8usize {
        if i == 4 {
            assert_eq!(tree.get(i), before[i] + 9);
        } else {
            assert_eq!(tree.get(i), before[i]);
        }
    }
    assert_eq!(tree.get_total(), total_before + 9);
}

// Inverse lookup lands in the bucket whose cumulative range contains the
// value.
#[test]
fn test_lookup_in_range() {
    let mut tree = SumTree::new(16);
    for i in 0..16u32 {
        tree.increment(i, 3 * i + 1);
    }
    let total = tree.get_total();
    for v in 0..total {
        let s = tree.get_index(v);
        let before = tree.get_before(s);
        assert!(before <= v);
        assert!(v < before + tree.get(s));
    }
}

// A tree whose bucket count is not a power of two still answers over all
// its buckets.
#[test]
fn test_tree_odd_bucket_count() {
    let mut tree = SumTree::new(5);
    tree.increment(0, 2);
    tree.increment(4, 3);
    assert_eq!(tree.get_total(), 5);
    assert_eq!(tree.get_before(4), 2);
    assert_eq!(tree.get_index(4), 4);
}
