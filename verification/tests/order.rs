use squirreldisk::order::desc_order;

#[test]
fn desc_order_is_largest_first_and_stable() {
    assert_eq!(desc_order(&vec![3, 9, 3, 1, 9, 0]), vec![1, 4, 0, 2, 3, 5]);
    assert_eq!(desc_order(&vec![]), Vec::<usize>::new());
    assert_eq!(desc_order(&vec![7]), vec![0]);
    assert_eq!(desc_order(&vec![1, 2, 3, 4]), vec![3, 2, 1, 0]);
    assert_eq!(desc_order(&vec![5, 5, 5]), vec![0, 1, 2]);
}

#[test]
fn desc_order_of_many_keys_is_a_sorted_permutation() {
    let keys: Vec<u64> = (0..1000u64).map(|i| (i * 7919) % 101).collect();
    let order = desc_order(&keys);
    let mut seen = vec![false; keys.len()];
    for &p in &order {
        assert!(!seen[p]);
        seen[p] = true;
    }
    for w in order.windows(2) {
        let (a, b) = (w[0], w[1]);
        assert!(keys[a] > keys[b] || (keys[a] == keys[b] && a < b));
    }
}
