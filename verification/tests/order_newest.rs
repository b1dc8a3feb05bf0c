use mailfind::order::newest_first;

#[test]
fn empty_keys_give_empty_order() {
    assert_eq!(newest_first(&vec![]), Vec::<usize>::new());
}

#[test]
fn largest_key_first() {
    assert_eq!(newest_first(&vec![10, 30, 20]), vec![1, 2, 0]);
}

#[test]
fn equal_keys_keep_their_order() {
    assert_eq!(newest_first(&vec![3, 5, 3, 9, 5, 3]), vec![3, 1, 4, 0, 2, 5]);
}

#[test]
fn extreme_keys() {
    assert_eq!(newest_first(&vec![0, u64::MAX, 0, u64::MAX]), vec![1, 3, 0, 2]);
}

#[test]
fn ordering_sorted_keys_is_identity() {
    let keys = vec![7, 2, 9, 2, 4];
    let order = newest_first(&keys);
    let sorted: Vec<u64> = order.iter().map(|&i| keys[i]).collect();
    assert_eq!(newest_first(&sorted), (0..keys.len()).collect::<Vec<_>>());
}
