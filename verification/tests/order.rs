use astro_core::order::sorted_positions;

#[test]
fn positions_come_out_in_ascending_key_order() {
    let keys = vec![(1, 5, 0), (0, 9, 9), (1, 2, 7), (0, 9, 1)];
    assert_eq!(sorted_positions(&keys), vec![3, 1, 2, 0]);
}

#[test]
fn equal_keys_keep_the_order_they_were_given_in() {
    let keys = vec![(2, 0, 0), (1, 0, 0), (2, 0, 0), (1, 0, 0)];
    assert_eq!(sorted_positions(&keys), vec![1, 3, 0, 2]);
}

#[test]
fn nothing_to_sort_gives_nothing() {
    assert!(sorted_positions(&Vec::new()).is_empty());
}
