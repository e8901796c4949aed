use threatflux_string_analysis::ranking::top_k;

#[test]
fn top_k_lists_the_largest_keys_first() {
    assert_eq!(top_k(&vec![5, 9, 1, 7], 2), vec![1, 3]);
    assert_eq!(top_k(&vec![5, 9, 1, 7], 4), vec![1, 3, 0, 2]);
    assert_eq!(top_k(&vec![5, 9, 1, 7], 10), vec![1, 3, 0, 2]);
}

#[test]
fn top_k_keeps_equal_keys_in_their_order() {
    assert_eq!(top_k(&vec![3, 3, 3], 2), vec![0, 1]);
    assert_eq!(top_k(&vec![1, 2, 2, 1, 2], 4), vec![1, 2, 4, 0]);
}

#[test]
fn top_k_of_nothing_is_empty() {
    assert_eq!(top_k(&vec![], 3), Vec::<usize>::new());
    assert_eq!(top_k(&vec![4, 2], 0), Vec::<usize>::new());
}

#[test]
fn top_k_agrees_with_a_stable_sort() {
    let mut keys: Vec<u64> = Vec::new();
    let mut x: u64 = 12345;
    for _ in 0..300 {
        x = x.wrapping_mul(6364136223846793005).wrapping_add(1442695040888963407);
        keys.push((x >> 33) % 40);
    }
    let mut order: Vec<usize> = (0..keys.len()).collect();
    order.sort_by(|a, b| keys[*b].cmp(&keys[*a]));
    for k in [0usize, 1, 7, 100, 300, 500] {
        let expected: Vec<usize> = order.iter().cloned().take(k).collect();
        assert_eq!(top_k(&keys, k), expected);
    }
}
