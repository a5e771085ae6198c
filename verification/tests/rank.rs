use oasis_simulation::rank::{top_k, RankKey};

fn key(primary: u64, secondary: u64, tiebreak: u64) -> RankKey {
    RankKey { primary, secondary, tiebreak }
}

#[test]
fn top_k_orders_lexicographically() {
    let keys = vec![key(1, 0, 0), key(5, 1, 3), key(5, 2, 9), key(5, 2, 4), key(0, 9, 0)];
    assert_eq!(top_k(&keys, 3), vec![3, 2, 1]);
    assert_eq!(top_k(&keys, 10), vec![3, 2, 1, 0, 4]);
    assert!(top_k(&keys, 0).is_empty());
}

#[test]
fn equal_keys_keep_their_order() {
    let keys = vec![key(1, 1, 1), key(1, 1, 1), key(1, 1, 1)];
    assert_eq!(top_k(&keys, 2), vec![0, 1]);
}
