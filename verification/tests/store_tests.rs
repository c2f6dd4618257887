use gossip_glomers::store::{to_seq, BroadcastStore};

#[test]
fn new_store_is_empty() {
    let store = BroadcastStore::new();
    assert_eq!(store.len(), 0);
    assert_eq!(to_seq(&store), Vec::<u64>::new());
    assert!(!store.contains(1));
}

#[test]
fn insert_keeps_first_seen_order() {
    let mut store = BroadcastStore::new();
    store.insert(3);
    store.insert(1);
    store.insert(2);
    assert_eq!(to_seq(&store), vec![3, 1, 2]);
    assert!(store.contains(1));
    assert!(!store.contains(4));
}

#[test]
fn insert_is_idempotent() {
    let mut store = BroadcastStore::new();
    store.insert(5);
    store.insert(5);
    assert_eq!(to_seq(&store), vec![5]);
    assert_eq!(store.len(), 1);
}

#[test]
fn merge_appends_only_new_values() {
    let mut store = BroadcastStore::new();
    store.insert(1);
    store.insert(2);
    store.merge(&vec![2, 3, 4]);
    assert_eq!(to_seq(&store), vec![1, 2, 3, 4]);
}

#[test]
fn merge_skips_duplicates_within_payload() {
    let mut store = BroadcastStore::new();
    store.merge(&vec![7, 7, 8, 7]);
    assert_eq!(to_seq(&store), vec![7, 8]);
}

#[test]
fn merge_twice_equals_merge_once() {
    // Set union is idempotent: absorbing the same gossip payload twice
    // leaves the store exactly as absorbing it once.
    let payload = vec![10, 20, 30];
    let mut once = BroadcastStore::new();
    once.insert(20);
    once.insert(99);
    let mut twice = BroadcastStore::new();
    twice.insert(20);
    twice.insert(99);
    once.merge(&payload);
    twice.merge(&payload);
    twice.merge(&payload);
    assert_eq!(to_seq(&once), to_seq(&twice));
    assert_eq!(to_seq(&once), vec![20, 99, 10, 30]);
}
