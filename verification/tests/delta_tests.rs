use gossip_glomers::delta::DeltaTracker;
use gossip_glomers::store::{to_seq, BroadcastStore};

fn ids(names: &[&str]) -> Vec<String> {
    names.iter().map(|s| String::from(*s)).collect()
}

#[test]
fn fresh_tracker_owes_everything() {
    let tracker = DeltaTracker::new(ids(&["n1", "n2"]));
    let mut store = BroadcastStore::new();
    store.insert(1);
    store.insert(2);
    let pending = tracker.pending_for(&store, &String::from("n1")).unwrap();
    assert_eq!(pending, vec![1, 2]);
}

#[test]
fn pending_for_stranger_is_nothing() {
    let tracker = DeltaTracker::new(ids(&["n1"]));
    let store = BroadcastStore::new();
    assert!(tracker.pending_for(&store, &String::from("n9")).is_none());
}

#[test]
fn delta_empty_after_record_sent() {
    // Immediately after record_sent with the pending delta, the delta is
    // empty: nothing more is owed until the store grows.
    let mut tracker = DeltaTracker::new(ids(&["n1", "n2"]));
    let mut store = BroadcastStore::new();
    store.insert(1);
    store.insert(2);
    let n1 = String::from("n1");
    let pending = tracker.pending_for(&store, &n1).unwrap();
    tracker.record_sent(&n1, &pending);
    assert_eq!(tracker.pending_for(&store, &n1).unwrap(), Vec::<u64>::new());
    // The other neighbour's delta is untouched.
    assert_eq!(tracker.pending_for(&store, &String::from("n2")).unwrap(), vec![1, 2]);
    // New values make the delta non-empty again, holding only the news.
    store.insert(3);
    assert_eq!(tracker.pending_for(&store, &n1).unwrap(), vec![3]);
}

#[test]
fn received_values_join_store_and_known_set() {
    let mut tracker = DeltaTracker::new(ids(&["n1", "n2"]));
    let mut store = BroadcastStore::new();
    store.insert(1);
    let n1 = String::from("n1");
    tracker.record_received_from(&mut store, &n1, &vec![2, 3]);
    // The store learned the values.
    assert_eq!(to_seq(&store), vec![1, 2, 3]);
    // The sender is known to hold what it sent, so only older values are
    // still owed to it.
    assert_eq!(tracker.pending_for(&store, &n1).unwrap(), vec![1]);
    // The other neighbour is owed everything.
    assert_eq!(tracker.pending_for(&store, &String::from("n2")).unwrap(), vec![1, 2, 3]);
}
