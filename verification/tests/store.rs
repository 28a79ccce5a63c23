use cdn_pls::store::CorrelationStore;

#[test]
fn insert_then_take_returns_reply() {
    let mut store = CorrelationStore::new();
    store.insert(10, 20);
    assert_eq!(store.take(10), Some(20));
    // A lookup does not remove the entry.
    assert_eq!(store.take(10), Some(20));
}

#[test]
fn remove_then_take_returns_nothing() {
    let mut store = CorrelationStore::new();
    store.insert(10, 20);
    store.remove(10);
    assert_eq!(store.take(10), None);
}

#[test]
fn remove_of_absent_id_is_a_no_op() {
    let mut store = CorrelationStore::new();
    store.insert(1, 2);
    store.remove(99);
    assert_eq!(store.take(1), Some(2));
    assert_eq!(store.len(), 1);
}

#[test]
fn inserts_on_distinct_keys_never_lose_an_entry() {
    let mut store = CorrelationStore::new();
    store.insert(1, 100);
    store.insert(2, 200);
    store.insert(3, 300);
    assert_eq!(store.take(1), Some(100));
    assert_eq!(store.take(2), Some(200));
    assert_eq!(store.take(3), Some(300));
    assert_eq!(store.len(), 3);
}

#[test]
fn insert_overwrites_stale_entry() {
    let mut store = CorrelationStore::new();
    store.insert(10, 20);
    store.insert(10, 30);
    assert_eq!(store.take(10), Some(30));
    assert_eq!(store.len(), 1);
}
