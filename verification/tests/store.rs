use minitable::RecordStore;

#[test]
fn store_starts_empty() {
    let store = RecordStore::new();
    assert_eq!(store.len(), 0);
    assert_eq!(store.vacant_id(), 0);
    assert!(!store.contains(0));
    assert_eq!(store.get(0), None);
}

#[test]
fn store_occupy_returns_the_announced_id() {
    let mut store = RecordStore::new();
    let announced = store.vacant_id();
    let id = store.occupy(vec![7, 8]);
    assert_eq!(id, announced);
    assert_eq!(id, 0);
    assert_eq!(store.vacant_id(), 1);
    assert_eq!(store.occupy(vec![9]), 1);
    assert_eq!(store.len(), 2);
    assert_eq!(store.get(0), Some(&vec![7, 8]));
    assert_eq!(store.get(1), Some(&vec![9]));
    assert!(store.contains(1));
    assert!(!store.contains(2));
}

#[test]
fn store_release_hands_the_record_out_once() {
    let mut store = RecordStore::new();
    let a = store.occupy(vec![1]);
    let b = store.occupy(vec![2]);
    assert_eq!(store.release(a), Some(vec![1]));
    assert_eq!(store.release(a), None);
    assert_eq!(store.len(), 1);
    assert!(!store.contains(a));
    assert_eq!(store.get(a), None);
    assert_eq!(store.get(b), Some(&vec![2]));
}

#[test]
fn store_release_of_unknown_id_changes_nothing() {
    let mut store = RecordStore::new();
    store.occupy(vec![1]);
    let announced = store.vacant_id();
    assert_eq!(store.release(17), None);
    assert_eq!(store.len(), 1);
    assert_eq!(store.vacant_id(), announced);
}

#[test]
fn store_reuses_the_most_recently_released_id_first() {
    let mut store = RecordStore::new();
    let a = store.occupy(vec![1]);
    let b = store.occupy(vec![2]);
    let c = store.occupy(vec![3]);
    store.release(a);
    store.release(c);
    assert_eq!(store.vacant_id(), c);
    assert_eq!(store.occupy(vec![4]), c);
    assert_eq!(store.vacant_id(), a);
    assert_eq!(store.occupy(vec![5]), a);
    assert_eq!(store.vacant_id(), 3);
    assert_eq!(store.get(b), Some(&vec![2]));
    assert_eq!(store.get(c), Some(&vec![4]));
    assert_eq!(store.get(a), Some(&vec![5]));
}

#[test]
fn store_clear_restarts_id_assignment() {
    let mut store = RecordStore::new();
    store.occupy(vec![1]);
    store.occupy(vec![2]);
    store.release(0);
    store.clear();
    assert_eq!(store.len(), 0);
    assert!(!store.contains(1));
    assert_eq!(store.vacant_id(), 0);
    assert_eq!(store.occupy(vec![3]), 0);
}

#[test]
fn store_lists_live_ids_in_ascending_order() {
    let mut store = RecordStore::new();
    assert_eq!(store.ids(), Vec::<usize>::new());
    store.occupy(vec![1]);
    store.occupy(vec![2]);
    store.occupy(vec![3]);
    store.occupy(vec![4]);
    store.release(2);
    store.release(0);
    assert_eq!(store.ids(), vec![1, 3]);
    store.occupy(vec![5]);
    assert_eq!(store.ids(), vec![0, 1, 3]);
}
