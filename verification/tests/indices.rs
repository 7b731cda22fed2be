use minitable::schema::{check_fields, extract_key};
use minitable::{Conflict, MultiIndex, Schema, UniqueIndex};

#[test]
fn unique_index_files_and_finds() {
    let mut index = UniqueIndex::new();
    assert_eq!(index.lookup(&vec![5]), None);
    assert!(!index.would_conflict(&vec![5]));
    assert_eq!(index.insert_if_absent(vec![5], 3), Ok(()));
    assert_eq!(index.lookup(&vec![5]), Some(3));
    assert!(index.would_conflict(&vec![5]));
    assert_eq!(index.lookup(&vec![6]), None);
    assert_eq!(index.lookup(&vec![5, 0]), None);
}

#[test]
fn unique_index_refuses_a_taken_key() {
    let mut index = UniqueIndex::new();
    assert_eq!(index.insert_if_absent(vec![1, 2], 10), Ok(()));
    assert_eq!(index.insert_if_absent(vec![1, 2], 11), Err(Conflict { holder: 10 }));
    assert_eq!(index.lookup(&vec![1, 2]), Some(10));
    assert_eq!(index.insert_if_absent(vec![2, 1], 11), Ok(()));
    assert_eq!(index.lookup(&vec![2, 1]), Some(11));
}

#[test]
fn unique_index_remove_and_clear() {
    let mut index = UniqueIndex::new();
    assert_eq!(index.insert_if_absent(vec![1], 0), Ok(()));
    assert_eq!(index.insert_if_absent(vec![2], 1), Ok(()));
    index.remove(&vec![1]);
    assert_eq!(index.lookup(&vec![1]), None);
    assert_eq!(index.lookup(&vec![2]), Some(1));
    index.remove(&vec![1]);
    assert_eq!(index.lookup(&vec![2]), Some(1));
    assert_eq!(index.insert_if_absent(vec![1], 4), Ok(()));
    index.clear();
    assert_eq!(index.lookup(&vec![1]), None);
    assert_eq!(index.lookup(&vec![2]), None);
}

#[test]
fn multi_index_new_member_becomes_the_head() {
    let mut index = MultiIndex::new();
    assert_eq!(index.lookup(&vec![0]), Vec::<usize>::new());
    assert_eq!(index.count(&vec![0]), 0);
    index.insert(0, vec![0]);
    assert_eq!(index.lookup(&vec![0]), vec![0]);
    index.insert(2, vec![0]);
    assert_eq!(index.lookup(&vec![0]), vec![2, 0]);
    index.insert(3, vec![0]);
    assert_eq!(index.lookup(&vec![0]), vec![3, 2, 0]);
    index.insert(1, vec![1]);
    assert_eq!(index.lookup(&vec![0]), vec![3, 2, 0]);
    assert_eq!(index.lookup(&vec![1]), vec![1]);
    assert_eq!(index.count(&vec![0]), 3);
    assert_eq!(index.count(&vec![1]), 1);
    assert_eq!(index.count(&vec![2]), 0);
}

#[test]
fn multi_index_removing_the_head_promotes_its_successor() {
    let mut index = MultiIndex::new();
    index.insert(0, vec![9]);
    index.insert(1, vec![9]);
    index.insert(2, vec![9]);
    index.insert(3, vec![9]);
    assert_eq!(index.lookup(&vec![9]), vec![3, 2, 1, 0]);
    index.remove(3, vec![9]);
    assert_eq!(index.lookup(&vec![9]), vec![2, 1, 0]);
    assert_eq!(index.count(&vec![9]), 3);
}

#[test]
fn multi_index_removing_an_inner_member_keeps_the_head() {
    let mut index = MultiIndex::new();
    index.insert(0, vec![9]);
    index.insert(1, vec![9]);
    index.insert(2, vec![9]);
    index.insert(3, vec![9]);
    index.remove(1, vec![9]);
    assert_eq!(index.lookup(&vec![9]), vec![3, 2, 0]);
    index.remove(0, vec![9]);
    assert_eq!(index.lookup(&vec![9]), vec![3, 2]);
    index.remove(2, vec![9]);
    assert_eq!(index.lookup(&vec![9]), vec![3]);
    assert_eq!(index.count(&vec![9]), 1);
}

#[test]
fn multi_index_sole_member_takes_the_bucket_with_it() {
    let mut index = MultiIndex::new();
    index.insert(4, vec![1, 1]);
    index.insert(5, vec![2, 2]);
    index.remove(4, vec![1, 1]);
    assert_eq!(index.lookup(&vec![1, 1]), Vec::<usize>::new());
    assert_eq!(index.count(&vec![1, 1]), 0);
    assert_eq!(index.lookup(&vec![2, 2]), vec![5]);
    index.insert(4, vec![2, 2]);
    assert_eq!(index.lookup(&vec![2, 2]), vec![4, 5]);
}

#[test]
fn multi_index_pair_unlinks_to_a_self_loop() {
    let mut index = MultiIndex::new();
    index.insert(0, vec![3]);
    index.insert(1, vec![3]);
    index.remove(0, vec![3]);
    assert_eq!(index.lookup(&vec![3]), vec![1]);
    index.insert(0, vec![3]);
    index.insert(2, vec![3]);
    assert_eq!(index.lookup(&vec![3]), vec![2, 0, 1]);
}

#[test]
fn multi_index_clear_drops_every_bucket() {
    let mut index = MultiIndex::new();
    index.insert(0, vec![3]);
    index.insert(1, vec![4]);
    index.clear();
    assert_eq!(index.lookup(&vec![3]), Vec::<usize>::new());
    assert_eq!(index.count(&vec![4]), 0);
    index.insert(0, vec![4]);
    assert_eq!(index.lookup(&vec![4]), vec![0]);
}

#[test]
fn key_is_the_indexed_fields_in_declared_order() {
    let record = vec![10, 20, 30, 40];
    assert_eq!(extract_key(&record, &vec![2, 0]), vec![30, 10]);
    assert_eq!(extract_key(&record, &vec![3]), vec![40]);
    assert_eq!(extract_key(&record, &vec![1, 1]), vec![20, 20]);
    assert_eq!(extract_key(&record, &vec![]), Vec::<u64>::new());
}

#[test]
fn fields_must_lie_within_the_record() {
    assert!(check_fields(&vec![0, 2, 1], 3));
    assert!(!check_fields(&vec![0, 3], 3));
    assert!(check_fields(&vec![], 0));
    assert!(!check_fields(&vec![0], 0));
}

#[test]
fn schema_numbers_indices_by_kind() {
    let mut schema = Schema::new(3);
    assert_eq!(schema.field_count(), 3);
    assert_eq!(schema.add_index(vec![0, 1], true), Some(0));
    assert_eq!(schema.add_index(vec![2], false), Some(0));
    assert_eq!(schema.add_index(vec![1], false), Some(1));
    assert_eq!(schema.add_index(vec![2, 0], true), Some(1));
    assert_eq!(schema.unique_count(), 2);
    assert_eq!(schema.multi_count(), 2);
    assert_eq!(schema.unique_index(1), &vec![2, 0]);
    assert_eq!(schema.multi_index(0), &vec![2]);
}

#[test]
fn schema_refuses_a_field_no_record_has() {
    let mut schema = Schema::new(2);
    assert_eq!(schema.add_index(vec![0, 2], false), None);
    assert_eq!(schema.add_index(vec![2], true), None);
    assert_eq!(schema.unique_count(), 0);
    assert_eq!(schema.multi_count(), 0);
    assert_eq!(schema.add_index(vec![1], true), Some(0));
}

#[test]
fn multi_index_drain_empties_one_bucket() {
    let mut index = MultiIndex::new();
    index.insert(0, vec![3]);
    index.insert(1, vec![4]);
    index.insert(2, vec![3]);
    index.insert(5, vec![3]);
    assert_eq!(index.drain(&vec![3]), vec![5, 2, 0]);
    assert_eq!(index.lookup(&vec![3]), Vec::<usize>::new());
    assert_eq!(index.count(&vec![3]), 0);
    assert_eq!(index.lookup(&vec![4]), vec![1]);
    assert_eq!(index.drain(&vec![3]), Vec::<usize>::new());
    index.insert(2, vec![3]);
    index.insert(0, vec![4]);
    assert_eq!(index.lookup(&vec![3]), vec![2]);
    assert_eq!(index.lookup(&vec![4]), vec![0, 1]);
}
