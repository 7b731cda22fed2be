use minitable::{InsertError, Schema, Table};

/// Records of three fields: a unique index on (0, 1), a unique index on (2),
/// and a multi index on (0).
fn ports() -> Table {
    let mut schema = Schema::new(3);
    assert_eq!(schema.add_index(vec![0, 1], true), Some(0));
    assert_eq!(schema.add_index(vec![2], true), Some(1));
    assert_eq!(schema.add_index(vec![0], false), Some(0));
    Table::new(schema)
}

#[test]
fn new_table_is_empty() {
    let table = ports();
    assert_eq!(table.len(), 0);
    assert!(!table.contains(0));
    assert_eq!(table.get(0), None);
    assert_eq!(table.get_by_unique(0, &vec![0, 0]), None);
    assert_eq!(table.get_by_multi(0, &vec![0]), Vec::<usize>::new());
    assert_eq!(table.schema().field_count(), 3);
    assert_eq!(table.schema().unique_count(), 2);
    assert_eq!(table.schema().multi_count(), 1);
}

#[test]
fn table_without_indices_is_a_plain_store() {
    let mut table = Table::new(Schema::new(2));
    assert_eq!(table.try_insert(vec![1, 2]), Ok(0));
    assert_eq!(table.try_insert(vec![1, 2]), Ok(1));
    assert_eq!(table.len(), 2);
    assert_eq!(table.record(1), &vec![1, 2]);
    assert_eq!(table.remove(0), Some(vec![1, 2]));
    assert_eq!(table.try_insert(vec![3, 4]), Ok(0));
}

#[test]
fn insert_files_the_record_in_every_index() {
    let mut table = ports();
    let a = table.insert(vec![1, 0, 100]);
    let b = table.insert(vec![1, 1, 101]);
    let c = table.insert(vec![2, 0, 102]);
    assert_eq!((a, b, c), (0, 1, 2));
    assert!(table.contains(b));
    assert_eq!(table.get(c), Some(&vec![2, 0, 102]));
    assert_eq!(table.get_by_unique(0, &vec![1, 1]), Some(b));
    assert_eq!(table.get_by_unique(0, &vec![2, 0]), Some(c));
    assert_eq!(table.get_by_unique(0, &vec![2, 1]), None);
    assert_eq!(table.get_by_unique(1, &vec![100]), Some(a));
    assert_eq!(table.get_by_unique(1, &vec![1]), None);
    assert_eq!(table.get_by_multi(0, &vec![1]), vec![b, a]);
    assert_eq!(table.get_by_multi(0, &vec![2]), vec![c]);
}

#[test]
fn try_insert_refuses_a_record_of_the_wrong_size() {
    let mut table = ports();
    assert_eq!(table.try_insert(vec![1, 2]), Err(InsertError::FieldCount));
    assert_eq!(table.try_insert(vec![1, 2, 3, 4]), Err(InsertError::FieldCount));
    assert_eq!(table.try_insert(vec![]), Err(InsertError::FieldCount));
    assert_eq!(table.len(), 0);
    assert_eq!(table.try_insert(vec![1, 2, 3]), Ok(0));
}

#[test]
fn conflict_in_a_later_unique_index_leaves_the_earlier_one_untouched() {
    let mut table = ports();
    let a = table.insert(vec![1, 0, 100]);
    assert_eq!(table.try_insert(vec![9, 9, 100]), Err(InsertError::UniquenessViolation));
    assert_eq!(table.len(), 1);
    assert_eq!(table.get_by_unique(0, &vec![9, 9]), None);
    assert_eq!(table.get_by_unique(1, &vec![100]), Some(a));
    assert_eq!(table.get_by_multi(0, &vec![9]), Vec::<usize>::new());
    assert_eq!(table.get(1), None);
    assert_eq!(table.try_insert(vec![1, 0, 7]), Err(InsertError::UniquenessViolation));
    assert_eq!(table.get_by_unique(1, &vec![7]), None);
    assert_eq!(table.try_insert(vec![9, 9, 7]), Ok(1));
    assert_eq!(table.get_by_unique(0, &vec![9, 9]), Some(1));
}

#[test]
fn remove_clears_the_record_from_every_index() {
    let mut table = ports();
    let a = table.insert(vec![1, 0, 100]);
    let b = table.insert(vec![1, 1, 101]);
    assert_eq!(table.remove(a), Some(vec![1, 0, 100]));
    assert!(!table.contains(a));
    assert_eq!(table.get_by_unique(0, &vec![1, 0]), None);
    assert_eq!(table.get_by_unique(1, &vec![100]), None);
    assert_eq!(table.get_by_multi(0, &vec![1]), vec![b]);
    assert_eq!(table.try_insert(vec![1, 0, 100]), Ok(a));
}

#[test]
fn remove_by_unique_returns_id_and_record() {
    let mut table = ports();
    let _a = table.insert(vec![1, 0, 100]);
    let b = table.insert(vec![1, 1, 101]);
    assert_eq!(table.remove_by_unique(1, &vec![101]), Some((b, vec![1, 1, 101])));
    assert_eq!(table.remove_by_unique(1, &vec![101]), None);
    assert_eq!(table.remove_by_unique(0, &vec![5, 5]), None);
    assert_eq!(table.remove_by_unique(7, &vec![100]), None);
    assert_eq!(table.len(), 1);
    assert_eq!(table.get_by_unique(0, &vec![1, 1]), None);
}

#[test]
fn drain_by_multi_hands_out_the_whole_bucket() {
    let mut table = ports();
    let a = table.insert(vec![1, 0, 100]);
    let b = table.insert(vec![2, 0, 101]);
    let c = table.insert(vec![1, 1, 102]);
    let d = table.insert(vec![1, 2, 103]);
    let drained = table.drain_by_multi(0, &vec![1]);
    assert_eq!(
        drained,
        vec![(d, vec![1, 2, 103]), (c, vec![1, 1, 102]), (a, vec![1, 0, 100])]
    );
    assert_eq!(table.len(), 1);
    assert_eq!(table.get_by_multi(0, &vec![1]), Vec::<usize>::new());
    assert_eq!(table.count_by_multi(0, &vec![1]), 0);
    assert_eq!(table.get_by_multi(0, &vec![2]), vec![b]);
    assert_eq!(table.get_by_unique(1, &vec![102]), None);
    assert_eq!(table.get_by_unique(1, &vec![101]), Some(b));
    assert_eq!(table.drain_by_multi(0, &vec![1]), Vec::<(usize, Vec<u64>)>::new());
    assert_eq!(table.drain_by_multi(3, &vec![2]), Vec::<(usize, Vec<u64>)>::new());
    assert_eq!(table.len(), 1);
}

#[test]
fn remove_by_multi_removes_every_match() {
    let mut table = ports();
    table.insert(vec![1, 0, 100]);
    let b = table.insert(vec![2, 0, 101]);
    table.insert(vec![1, 1, 102]);
    table.remove_by_multi(0, &vec![1]);
    assert_eq!(table.len(), 1);
    assert!(table.contains(b));
    assert_eq!(table.get_by_multi(0, &vec![1]), Vec::<usize>::new());
    table.remove_by_multi(0, &vec![5]);
    assert_eq!(table.len(), 1);
}

#[test]
fn lookups_with_an_unknown_index_number_find_nothing() {
    let mut table = ports();
    table.insert(vec![1, 0, 100]);
    assert_eq!(table.get_by_unique(2, &vec![100]), None);
    assert_eq!(table.get_by_multi(1, &vec![1]), Vec::<usize>::new());
    assert_eq!(table.count_by_multi(1, &vec![1]), 0);
}

#[test]
fn clear_empties_store_and_indices() {
    let mut table = ports();
    table.insert(vec![1, 0, 100]);
    table.insert(vec![1, 1, 101]);
    table.clear();
    assert_eq!(table.len(), 0);
    assert!(!table.contains(0));
    assert_eq!(table.get_by_unique(0, &vec![1, 0]), None);
    assert_eq!(table.get_by_unique(1, &vec![101]), None);
    assert_eq!(table.get_by_multi(0, &vec![1]), Vec::<usize>::new());
    assert_eq!(table.try_insert(vec![1, 0, 100]), Ok(0));
    assert_eq!(table.get_by_multi(0, &vec![1]), vec![0]);
}

#[test]
fn index_over_no_fields_groups_every_record() {
    let mut schema = Schema::new(1);
    assert_eq!(schema.add_index(vec![], false), Some(0));
    let mut table = Table::new(schema);
    let a = table.insert(vec![4]);
    let b = table.insert(vec![5]);
    assert_eq!(table.get_by_multi(0, &vec![]), vec![b, a]);
    assert_eq!(table.get_by_multi(0, &vec![4]), Vec::<usize>::new());
}

#[test]
fn extend_tries_every_record_in_turn() {
    let mut table = ports();
    let outs = table.extend(vec![
        vec![1, 0, 100],
        vec![1, 0, 101],
        vec![1, 1],
        vec![1, 1, 100],
        vec![1, 1, 101],
    ]);
    assert_eq!(
        outs,
        vec![
            Ok(0),
            Err(InsertError::UniquenessViolation),
            Err(InsertError::FieldCount),
            Err(InsertError::UniquenessViolation),
            Ok(1),
        ]
    );
    assert_eq!(table.len(), 2);
    assert_eq!(table.get(1), Some(&vec![1, 1, 101]));
    assert_eq!(table.get_by_multi(0, &vec![1]), vec![1, 0]);
    assert_eq!(table.extend(Vec::new()), Vec::new());
    assert_eq!(table.len(), 2);
}

#[test]
fn ids_lists_the_live_records_in_slot_order() {
    let mut table = ports();
    assert_eq!(table.ids(), Vec::<usize>::new());
    table.insert(vec![1, 0, 100]);
    table.insert(vec![1, 1, 101]);
    table.insert(vec![2, 0, 102]);
    table.remove(1);
    assert_eq!(table.ids(), vec![0, 2]);
    table.insert(vec![3, 0, 103]);
    assert_eq!(table.ids(), vec![0, 1, 2]);
}
