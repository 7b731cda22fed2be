use minitable::{InsertError, Schema, Table};

fn with_index(arity: usize, fields: Vec<usize>, unique: bool) -> Table {
    let mut schema = Schema::new(arity);
    assert_eq!(schema.add_index(fields, unique), Some(0));
    Table::new(schema)
}

#[test]
fn multi_index_bucket_shrinks_and_disappears() {
    let mut table = with_index(1, vec![0], false);
    let a = table.insert(vec![0]);
    let b = table.insert(vec![1]);
    let c = table.insert(vec![0]);
    let d = table.insert(vec![0]);
    assert_eq!((a, b, c, d), (0, 1, 2, 3));

    assert_eq!(table.get_by_multi(0, &vec![0]), vec![d, c, a]);
    assert_eq!(table.count_by_multi(0, &vec![0]), 3);

    assert_eq!(table.remove(d), Some(vec![0]));
    assert_eq!(table.get_by_multi(0, &vec![0]), vec![c, a]);
    assert_eq!(table.count_by_multi(0, &vec![0]), 2);

    assert_eq!(table.remove(c), Some(vec![0]));
    assert_eq!(table.remove(a), Some(vec![0]));
    assert_eq!(table.get_by_multi(0, &vec![0]), Vec::<usize>::new());
    assert_eq!(table.count_by_multi(0, &vec![0]), 0);
    assert_eq!(table.get_by_multi(0, &vec![1]), vec![b]);
    assert_eq!(table.len(), 1);
}

#[test]
fn unique_index_rejects_a_second_record_with_the_key() {
    let mut table = with_index(1, vec![0], true);
    let first = table.try_insert(vec![5]);
    assert_eq!(first, Ok(0));
    assert_eq!(table.try_insert(vec![5]), Err(InsertError::UniquenessViolation));
    assert_eq!(table.len(), 1);
    assert_eq!(table.get(0), Some(&vec![5]));
    assert_eq!(table.get(1), None);
    assert_eq!(table.get_by_unique(0, &vec![5]), Some(0));
    assert_eq!(table.try_insert(vec![6]), Ok(1));
}

#[test]
fn freed_id_is_reused_by_the_next_insert() {
    let mut table = with_index(1, vec![0], false);
    let a = table.insert(vec![1]);
    let b = table.insert(vec![2]);
    let c = table.insert(vec![3]);
    assert_eq!(table.remove(b), Some(vec![2]));
    assert_eq!(table.insert(vec![4]), b);
    assert_eq!(table.get(b), Some(&vec![4]));
    assert_eq!(table.get(a), Some(&vec![1]));
    assert_eq!(table.get(c), Some(&vec![3]));
    assert_eq!(table.insert(vec![5]), 3);
}

#[test]
fn removing_twice_finds_nothing_the_second_time() {
    let mut table = with_index(1, vec![0], true);
    let a = table.insert(vec![1]);
    let _b = table.insert(vec![2]);
    assert_eq!(table.len(), 2);
    assert_eq!(table.remove(a), Some(vec![1]));
    assert_eq!(table.len(), 1);
    assert_eq!(table.remove(a), None);
    assert_eq!(table.len(), 1);
    assert_eq!(table.remove(99), None);
    assert_eq!(table.len(), 1);
}

#[test]
fn remove_and_reinsert_restores_every_index() {
    let mut schema = Schema::new(3);
    assert_eq!(schema.add_index(vec![0], true), Some(0));
    assert_eq!(schema.add_index(vec![1], false), Some(0));
    assert_eq!(schema.add_index(vec![1, 2], false), Some(1));
    let mut table = Table::new(schema);
    let a = table.insert(vec![1, 7, 0]);
    let b = table.insert(vec![2, 7, 0]);
    let c = table.insert(vec![3, 7, 1]);

    let item = table.remove(b).unwrap();
    assert_eq!(item, vec![2, 7, 0]);
    assert_eq!(table.get_by_unique(0, &vec![2]), None);
    assert_eq!(table.get_by_multi(0, &vec![7]), vec![c, a]);
    assert_eq!(table.get_by_multi(1, &vec![7, 0]), vec![a]);

    assert_eq!(table.try_insert(item), Ok(b));
    assert_eq!(table.len(), 3);
    assert_eq!(table.get(b), Some(&vec![2, 7, 0]));
    assert_eq!(table.get_by_unique(0, &vec![1]), Some(a));
    assert_eq!(table.get_by_unique(0, &vec![2]), Some(b));
    assert_eq!(table.get_by_unique(0, &vec![3]), Some(c));
    let mut by_first = table.get_by_multi(0, &vec![7]);
    by_first.sort();
    assert_eq!(by_first, vec![a, b, c]);
    let mut by_both = table.get_by_multi(1, &vec![7, 0]);
    by_both.sort();
    assert_eq!(by_both, vec![a, b]);
    assert_eq!(table.get_by_multi(1, &vec![7, 1]), vec![c]);
}

#[test]
fn bucket_matches_a_separately_kept_count() {
    let mut table = with_index(2, vec![1], false);
    let mut expected: Vec<Vec<usize>> = vec![Vec::new(), Vec::new(), Vec::new()];
    let mut n: u64 = 0;
    while n < 30 {
        let key = (n * 7) % 3;
        let id = table.insert(vec![n, key]);
        expected[key as usize].push(id);
        n += 1;
    }
    let mut n: usize = 0;
    while n < 30 {
        if n % 4 == 1 {
            let item = table.remove(n).unwrap();
            let key = item[1] as usize;
            expected[key].retain(|id| *id != n);
        }
        n += 1;
    }
    let mut key: u64 = 0;
    while key < 3 {
        let mut got = table.get_by_multi(0, &vec![key]);
        assert_eq!(got.len(), expected[key as usize].len());
        assert_eq!(table.count_by_multi(0, &vec![key]), expected[key as usize].len());
        got.sort();
        assert_eq!(got, expected[key as usize]);
        key += 1;
    }
    assert_eq!(table.get_by_multi(0, &vec![3]), Vec::<usize>::new());
}
