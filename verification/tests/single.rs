use minitable::{Schema, Table};

fn sorted(mut ids: Vec<usize>) -> Vec<usize> {
    ids.sort();
    ids
}

/// A table of one-field records with a multi index on that field.
fn value_table() -> Table {
    let mut schema = Schema::new(1);
    assert_eq!(schema.add_index(vec![0], false), Some(0));
    Table::new(schema)
}

#[test]
pub fn test_remove() {
    let mut table = value_table();

    let a = table.insert(vec![0]);
    let _b = table.insert(vec![1]);
    let c = table.insert(vec![0]);
    let d = table.insert(vec![0]);

    assert_eq!(sorted(table.get_by_multi(0, &vec![0])), sorted(vec![a, d, c]));
    table.remove(d);
    assert_eq!(sorted(table.get_by_multi(0, &vec![0])), sorted(vec![a, c]));
    table.remove(c);
    assert_eq!(sorted(table.get_by_multi(0, &vec![0])), sorted(vec![a]));
    table.remove(a);
    assert_eq!(sorted(table.get_by_multi(0, &vec![0])), sorted(vec![]));
}

#[test]
pub fn test_remove_reinsert() {
    let mut table = value_table();

    let a = table.insert(vec![0]);
    let _b = table.insert(vec![1]);
    let c = table.insert(vec![0]);
    let d = table.insert(vec![0]);

    assert_eq!(sorted(table.get_by_multi(0, &vec![0])), sorted(vec![a, d, c]));
    let item = table.remove(c).unwrap();
    assert_eq!(table.remove(c), None);
    assert_eq!(sorted(table.get_by_multi(0, &vec![0])), sorted(vec![a, d]));
    assert_eq!(table.insert(item), c);
    assert_eq!(sorted(table.get_by_multi(0, &vec![0])), sorted(vec![a, d, c]));
}
