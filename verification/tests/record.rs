use tonbo::option::DbOption;
use tonbo::record::{
    project_row, project_value, size_of_cell, size_of_value, ProjectionMask, Record, Value,
};
use tonbo::stream::{size_of_entry, Entry};
use tonbo::timestamp::Timestamped;

fn row() -> Vec<Option<Value>> {
    vec![Some(Value::Bytes(b"id".to_vec())), Some(Value::U32(7)), Some(Value::Bool(true)), None]
}

#[test]
fn the_mask_of_everything_lets_every_leaf_through() {
    let mask = ProjectionMask::all();
    assert!(mask.leaf_included(0));
    assert!(mask.leaf_included(1_000_000));
    assert!(mask.column_included(0));
    assert_eq!(project_row(&row(), &mask), row());
    assert_eq!(project_value(&Some(row()), &mask), Some(row()));
    assert_eq!(project_value(&None, &mask), None);
}

#[test]
fn a_mask_of_leaves_lets_the_listed_ones_through() {
    let mask = ProjectionMask::leaves(6, &vec![0, 1, 2, 4, 9]);
    assert!(mask.leaf_included(0) && mask.leaf_included(1) && mask.leaf_included(2));
    assert!(!mask.leaf_included(3));
    assert!(mask.leaf_included(4));
    assert!(!mask.leaf_included(5));
    // An index beyond the leaves names nothing.
    assert!(!mask.leaf_included(9));
    // User column c is leaf c + 2.
    assert!(mask.column_included(0));
    assert!(!mask.column_included(1));
    assert!(mask.column_included(2));
    assert!(!mask.column_included(3));
    assert_eq!(
        project_row(&row(), &mask),
        vec![Some(Value::Bytes(b"id".to_vec())), None, Some(Value::Bool(true)), None]
    );
    assert_eq!(project_value(&None, &mask), None);
}

#[test]
fn the_empty_mask_blanks_every_column() {
    let mask = ProjectionMask::leaves(6, &Vec::new());
    assert_eq!(project_row(&row(), &mask), vec![None, None, None, None]);
    let none = ProjectionMask::leaves(0, &vec![0, 1]);
    assert!(!none.leaf_included(0));
    assert!(!none.column_included(0));
}

#[test]
fn projection_of_an_entry_keeps_key_and_tombstone() {
    let mask = ProjectionMask::leaves(6, &vec![3]);
    let entry = Entry::new(Timestamped::new(b"k".to_vec(), 4), Some(row()));
    let shown = entry.project(&mask);
    assert_eq!(shown.key, Timestamped::new(b"k".to_vec(), 4));
    assert_eq!(shown.value, Some(vec![None, Some(Value::U32(7)), None, None]));
    let gone = Entry::new(Timestamped::new(b"k".to_vec(), 5), None);
    assert!(gone.is_tombstone());
    assert_eq!(gone.project(&mask), gone);
    assert_eq!(gone.get(), None);
    assert_eq!(entry.get(), Some(&row()));
    assert_eq!(entry.key(), &b"k".to_vec());
    assert_eq!(entry.ts(), 4);
}

#[test]
fn sizes_are_those_of_the_byte_form() {
    assert_eq!(size_of_cell(&None), 1);
    assert_eq!(size_of_cell(&Some(Value::Bool(false))), 2);
    assert_eq!(size_of_cell(&Some(Value::U32(0))), 5);
    assert_eq!(size_of_cell(&Some(Value::Bytes(Vec::new()))), 9);
    assert_eq!(size_of_cell(&Some(Value::Bytes(vec![1, 2, 3]))), 12);
    assert_eq!(size_of_value(&None), 1);
    assert_eq!(size_of_value(&Some(Vec::new())), 9);
    // 9 for the row, then 11 + 5 + 2 + 1 for the cells.
    assert_eq!(size_of_value(&Some(row())), 28);
    // 8 + 1 + 4 for the key.
    assert_eq!(size_of_entry(&Timestamped::new(b"k".to_vec(), 0), &Some(row())), 41);
    assert_eq!(size_of_entry(&Timestamped::new(Vec::new(), 0), &None), 13);
}

#[test]
fn a_record_names_its_key() {
    let record = Record::new(b"id".to_vec(), row());
    assert_eq!(record.key(), &b"id".to_vec());
    assert_eq!(record.columns, row());
    assert_eq!(record.clone(), record);
}

#[test]
fn default_options() {
    let option = DbOption::new("path/to/db".to_string());
    assert_eq!(option.path, "path/to/db");
    assert_eq!(option.max_mem_table_size, 8 * 1024 * 1024);
    assert_eq!(option.immutable_chunk_num, 3);
    assert_eq!(option.major_threshold_with_sst_size, 10);
    assert_eq!(option.level_sst_magnification, 10);
    assert_eq!(option.max_sst_file_size, 24 * 1024 * 1024);
}
