//! Tests of the table, database and executor layers: schema validation,
//! arity and column checks, and table-name uniqueness.
use sqlearn::database::Database;
use sqlearn::executor::{ColumnSet, Executor, Insertion, Selection};
use sqlearn::pager::Pager;
use sqlearn::schema::{Column, Schema};
use sqlearn::value::{DataType, TableValue};

fn int_col(name: &str, pk: bool) -> Column {
    Column::new(name, DataType::Int, pk)
}

#[test]
fn new_tables_should_not_have_duplicate_column_names() {
    let schema = Schema::new(
        "animals",
        vec![int_col("feet", true), int_col("feet", false)],
    );
    let result = Pager::new(schema, 64);
    assert_eq!(result.is_err(), true);
}

#[test]
fn table_rows_with_wrong_column_size_should_fail_to_be_inserted() {
    let schema = Schema::new(
        "animals",
        vec![int_col("feet", true), int_col("eyes", false)],
    );
    let mut table = sqlearn::table::Table::new(Pager::new(schema, 64).unwrap());
    let result = table.insert_row(vec![TableValue::Int(49)]);
    assert_eq!(result.is_err(), true);

    let names = vec!["feet".to_string(), "eyes".to_string(), "heart".to_string()];
    let values = vec![TableValue::Int(4), TableValue::Int(2), TableValue::Int(1)];
    let result = table.insert_row_with_named_columns(&names, values);
    assert_eq!(result.is_err(), true);
}

#[test]
fn table_rows_with_extraneous_column_name_should_fail_to_be_inserted() {
    let schema = Schema::new("animals", vec![int_col("feet", true)]);
    let mut table = sqlearn::table::Table::new(Pager::new(schema, 64).unwrap());
    let names = vec!["eyes".to_string()];
    let values = vec![TableValue::Int(2)];
    let result = table.insert_row_with_named_columns(&names, values);
    assert_eq!(result.is_err(), true);
}

#[test]
fn mod_rows_with_wrong_column_size_should_fail_to_be_inserted() {
    let schema = Schema::new(
        "animals",
        vec![int_col("feet", true), int_col("eyes", false)],
    );
    let mut ex = Executor::new(64);
    ex.add_table(schema).unwrap();
    let result = ex.insert(Insertion::new("animals", None, vec![TableValue::Int(49)]));
    assert_eq!(result.is_err(), true);

    let result = ex.insert(Insertion::new(
        "animals",
        Some(vec![
            "feet".to_string(),
            "eyes".to_string(),
            "heart".to_string(),
        ]),
        vec![TableValue::Int(4), TableValue::Int(2), TableValue::Int(1)],
    ));
    assert_eq!(result.is_err(), true);
}

#[test]
fn mod_rows_with_extraneous_column_name_should_fail_to_be_inserted() {
    let schema = Schema::new("animals", vec![int_col("feet", true)]);
    let mut ex = Executor::new(64);
    ex.add_table(schema).unwrap();
    let result = ex.insert(Insertion::new(
        "animals",
        Some(vec!["eyes".to_string()]),
        vec![TableValue::Int(2)],
    ));
    assert_eq!(result.is_err(), true);
}

#[test]
fn test_unique_table_constraint() {
    let table_name = "bank_accounts";
    let mut database = Database::new(64);
    database
        .create_table(Schema::new(table_name, vec![int_col("id", true)]))
        .expect("first table should be inserted");
    database
        .create_table(Schema::new(table_name, vec![int_col("id", true)]))
        .expect_err("table with the same name should not be inserted");
}

#[test]
fn executor_should_fail_to_create_a_table_if_one_with_same_name_already_exists() {
    let table_name = "apples";
    let mut executor = Executor::new(64);
    executor
        .add_table(Schema::new(table_name, vec![int_col("id", true)]))
        .unwrap();
    let result = executor.add_table(Schema::new(table_name, vec![int_col("id", true)]));
    assert_eq!(result.is_err(), true);
}

#[test]
fn executor_should_fail_to_insert_row_if_table_does_not_exist() {
    let table_name = "oranges".to_string();
    let mut executor = Executor::new(64);
    let result = executor.insert(Insertion::new(&table_name, None, vec![]));
    assert_eq!(result.is_err(), true);
}

#[test]
fn mod_should_fail_to_create_a_table_if_one_with_same_name_already_exists() {
    let table_name = "apples";
    let mut executor = Executor::new(64);
    executor
        .add_table(Schema::new(table_name, vec![int_col("id", true)]))
        .unwrap();
    let result = executor.add_table(Schema::new(table_name, vec![int_col("id", true)]));
    assert_eq!(result.is_err(), true);
}

#[test]
fn mod_should_fail_to_insert_row_if_table_does_not_exist() {
    let table_name = "oranges".to_string();
    let mut executor = Executor::new(64);
    let result = executor.insert(Insertion::new(&table_name, None, vec![]));
    assert_eq!(result.is_err(), true);
}

#[test]
fn should_fail_to_insert_row_if_row_has_more_columns_than_table() {
    let table_name = "peaches".to_string();
    let mut executor = Executor::new(64);
    executor
        .add_table(Schema::new(&table_name, vec![int_col("a", true)]))
        .unwrap();
    let result = executor.insert(Insertion::new(
        &table_name,
        None,
        vec![TableValue::Int(32), TableValue::Int(1337)],
    ));
    assert_eq!(result.is_err(), true);
}

#[test]
fn should_fail_to_insert_row_if_num_values_exceeds_num_column_names() {
    let table_name = "strawberries".to_string();
    let mut executor = Executor::new(64);
    executor
        .add_table(Schema::new(&table_name, vec![int_col("a", true)]))
        .unwrap();
    let result = executor.insert(Insertion::new(
        &table_name,
        Some(vec!["a".to_string()]),
        vec![TableValue::Int(32), TableValue::Int(1337)],
    ));
    assert_eq!(result.is_err(), true);
}

#[test]
fn should_fail_to_insert_row_if_one_of_the_column_names_does_not_exist() {
    let table_name = "mud".to_string();
    let mut executor = Executor::new(64);
    executor
        .add_table(Schema::new(&table_name, vec![int_col("z", true)]))
        .unwrap();
    let result = executor.insert(Insertion::new(
        &table_name,
        Some(vec!["a".to_string()]),
        vec![TableValue::Int(32)],
    ));
    assert_eq!(result.is_err(), true);
}

#[test]
fn select_yields_inserted_rows() {
    let mut ex = Executor::new(64);
    ex.add_table(Schema::new("apples", vec![int_col("slices", true)]))
        .unwrap();
    ex.insert(Insertion::new(
        "apples",
        Some(vec!["slices".to_string()]),
        vec![TableValue::Int(15)],
    ))
    .unwrap();
    let rows = ex
        .select(&Selection::new("apples", ColumnSet::WildCard))
        .unwrap();
    assert_eq!(rows, vec![vec![TableValue::Int(15)]]);
}

#[test]
fn duplicate_key_is_rejected_and_leaves_rows_unchanged() {
    let mut ex = Executor::new(64);
    ex.add_table(Schema::new("a", vec![int_col("id", true)]))
        .unwrap();
    ex.insert(Insertion::new("a", None, vec![TableValue::Int(7)]))
        .unwrap();
    let second = ex.insert(Insertion::new("a", None, vec![TableValue::Int(7)]));
    assert!(matches!(
        second,
        Err(sqlearn::ErrorKind::DuplicateKey(TableValue::Int(7)))
    ));
    let rows = ex
        .select(&Selection::new("a", ColumnSet::WildCard))
        .unwrap();
    assert_eq!(rows, vec![vec![TableValue::Int(7)]]);
}

#[test]
fn named_insert_fills_missing_columns_with_null() {
    let mut ex = Executor::new(64);
    ex.add_table(Schema::new(
        "t",
        vec![int_col("a", true), int_col("b", false)],
    ))
    .unwrap();
    ex.insert(Insertion::new(
        "t",
        Some(vec!["a".to_string()]),
        vec![TableValue::Int(5)],
    ))
    .unwrap();
    let rows = ex
        .select(&Selection::new("t", ColumnSet::WildCard))
        .unwrap();
    assert_eq!(rows, vec![vec![TableValue::Int(5), TableValue::Null]]);
}

#[test]
fn named_insert_without_primary_key_fails() {
    let mut ex = Executor::new(64);
    ex.add_table(Schema::new(
        "t",
        vec![int_col("a", true), int_col("b", false)],
    ))
    .unwrap();
    let r = ex.insert(Insertion::new(
        "t",
        Some(vec!["b".to_string()]),
        vec![TableValue::Int(5)],
    ));
    assert!(matches!(r, Err(sqlearn::ErrorKind::NullPrimaryKey)));
}

#[test]
fn page_too_small_rejects_table_creation() {
    let mut ex = Executor::new(16);
    let r = ex.add_table(Schema::new(
        "w",
        vec![Column::new("s", DataType::Char(1000), true)],
    ));
    assert!(matches!(r, Err(sqlearn::ErrorKind::PageTooSmall)));
    assert_eq!(ex.table_exists(&"w".to_string()), false);
}

#[test]
fn projection_selects_named_columns_in_order() {
    let mut ex = Executor::new(128);
    ex.add_table(Schema::new(
        "t",
        vec![int_col("a", true), int_col("b", false)],
    ))
    .unwrap();
    ex.insert(Insertion::new(
        "t",
        None,
        vec![TableValue::Int(1), TableValue::Int(2)],
    ))
    .unwrap();
    let rows = ex
        .select(&Selection::new(
            "t",
            ColumnSet::Names(vec!["b".to_string(), "a".to_string()]),
        ))
        .unwrap();
    assert_eq!(rows, vec![vec![TableValue::Int(2), TableValue::Int(1)]]);
    let missing = ex.select(&Selection::new(
        "t",
        ColumnSet::Names(vec!["c".to_string()]),
    ));
    assert!(matches!(missing, Err(sqlearn::ErrorKind::UnknownColumn)));
}

#[test]
fn reload_from_flushed_images_preserves_tables() {
    let mut ex = Executor::new(64);
    ex.add_table(Schema::new("x", vec![int_col("k", true)]))
        .unwrap();
    ex.insert(Insertion::new("x", None, vec![TableValue::Int(1)]))
        .unwrap();
    ex.insert(Insertion::new("x", None, vec![TableValue::Int(2)]))
        .unwrap();
    let (images, err) = ex.flush();
    assert!(err.is_none());
    assert_eq!(images.len(), 1);
    assert_eq!(images[0].0, "x");

    let mut db = Database::new(64);
    for (_, image) in &images {
        let pager = Pager::load_from(image).expect("a flushed image must reload");
        db.add_table(sqlearn::table::Table::new(pager)).unwrap();
    }
    let ex2 = Executor::with_database(db);
    let rows = ex2
        .select(&Selection::new("x", ColumnSet::WildCard))
        .unwrap();
    assert_eq!(rows, vec![vec![TableValue::Int(1)], vec![TableValue::Int(2)]]);
}

#[test]
fn table_names_are_keyed_case_insensitively() {
    let mut db = Database::new(64);
    db.create_table(Schema::new("Apples", vec![int_col("id", true)]))
        .unwrap();
    let clash = db.create_table(Schema::new("apples", vec![int_col("id", true)]));
    assert!(matches!(clash, Err(sqlearn::ErrorKind::TableExists)));
    // Lookup ignores case as well.
    let mut ex = Executor::with_database(db);
    assert_eq!(ex.table_exists(&"APPLES".to_string()), true);
    let r = ex.insert(Insertion::new("aPPles", None, vec![TableValue::Int(3)]));
    assert!(r.is_ok());
}

#[test]
fn mismatched_value_type_is_rejected() {
    let mut ex = Executor::new(64);
    ex.add_table(Schema::new("t", vec![int_col("a", true)]))
        .unwrap();
    let r = ex.insert(Insertion::new(
        "t",
        None,
        vec![TableValue::Boolean(true)],
    ));
    assert!(matches!(r, Err(sqlearn::ErrorKind::TypeMismatch)));
    let rows = ex
        .select(&Selection::new("t", ColumnSet::WildCard))
        .unwrap();
    assert_eq!(rows.len(), 0);
}

#[test]
fn page_too_small_is_reported_before_schema_rules() {
    // The scenario schema has no primary key; the size failure must still
    // come first.
    let mut ex = Executor::new(16);
    let r = ex.add_table(Schema::new(
        "w",
        vec![Column::new("s", DataType::Char(1000), false)],
    ));
    assert!(matches!(r, Err(sqlearn::ErrorKind::PageTooSmall)));
    assert_eq!(ex.table_exists(&"w".to_string()), false);
}

#[test]
fn flushed_images_carry_the_lower_cased_name() {
    let mut ex = Executor::new(64);
    ex.add_table(Schema::new("Apples", vec![int_col("id", true)]))
        .unwrap();
    let (images, err) = ex.flush();
    assert!(err.is_none());
    assert_eq!(images.len(), 1);
    assert_eq!(images[0].0, "apples");
}
