use red::{Column, DataHandler, DataType, Database, DbError, FileStorage, Query, Record, Table};

fn users_table() -> Table {
    let database = Database::new("customer_01", FileStorage::new("tests/workdir/db_root_02"));
    let mut table = Table::new("users", Box::new(database));
    table.add_column(Column::new("id", DataType::Integer, true, false).unwrap());
    table.add_column(Column::new("name", DataType::Text(255), false, true).unwrap());
    table
}

fn john(table: &Table) -> Record {
    let values = vec![
        (Column::new("id", DataType::Integer, true, false).unwrap(), Some("7".to_string())),
        (
            Column::new("name", DataType::Text(255), false, true).unwrap(),
            Some("John Doe".to_string()),
        ),
    ];
    Record::new(table.clone(), values)
}

#[test]
fn insert_then_insert_again_is_refused() {
    let table = users_table();
    let result = DataHandler::insert(&table, Vec::new(), john(&table));
    let (count, rows) = result.unwrap();
    assert_eq!(count, 1);
    assert_eq!(rows.len(), 1);
    assert!(rows[0] == john(&table));
    let again = DataHandler::insert(&table, rows, john(&table));
    assert!(matches!(again, Err(DbError::AlreadyExists)));
}

#[test]
fn insert_keeps_earlier_rows_first() {
    let table = users_table();
    let (_, rows) = DataHandler::insert(&table, Vec::new(), john(&table)).unwrap();
    let mut jane = john(&table);
    let mut values = jane.get_values().clone();
    values[0].1 = Some("8".to_string());
    values[1].1 = None;
    jane.set_values(values);
    let (count, rows) = DataHandler::insert(&table, rows, jane).unwrap();
    assert_eq!(count, 1);
    assert_eq!(rows.len(), 2);
    assert_eq!(rows[0].get_values()[0].1, Some("7".to_string()));
    assert_eq!(rows[1].get_values()[1].1, None);
}

#[test]
fn missing_value_for_non_nullable_column_is_a_violation() {
    let table = users_table();
    let values = vec![
        (Column::new("id", DataType::Integer, true, false).unwrap(), None),
        (Column::new("name", DataType::Text(255), false, true).unwrap(), Some("x".to_string())),
    ];
    let record = Record::new(table.clone(), values);
    assert!(matches!(DataHandler::check_record(&table, &record), Err(DbError::SchemaViolation)));
    assert!(matches!(DataHandler::insert(&table, Vec::new(), record), Err(DbError::SchemaViolation)));
}

#[test]
fn mismatches_are_violations() {
    let table = users_table();
    // wrong type
    let values = vec![
        (Column::new("id", DataType::Real, true, false).unwrap(), Some("7".to_string())),
        (Column::new("name", DataType::Text(255), false, true).unwrap(), None),
    ];
    let record = Record::new(table.clone(), values);
    assert!(matches!(DataHandler::check_record(&table, &record), Err(DbError::SchemaViolation)));
    // wrong name
    let values = vec![
        (Column::new("key", DataType::Integer, true, false).unwrap(), Some("7".to_string())),
        (Column::new("name", DataType::Text(255), false, true).unwrap(), None),
    ];
    let record = Record::new(table.clone(), values);
    assert!(matches!(DataHandler::check_record(&table, &record), Err(DbError::SchemaViolation)));
    // too few values
    let values = vec![(Column::new("id", DataType::Integer, true, false).unwrap(), Some("7".to_string()))];
    let record = Record::new(table.clone(), values);
    assert!(matches!(DataHandler::check_record(&table, &record), Err(DbError::SchemaViolation)));
    // other table name
    let mut other = table.clone();
    other.set_name("people");
    let record = john(&other);
    assert!(matches!(DataHandler::check_record(&table, &record), Err(DbError::SchemaViolation)));
    // a good one
    assert!(DataHandler::check_record(&table, &john(&table)).is_ok());
}

#[test]
fn own_table_types_are_not_checked_against_values() {
    let descriptor = users_table();
    let database = Database::new("customer_01", FileStorage::new("tests/workdir/db_root_02"));
    let mut own = Table::new("users", Box::new(database));
    own.add_column(Column::new("id", DataType::Blob, false, true).unwrap());
    own.add_column(Column::new("name", DataType::Blob, false, true).unwrap());
    let record = john(&own);
    assert!(DataHandler::check_record(&descriptor, &record).is_ok());
    let (count, _) = DataHandler::insert(&descriptor, Vec::new(), record).unwrap();
    assert_eq!(count, 1);
    // the count of the record's own table still has to agree
    own.remove_column("name");
    assert!(matches!(DataHandler::check_record(&descriptor, &john(&own)), Err(DbError::SchemaViolation)));
}

#[test]
fn records_compare_by_table_name_and_values() {
    let table = users_table();
    let a = john(&table);
    let b = john(&table);
    assert!(a == b);
    let mut renamed = table.clone();
    renamed.set_name("people");
    let mut c = john(&table);
    c.set_table(renamed);
    assert!(a != c);
    let mut d = john(&table);
    d.set_values(Vec::new());
    assert!(a != d);
    let copy = a.clone();
    assert!(copy == a);
    assert_eq!(copy.get_table().get_name(), "users");
}

#[test]
fn select_update_delete_are_unsupported() {
    let mut handler = DataHandler::new_from_path("tests/workdir".to_string());
    assert_eq!(handler.get_storage().get_root_dir(), "tests/workdir");
    assert!(matches!(handler.select(Query::new("select")), Err(DbError::Unsupported)));
    let table = users_table();
    assert!(matches!(handler.update(john(&table), Query::new("update")), Err(DbError::Unsupported)));
    assert!(matches!(handler.delete(Query::new("delete")), Err(DbError::Unsupported)));
    let other = DataHandler::new_from_storage(FileStorage::new("elsewhere"));
    assert_eq!(other.get_storage().get_root_dir(), "elsewhere");
}

#[test]
fn result_set_holds_records_in_order() {
    let table = users_table();
    let mut set = red::ResultSet::default();
    assert!(set.get_records().is_empty());
    set.add_record(john(&table));
    assert_eq!(set.get_records().len(), 1);
    set.set_records(Vec::new());
    assert!(set.get_records().is_empty());
    let set = red::ResultSet::new(vec![john(&table), john(&table)]);
    assert_eq!(set.get_records().len(), 2);
}
