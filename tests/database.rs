use red::ddl::TableOp;
use red::{Column, DataType, Database, DatabaseTrait, DbError, FileStorage, RootDatabase, Table};

const ROOT_DIR: &str = "tests/workdir";

fn users_table(database: &Database) -> Table {
    let mut table = Table::new("users", Box::new(database.clone()));
    table.add_column(Column::new("id", DataType::Integer, true, false).unwrap());
    table.add_column(Column::new("name", DataType::Text(255), false, true).unwrap());
    table
}

fn names(ops: &[TableOp]) -> Vec<String> {
    ops.iter()
        .map(|op| match op {
            TableOp::WriteDescriptor(f, _) => format!("write {}", f),
            TableOp::WriteEmptyRows(f) => format!("rows {}", f),
            TableOp::DeleteFile(f) => format!("delete {}", f),
        })
        .collect()
}

#[test]
fn test_database_abstraction_column_table() {
    let database = Database::new("customer", FileStorage::new(ROOT_DIR));
    let mut table = Table::new("users", Box::new(database));
    assert_eq!(table.get_name(), "users");
    assert_eq!(table.get_columns().len(), 0);

    let column_creation = Column::new("id", DataType::Integer, true, false);
    assert!(column_creation.is_ok());
    let column = column_creation.unwrap();
    table.add_column(column);
    assert_eq!(table.get_columns().len(), 1);
    assert_eq!(table.get_column_index("id").unwrap(), 0);

    let column_creation = Column::new("name", DataType::Text(255), false, false);
    assert!(column_creation.is_ok());
    let column = column_creation.unwrap();
    table.add_column(column);
    assert_eq!(table.get_columns().len(), 2);
    assert_eq!(table.get_column_index("name").unwrap(), 1);

    let column = table.get_column("id").unwrap();
    assert_eq!(column.get_name(), "id");
    assert_eq!(*column.get_data_type(), DataType::Integer);

    let column = table.get_column("name").unwrap();
    assert_eq!(column.get_name(), "name");
    assert_eq!(*column.get_data_type(), DataType::Text(255));

    table.remove_column("id");
    assert_eq!(table.get_columns().len(), 1);

    table.remove_column("name");
    assert_eq!(table.get_columns().len(), 0);

    // change table name
    table.set_name("my_users");
    assert_eq!(table.get_name(), "my_users");
}

#[test]
fn test_database_abstraction_column() {
    let column_creation = Column::new("id", DataType::Integer, true, false);
    assert!(column_creation.is_ok());
    let mut column = column_creation.unwrap();
    assert_eq!(column.get_name(), "id");
    assert_eq!(*column.get_data_type(), DataType::Integer);

    // change data type
    column.set_data_type(DataType::Text(12));
    assert_eq!(*column.get_data_type(), DataType::Text(12));
    assert_eq!(
        12,
        match column.get_data_type() {
            DataType::Text(size) => *size,
            _ => 0,
        }
    );

    // change name
    column.set_name("name");
    assert_eq!(column.get_name(), "name");
}

#[test]
fn primary_key_column_cannot_be_nullable() {
    let r = Column::new("id", DataType::Integer, true, true);
    assert!(matches!(r, Err(DbError::SchemaViolation)));
    let c = Column::new("id", DataType::Integer, false, true).unwrap();
    assert!(c.is_nullable());
    assert!(!c.is_primary_key());
}

#[test]
fn column_flags_and_equality() {
    let mut a = Column::new("id", DataType::Integer, true, false).unwrap();
    let b = Column::new("id", DataType::Integer, true, false).unwrap();
    assert!(a == b);
    a.set_primary_key(false);
    assert!(a != b);
    a.set_primary_key(true);
    a.set_nullable(true);
    assert!(a.is_nullable());
    assert!(a != b);
}

#[test]
fn remove_absent_column_changes_nothing() {
    let database = Database::new("customer", FileStorage::new(ROOT_DIR));
    let mut table = users_table(&database);
    table.remove_column("email");
    assert_eq!(table.get_columns().len(), 2);
    assert!(table.get_column("email").is_none());
    assert!(table.get_column_index("email").is_none());
}

#[test]
fn remove_column_takes_the_first_of_equal_names() {
    let database = Database::new("customer", FileStorage::new(ROOT_DIR));
    let mut table = Table::new("t", Box::new(database));
    table.add_column(Column::new("a", DataType::Integer, false, false).unwrap());
    table.add_column(Column::new("a", DataType::Blob, false, false).unwrap());
    assert_eq!(table.get_column_index("a"), Some(0));
    table.remove_column("a");
    assert_eq!(table.get_columns().len(), 1);
    assert_eq!(*table.get_column("a").unwrap().get_data_type(), DataType::Blob);
}

#[test]
fn table_keeps_its_database() {
    let database = Database::new("customer", FileStorage::new(ROOT_DIR));
    let mut table = Table::new("users", Box::new(database));
    assert_eq!(table.get_database().get_name(), "customer");
    assert_eq!(table.get_database().get_root_dir(), ROOT_DIR);
    table.set_database(Database::new("other", FileStorage::new("elsewhere")));
    assert_eq!(table.get_database().get_name(), "other");
    let copy = table.clone();
    assert_eq!(copy.get_name(), "users");
    assert_eq!(copy.get_database().get_root_dir(), "elsewhere");
}

#[test]
fn create_table_writes_descriptor_then_empty_rows() {
    let database = Database::new("customer", FileStorage::new(ROOT_DIR));
    let table = users_table(&database);
    let ops = database.create_table_ops(table).unwrap();
    assert_eq!(names(&ops), vec!["write users.desc", "rows users.data"]);
    match &ops[0] {
        TableOp::WriteDescriptor(_, t) => {
            assert_eq!(t.get_name(), "users");
            assert_eq!(t.get_columns().len(), 2);
        }
        _ => panic!("descriptor first"),
    }
}

#[test]
fn created_table_reloads_under_its_name() {
    let mut database = Database::new("customer", FileStorage::new(ROOT_DIR));
    let table = users_table(&database);
    let ops = database.create_table_ops(table).unwrap();
    let listing: Vec<String> = ops
        .iter()
        .map(|op| match op {
            TableOp::WriteDescriptor(f, _) | TableOp::WriteEmptyRows(f) | TableOp::DeleteFile(f) => f.clone(),
        })
        .collect();
    assert!(listing.iter().any(|f| f.ends_with(".desc")));
    assert!(listing.iter().any(|f| f.ends_with(".data")));
    database.load_tables(&listing);
    assert_eq!(database.get_tables().len(), 1);
    assert_eq!(database.get_tables()[0].get_name(), "users");
    assert_eq!(database.get_tables()[0].get_database().get_name(), "customer");
}

#[test]
fn create_table_without_columns_is_refused() {
    let database = Database::new("customer", FileStorage::new(ROOT_DIR));
    let table = Table::new("users", Box::new(database.clone()));
    assert!(matches!(database.create_table_ops(table), Err(DbError::SchemaViolation)));
}

#[test]
fn dropped_table_leaves_no_table_on_reload() {
    let mut database = Database::new("customer", FileStorage::new(ROOT_DIR));
    let table = users_table(&database);
    let mut listing = vec!["users.desc".to_string(), "users.data".to_string()];
    database.load_tables(&listing);
    assert_eq!(database.get_tables().len(), 1);
    let ops = database.drop_table_ops(&table, &listing).unwrap();
    assert_eq!(names(&ops), vec!["delete users.data", "delete users.desc"]);
    for op in &ops {
        if let TableOp::DeleteFile(f) = op {
            listing.retain(|g| g != f);
        }
    }
    database.load_tables(&listing);
    assert_eq!(database.get_tables().len(), 0);
}

#[test]
fn drop_with_a_file_missing_touches_nothing() {
    let database = Database::new("customer", FileStorage::new(ROOT_DIR));
    let table = users_table(&database);
    let only_data = vec!["users.data".to_string()];
    assert!(matches!(database.drop_table_ops(&table, &only_data), Err(DbError::NotFound)));
    let only_desc = vec!["users.desc".to_string(), "other.data".to_string()];
    assert!(matches!(database.drop_table_ops(&table, &only_desc), Err(DbError::NotFound)));
    assert!(matches!(database.drop_table_ops(&table, &Vec::new()), Err(DbError::NotFound)));
}

#[test]
fn table_named_with_descriptor_ending_reloads_under_its_name() {
    let mut database = Database::new("customer", FileStorage::new(ROOT_DIR));
    let mut table = users_table(&database);
    table.set_name("b.desc");
    let ops = database.create_table_ops(table).unwrap();
    assert_eq!(names(&ops), vec!["write b.desc.desc", "rows b.desc.data"]);
    database.load_tables(&vec!["b.desc.desc".to_string(), "b.desc.data".to_string()]);
    assert_eq!(database.get_tables()[0].get_name(), "b.desc");
}

#[test]
fn load_tables_replaces_the_cache_and_strips_one_ending() {
    let mut database = Database::new("customer", FileStorage::new(ROOT_DIR));
    let listing = vec![
        "a.desc".to_string(),
        "a.data".to_string(),
        "notes.txt".to_string(),
        "b.desc.desc".to_string(),
    ];
    database.load_tables(&listing);
    let found: Vec<&str> = database.get_tables().iter().map(|t| t.get_name()).collect();
    assert_eq!(found, vec!["a", "b.desc"]);
    database.load_tables(&Vec::new());
    assert!(database.get_tables().is_empty());
}

#[test]
fn alter_table_is_unsupported() {
    let mut database = Database::new("customer", FileStorage::new(ROOT_DIR));
    let table = users_table(&database);
    assert!(matches!(database.alter_table(table, Vec::new()), Err(DbError::Unsupported)));
}

#[test]
fn root_database_registers_and_forgets() {
    let mut root = RootDatabase::new(ROOT_DIR);
    assert_eq!(root.get_root_dir(), ROOT_DIR);
    assert_eq!(root.get_name(), "root_database");
    let db = root.register_database("customer_02");
    assert_eq!(db.get_name(), "customer_02");
    assert_eq!(db.get_root_dir(), "tests/workdir/customer_02");
    assert_eq!(root.get_databases().len(), 1);
    assert!(root.get_database("customer_02").is_some());
    root.forget_database("customer_02");
    assert!(root.get_databases().is_empty());
    assert!(root.get_database("customer_02").is_none());
}

#[test]
fn load_databases_adds_only_new_directories() {
    let mut root = RootDatabase::new("db_root");
    root.register_database("customer_04");
    let dirs = vec!["customer_04".to_string(), "sales".to_string(), "sales".to_string()];
    root.load_databases(&dirs);
    let found: Vec<&str> = root.get_databases().iter().map(|d| d.get_name()).collect();
    assert_eq!(found, vec!["customer_04", "sales"]);
    assert_eq!(root.get_database("sales").unwrap().get_root_dir(), "db_root/sales");
    root.load_databases(&Vec::new());
    assert_eq!(root.get_databases().len(), 2);
}

#[test]
fn sub_database_path() {
    let database = Database::new("root", FileStorage::new("base"));
    let child = database.sub_database("shop");
    assert_eq!(child.get_name(), "shop");
    assert_eq!(child.get_storage().get_root_dir(), "base/shop");
    assert!(child.get_tables().is_empty());
}

#[test]
fn default_table_is_a_placeholder() {
    let table = Table::default();
    assert_eq!(table.get_name(), "default");
    assert!(table.get_columns().is_empty());
    assert_eq!(table.get_database().get_name(), "default");
    assert_eq!(table.get_database().get_root_dir(), "default");
}

fn describe(db: &mut dyn DatabaseTrait, files: &Vec<String>) -> (String, String, usize) {
    db.load_tables(files);
    (db.get_name().to_string(), db.get_root_dir().to_string(), db.get_tables().len())
}

#[test]
fn database_trait_is_shared_by_both_kinds() {
    let files = vec!["a.desc".to_string(), "b.desc".to_string(), "b.data".to_string()];
    let mut database = Database::new("customer", FileStorage::new("base"));
    assert_eq!(describe(&mut database, &files), ("customer".to_string(), "base".to_string(), 2));
    let mut root = RootDatabase::new("top");
    assert_eq!(describe(&mut root, &files), ("root_database".to_string(), "top".to_string(), 2));
    assert_eq!(DatabaseTrait::get_storage(&root).get_root_dir(), "top");
}
