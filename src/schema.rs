//! The schema model: data types, columns, tables, records and result sets.
use vstd::prelude::*;
use crate::database::Database;
use crate::storage::FileStorage;
use crate::error::DbError;
use crate::text::same_text;

verus! {

/// The kind of value a column holds.
#[derive(Debug, Clone, Copy, PartialEq, Eq, Structural)]
pub enum DataType {
    /// Text of at most the given length.
    Text(u16),
    Integer,
    Real,
    Blob,
}

/// A column as a mathematical value.
pub struct ColumnView {
    pub name: Seq<char>,
    pub data_type: DataType,
    pub is_primary_key: bool,
    pub is_nullable: bool,
}

/// One attribute of a table.
#[derive(Debug)]
pub struct Column {
    name: String,
    data_type: DataType,
    is_primary_key: bool,
    is_nullable: bool,
}

impl View for Column {
    type V = ColumnView;

    closed spec fn view(&self) -> ColumnView {
        ColumnView {
            name: self.name@,
            data_type: self.data_type,
            is_primary_key: self.is_primary_key,
            is_nullable: self.is_nullable,
        }
    }
}

impl Column {
    /// A column; a primary key column cannot be nullable.
    pub fn new(name: &str, data_type: DataType, is_primary_key: bool, is_nullable: bool) -> (r: Result<
        Column,
        DbError,
    >)
        ensures
            is_primary_key && is_nullable ==> r == Err::<Column, DbError>(DbError::SchemaViolation),
            !(is_primary_key && is_nullable) ==> (r matches Ok(c) && c@ == (ColumnView {
                name: name@,
                data_type,
                is_primary_key,
                is_nullable,
            })),
    {
        if is_primary_key && is_nullable {
            return Err(DbError::SchemaViolation);
        }
        Ok(Column { name: String::from_str(name), data_type, is_primary_key, is_nullable })
    }

    pub fn get_name(&self) -> (r: &str)
        ensures
            r@ == self@.name,
    {
        self.name.as_str()
    }

    pub fn get_data_type(&self) -> (r: &DataType)
        ensures
            *r == self@.data_type,
    {
        &self.data_type
    }

    pub fn set_data_type(&mut self, data_type: DataType)
        ensures
            final(self)@ == (ColumnView { data_type, ..old(self)@ }),
    {
        self.data_type = data_type;
    }

    pub fn set_name(&mut self, name: &str)
        ensures
            final(self)@ == (ColumnView { name: name@, ..old(self)@ }),
    {
        self.name = String::from_str(name);
    }

    pub fn is_primary_key(&self) -> (r: bool)
        ensures
            r == self@.is_primary_key,
    {
        self.is_primary_key
    }

    pub fn is_nullable(&self) -> (r: bool)
        ensures
            r == self@.is_nullable,
    {
        self.is_nullable
    }

    pub fn set_primary_key(&mut self, is_primary_key: bool)
        ensures
            final(self)@ == (ColumnView { is_primary_key, ..old(self)@ }),
    {
        self.is_primary_key = is_primary_key;
    }

    pub fn set_nullable(&mut self, is_nullable: bool)
        ensures
            final(self)@ == (ColumnView { is_nullable, ..old(self)@ }),
    {
        self.is_nullable = is_nullable;
    }
}

impl Clone for Column {
    fn clone(&self) -> (r: Column)
        ensures
            r@ == self@,
    {
        Column {
            name: self.name.clone(),
            data_type: self.data_type,
            is_primary_key: self.is_primary_key,
            is_nullable: self.is_nullable,
        }
    }
}

/// Two columns are equal when name, type and both flags are.
impl PartialEq for Column {
    fn eq(&self, other: &Column) -> (r: bool) {
        self.name == other.name && self.data_type == other.data_type && self.is_primary_key
            == other.is_primary_key && self.is_nullable == other.is_nullable
    }
}

impl vstd::std_specs::cmp::PartialEqSpecImpl for Column {
    open spec fn obeys_eq_spec() -> bool {
        true
    }

    open spec fn eq_spec(&self, other: &Column) -> bool {
        self@ == other@
    }
}

/// The views of a sequence of columns.
pub open spec fn columns_view(cols: Seq<Column>) -> Seq<ColumnView> {
    cols.map_values(|c: Column| c@)
}

/// The position of the first column named `name`: every column before it has
/// another name.
pub open spec fn is_first_named(cols: Seq<ColumnView>, name: Seq<char>, i: int) -> bool {
    &&& 0 <= i < cols.len()
    &&& cols[i].name == name
    &&& forall|j: int| 0 <= j < i ==> cols[j].name != name
}

/// No column is named `name`.
pub open spec fn none_named(cols: Seq<ColumnView>, name: Seq<char>) -> bool {
    forall|j: int| 0 <= j < cols.len() ==> cols[j].name != name
}

/// A table's schema as a mathematical value: its name and its columns.
pub struct TableView {
    pub name: Seq<char>,
    pub columns: Seq<ColumnView>,
}

/// A table schema: a name, ordered columns, and a copy of the database it
/// was defined against, kept as a record of where it came from.
#[derive(Debug)]
pub struct Table {
    database: Box<Database>,
    name: String,
    columns: Vec<Column>,
}

/// A copy of a table keeps its name and columns; of its database it keeps a
/// bare handle, the name and directory, as the record of where the table
/// was defined.
impl Clone for Table {
    fn clone(&self) -> (r: Table)
        ensures
            r@ == self@,
            self.spec_database().is_handle_of(r.spec_database()),
    {
        let columns = self.columns.clone();
        assert(columns_view(columns@) =~= columns_view(self.columns@));
        Table { database: Box::new(self.database.handle()), name: self.name.clone(), columns }
    }
}

/// The placeholder table: named `default`, with no columns, in a database
/// named `default` over the directory `default`.
impl Default for Table {
    fn default() -> (r: Table)
        ensures
            r@.name == "default"@,
            r@.columns == Seq::<ColumnView>::empty(),
            r.spec_database().spec_name() == "default"@,
            r.spec_database().spec_root_dir() == "default"@,
            r.spec_database().spec_tables().len() == 0,
    {
        Table::new("default", Box::new(Database::new("default", FileStorage::new("default"))))
    }
}

impl View for Table {
    type V = TableView;

    closed spec fn view(&self) -> TableView {
        TableView { name: self.name@, columns: columns_view(self.columns@) }
    }
}

impl Table {
    /// The database the table was defined against.
    pub closed spec fn spec_database(&self) -> Database {
        *self.database
    }

    /// The table's columns.
    pub closed spec fn spec_columns(&self) -> Seq<Column> {
        self.columns@
    }

    /// A table with no columns.
    pub fn new(name: &str, database: Box<Database>) -> (r: Table)
        ensures
            r@.name == name@,
            r@.columns == Seq::<ColumnView>::empty(),
            r.spec_database() == *database,
    {
        let t = Table { database, name: String::from_str(name), columns: Vec::new() };
        assert(t@.columns =~= Seq::<ColumnView>::empty());
        t
    }

    /// Appends a column.
    pub fn add_column(&mut self, column: Column)
        ensures
            final(self)@.name == old(self)@.name,
            final(self)@.columns == old(self)@.columns.push(column@),
            final(self).spec_database() == old(self).spec_database(),
    {
        self.columns.push(column);
        assert(columns_view(self.columns@) =~= columns_view(old(self).columns@).push(column@));
    }

    pub fn get_columns(&self) -> (r: &Vec<Column>)
        ensures
            r@ == self.spec_columns(),
            columns_view(r@) == self@.columns,
    {
        &self.columns
    }

    pub fn set_columns(&mut self, columns: Vec<Column>)
        ensures
            final(self)@.name == old(self)@.name,
            final(self).spec_columns() == columns@,
            final(self).spec_database() == old(self).spec_database(),
    {
        self.columns = columns;
    }

    /// The first column named `name`.
    pub fn get_column(&self, name: &str) -> (r: Option<&Column>)
        ensures
            r is None <==> none_named(self@.columns, name@),
            r matches Some(c) ==> exists|i: int|
                is_first_named(self@.columns, name@, i) && self.spec_columns()[i] == *c,
    {
        match self.get_column_index(name) {
            None => None,
            Some(i) => {
                let c = &self.columns[i];
                assert(is_first_named(self@.columns, name@, i as int) && self.spec_columns()[i as int]
                    == *c);
                Some(c)
            },
        }
    }

    /// The position of the first column named `name`.
    pub fn get_column_index(&self, name: &str) -> (r: Option<usize>)
        ensures
            r is None <==> none_named(self@.columns, name@),
            r matches Some(i) ==> is_first_named(self@.columns, name@, i as int),
    {
        let mut index: usize = 0;
        while index < self.columns.len()
            invariant
                index <= self.columns@.len(),
                forall|j: int| 0 <= j < index ==> self@.columns[j].name != name@,
            decreases self.columns@.len() - index,
        {
            if same_text(self.columns[index].name.as_str(), name) {
                assert(self@.columns[index as int].name == name@);
                return Some(index);
            }
            index += 1;
        }
        None
    }

    /// Removes the first column named `name`; nothing changes where there is
    /// none.
    pub fn remove_column(&mut self, name: &str)
        ensures
            final(self)@.name == old(self)@.name,
            final(self).spec_database() == old(self).spec_database(),
            none_named(old(self)@.columns, name@) ==> final(self)@.columns == old(self)@.columns,
            forall|i: int| #[trigger]
                is_first_named(old(self)@.columns, name@, i) ==> final(self)@.columns == old(
                    self,
                )@.columns.remove(i),
    {
        if let Some(index) = self.get_column_index(name) {
            self.columns.remove(index);
            assert(columns_view(self.columns@) =~= columns_view(old(self).columns@).remove(
                index as int,
            ));
            assert forall|i: int| #[trigger]
                is_first_named(old(self)@.columns, name@, i) implies i == index by {
                if i < index {
                    assert(old(self)@.columns[i].name == name@);
                }
                if i > index {
                    assert(old(self)@.columns[index as int].name == name@);
                }
            }
        }
    }

    pub fn get_name(&self) -> (r: &str)
        ensures
            r@ == self@.name,
    {
        self.name.as_str()
    }

    pub fn set_name(&mut self, name: &str)
        ensures
            final(self)@ == (TableView { name: name@, ..old(self)@ }),
            final(self).spec_database() == old(self).spec_database(),
    {
        self.name = String::from_str(name);
    }

    pub fn get_database(&self) -> (r: &Database)
        ensures
            *r == self.spec_database(),
    {
        &self.database
    }

    pub fn set_database(&mut self, database: Database)
        ensures
            final(self)@ == old(self)@,
            final(self).spec_database() == database,
    {
        self.database = Box::new(database);
    }
}

/// A value of a record: the column it is for, and the text, absent for null.
pub open spec fn value_view(v: (Column, Option<String>)) -> (ColumnView, Option<Seq<char>>) {
    (v.0@, text_view(v.1))
}

/// The characters of an optional text.
pub open spec fn text_view(t: Option<String>) -> Option<Seq<char>> {
    match t {
        Some(s) => Some(s@),
        None => None,
    }
}

/// The views of a record's values.
pub open spec fn values_view(vs: Seq<(Column, Option<String>)>) -> Seq<(ColumnView, Option<Seq<char>>)> {
    vs.map_values(|v: (Column, Option<String>)| value_view(v))
}

/// A record as a mathematical value: its table's schema and its values.
pub struct RecordView {
    pub table: TableView,
    pub values: Seq<(ColumnView, Option<Seq<char>>)>,
}

/// One row: the table it belongs to, and a value, or null, for each column in
/// the table's column order.
#[derive(Debug)]
pub struct Record {
    table: Table,
    values: Vec<(Column, Option<String>)>,
}

impl View for Record {
    type V = RecordView;

    closed spec fn view(&self) -> RecordView {
        RecordView { table: self.table@, values: values_view(self.values@) }
    }
}

/// Two records are the same row when their tables have the same name and
/// their values agree, column and value, position by position.
pub open spec fn same_row(a: RecordView, b: RecordView) -> bool {
    a.table.name == b.table.name && a.values == b.values
}

/// A copy of an optional text.
fn copy_value(v: &Option<String>) -> (r: Option<String>)
    ensures
        text_view(r) == text_view(*v),
{
    match v {
        Some(s) => Some(s.clone()),
        None => None,
    }
}

/// Whether two optional texts are equal.
fn same_value(a: &Option<String>, b: &Option<String>) -> (r: bool)
    ensures
        r == (text_view(*a) == text_view(*b)),
{
    match (a, b) {
        (Some(x), Some(y)) => same_text(x.as_str(), y.as_str()),
        (None, None) => true,
        _ => false,
    }
}

impl Record {
    /// The record's table.
    pub closed spec fn spec_table(&self) -> Table {
        self.table
    }

    pub fn new(table: Table, values: Vec<(Column, Option<String>)>) -> (r: Record)
        ensures
            r.spec_table() == table,
            r@.values == values_view(values@),
    {
        Record { table, values }
    }

    pub fn get_table(&self) -> (r: &Table)
        ensures
            *r == self.spec_table(),
            r@ == self@.table,
    {
        &self.table
    }

    pub fn set_table(&mut self, table: Table)
        ensures
            final(self).spec_table() == table,
            final(self)@.values == old(self)@.values,
    {
        self.table = table;
    }

    pub fn get_values(&self) -> (r: &Vec<(Column, Option<String>)>)
        ensures
            values_view(r@) == self@.values,
    {
        &self.values
    }

    pub fn set_values(&mut self, values: Vec<(Column, Option<String>)>)
        ensures
            final(self).spec_table() == old(self).spec_table(),
            final(self)@.values == values_view(values@),
    {
        self.values = values;
    }
}

/// A copy of a record: the same values, and a copy of its table.
impl Clone for Record {
    fn clone(&self) -> (r: Record)
        ensures
            r@ == self@,
    {
        let mut values: Vec<(Column, Option<String>)> = Vec::new();
        let mut i: usize = 0;
        while i < self.values.len()
            invariant
                i <= self.values@.len(),
                values_view(values@) == values_view(self.values@.subrange(0, i as int)),
            decreases self.values@.len() - i,
        {
            let ghost before = values@;
            let (column, value) = &self.values[i];
            values.push((column.clone(), copy_value(value)));
            proof {
                assert(values_view(values@) =~= values_view(before).push(value_view(self.values@[i as int])));
                assert(self.values@.subrange(0, i + 1) =~= self.values@.subrange(0, i as int).push(self.values@[i as int]));
                assert(values_view(self.values@.subrange(0, i + 1)) =~= values_view(self.values@.subrange(0, i as int)).push(value_view(self.values@[i as int])));
            }
            i += 1;
        }
        assert(self.values@.subrange(0, i as int) =~= self.values@);
        Record { table: self.table.clone(), values }
    }
}

impl PartialEq for Record {
    fn eq(&self, other: &Record) -> (r: bool) {
        if !same_text(self.table.name.as_str(), other.table.name.as_str()) {
            return false;
        }
        if self.values.len() != other.values.len() {
            assert(self@.values.len() != other@.values.len());
            return false;
        }
        let mut i: usize = 0;
        while i < self.values.len()
            invariant
                i <= self.values@.len(),
                self.values@.len() == other.values@.len(),
                self@.table.name == other@.table.name,
                forall|j: int| 0 <= j < i ==> self@.values[j] == other@.values[j],
            decreases self.values@.len() - i,
        {
            if !self.values[i].0.eq(&other.values[i].0) {
                assert(self@.values[i as int] != other@.values[i as int]);
                return false;
            }
            if !same_value(&self.values[i].1, &other.values[i].1) {
                assert(self@.values[i as int] != other@.values[i as int]);
                return false;
            }
            i += 1;
        }
        assert(self@.values =~= other@.values);
        true
    }
}

impl vstd::std_specs::cmp::PartialEqSpecImpl for Record {
    open spec fn obeys_eq_spec() -> bool {
        true
    }

    open spec fn eq_spec(&self, other: &Record) -> bool {
        same_row(self@, other@)
    }
}

/// The records a query returned.
pub struct ResultSet {
    records: Vec<Record>,
}

impl ResultSet {
    pub closed spec fn spec_records(&self) -> Seq<Record> {
        self.records@
    }

    pub fn new(records: Vec<Record>) -> (r: ResultSet)
        ensures
            r.spec_records() == records@,
    {
        ResultSet { records }
    }

    /// An empty result.
    pub fn default() -> (r: ResultSet)
        ensures
            r.spec_records() == Seq::<Record>::empty(),
    {
        ResultSet { records: Vec::new() }
    }

    pub fn add_record(&mut self, record: Record)
        ensures
            final(self).spec_records() == old(self).spec_records().push(record),
    {
        self.records.push(record);
    }

    pub fn get_records(&self) -> (r: &Vec<Record>)
        ensures
            r@ == self.spec_records(),
    {
        &self.records
    }

    pub fn set_records(&mut self, records: Vec<Record>)
        ensures
            final(self).spec_records() == records@,
    {
        self.records = records;
    }
}

/// A query, kept as its text; no query language is interpreted yet.
pub struct Query {
    sql: String,
}

impl Query {
    pub fn new(sql: &str) -> (r: Query)
        ensures
            r.spec_sql() == sql@,
    {
        Query { sql: String::from_str(sql) }
    }

    pub closed spec fn spec_sql(&self) -> Seq<char> {
        self.sql@
    }
}

} // verus!
