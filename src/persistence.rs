//! Row persistence: the validation of a record against its table's stored
//! descriptor, and the append of a new row to the rows already stored.
use vstd::prelude::*;
use crate::error::DbError;
use crate::schema::{columns_view, same_row, value_view, values_view, Query, Record, RecordView, ResultSet, Table, TableView};
use crate::storage::FileStorage;
use crate::text::same_text;

verus! {

/// The record may be stored under the table described by `desc`: the names
/// agree; the descriptor, the record's table and the record's values have
/// as many columns each; at each position the record's column has the
/// descriptor's name and type, and a value where the descriptor's column is
/// not nullable. Of the record's own table only the name and the number of
/// columns are looked at.
pub open spec fn conforms(desc: TableView, rec: RecordView) -> bool {
    &&& desc.name == rec.table.name
    &&& desc.columns.len() == rec.table.columns.len()
    &&& desc.columns.len() == rec.values.len()
    &&& forall|i: int|
        0 <= i < rec.values.len() ==> {
            &&& (#[trigger] rec.values[i]).0.name == desc.columns[i].name
            &&& rec.values[i].0.data_type == desc.columns[i].data_type
            &&& !desc.columns[i].is_nullable ==> rec.values[i].1 is Some
        }
}

/// Some stored row is the same row as the record.
pub open spec fn stored(rows: Seq<Record>, rec: RecordView) -> bool {
    exists|i: int| 0 <= i < rows.len() && same_row(#[trigger] rows[i]@, rec)
}

/// A record that was just inserted is stored: inserting it again, into the
/// rows that the first insert returned, is refused.
pub proof fn lemma_insert_twice(rows: Seq<Record>, record: Record)
    ensures
        stored(rows.push(record), record@),
{
    let all = rows.push(record);
    assert(same_row(all[rows.len() as int]@, record@));
}

/// Reads and writes the rows of the tables of one database directory.
pub struct DataHandler {
    storage: FileStorage,
}

impl DataHandler {
    /// The path of the directory the handler works in.
    pub closed spec fn spec_root_dir(&self) -> Seq<char> {
        self.storage.spec_root_dir()
    }

    pub fn new_from_path(database_path: String) -> (r: DataHandler)
        ensures
            r.spec_root_dir() == database_path@,
    {
        DataHandler { storage: FileStorage::new(database_path.as_str()) }
    }

    pub fn new_from_storage(storage: FileStorage) -> (r: DataHandler)
        ensures
            r.spec_root_dir() == storage.spec_root_dir(),
    {
        DataHandler { storage }
    }

    pub fn get_storage(&self) -> (r: &FileStorage)
        ensures
            r.spec_root_dir() == self.spec_root_dir(),
    {
        &self.storage
    }

    /// Checks a record against the stored descriptor of its table; every
    /// mismatch is a schema violation.
    pub fn check_record(descriptor: &Table, record: &Record) -> (r: Result<(), DbError>)
        ensures
            r is Ok <==> conforms(descriptor@, record@),
            r is Err ==> r == Err::<(), DbError>(DbError::SchemaViolation),
    {
        let table = record.get_table();
        let values = record.get_values();
        let columns = descriptor.get_columns();
        let own = table.get_columns();
        if !same_text(descriptor.get_name(), table.get_name()) {
            return Err(DbError::SchemaViolation);
        }
        if columns.len() != own.len() || columns.len() != values.len() {
            return Err(DbError::SchemaViolation);
        }
        let mut i: usize = 0;
        while i < values.len()
            invariant
                i <= values@.len(),
                values@.len() == columns@.len(),
                values_view(values@) == record@.values,
                columns_view(columns@) == descriptor@.columns,
                forall|j: int|
                    0 <= j < i ==> {
                        &&& (#[trigger] record@.values[j]).0.name == descriptor@.columns[j].name
                        &&& record@.values[j].0.data_type == descriptor@.columns[j].data_type
                        &&& !descriptor@.columns[j].is_nullable ==> record@.values[j].1 is Some
                    },
            decreases values@.len() - i,
        {
            let (column, value) = &values[i];
            let expected = &columns[i];
            proof {
                assert(record@.values[i as int] == value_view(values@[i as int]));
                assert(values@[i as int] == (*column, *value));
                assert(descriptor@.columns[i as int] == expected@);
            }
            let ok = same_text(column.get_name(), expected.get_name()) && *column.get_data_type()
                == *expected.get_data_type() && (expected.is_nullable() || value.is_some());
            if !ok {
                return Err(DbError::SchemaViolation);
            }
            i += 1;
        }
        Ok(())
    }

    /// Whether some stored row is the same row as the record.
    fn is_stored(rows: &Vec<Record>, record: &Record) -> (r: bool)
        ensures
            r == stored(rows@, record@),
    {
        let mut i: usize = 0;
        while i < rows.len()
            invariant
                i <= rows@.len(),
                forall|j: int| 0 <= j < i ==> !same_row(#[trigger] rows@[j]@, record@),
            decreases rows@.len() - i,
        {
            if rows[i] == *record {
                return true;
            }
            i += 1;
        }
        false
    }

    /// Inserts a record into the rows stored for its table, given the
    /// table's stored descriptor: a record that does not conform is a schema
    /// violation, one already stored is refused, and otherwise the rows come
    /// back with the record appended, together with the count of rows
    /// inserted, one.
    pub fn insert(descriptor: &Table, rows: Vec<Record>, record: Record) -> (r: Result<
        (u32, Vec<Record>),
        DbError,
    >)
        ensures
            !conforms(descriptor@, record@) ==> r == Err::<(u32, Vec<Record>), DbError>(
                DbError::SchemaViolation,
            ),
            conforms(descriptor@, record@) && stored(rows@, record@) ==> r == Err::<
                (u32, Vec<Record>),
                DbError,
            >(DbError::AlreadyExists),
            conforms(descriptor@, record@) && !stored(rows@, record@) ==> (r matches Ok((n, all))
                && n == 1 && all@ == rows@.push(record)),
    {
        if let Err(e) = Self::check_record(descriptor, &record) {
            return Err(e);
        }
        if Self::is_stored(&rows, &record) {
            return Err(DbError::AlreadyExists);
        }
        let mut all = rows;
        all.push(record);
        Ok((1, all))
    }

    /// Selection is not provided yet.
    pub fn select(&self, query: Query) -> (r: Result<ResultSet, DbError>)
        ensures
            r matches Err(e) && e == DbError::Unsupported,
    {
        Err(DbError::Unsupported)
    }

    /// Updates are not provided yet.
    pub fn update(&mut self, record: Record, query: Query) -> (r: Result<u32, DbError>)
        ensures
            r == Err::<u32, DbError>(DbError::Unsupported),
    {
        Err(DbError::Unsupported)
    }

    /// Deletion is not provided yet.
    pub fn delete(&mut self, query: Query) -> (r: Result<u32, DbError>)
        ensures
            r == Err::<u32, DbError>(DbError::Unsupported),
    {
        Err(DbError::Unsupported)
    }
}

} // verus!
