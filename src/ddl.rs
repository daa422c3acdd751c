//! Schema definition: the file operations that create and remove a table,
//! and the directory changes they make when the file store carries them out.
use vstd::prelude::*;
use crate::database::{table_names, Database};
use crate::error::DbError;
use crate::schema::{Column, Table, TableView};
use crate::storage::{data_file, data_file_name, descriptor_file, descriptor_file_name, descriptor_suffix, names_view};
use crate::text::{has_suffix, same_text, strip_suffix};

verus! {

/// A change asked of the file store.
pub enum TableOp {
    /// Write a new file, named first, holding the table's schema; the store
    /// refuses where the file exists.
    WriteDescriptor(String, Table),
    /// Write a new file holding an empty row array; the store refuses where
    /// the file exists.
    WriteEmptyRows(String),
    /// Delete a file; the store refuses where it is missing.
    DeleteFile(String),
}

/// A file operation as a mathematical value.
pub enum TableOpView {
    WriteDescriptor(Seq<char>, TableView),
    WriteEmptyRows(Seq<char>),
    DeleteFile(Seq<char>),
}

impl View for TableOp {
    type V = TableOpView;

    open spec fn view(&self) -> TableOpView {
        match self {
            TableOp::WriteDescriptor(f, t) => TableOpView::WriteDescriptor(f@, t@),
            TableOp::WriteEmptyRows(f) => TableOpView::WriteEmptyRows(f@),
            TableOp::DeleteFile(f) => TableOpView::DeleteFile(f@),
        }
    }
}

/// The views of a sequence of operations.
pub open spec fn ops_view(ops: Seq<TableOp>) -> Seq<TableOpView> {
    ops.map_values(|op: TableOp| op@)
}

/// The operations that create a table: its descriptor file, then its empty
/// data file.
pub open spec fn create_ops(t: TableView) -> Seq<TableOpView> {
    seq![
        TableOpView::WriteDescriptor(descriptor_file(t.name), t),
        TableOpView::WriteEmptyRows(data_file(t.name)),
    ]
}

/// The operations that remove a table: its data file, then its descriptor.
pub open spec fn drop_ops(name: Seq<char>) -> Seq<TableOpView> {
    seq![TableOpView::DeleteFile(data_file(name)), TableOpView::DeleteFile(descriptor_file(name))]
}

/// The files of a directory after one operation, or `None` where the store
/// refuses it.
pub open spec fn apply_op(files: Set<Seq<char>>, op: TableOpView) -> Option<Set<Seq<char>>> {
    match op {
        TableOpView::WriteDescriptor(f, _) => if files.contains(f) {
            None
        } else {
            Some(files.insert(f))
        },
        TableOpView::WriteEmptyRows(f) => if files.contains(f) {
            None
        } else {
            Some(files.insert(f))
        },
        TableOpView::DeleteFile(f) => if files.contains(f) {
            Some(files.remove(f))
        } else {
            None
        },
    }
}

/// The files of a directory after the operations in order, or `None` where
/// the store refuses one; the operations before it have been carried out.
pub open spec fn apply_ops(files: Set<Seq<char>>, ops: Seq<TableOpView>) -> Option<Set<Seq<char>>>
    decreases ops.len(),
{
    if ops.len() == 0 {
        Some(files)
    } else {
        match apply_op(files, ops[0]) {
            None => None,
            Some(next) => apply_ops(next, ops.drop_first()),
        }
    }
}

/// `listing` names each file of `files` once.
pub open spec fn lists(listing: Seq<Seq<char>>, files: Set<Seq<char>>) -> bool {
    listing.no_duplicates() && listing.to_set() == files
}

/// Whether the listing names the file.
fn is_listed(files: &Vec<String>, name: &String) -> (r: bool)
    ensures
        r == names_view(files@).contains(name@),
{
    let mut i: usize = 0;
    while i < files.len()
        invariant
            i <= files@.len(),
            forall|j: int| 0 <= j < i ==> files@[j]@ != name@,
        decreases files@.len() - i,
    {
        if same_text(files[i].as_str(), name.as_str()) {
            assert(names_view(files@)[i as int] == name@);
            return true;
        }
        i += 1;
    }
    proof {
        if names_view(files@).contains(name@) {
            let k = choose|k: int| 0 <= k < names_view(files@).len() && names_view(files@)[k] == name@;
            assert(files@[k]@ == name@);
        }
    }
    false
}

/// A drop whose two files a listing of the directory names is carried out
/// whole: the store refuses neither deletion.
pub proof fn lemma_listed_drop_is_whole(files: Set<Seq<char>>, listing: Seq<Seq<char>>, name: Seq<char>)
    requires
        lists(listing, files),
        listing.contains(descriptor_file(name)),
        listing.contains(data_file(name)),
    ensures
        apply_ops(files, drop_ops(name)) is Some,
{
    assert(listing.to_set().contains(descriptor_file(name)));
    assert(listing.to_set().contains(data_file(name)));
    lemma_drop_then_reload(files, name, listing);
}

impl Database {
    /// The operations that persist `table` in this database's directory: its
    /// descriptor, then an empty data file. A table with no columns is
    /// refused.
    pub fn create_table_ops(&self, table: Table) -> (r: Result<Vec<TableOp>, DbError>)
        ensures
            table@.columns.len() == 0 ==> r == Err::<Vec<TableOp>, DbError>(DbError::SchemaViolation),
            table@.columns.len() > 0 ==> (r matches Ok(ops) && ops_view(ops@) == create_ops(table@)),
    {
        if table.get_columns().len() == 0 {
            return Err(DbError::SchemaViolation);
        }
        let descriptor = descriptor_file_name(table.get_name());
        let data = data_file_name(table.get_name());
        let ghost t = table@;
        let mut ops = Vec::new();
        ops.push(TableOp::WriteDescriptor(descriptor, table));
        ops.push(TableOp::WriteEmptyRows(data));
        assert(ops_view(ops@) =~= create_ops(t));
        Ok(ops)
    }

    /// The operations that remove `table` from this database's directory,
    /// given a listing of it: its data file, then its descriptor. Where the
    /// listing lacks either file nothing is to be done, and the table is not
    /// found.
    pub fn drop_table_ops(&self, table: &Table, files: &Vec<String>) -> (r: Result<Vec<TableOp>, DbError>)
        ensures
            !(names_view(files@).contains(descriptor_file(table@.name)) && names_view(files@).contains(
                data_file(table@.name),
            )) ==> r == Err::<Vec<TableOp>, DbError>(DbError::NotFound),
            names_view(files@).contains(descriptor_file(table@.name)) && names_view(files@).contains(
                data_file(table@.name),
            ) ==> (r matches Ok(ops) && ops_view(ops@) == drop_ops(table@.name)),
    {
        let data = data_file_name(table.get_name());
        let descriptor = descriptor_file_name(table.get_name());
        if !is_listed(files, &data) || !is_listed(files, &descriptor) {
            return Err(DbError::NotFound);
        }
        let mut ops = Vec::new();
        ops.push(TableOp::DeleteFile(data));
        ops.push(TableOp::DeleteFile(descriptor));
        assert(ops_view(ops@) =~= drop_ops(table@.name));
        Ok(ops)
    }

    /// Changing a table's columns is not provided.
    pub fn alter_table(&mut self, table: Table, columns: Vec<Column>) -> (r: Result<(), DbError>)
        ensures
            r == Err::<(), DbError>(DbError::Unsupported),
            *final(self) == *old(self),
    {
        Err(DbError::Unsupported)
    }
}

/// A table's descriptor file and data file have different names; the
/// descriptor file ends with the descriptor ending and the data file does
/// not.
proof fn lemma_table_files(name: Seq<char>)
    ensures
        descriptor_file(name) != data_file(name),
        has_suffix(descriptor_file(name), descriptor_suffix()),
        !has_suffix(data_file(name), descriptor_suffix()),
        descriptor_file(name).subrange(0, name.len() as int) == name,
        descriptor_file(name).len() == name.len() + descriptor_suffix().len(),
{
    reveal_strlit("desc");
    reveal_strlit("data");
    let d = descriptor_file(name);
    let a = data_file(name);
    let n = name.len() as int;
    assert(d.len() == n + 5);
    assert(d[n + 4] == 'c');
    assert(a[n + 4] == 'a');
    assert(d.subrange(n, n + 5) =~= descriptor_suffix());
    assert(d.subrange(0, n) =~= name);
    assert(a.subrange(n, n + 5)[4] != descriptor_suffix()[4]);
}

/// A listing of two different files holds the two, in one order or the other.
proof fn lemma_listing_of_two(listing: Seq<Seq<char>>, a: Seq<char>, b: Seq<char>)
    requires
        a != b,
        lists(listing, set![a, b]),
    ensures
        listing == seq![a, b] || listing == seq![b, a],
{
    listing.unique_seq_to_set();
    assert(set![a, b].len() == 2) by {
        assert(set![a, b] == Set::<Seq<char>>::empty().insert(a).insert(b));
    }
    assert(listing.len() == 2);
    assert(listing.to_set().contains(listing[0]));
    assert(listing.to_set().contains(listing[1]));
    assert(listing.to_set().contains(a));
    assert(listing.to_set().contains(b));
    if listing[0] == a {
        assert(listing =~= seq![a, b]);
    } else {
        assert(listing =~= seq![b, a]);
    }
}

/// Persisting a table into a directory that holds neither of its files adds
/// exactly those two files; and reloading the tables from a listing of a
/// directory that holds just those two files finds the one table, under its
/// name.
pub proof fn lemma_create_then_reload(files: Set<Seq<char>>, t: TableView, listing: Seq<Seq<char>>)
    requires
        !files.contains(descriptor_file(t.name)),
        !files.contains(data_file(t.name)),
    ensures
        apply_ops(files, create_ops(t)) == Some(
            files.insert(descriptor_file(t.name)).insert(data_file(t.name)),
        ),
        lists(listing, set![descriptor_file(t.name), data_file(t.name)]) ==> table_names(listing)
            == seq![t.name],
{
    let d = descriptor_file(t.name);
    let a = data_file(t.name);
    lemma_table_files(t.name);
    let ops = create_ops(t);
    reveal_with_fuel(apply_ops, 3);
    reveal_with_fuel(table_names, 3);
    assert(ops.drop_first() =~= seq![ops[1]]);
    assert(ops.drop_first().drop_first() =~= Seq::<TableOpView>::empty());
    assert(!files.insert(d).contains(a));
    if lists(listing, set![d, a]) {
        lemma_listing_of_two(listing, d, a);
        assert(d.subrange(0, d.len() - descriptor_suffix().len()) == t.name);
        assert(strip_suffix(d, descriptor_suffix()) == t.name);
        if listing == seq![d, a] {
            assert(listing.drop_last() =~= seq![d]);
            assert(seq![d].drop_last() =~= Seq::<Seq<char>>::empty());
        } else {
            assert(listing.drop_last() =~= seq![a]);
            assert(seq![a].drop_last() =~= Seq::<Seq<char>>::empty());
        }
        assert(table_names(listing) =~= seq![t.name]);
    }
}

/// Dropping a table deletes its two files from a directory that holds them
/// and keeps every other file; where those were the only files, the
/// directory is left empty and a reload finds no table.
pub proof fn lemma_drop_then_reload(files: Set<Seq<char>>, name: Seq<char>, listing: Seq<Seq<char>>)
    requires
        files.contains(descriptor_file(name)),
        files.contains(data_file(name)),
    ensures
        apply_ops(files, drop_ops(name)) == Some(
            files.remove(data_file(name)).remove(descriptor_file(name)),
        ),
        files == set![descriptor_file(name), data_file(name)] ==> apply_ops(files, drop_ops(name))
            == Some(Set::<Seq<char>>::empty()),
        lists(listing, Set::<Seq<char>>::empty()) ==> table_names(listing) == Seq::<Seq<char>>::empty(),
{
    let d = descriptor_file(name);
    let a = data_file(name);
    lemma_table_files(name);
    let ops = drop_ops(name);
    reveal_with_fuel(apply_ops, 3);
    assert(ops.drop_first() =~= seq![ops[1]]);
    assert(ops.drop_first().drop_first() =~= Seq::<TableOpView>::empty());
    assert(files.remove(a).contains(d));
    if files == set![d, a] {
        assert(files.remove(a).remove(d) =~= Set::<Seq<char>>::empty());
    }
    if lists(listing, Set::<Seq<char>>::empty()) {
        if listing.len() > 0 {
            assert(listing.to_set().contains(listing[0]));
        }
    }
}

} // verus!
