//! Databases: named namespaces, each over a directory of table files, and the
//! root database that discovers the others.
use vstd::prelude::*;
use crate::schema::{ColumnView, Table};
use crate::storage::{descriptor_suffix, descriptor_suffix_text, joined_path, names_view, FileStorage};
use crate::text::{ends_with, has_suffix, same_text, strip_one_suffix, strip_suffix};

verus! {

/// The names of the tables whose descriptor files a listing holds, in
/// listing order: each descriptor file's name with its one descriptor
/// ending taken off.
pub open spec fn table_names(files: Seq<Seq<char>>) -> Seq<Seq<char>>
    decreases files.len(),
{
    if files.len() == 0 {
        Seq::empty()
    } else {
        let rest = table_names(files.drop_last());
        if has_suffix(files.last(), descriptor_suffix()) {
            rest.push(strip_suffix(files.last(), descriptor_suffix()))
        } else {
            rest
        }
    }
}

/// The names of a sequence of databases.
pub open spec fn database_names(dbs: Seq<Database>) -> Seq<Seq<char>> {
    dbs.map_values(|d: Database| d.spec_name())
}

/// The names of a sequence of tables.
pub open spec fn table_names_of(tables: Seq<Table>) -> Seq<Seq<char>> {
    tables.map_values(|t: Table| t@.name)
}

/// A schema namespace over a directory, with the tables found there at the
/// last reload.
#[derive(Debug)]
pub struct Database {
    name: String,
    storage: FileStorage,
    tables: Vec<Table>,
}

/// A copy of a database: its name, its directory, and a copy of each cached
/// table.
impl Clone for Database {
    fn clone(&self) -> (r: Database)
        ensures
            r.spec_name() == self.spec_name(),
            r.spec_root_dir() == self.spec_root_dir(),
            r.spec_tables().len() == self.spec_tables().len(),
            forall|i: int| 0 <= i < r.spec_tables().len() ==> (#[trigger] r.spec_tables()[i])@ == self.spec_tables()[i]@,
    {
        Database { name: self.name.clone(), storage: self.storage.clone(), tables: self.tables.clone() }
    }
}

impl Database {
    pub closed spec fn spec_name(&self) -> Seq<char> {
        self.name@
    }

    /// The path of the database's directory.
    pub closed spec fn spec_root_dir(&self) -> Seq<char> {
        self.storage.spec_root_dir()
    }

    /// The tables found at the last reload.
    pub closed spec fn spec_tables(&self) -> Seq<Table> {
        self.tables@
    }

    /// `db` is a bare handle on this database: same name and directory, and
    /// no tables cached.
    pub open spec fn is_handle_of(self, db: Database) -> bool {
        &&& self.spec_name() == db.spec_name()
        &&& self.spec_root_dir() == db.spec_root_dir()
        &&& db.spec_tables().len() == 0
    }

    /// A database with no tables loaded yet.
    pub fn new(name: &str, storage: FileStorage) -> (r: Database)
        ensures
            r.spec_name() == name@,
            r.spec_root_dir() == storage.spec_root_dir(),
            r.spec_tables().len() == 0,
    {
        Database { name: String::from_str(name), storage, tables: Vec::new() }
    }

    pub fn get_name(&self) -> (r: &str)
        ensures
            r@ == self.spec_name(),
    {
        self.name.as_str()
    }

    pub fn get_storage(&self) -> (r: &FileStorage)
        ensures
            r.spec_root_dir() == self.spec_root_dir(),
    {
        &self.storage
    }

    pub fn get_root_dir(&self) -> (r: &str)
        ensures
            r@ == self.spec_root_dir(),
    {
        self.storage.get_root_dir()
    }

    pub fn get_tables(&self) -> (r: &Vec<Table>)
        ensures
            r@ == self.spec_tables(),
    {
        &self.tables
    }

    /// A bare handle on this database.
    pub fn handle(&self) -> (r: Database)
        ensures
            self.is_handle_of(r),
    {
        Database::new(self.name.as_str(), self.storage.clone())
    }

    /// The database in the subdirectory `name` of this one's directory.
    pub fn sub_database(&self, name: &str) -> (r: Database)
        ensures
            r.spec_name() == name@,
            r.spec_root_dir() == joined_path(self.spec_root_dir(), name@),
            r.spec_tables().len() == 0,
    {
        let path = self.storage.path_of(name);
        Database::new(name, FileStorage::new(path.as_str()))
    }

    /// Reloads the tables from a listing of the database's directory: the
    /// cache is replaced by one table, with no columns, for each descriptor
    /// file, each holding a bare handle on this database.
    pub fn load_tables(&mut self, files: &Vec<String>)
        ensures
            final(self).spec_name() == old(self).spec_name(),
            final(self).spec_root_dir() == old(self).spec_root_dir(),
            table_names_of(final(self).spec_tables()) == table_names(names_view(files@)),
            forall|i: int|
                0 <= i < final(self).spec_tables().len() ==> {
                    &&& (#[trigger] final(self).spec_tables()[i])@.columns == Seq::<ColumnView>::empty()
                    &&& old(self).is_handle_of(final(self).spec_tables()[i].spec_database())
                },
    {
        self.tables = Vec::new();
        let suffix = descriptor_suffix_text();
        let mut i: usize = 0;
        while i < files.len()
            invariant
                i <= files@.len(),
                suffix@ == descriptor_suffix(),
                self.name == old(self).name,
                self.storage == old(self).storage,
                table_names_of(self.tables@) == table_names(names_view(files@.subrange(0, i as int))),
                forall|k: int|
                    0 <= k < self.tables@.len() ==> {
                        &&& (#[trigger] self.tables@[k])@.columns == Seq::<ColumnView>::empty()
                        &&& old(self).is_handle_of(self.tables@[k].spec_database())
                    },
            decreases files@.len() - i,
        {
            let file = files[i].as_str();
            let ghost before = self.tables@;
            proof {
                let pre = names_view(files@.subrange(0, i as int));
                let next = names_view(files@.subrange(0, i + 1));
                assert(next.drop_last() =~= pre);
                assert(next.last() == files@[i as int]@);
            }
            if ends_with(file, suffix.as_str()) {
                let table_name = strip_one_suffix(file, suffix.as_str());
                let table = Table::new(table_name.as_str(), Box::new(self.handle()));
                self.tables.push(table);
                assert(table_names_of(self.tables@) =~= table_names_of(before).push(table@.name));
            }
            i += 1;
        }
        assert(files@.subrange(0, i as int) =~= files@);
    }
}

/// The database names after a reload: each directory of the listing whose
/// name is not known yet is added, in listing order.
pub open spec fn names_after_load(known: Seq<Seq<char>>, dirs: Seq<Seq<char>>) -> Seq<Seq<char>>
    decreases dirs.len(),
{
    if dirs.len() == 0 {
        known
    } else {
        let prev = names_after_load(known, dirs.drop_last());
        if prev.contains(dirs.last()) {
            prev
        } else {
            prev.push(dirs.last())
        }
    }
}

/// The databases other than those named `name`, in order.
pub open spec fn without_named(dbs: Seq<Database>, name: Seq<char>) -> Seq<Database>
    decreases dbs.len(),
{
    if dbs.len() == 0 {
        Seq::empty()
    } else {
        let rest = without_named(dbs.drop_last(), name);
        if dbs.last().spec_name() == name {
            rest
        } else {
            rest.push(dbs.last())
        }
    }
}

/// The top-level namespace: a database over the root directory, and the
/// databases found in its subdirectories.
pub struct RootDatabase {
    inner_database: Database,
    databases: Vec<Database>,
}

impl RootDatabase {
    /// The database over the root directory.
    pub closed spec fn inner(&self) -> Database {
        self.inner_database
    }

    /// The databases known so far.
    pub closed spec fn spec_databases(&self) -> Seq<Database> {
        self.databases@
    }

    /// A root over `root_dir`, with no databases known yet.
    pub fn new(root_dir: &str) -> (r: RootDatabase)
        ensures
            r.inner().spec_name() == "root_database"@,
            r.inner().spec_root_dir() == root_dir@,
            r.inner().spec_tables().len() == 0,
            r.spec_databases().len() == 0,
    {
        RootDatabase {
            inner_database: Database::new("root_database", FileStorage::new(root_dir)),
            databases: Vec::new(),
        }
    }

    pub fn get_root_dir(&self) -> (r: &str)
        ensures
            r@ == self.inner().spec_root_dir(),
    {
        self.inner_database.get_root_dir()
    }

    pub fn get_name(&self) -> (r: &str)
        ensures
            r@ == self.inner().spec_name(),
    {
        self.inner_database.get_name()
    }

    pub fn get_storage(&self) -> (r: &FileStorage)
        ensures
            r.spec_root_dir() == self.inner().spec_root_dir(),
    {
        self.inner_database.get_storage()
    }

    pub fn get_tables(&self) -> (r: &Vec<Table>)
        ensures
            r@ == self.inner().spec_tables(),
    {
        self.inner_database.get_tables()
    }

    /// Reloads the root's own tables from a listing of the root directory.
    pub fn load_tables(&mut self, files: &Vec<String>)
        ensures
            final(self).spec_databases() == old(self).spec_databases(),
            final(self).inner().spec_name() == old(self).inner().spec_name(),
            final(self).inner().spec_root_dir() == old(self).inner().spec_root_dir(),
            table_names_of(final(self).inner().spec_tables()) == table_names(names_view(files@)),
    {
        self.inner_database.load_tables(files);
    }

    pub fn get_databases(&self) -> (r: &Vec<Database>)
        ensures
            r@ == self.spec_databases(),
    {
        &self.databases
    }

    /// Whether a database of that name is known.
    fn knows(&self, name: &str) -> (r: bool)
        ensures
            r == database_names(self.spec_databases()).contains(name@),
    {
        let mut i: usize = 0;
        while i < self.databases.len()
            invariant
                i <= self.databases@.len(),
                forall|j: int| 0 <= j < i ==> self.databases@[j].spec_name() != name@,
            decreases self.databases@.len() - i,
        {
            if same_text(self.databases[i].get_name(), name) {
                assert(database_names(self.spec_databases())[i as int] == name@);
                return true;
            }
            i += 1;
        }
        proof {
            if database_names(self.spec_databases()).contains(name@) {
                let k = choose|k: int|
                    0 <= k < database_names(self.spec_databases()).len()
                        && database_names(self.spec_databases())[k] == name@;
                assert(self.databases@[k].spec_name() == name@);
            }
        }
        false
    }

    /// The first known database named `name`.
    pub fn get_database(&self, name: &str) -> (r: Option<&Database>)
        ensures
            r is None <==> !database_names(self.spec_databases()).contains(name@),
            r matches Some(d) ==> exists|i: int|
                0 <= i < self.spec_databases().len() && self.spec_databases()[i] == *d
                    && d.spec_name() == name@ && forall|j: int|
                    0 <= j < i ==> (#[trigger] self.spec_databases()[j]).spec_name() != name@,
    {
        let mut i: usize = 0;
        while i < self.databases.len()
            invariant
                i <= self.databases@.len(),
                forall|j: int| 0 <= j < i ==> (#[trigger] self.databases@[j]).spec_name() != name@,
            decreases self.databases@.len() - i,
        {
            if same_text(self.databases[i].get_name(), name) {
                assert(database_names(self.spec_databases())[i as int] == name@);
                return Some(&self.databases[i]);
            }
            i += 1;
        }
        proof {
            if database_names(self.spec_databases()).contains(name@) {
                let k = choose|k: int|
                    0 <= k < database_names(self.spec_databases()).len()
                        && database_names(self.spec_databases())[k] == name@;
                assert(self.databases@[k].spec_name() == name@);
            }
        }
        None
    }

    /// Adds a database for each subdirectory of the listing whose name is
    /// not known yet, in listing order; known databases stay as they are,
    /// also where their directory is gone.
    pub fn load_databases(&mut self, dirs: &Vec<String>)
        ensures
            final(self).inner() == old(self).inner(),
            database_names(final(self).spec_databases()) == names_after_load(
                database_names(old(self).spec_databases()),
                names_view(dirs@),
            ),
            final(self).spec_databases().subrange(0, old(self).spec_databases().len() as int)
                == old(self).spec_databases(),
            forall|i: int|
                old(self).spec_databases().len() <= i < final(self).spec_databases().len() ==> {
                    &&& (#[trigger] final(self).spec_databases()[i]).spec_root_dir() == joined_path(
                        old(self).inner().spec_root_dir(),
                        final(self).spec_databases()[i].spec_name(),
                    )
                    &&& final(self).spec_databases()[i].spec_tables().len() == 0
                },
    {
        let ghost start = self.databases@;
        let mut i: usize = 0;
        while i < dirs.len()
            invariant
                i <= dirs@.len(),
                self.inner_database == old(self).inner_database,
                start == old(self).databases@,
                database_names(self.databases@) == names_after_load(
                    database_names(start),
                    names_view(dirs@.subrange(0, i as int)),
                ),
                start.len() <= self.databases@.len(),
                self.databases@.subrange(0, start.len() as int) == start,
                forall|k: int|
                    start.len() <= k < self.databases@.len() ==> {
                        &&& (#[trigger] self.databases@[k]).spec_root_dir() == joined_path(
                            self.inner_database.spec_root_dir(),
                            self.databases@[k].spec_name(),
                        )
                        &&& self.databases@[k].spec_tables().len() == 0
                    },
            decreases dirs@.len() - i,
        {
            let name = dirs[i].as_str();
            let ghost before = self.databases@;
            proof {
                let pre = names_view(dirs@.subrange(0, i as int));
                let next = names_view(dirs@.subrange(0, i + 1));
                assert(next.drop_last() =~= pre);
                assert(next.last() == dirs@[i as int]@);
            }
            if !self.knows(name) {
                let db = self.inner_database.sub_database(name);
                self.databases.push(db);
                proof {
                    assert(database_names(self.databases@) =~= database_names(before).push(name@));
                    assert(self.databases@.subrange(0, start.len() as int) =~= before.subrange(0, start.len() as int));
                }
            }
            i += 1;
        }
        assert(dirs@.subrange(0, i as int) =~= dirs@);
    }

    /// Records a database whose directory `name` was just created under the
    /// root, and returns a handle on it.
    pub fn register_database(&mut self, name: &str) -> (r: Database)
        ensures
            final(self).inner() == old(self).inner(),
            r.spec_name() == name@,
            r.spec_root_dir() == joined_path(old(self).inner().spec_root_dir(), name@),
            r.spec_tables().len() == 0,
            final(self).spec_databases().len() == old(self).spec_databases().len() + 1,
            final(self).spec_databases().drop_last() == old(self).spec_databases(),
            r.is_handle_of(final(self).spec_databases().last()),
    {
        let db = self.inner_database.sub_database(name);
        self.databases.push(db.handle());
        assert(self.databases@.drop_last() =~= old(self).databases@);
        db
    }

    /// Forgets the databases named `name`, whose directory was just removed.
    pub fn forget_database(&mut self, name: &str)
        ensures
            final(self).inner() == old(self).inner(),
            final(self).spec_databases() == without_named(old(self).spec_databases(), name@),
    {
        let ghost all = self.databases@;
        let n = self.databases.len();
        let mut i: usize = 0;
        let mut j: usize = 0;
        while i < self.databases.len()
            invariant
                self.inner_database == old(self).inner_database,
                all == old(self).databases@,
                n == all.len(),
                j <= all.len(),
                i <= self.databases@.len(),
                i == without_named(all.subrange(0, j as int), name@).len(),
                self.databases@ == without_named(all.subrange(0, j as int), name@) + all.subrange(
                    j as int,
                    all.len() as int,
                ),
            decreases all.len() - j,
        {
            let ghost kept = without_named(all.subrange(0, j as int), name@);
            let ghost rest = all.subrange(j as int, all.len() as int);
            proof {
                assert(self.databases@.len() == i + (all.len() - j));
                assert(self.databases@[i as int] == all[j as int]);
                assert(all.subrange(0, j + 1).drop_last() =~= all.subrange(0, j as int));
                assert(all.subrange(0, j + 1).last() == all[j as int]);
                assert(rest.drop_first() =~= all.subrange(j + 1, all.len() as int));
            }
            if same_text(self.databases[i].get_name(), name) {
                self.databases.remove(i);
                assert(self.databases@ =~= kept + rest.drop_first());
            } else {
                assert(self.databases@ =~= kept.push(all[j as int]) + rest.drop_first());
                i += 1;
            }
            j += 1;
        }
        proof {
            assert(j == all.len()) by {
                if j < all.len() {
                    assert(self.databases@.len() == i + (all.len() - j));
                }
            }
            assert(all.subrange(0, j as int) =~= all);
            assert(self.databases@ =~= without_named(all, name@));
        }
    }
}

/// What a database and the root database share: a name, a directory, and
/// the tables found there at the last reload.
pub trait DatabaseTrait {
    spec fn name_view(&self) -> Seq<char>;

    spec fn root_view(&self) -> Seq<char>;

    spec fn tables_view(&self) -> Seq<Table>;

    /// Replaces the cached tables by those whose descriptor files the
    /// directory listing holds.
    fn load_tables(&mut self, files: &Vec<String>)
        ensures
            final(self).name_view() == old(self).name_view(),
            final(self).root_view() == old(self).root_view(),
            table_names_of(final(self).tables_view()) == table_names(names_view(files@)),
    ;

    fn get_name(&self) -> (r: &str)
        ensures
            r@ == self.name_view(),
    ;

    fn get_storage(&self) -> (r: &FileStorage)
        ensures
            r.spec_root_dir() == self.root_view(),
    ;

    fn get_root_dir(&self) -> (r: &str)
        ensures
            r@ == self.root_view(),
    ;

    fn get_tables(&self) -> (r: &Vec<Table>)
        ensures
            r@ == self.tables_view(),
    ;
}

impl DatabaseTrait for Database {
    open spec fn name_view(&self) -> Seq<char> {
        self.spec_name()
    }

    open spec fn root_view(&self) -> Seq<char> {
        self.spec_root_dir()
    }

    open spec fn tables_view(&self) -> Seq<Table> {
        self.spec_tables()
    }

    fn load_tables(&mut self, files: &Vec<String>) {
        Database::load_tables(self, files)
    }

    fn get_name(&self) -> (r: &str) {
        Database::get_name(self)
    }

    fn get_storage(&self) -> (r: &FileStorage) {
        Database::get_storage(self)
    }

    fn get_root_dir(&self) -> (r: &str) {
        Database::get_root_dir(self)
    }

    fn get_tables(&self) -> (r: &Vec<Table>) {
        Database::get_tables(self)
    }
}

impl DatabaseTrait for RootDatabase {
    open spec fn name_view(&self) -> Seq<char> {
        self.inner().spec_name()
    }

    open spec fn root_view(&self) -> Seq<char> {
        self.inner().spec_root_dir()
    }

    open spec fn tables_view(&self) -> Seq<Table> {
        self.inner().spec_tables()
    }

    fn load_tables(&mut self, files: &Vec<String>) {
        RootDatabase::load_tables(self, files)
    }

    fn get_name(&self) -> (r: &str) {
        RootDatabase::get_name(self)
    }

    fn get_storage(&self) -> (r: &FileStorage) {
        RootDatabase::get_storage(self)
    }

    fn get_root_dir(&self) -> (r: &str) {
        RootDatabase::get_root_dir(self)
    }

    fn get_tables(&self) -> (r: &Vec<Table>) {
        RootDatabase::get_tables(self)
    }
}

} // verus!
