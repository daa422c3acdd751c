//! Where a database keeps its files, how they are named, and which files of a
//! directory listing are of which kind.
use vstd::prelude::*;
use crate::text::{extension_of, file_extension, same_text};

verus! {

/// Extension of a table's data file.
pub const TABLE_FILE_DATA_EXTENSION: &'static str = "data";

/// Extension of a table's descriptor file.
pub const TABLE_FILE_DESCRIPTOR_EXTENSION: &'static str = "desc";

/// The kinds of table file.
#[derive(Debug, Clone, Copy, PartialEq, Eq, Hash, Structural)]
pub enum FileExtension {
    Data,
    Descriptor,
    Both,
}

/// The text of an extension.
pub open spec fn extension_text(kind: FileExtension) -> Option<Seq<char>> {
    match kind {
        FileExtension::Data => Some(TABLE_FILE_DATA_EXTENSION@),
        FileExtension::Descriptor => Some(TABLE_FILE_DESCRIPTOR_EXTENSION@),
        FileExtension::Both => None,
    }
}

/// A file of the listing is of the given kind: any file for `Both`, else a
/// file whose extension is that kind's.
pub open spec fn is_of_kind(name: Seq<char>, kind: FileExtension) -> bool {
    match extension_text(kind) {
        None => true,
        Some(e) => extension_of(name) == Some(e),
    }
}

/// The names of the listing that are of the given kind, in listing order.
pub open spec fn files_of_kind(names: Seq<Seq<char>>, kind: FileExtension) -> Seq<Seq<char>>
    decreases names.len(),
{
    if names.len() == 0 {
        Seq::empty()
    } else {
        let rest = files_of_kind(names.drop_last(), kind);
        if is_of_kind(names.last(), kind) {
            rest.push(names.last())
        } else {
            rest
        }
    }
}

/// The characters of each name.
pub open spec fn names_view(names: Seq<String>) -> Seq<Seq<char>> {
    names.map_values(|s: String| s@)
}

/// `dir/name`.
pub open spec fn joined_path(dir: Seq<char>, name: Seq<char>) -> Seq<char> {
    dir + seq!['/'] + name
}

/// `name.desc`.
pub open spec fn descriptor_file(name: Seq<char>) -> Seq<char> {
    name + seq!['.'] + TABLE_FILE_DESCRIPTOR_EXTENSION@
}

/// `name.data`.
pub open spec fn data_file(name: Seq<char>) -> Seq<char> {
    name + seq!['.'] + TABLE_FILE_DATA_EXTENSION@
}

/// The kinds of table file with their extensions: data, then descriptor.
pub fn get_file_type_and_extension() -> (r: Vec<(FileExtension, String)>)
    ensures
        r@.len() == 2,
        r@[0].0 == FileExtension::Data,
        r@[0].1@ == TABLE_FILE_DATA_EXTENSION@,
        r@[1].0 == FileExtension::Descriptor,
        r@[1].1@ == TABLE_FILE_DESCRIPTOR_EXTENSION@,
{
    let mut map = Vec::new();
    map.push((FileExtension::Data, String::from_str(TABLE_FILE_DATA_EXTENSION)));
    map.push((FileExtension::Descriptor, String::from_str(TABLE_FILE_DESCRIPTOR_EXTENSION)));
    map
}

/// `name.ext`.
fn file_name_with(name: &str, ext: &str) -> (r: String)
    ensures
        r@ == name@ + seq!['.'] + ext@,
{
    proof {
        reveal_strlit(".");
    }
    String::from_str(name).concat(".").concat(ext)
}

/// The ending that marks a descriptor file: `.desc`.
pub open spec fn descriptor_suffix() -> Seq<char> {
    seq!['.'] + TABLE_FILE_DESCRIPTOR_EXTENSION@
}

/// The ending that marks a descriptor file.
pub fn descriptor_suffix_text() -> (r: String)
    ensures
        r@ == descriptor_suffix(),
{
    proof {
        reveal_strlit("");
    }
    let r = file_name_with("", TABLE_FILE_DESCRIPTOR_EXTENSION);
    assert(r@ =~= descriptor_suffix());
    r
}

/// The descriptor file of a table: `name.desc`.
pub fn descriptor_file_name(table_name: &str) -> (r: String)
    ensures
        r@ == descriptor_file(table_name@),
{
    file_name_with(table_name, TABLE_FILE_DESCRIPTOR_EXTENSION)
}

/// The data file of a table: `name.data`.
pub fn data_file_name(table_name: &str) -> (r: String)
    ensures
        r@ == data_file(table_name@),
{
    file_name_with(table_name, TABLE_FILE_DATA_EXTENSION)
}

/// A directory that holds files.
#[derive(Debug)]
pub struct FileStorage {
    root_dir: String,
}

impl Clone for FileStorage {
    fn clone(&self) -> (r: FileStorage)
        ensures
            r.spec_root_dir() == self.spec_root_dir(),
    {
        FileStorage { root_dir: self.root_dir.clone() }
    }
}

impl FileStorage {
    /// The directory's path.
    pub closed spec fn spec_root_dir(&self) -> Seq<char> {
        self.root_dir@
    }

    /// Storage in the directory at `root_path`.
    pub fn new(root_path: &str) -> (r: FileStorage)
        ensures
            r.spec_root_dir() == root_path@,
    {
        FileStorage { root_dir: String::from_str(root_path) }
    }

    /// The directory's path.
    pub fn get_root_dir(&self) -> (r: &str)
        ensures
            r@ == self.spec_root_dir(),
    {
        self.root_dir.as_str()
    }

    /// The path of an entry of the directory: `root/name`.
    pub fn path_of(&self, name: &str) -> (r: String)
        ensures
            r@ == joined_path(self.spec_root_dir(), name@),
    {
        proof {
            reveal_strlit("/");
        }
        self.root_dir.clone().concat("/").concat(name)
    }


    /// The files of a directory listing that are of the given kind.
    pub fn list_files_with_extension(entries: &Vec<String>, extension: FileExtension) -> (r: Vec<String>)
        ensures
            names_view(r@) == files_of_kind(names_view(entries@), extension),
    {
        let ext = match extension {
            FileExtension::Data => Some(TABLE_FILE_DATA_EXTENSION),
            FileExtension::Descriptor => Some(TABLE_FILE_DESCRIPTOR_EXTENSION),
            FileExtension::Both => None,
        };
        let mut files: Vec<String> = Vec::new();
        let mut i: usize = 0;
        while i < entries.len()
            invariant
                i <= entries@.len(),
                ext matches Some(e) ==> extension_text(extension) == Some(e@),
                ext is None ==> extension_text(extension) is None,
                names_view(files@) == files_of_kind(names_view(entries@.subrange(0, i as int)), extension),
            decreases entries@.len() - i,
        {
            let name = entries[i].as_str();
            let keep = match ext {
                None => true,
                Some(e) => match file_extension(name) {
                    None => false,
                    Some(found) => same_text(found.as_str(), e),
                },
            };
            proof {
                let pre = names_view(entries@.subrange(0, i as int));
                let next = names_view(entries@.subrange(0, i + 1));
                assert(next.drop_last() =~= pre);
                assert(next.last() == entries@[i as int]@);
                assert(keep == is_of_kind(entries@[i as int]@, extension));
            }
            let ghost before = files@;
            if keep {
                files.push(entries[i].clone());
                proof {
                    assert(names_view(files@) =~= names_view(before).push(entries@[i as int]@));
                }
            }
            i += 1;
        }
        assert(entries@.subrange(0, i as int) =~= entries@);
        files
    }

    /// All files of a directory listing.
    pub fn list_files(entries: &Vec<String>) -> (r: Vec<String>)
        ensures
            names_view(r@) == names_view(entries@),
    {
        let r = Self::list_files_with_extension(entries, FileExtension::Both);
        proof {
            lemma_all_files(names_view(entries@));
        }
        r
    }
}

proof fn lemma_all_files(names: Seq<Seq<char>>)
    ensures
        files_of_kind(names, FileExtension::Both) == names,
    decreases names.len(),
{
    if names.len() > 0 {
        lemma_all_files(names.drop_last());
        assert(names.drop_last().push(names.last()) =~= names);
    }
}

} // verus!
