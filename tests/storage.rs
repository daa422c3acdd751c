use red::{
    data_file_name, descriptor_file_name, get_file_type_and_extension, FileExtension, FileStorage,
    TABLE_FILE_DATA_EXTENSION, TABLE_FILE_DESCRIPTOR_EXTENSION,
};

fn listing() -> Vec<String> {
    vec![
        "t.data".to_string(),
        "t.desc".to_string(),
        "readme".to_string(),
        ".desc".to_string(),
        "x.data.desc".to_string(),
        "y.desc.data".to_string(),
    ]
}

#[test]
fn list_files_with_extension_keeps_kind_in_order() {
    let files = listing();
    assert_eq!(
        FileStorage::list_files_with_extension(&files, FileExtension::Data),
        vec!["t.data".to_string(), "y.desc.data".to_string()]
    );
    assert_eq!(
        FileStorage::list_files_with_extension(&files, FileExtension::Descriptor),
        vec!["t.desc".to_string(), "x.data.desc".to_string()]
    );
    assert_eq!(FileStorage::list_files_with_extension(&files, FileExtension::Both), files);
}

#[test]
fn list_files_keeps_everything() {
    let files = listing();
    assert_eq!(FileStorage::list_files(&files), files);
    assert!(FileStorage::list_files(&Vec::new()).is_empty());
}

#[test]
fn table_file_names() {
    assert_eq!(descriptor_file_name("users"), "users.desc");
    assert_eq!(data_file_name("users"), "users.data");
    assert_eq!(TABLE_FILE_DATA_EXTENSION, "data");
    assert_eq!(TABLE_FILE_DESCRIPTOR_EXTENSION, "desc");
}

#[test]
fn file_types_and_extensions() {
    let kinds = get_file_type_and_extension();
    assert_eq!(kinds.len(), 2);
    assert_eq!(kinds[0], (FileExtension::Data, "data".to_string()));
    assert_eq!(kinds[1], (FileExtension::Descriptor, "desc".to_string()));
}

#[test]
fn storage_paths() {
    let storage = FileStorage::new("tests/workdir");
    assert_eq!(storage.get_root_dir(), "tests/workdir");
    assert_eq!(storage.path_of("customer"), "tests/workdir/customer");
}
