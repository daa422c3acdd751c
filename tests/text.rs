use red::text::{ends_with, file_extension, same_text, strip_one_suffix};

#[test]
fn text_comparison() {
    assert!(same_text("abc", "abc"));
    assert!(!same_text("abc", "abd"));
    assert!(!same_text("abc", "ab"));
    assert!(same_text("", ""));
}

#[test]
fn text_suffixes() {
    assert!(ends_with("users.desc", ".desc"));
    assert!(!ends_with("users.data", ".desc"));
    assert!(!ends_with("sc", ".desc"));
    assert_eq!(strip_one_suffix("a.desc.desc", ".desc"), "a.desc");
    assert_eq!(strip_one_suffix("a.desc", ".desc"), "a");
    assert_eq!(strip_one_suffix("a.data", ".desc"), "a.data");
    assert_eq!(strip_one_suffix("abc", ""), "abc");
}

#[test]
fn file_extensions() {
    assert_eq!(file_extension("t.data"), Some("data".to_string()));
    assert_eq!(file_extension("a.b.c"), Some("c".to_string()));
    assert_eq!(file_extension("t."), Some("".to_string()));
    assert_eq!(file_extension(".desc"), None);
    assert_eq!(file_extension("readme"), None);
}
