use epub_optimizer::entry_path::sanitize_entry_name;

fn dest(name: &str) -> Option<String> {
    sanitize_entry_name(name)
}

#[test]
fn plain_name_is_kept() {
    assert_eq!(dest("OEBPS/chapter1.xhtml"), Some("OEBPS/chapter1.xhtml".to_string()));
    assert_eq!(dest("mimetype"), Some("mimetype".to_string()));
}

#[test]
fn dot_and_empty_components_are_dropped() {
    assert_eq!(dest("a/./b//c"), Some("a/b/c".to_string()));
    assert_eq!(dest("./a"), Some("a".to_string()));
    assert_eq!(dest("a\\b"), Some("a/b".to_string()));
}

#[test]
fn parent_components_are_refused() {
    assert_eq!(dest("../evil"), None);
    assert_eq!(dest("a/../../evil"), None);
    assert_eq!(dest("a/../b"), None);
    assert_eq!(dest("..\\evil"), None);
}

#[test]
fn absolute_names_are_refused() {
    assert_eq!(dest("/etc/passwd"), None);
    assert_eq!(dest("\\windows\\x"), None);
}

#[test]
fn names_naming_nothing_are_refused() {
    assert_eq!(dest(""), None);
    assert_eq!(dest("."), None);
    assert_eq!(dest("./"), None);
}

#[test]
fn nul_is_refused() {
    assert_eq!(dest("a\0b"), None);
}

#[test]
fn dots_inside_names_are_fine() {
    assert_eq!(dest("..a/b..c"), Some("..a/b..c".to_string()));
}
