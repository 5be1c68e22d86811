use vivaldi_mod_interceptor::paths::{file_extension, join_path, paths_equal, strip_unc_prefix};

#[test]
fn joins() {
    assert_eq!(join_path(r"C:\a", "b"), r"C:\a\b");
    assert_eq!(join_path(r"C:\a\", "b"), r"C:\a\b");
    assert_eq!(join_path("C:/a/", "b"), "C:/a/b");
    assert_eq!(join_path("C:", "b"), "C:b");
    assert_eq!(join_path("", "b"), "b");
}

#[test]
fn joins_with_prefixed_or_rooted_components() {
    assert_eq!(join_path(r"C:\a", r"D:\x.css"), r"D:\x.css");
    assert_eq!(join_path(r"C:\a", "D:x"), "D:x");
    assert_eq!(join_path(r"C:\a", r"\\srv\share\x"), r"\\srv\share\x");
    assert_eq!(join_path(r"C:\a\b", r"\x.css"), r"C:\x.css");
    assert_eq!(join_path(r"rel\dir", "/x"), "/x");
}

#[test]
fn extensions() {
    assert_eq!(file_extension("style.min.CSS"), Some("CSS".to_string()));
    assert_eq!(file_extension("noext"), None);
    assert_eq!(file_extension(".hidden"), None);
    assert_eq!(file_extension("a."), Some(String::new()));
    assert_eq!(file_extension(".."), None);
    assert_eq!(file_extension("..."), Some(String::new()));
}

#[test]
fn unc_prefix() {
    assert_eq!(strip_unc_prefix(r"\\?\C:\Vivaldi\vivaldi.exe"), r"C:\Vivaldi\vivaldi.exe");
    assert_eq!(strip_unc_prefix(r"C:\x"), r"C:\x");
}

#[test]
fn joins_keep_the_directory_prefix_for_rooted_components() {
    assert_eq!(join_path(r"\\srv\share\dir", r"\x"), r"\\srv\share\x");
    assert_eq!(join_path(r"\\srv", r"\x"), r"\\srv\x");
    assert_eq!(join_path(r"\\?\C:\a", r"\x"), r"\\?\C:\x");
    assert_eq!(join_path(r"\\?\UNC\srv\sh\a", r"\x"), r"\\?\UNC\srv\sh\x");
    assert_eq!(join_path(r"\\.\COM1\a", r"\x"), r"\\.\COM1\x");
}

#[test]
fn windows_path_equality() {
    assert!(paths_equal(r"C:\a\b", "c:/a/b/"));
    assert!(paths_equal(r"C:\a\.\b", r"C:\a\b"));
    assert!(paths_equal(r"\\srv\share\x", "//srv/share/x"));
    assert!(!paths_equal(r"C:\A", r"C:\a"));
    assert!(!paths_equal(r"C:\a", "C:a"));
    assert!(!paths_equal(r"\\?\C:\a", r"C:\a"));
    assert!(!paths_equal("./a", "a"));
    assert!(!paths_equal(r"a\..\b", "b"));
    assert!(!paths_equal(r"\\?\C:\a\.\b", r"\\?\C:\a\b"));
    assert!(!paths_equal(r"\\?\C:\a/b", r"\\?\C:\a\b"));
}
