use vivaldi_mod_interceptor::discovery::{
    clean_registry_value, encode_wide, exe_from_hint, find_active_version_dir, resolve_vivaldi,
    trim_char, version_resources_dir, version_window_html, vivaldi_exe_candidates, HintKind,
    VersionDirEntry, VersionParts,
};

fn entry(name: &str, has: bool) -> VersionDirEntry {
    VersionDirEntry { name: name.to_string(), has_window_html: has }
}

#[test]
fn version_parse() {
    assert_eq!(VersionParts::parse("7.1.3570.39").map(|v| v.0), Some(vec![7, 1, 3570, 39]));
    assert_eq!(VersionParts::parse("12").map(|v| v.0), Some(vec![12]));
    assert!(VersionParts::parse("").is_none());
    assert!(VersionParts::parse("1..2").is_none());
    assert!(VersionParts::parse("1.2a").is_none());
    assert!(VersionParts::parse("Locales").is_none());
    assert!(VersionParts::parse("18446744073709551616").is_none());
    assert_eq!(VersionParts::parse("+5").map(|v| v.0), Some(vec![5]));
}

#[test]
fn version_order_is_lexicographic() {
    let a = VersionParts(vec![7, 1, 3570]);
    let b = VersionParts(vec![7, 2]);
    let c = VersionParts(vec![7, 1]);
    assert!(a.le(&b));
    assert!(!b.le(&a));
    assert!(c.le(&a));
    assert!(!a.le(&c));
    assert!(a.le(&a));
}

#[test]
fn active_version_is_highest_with_window_html() {
    let entries = vec![
        entry("7.0.1", true),
        entry("7.2.0", false),
        entry("Locales", true),
        entry("7.1.10", true),
        entry("7.1.9", true),
    ];
    let (v, dir, win) = find_active_version_dir(r"C:\V\Application", &entries).unwrap();
    assert_eq!(v, "7.1.10");
    assert_eq!(dir, r"C:\V\Application\7.1.10");
    assert_eq!(win, r"C:\V\Application\7.1.10\resources\vivaldi\window.html");
}

#[test]
fn active_version_tie_takes_first_listed() {
    let entries = vec![entry("1.00", true), entry("1.0", true)];
    let (v, _, _) = find_active_version_dir("app", &entries).unwrap();
    assert_eq!(v, "1.00");
}

#[test]
fn no_version_directory_is_an_error() {
    let entries = vec![entry("x", true), entry("1.2", false)];
    assert_eq!(
        find_active_version_dir(r"C:\A", &entries),
        Err(r"No valid Vivaldi version directory with resources/vivaldi/window.html found in C:\A".to_string())
    );
}

#[test]
fn resolve_builds_target() {
    let entries = vec![entry("6.9.1", true)];
    let t = resolve_vivaldi(r"C:\V\Application\vivaldi.exe", r"C:\V\Application", &entries).unwrap();
    assert_eq!(t.exe_path, r"C:\V\Application\vivaldi.exe");
    assert_eq!(t.app_dir, r"C:\V\Application");
    assert_eq!(t.version, "6.9.1");
    assert_eq!(t.version_dir, r"C:\V\Application\6.9.1");
    assert_eq!(t.resources_dir, r"C:\V\Application\6.9.1\resources\vivaldi");
    assert_eq!(t.window_html, r"C:\V\Application\6.9.1\resources\vivaldi\window.html");
    assert!(resolve_vivaldi("a", "b", &[]).is_err());
}

#[test]
fn version_paths() {
    assert_eq!(version_resources_dir(r"C:\x\1.0"), r"C:\x\1.0\resources\vivaldi");
    assert_eq!(version_window_html(r"C:\x\1.0\"), r"C:\x\1.0\resources\vivaldi\window.html");
}

#[test]
fn hints() {
    assert_eq!(exe_from_hint(r"D:\v.exe", HintKind::File), Some(r"D:\v.exe".to_string()));
    assert_eq!(exe_from_hint(r"D:\Viv", HintKind::DirWithExe), Some(r"D:\Viv\vivaldi.exe".to_string()));
    assert_eq!(exe_from_hint(r"D:\nothing", HintKind::Other), None);
}

#[test]
fn candidates_in_documented_order() {
    let c = vivaldi_exe_candidates(Some(r"C:\L"), None, Some(r"C:\P86"), &['C', 'F']);
    assert_eq!(
        c,
        vec![
            r"C:\L\Vivaldi\Application\vivaldi.exe".to_string(),
            r"C:\P86\Vivaldi\Application\vivaldi.exe".to_string(),
            r"C:\Vivaldi\Application\vivaldi.exe".to_string(),
            r"C:\Vivaldi Snapshot\Application\vivaldi.exe".to_string(),
            r"F:\Vivaldi\Application\vivaldi.exe".to_string(),
            r"F:\Vivaldi Snapshot\Application\vivaldi.exe".to_string(),
        ]
    );
    assert!(vivaldi_exe_candidates(None, None, None, &[]).is_empty());
}

#[test]
fn registry_values_are_cleaned() {
    assert_eq!(clean_registry_value("\"C:\\x\\vivaldi.exe\"\0"), r"C:\x\vivaldi.exe");
    assert_eq!(clean_registry_value("\0\0plain\0"), "plain");
    assert_eq!(trim_char("xxaxbxx", 'x'), "axb");
    assert_eq!(trim_char("xxx", 'x'), "");
}

#[test]
fn wide_strings_are_nul_terminated_utf16() {
    assert_eq!(encode_wide("Ab"), vec![0x41, 0x62, 0]);
    assert_eq!(encode_wide(""), vec![0]);
    assert_eq!(encode_wide("é😀"), vec![0xE9, 0xD83D, 0xDE00, 0]);
}
