use vivaldi_mod_interceptor::patcher::{
    inject_into_html, is_patched, patch_window_html, strip_hook_lines, unpatch_window_html,
    PageFiles, HOOK_SCRIPT_TAG,
};

const PRISTINE_HTML: &str = r#"<!DOCTYPE html>
<html>
<head>
  <meta charset="UTF-8" />
  <title>Vivaldi</title>
  <link rel="stylesheet" href="style/common.css" />
</head>
<body>
  <div id="app"></div>
</body>
</html>"#;

fn fresh(page: &str) -> PageFiles {
    PageFiles { page: page.to_string(), backup: None }
}

#[test]
fn test_html_patch_idempotency() {
    let files = fresh(PRISTINE_HTML);

    // 1. Initial state: not patched
    assert!(!is_patched(&files.page));

    // 2. First patch: changes the page and keeps the pristine page as backup
    let patched = patch_window_html(&files).expect("first patch writes");
    assert!(is_patched(&patched.page));
    assert!(patched.page.contains("inject_bundle.js"));
    assert!(patched.page.contains("<!-- VIVALDI-JIT-HOOK -->"));
    assert!(patched.page.contains("</body>"));
    assert_eq!(patched.backup.as_deref(), Some(PRISTINE_HTML));
    assert_eq!(patched.page.matches("inject_bundle.js").count(), 1);

    // 3. Second patch: nothing to write
    assert!(patch_window_html(&patched).is_none());
    assert_eq!(patched.page.matches("inject_bundle.js").count(), 1);

    // 4. Unpatch: restores the pristine page
    let unpatched = unpatch_window_html(&patched).expect("unpatch writes");
    assert!(!is_patched(&unpatched.page));
    assert_eq!(unpatched.page, PRISTINE_HTML);
}

#[test]
fn test_html_patch_without_body_tag() {
    let minimal_html = "<div>Minimal content</div>";
    let patched = patch_window_html(&fresh(minimal_html)).expect("patch writes");
    assert!(patched.page.contains("inject_bundle.js"));
    assert!(patched.page.starts_with(minimal_html));
    assert_eq!(patched.page, format!("{}\n{}\n", minimal_html, HOOK_SCRIPT_TAG));
}

#[test]
fn inject_goes_before_last_closing_body_tag_in_any_case() {
    let html = "<BODY>a</BODY><p>x</p></Body>tail";
    let out = inject_into_html(html);
    assert_eq!(
        out,
        format!("<BODY>a</BODY><p>x</p>{}\n</Body>tail", HOOK_SCRIPT_TAG)
    );
}

#[test]
fn inject_leaves_other_scripts_alone() {
    let html = "<body><script src=\"injectMods.js\"></script>\n</body>";
    let out = inject_into_html(html);
    assert!(out.contains("<script src=\"injectMods.js\"></script>"));
    assert_eq!(
        out,
        format!("<body><script src=\"injectMods.js\"></script>\n{}\n</body>", HOOK_SCRIPT_TAG)
    );
}

#[test]
fn patch_keeps_existing_backup() {
    let files = PageFiles { page: "<body>\n</body>".to_string(), backup: Some("pristine".to_string()) };
    let patched = patch_window_html(&files).unwrap();
    assert_eq!(patched.backup.as_deref(), Some("pristine"));
    let restored = unpatch_window_html(&patched).unwrap();
    assert_eq!(restored.page, "pristine");
}

#[test]
fn unpatch_without_backup_drops_hook_lines() {
    let page = format!("<body>\n{}\n</body>", HOOK_SCRIPT_TAG);
    let restored = unpatch_window_html(&fresh(&page)).unwrap();
    assert_eq!(restored.page, "<body>\n</body>");
    assert!(restored.backup.is_none());
}

#[test]
fn unpatch_of_unpatched_page_without_backup_writes_nothing() {
    assert!(unpatch_window_html(&fresh("<body></body>")).is_none());
    assert!(strip_hook_lines("<body></body>").is_none());
}

#[test]
fn unpatch_with_backup_restores_even_unpatched_page() {
    let files = PageFiles { page: "changed".to_string(), backup: Some("orig".to_string()) };
    let restored = unpatch_window_html(&files).unwrap();
    assert_eq!(restored.page, "orig");
    assert_eq!(restored.backup.as_deref(), Some("orig"));
}

#[test]
fn strip_hook_lines_handles_crlf_and_marker_lines() {
    let page = "a\r\n  <!-- VIVALDI-JIT-HOOK -->\r\n<script src=\"inject_bundle.js\"></script>\r\nb\r\n";
    assert_eq!(strip_hook_lines(page).as_deref(), Some("a\nb"));
}

#[test]
fn is_patched_looks_for_identifier() {
    assert!(is_patched("x inject_bundle.js y"));
    assert!(!is_patched("inject_bundle.j"));
}
