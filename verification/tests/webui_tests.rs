use vivaldi_mod_interceptor::webui::{
    err_json, extract_boundary, extract_filename, find_bytes, find_bytes_from, mod_uploads, pad_to,
    parse_multipart, reply_of, route, split_url, upload_files, upload_kind, HttpMethod, Reply, Route,
};
use vivaldi_mod_interceptor::config::ModType;

#[test]
fn routes() {
    assert_eq!(route(HttpMethod::Get, "/", ""), Route::Index);
    assert_eq!(route(HttpMethod::Get, "/index.html", ""), Route::Index);
    assert_eq!(route(HttpMethod::Get, "/api/status", ""), Route::Status);
    assert_eq!(route(HttpMethod::Get, "/api/mods", "rescan=true"), Route::ListMods { rescan: true });
    assert_eq!(route(HttpMethod::Get, "/api/mods", "x=1"), Route::ListMods { rescan: false });
    assert_eq!(route(HttpMethod::Get, "/api/config", ""), Route::GetConfig);
    assert_eq!(route(HttpMethod::Post, "/api/config", ""), Route::SaveConfig);
    assert_eq!(route(HttpMethod::Post, "/api/toggle", ""), Route::Toggle);
    assert_eq!(route(HttpMethod::Post, "/api/set-order", ""), Route::SetOrder);
    assert_eq!(route(HttpMethod::Post, "/api/import", ""), Route::Import);
    assert_eq!(route(HttpMethod::Post, "/api/patch", ""), Route::Patch);
    assert_eq!(route(HttpMethod::Post, "/api/unpatch", "clean=true"), Route::Unpatch { clean: true });
    assert_eq!(route(HttpMethod::Post, "/api/unpatch", ""), Route::Unpatch { clean: false });
    assert_eq!(route(HttpMethod::Post, "/api/install-hook", ""), Route::InstallHook);
    assert_eq!(route(HttpMethod::Post, "/api/uninstall-hook", ""), Route::UninstallHook);
    assert_eq!(route(HttpMethod::Post, "/api/shutdown", ""), Route::Shutdown);
    assert_eq!(route(HttpMethod::Get, "/api/toggle", ""), Route::NotFound);
    assert_eq!(route(HttpMethod::Post, "/", ""), Route::NotFound);
    assert_eq!(route(HttpMethod::Other, "/", ""), Route::NotFound);
}

#[test]
fn urls_split_at_question_marks() {
    assert_eq!(split_url("/api/mods?rescan=true"), ("/api/mods".to_string(), "rescan=true".to_string()));
    assert_eq!(split_url("/a?b?c"), ("/a".to_string(), "b".to_string()));
    assert_eq!(split_url("/plain"), ("/plain".to_string(), String::new()));
}

#[test]
fn boundaries() {
    assert_eq!(extract_boundary("multipart/form-data; boundary=\"abc\""), "abc");
    assert_eq!(extract_boundary("multipart/form-data;boundary=----x1"), "----x1");
    assert_eq!(extract_boundary("text/plain"), "");
}

#[test]
fn filenames() {
    assert_eq!(
        extract_filename("Content-Disposition: form-data; name=\"f\"; FILENAME=\"x.js\"\r\nContent-Type: a"),
        Some("x.js".to_string())
    );
    assert_eq!(extract_filename("content-type: text/css\ncontent-disposition: attachment; filename=y.css"),
        Some("y.css".to_string()));
    assert_eq!(extract_filename("Content-Disposition: form-data; name=\"f\""), None);
    assert_eq!(extract_filename("X-Other: filename=\"z\""), None);
}

#[test]
fn byte_search() {
    assert_eq!(find_bytes(b"hello world", b"o w"), Some(4));
    assert_eq!(find_bytes(b"aaa", b"aa"), Some(0));
    assert_eq!(find_bytes(b"abc", b""), None);
    assert_eq!(find_bytes(b"ab", b"abc"), None);
    assert_eq!(find_bytes_from(b"abcabc", 1, b"abc"), Some(2));
}

#[test]
fn multipart_bodies() {
    let body = b"--XYZ\r\nContent-Disposition: form-data; name=\"file\"; filename=\"a.css\"\r\nContent-Type: text/css\r\n\r\nbody{}\r\n--XYZ\r\nContent-Disposition: form-data; name=\"note\"\r\n\r\nignored\r\n--XYZ\r\nContent-Disposition: form-data; filename=\"b.js\"\r\n\r\nrun();\r\n--XYZ--\r\n";
    let parts = parse_multipart(body, "XYZ").unwrap();
    assert_eq!(
        parts,
        vec![("a.css".to_string(), b"body{}".to_vec()), ("b.js".to_string(), b"run();".to_vec())]
    );
    assert_eq!(parse_multipart(b"no delimiter here", "XYZ"), Some(Vec::new()));
    assert_eq!(parse_multipart(b"--XYZ\r\nContent-Disposition: x; filename=q\r\n\r\nunterminated", "XYZ"), Some(Vec::new()));
}

#[test]
fn error_bodies() {
    assert_eq!(err_json(400, "bad \"x\""), (400, "{\"error\":\"bad 'x'\"}".to_string()));
    assert_eq!(err_json(404, "Mod 'm' not found."), (404, "{\"error\":\"Mod 'm' not found.\"}".to_string()));
}

#[test]
fn padding() {
    assert_eq!(pad_to("ab", 5), "ab   ");
    assert_eq!(pad_to("abcdef", 3), "abcdef");
    assert_eq!(pad_to("é", 3), "é ");
}

#[test]
fn fixed_replies() {
    assert_eq!(reply_of(Route::Index), Reply::Page);
    assert_eq!(
        reply_of(route(HttpMethod::Get, "/api/shutdown", "")),
        Reply::Fixed { status: 404, body: r#"{"error":"Not found"}"#.to_string(), shutdown: false }
    );
    assert_eq!(
        reply_of(route(HttpMethod::Post, "/api/shutdown", "")),
        Reply::Fixed { status: 200, body: r#"{"message":"Shutting down"}"#.to_string(), shutdown: true }
    );
    assert_eq!(reply_of(Route::Toggle), Reply::Handler);
    assert_eq!(reply_of(Route::ListMods { rescan: true }), Reply::Handler);
}

#[test]
fn upload_checks() {
    assert_eq!(upload_kind("a.CSS"), Some(ModType::Css));
    assert_eq!(upload_kind(".js"), Some(ModType::Js));
    assert_eq!(upload_kind("js"), Some(ModType::Js));
    assert_eq!(upload_kind("a.txt"), None);
    assert_eq!(upload_files("text/plain", b"x"), Err("Missing multipart boundary in Content-Type".to_string()));
    assert_eq!(
        upload_files("multipart/form-data; boundary=B", b"nothing"),
        Err("No file parts found in multipart body".to_string())
    );
    let parts = vec![("a.txt".to_string(), b"x".to_vec()), ("b.js".to_string(), b"y".to_vec())];
    assert_eq!(mod_uploads(&parts), Ok(vec![("b.js".to_string(), b"y".to_vec())]));
    assert_eq!(
        mod_uploads(&parts[..1]),
        Err("No valid .css or .js files found in upload".to_string())
    );
}
