use vivaldi_mod_interceptor::config::ModConfig;
use vivaldi_mod_interceptor::json::{
    get_member, set_order_from_doc, set_order_request, settings_from_doc, settings_request,
    toggle_from_doc, toggle_request, JsonDoc, JsonScalar,
};

#[test]
fn toggle_requests() {
    assert_eq!(toggle_request(r#"{"name":"Theme.css"}"#), Ok("Theme.css".to_string()));
    assert_eq!(toggle_request("not json"), Err("Invalid JSON body".to_string()));
    assert_eq!(toggle_request(r#"{"name":5}"#), Err("Missing 'name' field".to_string()));
    assert_eq!(toggle_request(r#"["name"]"#), Err("Missing 'name' field".to_string()));
    assert_eq!(toggle_request("{}"), Err("Missing 'name' field".to_string()));
}

#[test]
fn order_requests() {
    assert_eq!(set_order_request(r#"{"name":"a.js","order":-3}"#), Ok(("a.js".to_string(), -3)));
    assert_eq!(set_order_request(r#"{"name":"a.js","order":4294967297}"#), Ok(("a.js".to_string(), 1)));
    assert_eq!(
        set_order_request(r#"{"name":"a.js","order":1.5}"#),
        Err("Missing or invalid 'order' field".to_string())
    );
    assert_eq!(set_order_request(r#"{"order":1}"#), Err("Missing 'name' field".to_string()));
    assert_eq!(set_order_request("{"), Err("Invalid JSON body".to_string()));
}

#[test]
fn settings_requests() {
    let u = settings_request(
        r##"{"vivaldi_path":"D:\\V\\vivaldi.exe","ui_ready_selector":"#main","init_delay_ms":100,
            "detach_timeout_ms":4294967296,"exe_name":"v.exe","auto_patch":false}"##,
    )
    .unwrap();
    assert_eq!(u.vivaldi_path, Some(Some(r"D:\V\vivaldi.exe".to_string())));
    assert_eq!(u.ui_ready_selector.as_deref(), Some("#main"));
    assert_eq!(u.init_delay_ms, Some(100));
    assert_eq!(u.detach_timeout_ms, Some(4294967296));
    assert_eq!(u.exe_name.as_deref(), Some("v.exe"));
    assert_eq!(u.auto_patch, Some(false));

    let mut c = ModConfig::default();
    c.apply_settings(u);
    assert_eq!(c.vivaldi_path.as_deref(), Some(r"D:\V\vivaldi.exe"));
    assert_eq!(c.ui_ready_selector, "#main");
    assert_eq!(c.init_delay_ms, 100);
    assert_eq!(c.detach_timeout_ms, 0);
    assert_eq!(c.exe_name, "v.exe");
    assert!(!c.auto_patch);
}

#[test]
fn settings_path_clearing_and_wrong_types() {
    let cleared = settings_request(r#"{"vivaldi_path":""}"#).unwrap();
    assert_eq!(cleared.vivaldi_path, Some(None));
    let null = settings_request(r#"{"vivaldi_path":null}"#).unwrap();
    assert_eq!(null.vivaldi_path, Some(None));
    let missing = settings_request("{}").unwrap();
    assert_eq!(missing.vivaldi_path, Some(None));
    let kept = settings_request(r#"{"vivaldi_path":7,"init_delay_ms":-1,"auto_patch":"yes"}"#).unwrap();
    assert_eq!(kept.vivaldi_path, None);
    assert_eq!(kept.init_delay_ms, None);
    assert_eq!(kept.auto_patch, None);
    assert!(settings_request("[1").is_err());

    let mut c = ModConfig { vivaldi_path: Some("x".to_string()), ..ModConfig::default() };
    c.apply_settings(kept);
    assert_eq!(c.vivaldi_path.as_deref(), Some("x"));
    assert_eq!(c.init_delay_ms, 60);
}

#[test]
fn parsed_documents() {
    let d = JsonDoc {
        object: true,
        members: vec![
            ("name".to_string(), JsonScalar::Str("m.css".to_string())),
            ("order".to_string(), JsonScalar::Number(Some(7), Some(7))),
        ],
    };
    assert_eq!(toggle_from_doc(&d), Ok("m.css".to_string()));
    assert_eq!(set_order_from_doc(&d), Ok(("m.css".to_string(), 7)));
    assert!(matches!(get_member(&d, "order"), Some(JsonScalar::Number(Some(7), _))));
    assert!(get_member(&d, "Order").is_none());
    let not_object = JsonDoc { object: false, members: Vec::new() };
    assert_eq!(toggle_from_doc(&not_object), Err("Missing 'name' field".to_string()));
    assert_eq!(settings_from_doc(&not_object).vivaldi_path, Some(None));
}
