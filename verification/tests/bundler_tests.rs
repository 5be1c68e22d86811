use vivaldi_mod_interceptor::bundler::{
    build_css_bundle, bundle_mods, compile_bundle, mirror_copies, CSS_HEADER, JS_HEADER,
};
use vivaldi_mod_interceptor::config::{ModConfig, ModItem, ModType};

fn item(name: &str, t: ModType, enabled: bool, order: i32) -> ModItem {
    ModItem { name: name.to_string(), mod_type: t, enabled, order, description: String::new() }
}

#[test]
fn test_bundler_compilation() {
    let mut config = ModConfig {
        version: 1,
        vivaldi_path: None,
        auto_patch: true,
        mods: Vec::new(),
        ..ModConfig::default()
    };
    let (css_name, css_type) = ModConfig::check_import(Some("test_style.css"), Some("css")).unwrap();
    config.register_mod(&css_name, css_type);
    let (js_name, js_type) = ModConfig::check_import(Some("test_script.js"), Some("js")).unwrap();
    config.register_mod(&js_name, js_type);
    assert_eq!(css_name, "test_style.css");
    assert_eq!(js_name, "test_script.js");

    let css_sources = vec![Some("body { background: red !important; }".to_string())];
    let js_sources = vec![Some("console.log('hello world mod');".to_string())];
    let compiled = compile_bundle(&config, r"C:\res\vivaldi", &css_sources, &js_sources);
    assert!(compiled.result.css_count >= 1);
    assert!(compiled.result.js_count >= 1);
    assert_eq!(compiled.result.css_path, r"C:\res\vivaldi\inject_bundle.css");
    assert_eq!(compiled.result.js_path, r"C:\res\vivaldi\inject_bundle.js");

    assert!(compiled.css_bundle.contains("background: red !important"));
    assert!(compiled.css_bundle.contains("test_style.css"));

    assert!(compiled.js_bundle.contains("hello world mod"));
    assert!(compiled.js_bundle.contains("test_script.js"));
    assert!(compiled.js_bundle.contains("waitForUI"));
    assert!(compiled.js_bundle.contains("inject_bundle.css"));
}

#[test]
fn css_bundle_exact_text() {
    let mods = vec![item("a.css", ModType::Css, true, -2)];
    let (text, count) = build_css_bundle(&mods, &[Some("x{}".to_string())]);
    assert_eq!(count, 1);
    assert_eq!(text, format!("{}/* === [Mod: a.css (order: -2)] === */\nx{{}}\n\n", CSS_HEADER));
}

#[test]
fn unreadable_sources_are_skipped() {
    let mods = vec![item("a.css", ModType::Css, true, 0), item("b.css", ModType::Css, true, 1)];
    let (text, count) = build_css_bundle(&mods, &[None, Some("B".to_string())]);
    assert_eq!(count, 1);
    assert!(!text.contains("a.css"));
    assert!(text.contains("b.css"));
    let (empty, none) = build_css_bundle(&mods, &[]);
    assert_eq!(none, 0);
    assert_eq!(empty, CSS_HEADER);
}

#[test]
fn bundle_holds_enabled_mods_of_type_by_priority_then_name() {
    let config = ModConfig {
        mods: vec![
            item("z.css", ModType::Css, true, 1),
            item("B.css", ModType::Css, true, 5),
            item("a.css", ModType::Css, true, 5),
            item("off.css", ModType::Css, false, 0),
            item("s.js", ModType::Js, true, 0),
        ],
        ..ModConfig::default()
    };
    let css: Vec<String> = bundle_mods(&config, ModType::Css).iter().map(|m| m.name.clone()).collect();
    assert_eq!(css, vec!["z.css", "a.css", "B.css"]);
    let js: Vec<String> = bundle_mods(&config, ModType::Js).iter().map(|m| m.name.clone()).collect();
    assert_eq!(js, vec!["s.js"]);
}

#[test]
fn js_bundle_reports_counts_and_waits_for_selector() {
    let config = ModConfig {
        ui_ready_selector: "#app".to_string(),
        init_delay_ms: 250,
        mods: vec![item("m.js", ModType::Js, true, 0)],
        ..ModConfig::default()
    };
    let compiled = compile_bundle(&config, "res", &[], &[Some("run();".to_string())]);
    assert_eq!(compiled.result.css_count, 0);
    assert_eq!(compiled.result.js_count, 1);
    assert!(compiled.js_bundle.starts_with(JS_HEADER));
    assert!(compiled.js_bundle.contains("Successfully injected 0 CSS and 1 JS mods."));
    assert!(compiled.js_bundle.contains("document.querySelector('#app')"));
    assert!(compiled.js_bundle.contains("setTimeout(executeMods, 250);"));
    assert!(compiled.js_bundle.contains("            (function() {\nrun();\n            })();"));
    assert!(compiled.js_bundle.contains("Error executing mod \"m.js\":"));
}

#[test]
fn mirror_copies_every_registered_mod() {
    let config = ModConfig {
        mods: vec![item("a.css", ModType::Css, false, 0), item("b.js", ModType::Js, true, 0)],
        ..ModConfig::default()
    };
    let copies = mirror_copies(&config, r"C:\app", r"C:\res");
    assert_eq!(
        copies,
        vec![
            (r"C:\app\user_mods\css\a.css".to_string(), r"C:\res\user_mods\css\a.css".to_string()),
            (r"C:\app\user_mods\js\b.js".to_string(), r"C:\res\user_mods\js\b.js".to_string()),
        ]
    );
}
