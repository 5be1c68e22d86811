use vivaldi_mod_interceptor::config::{sort_mods, ModConfig, ModItem, ModType};
use vivaldi_mod_interceptor::json::settings_request;

fn item(name: &str, t: ModType, enabled: bool, order: i32) -> ModItem {
    ModItem { name: name.to_string(), mod_type: t, enabled, order, description: String::new() }
}

fn names(c: &ModConfig) -> Vec<String> {
    c.mods.iter().map(|m| m.name.clone()).collect()
}

#[test]
fn test_config_serialization_and_toggle() {
    let mut config = ModConfig {
        version: 1,
        vivaldi_path: Some(r"C:\Vivaldi\Application\vivaldi.exe".to_string()),
        auto_patch: true,
        mods: vec![
            ModItem {
                name: "CustomTheme.css".to_string(),
                mod_type: ModType::Css,
                enabled: true,
                order: 10,
                description: "Test theme".to_string(),
            },
            ModItem {
                name: "CustomNav.js".to_string(),
                mod_type: ModType::Js,
                enabled: false,
                order: 5,
                description: "Test nav".to_string(),
            },
        ],
        ..ModConfig::default()
    };

    // The settings travel through their JSON form and back.
    let mut doc = serde_json::Map::new();
    doc.insert("vivaldi_path".to_string(), serde_json::Value::from(config.vivaldi_path.clone()));
    doc.insert("auto_patch".to_string(), serde_json::Value::from(config.auto_patch));
    doc.insert("ui_ready_selector".to_string(), serde_json::Value::from(config.ui_ready_selector.clone()));
    doc.insert("init_delay_ms".to_string(), serde_json::Value::from(config.init_delay_ms));
    doc.insert("detach_timeout_ms".to_string(), serde_json::Value::from(config.detach_timeout_ms));
    doc.insert("exe_name".to_string(), serde_json::Value::from(config.exe_name.clone()));
    let json = serde_json::to_string_pretty(&serde_json::Value::Object(doc)).unwrap();
    let mut restored = ModConfig {
        vivaldi_path: None,
        auto_patch: false,
        ui_ready_selector: String::new(),
        init_delay_ms: 0,
        detach_timeout_ms: 0,
        exe_name: String::new(),
        ..ModConfig::default()
    };
    restored.apply_settings(settings_request(&json).unwrap());
    assert_eq!(restored.vivaldi_path, config.vivaldi_path);
    assert!(restored.auto_patch);
    assert_eq!(restored.ui_ready_selector, "#browser");
    assert_eq!(restored.init_delay_ms, 60);
    assert_eq!(restored.detach_timeout_ms, 5000);
    assert_eq!(restored.exe_name, "vivaldi.exe");

    // Toggle mod in memory
    let state = config.toggle_mod("CustomTheme.css").unwrap();
    assert!(!state);
    assert!(!config.mods[0].enabled);
}

#[test]
fn default_config_matches_documented_schema() {
    let c = ModConfig::default();
    assert_eq!(c.version, 1);
    assert_eq!(c.vivaldi_path, None);
    assert!(c.auto_patch);
    assert_eq!(c.ui_ready_selector, "#browser");
    assert_eq!(c.init_delay_ms, 60);
    assert_eq!(c.detach_timeout_ms, 5000);
    assert_eq!(c.exe_name, "vivaldi.exe");
    assert!(c.mods.is_empty());
}

#[test]
fn toggle_twice_restores_state() {
    let mut c = ModConfig { mods: vec![item("Theme.css", ModType::Css, true, 0)], ..ModConfig::default() };
    assert_eq!(c.toggle_mod("theme"), Ok(false));
    assert_eq!(c.toggle_mod("THEME.CSS"), Ok(true));
    assert!(c.mods[0].enabled);
}

#[test]
fn toggle_matches_name_without_extension_and_first_match_only() {
    let mut c = ModConfig {
        mods: vec![item("a.js", ModType::Js, true, 0), item("A.JS", ModType::Js, true, 0)],
        ..ModConfig::default()
    };
    assert_eq!(c.toggle_mod("a"), Ok(false));
    assert!(!c.mods[0].enabled);
    assert!(c.mods[1].enabled);
}

#[test]
fn toggle_unknown_mod_is_an_error() {
    let mut c = ModConfig { mods: vec![item("x.css", ModType::Css, true, 0)], ..ModConfig::default() };
    assert_eq!(c.toggle_mod("y"), Err("Mod 'y' not found in configuration".to_string()));
    assert!(c.mods[0].enabled);
}

#[test]
fn set_mod_enabled_sets_flag() {
    let mut c = ModConfig { mods: vec![item("x.css", ModType::Css, true, 0)], ..ModConfig::default() };
    assert_eq!(c.set_mod_enabled("X", false), Ok(()));
    assert!(!c.mods[0].enabled);
    assert_eq!(c.set_mod_enabled("X", false), Ok(()));
    assert!(!c.mods[0].enabled);
    assert_eq!(c.set_mod_enabled("zz", true), Err("Mod 'zz' not found in configuration".to_string()));
}

#[test]
fn check_import_accepts_css_and_js_in_any_case() {
    assert_eq!(
        ModConfig::check_import(Some("Theme.CSS"), Some("CSS")),
        Ok(("Theme.CSS".to_string(), ModType::Css))
    );
    assert_eq!(
        ModConfig::check_import(Some("tool.js"), Some("js")),
        Ok(("tool.js".to_string(), ModType::Js))
    );
}

#[test]
fn check_import_errors() {
    assert_eq!(ModConfig::check_import(None, Some("css")), Err("Invalid file name".to_string()));
    assert_eq!(
        ModConfig::check_import(Some("notes.TXT"), Some("TXT")),
        Err("Unsupported file extension '.txt'. Only .css and .js supported.".to_string())
    );
    assert_eq!(
        ModConfig::check_import(Some("README"), None),
        Err("Unsupported file extension '.'. Only .css and .js supported.".to_string())
    );
}

#[test]
fn register_mod_adds_or_retypes_and_sorts_by_name() {
    let mut c = ModConfig {
        mods: vec![item("b.css", ModType::Css, false, 3), item("Zed.js", ModType::Js, true, 0)],
        ..ModConfig::default()
    };
    c.register_mod("a.js", ModType::Js);
    assert_eq!(names(&c), vec!["a.js", "b.css", "Zed.js"]);
    assert!(c.mods[0].enabled);
    assert_eq!(c.mods[0].order, 0);
    c.register_mod("B.CSS", ModType::Js);
    assert_eq!(names(&c), vec!["a.js", "b.css", "Zed.js"]);
    assert_eq!(c.mods[1].mod_type, ModType::Js);
    assert!(!c.mods[1].enabled);
    assert_eq!(c.mods[1].order, 3);
}

#[test]
fn rescan_adds_new_files_once() {
    let mut c = ModConfig { mods: vec![item("old.css", ModType::Css, false, 0)], ..ModConfig::default() };
    let css = vec!["OLD.css".to_string(), "new.css".to_string(), "wrong.js".to_string()];
    let js = vec!["app.js".to_string(), "style.css".to_string()];
    assert_eq!(c.rescan_mods(&css, &js), 2);
    assert_eq!(names(&c), vec!["app.js", "new.css", "old.css"]);
    assert_eq!(c.mods[0].mod_type, ModType::Js);
    assert!(c.mods[1].enabled);
    assert!(!c.mods[2].enabled);
    assert_eq!(c.rescan_mods(&css, &js), 0);
    assert_eq!(names(&c), vec!["app.js", "new.css", "old.css"]);
}

#[test]
fn set_mod_order_sorts_by_priority_then_name() {
    let mut c = ModConfig {
        mods: vec![
            item("b.css", ModType::Css, true, 0),
            item("a.css", ModType::Css, true, 0),
            item("c.js", ModType::Js, true, 0),
        ],
        ..ModConfig::default()
    };
    assert_eq!(c.set_mod_order("C.JS", -1), Ok(()));
    assert_eq!(names(&c), vec!["c.js", "a.css", "b.css"]);
    assert_eq!(c.mods[0].order, -1);
    assert_eq!(c.set_mod_order("nope", 1), Err("Mod 'nope' not found.".to_string()));
}

#[test]
fn sort_mods_by_name_ignores_case() {
    let v = vec![item("b", ModType::Css, true, 1), item("A", ModType::Css, true, 2)];
    let by_name = sort_mods(&v, false);
    assert_eq!(by_name[0].name, "A");
    let by_order = sort_mods(&v, true);
    assert_eq!(by_order[0].name, "b");
}

#[test]
fn enabled_count_counts_enabled_of_type() {
    let c = ModConfig {
        mods: vec![
            item("a.css", ModType::Css, true, 0),
            item("b.css", ModType::Css, false, 0),
            item("c.js", ModType::Js, true, 0),
        ],
        ..ModConfig::default()
    };
    assert_eq!(c.enabled_count(ModType::Css), 1);
    assert_eq!(c.enabled_count(ModType::Js), 1);
}

#[test]
fn mod_type_extension_and_name() {
    assert_eq!(ModType::from_extension("Css"), Some(ModType::Css));
    assert_eq!(ModType::from_extension("JS"), Some(ModType::Js));
    assert_eq!(ModType::from_extension("ts"), None);
    assert_eq!(ModType::Css.as_str(), "css");
    assert_eq!(ModType::Js.as_str(), "js");
}

#[test]
fn application_paths() {
    assert_eq!(
        ModConfig::get_app_dir(Some(r"D:\mods"), Some(r"E:\tools"), Some(r"C:\Users\u\AppData\Roaming")),
        r"D:\mods"
    );
    assert_eq!(ModConfig::get_app_dir(None, Some(r"E:\tools"), Some(r"C:\Users\u\AppData\Roaming")), r"E:\tools");
    assert_eq!(
        ModConfig::get_app_dir(None, None, Some(r"C:\Users\u\AppData\Roaming")),
        r"C:\Users\u\AppData\Roaming\VivaldiModManager"
    );
    assert_eq!(ModConfig::get_app_dir(None, None, None), r".\.vivaldi_mod_manager");
    assert_eq!(ModConfig::get_config_path(r"C:\m"), r"C:\m\mods_config.json");
    assert_eq!(ModConfig::get_mods_dir(r"C:\m"), r"C:\m\user_mods");
    assert_eq!(ModConfig::get_css_dir(r"C:\m"), r"C:\m\user_mods\css");
    assert_eq!(ModConfig::get_js_dir(r"C:\m"), r"C:\m\user_mods\js");
    assert_eq!(ModConfig::mod_file_path(r"C:\m", ModType::Js, "x.js"), r"C:\m\user_mods\js\x.js");
}
