use vivaldi_mod_interceptor::cli::{any_arg_is, get_flag_value, parse_command, parse_webui_args, str_eq, Command, WebuiArgs};

fn args(v: &[&str]) -> Vec<String> {
    v.iter().map(|s| s.to_string()).collect()
}

fn is_launch(c: &Command, target: Option<&str>, forwarded: &[&str]) -> bool {
    match c {
        Command::JitLaunch { target: t, forwarded: f } => t.as_deref() == target && *f == args(forwarded),
        _ => false,
    }
}

#[test]
fn no_arguments_launch() {
    assert!(is_launch(&parse_command(&args(&["interceptor"])), None, &[]));
    assert!(is_launch(&parse_command(&[]), None, &[]));
}

#[test]
fn executable_first_argument_is_the_target() {
    let c = parse_command(&args(&["i", r"C:\V\VIVALDI.EXE", "--new-window", "x"]));
    assert!(is_launch(&c, Some(r"C:\V\VIVALDI.EXE"), &["--new-window", "x"]));
}

#[test]
fn launch_and_unknown_first_arguments_forward() {
    assert!(is_launch(&parse_command(&args(&["i", "launch", "a", "b"])), None, &["a", "b"]));
    assert!(is_launch(&parse_command(&args(&["i", "https://vivaldi.com", "b"])), None, &["https://vivaldi.com", "b"]));
}

#[test]
fn subcommands() {
    match parse_command(&args(&["i", "setup"])) {
        Command::Setup { portable, vivaldi_path: path } => {
            assert!(!portable);
            assert_eq!(path, None);
        }
        other => panic!("{:?}", other),
    }
    match parse_command(&args(&["i", "setup", "--portable", "--path", r"D:\Vivaldi"])) {
        Command::Setup { portable, vivaldi_path: path } => {
            assert!(portable);
            assert_eq!(path.as_deref(), Some(r"D:\Vivaldi"));
        }
        other => panic!("{:?}", other),
    }
    assert!(matches!(parse_command(&args(&["i", "status", "--json"])), Command::Status { json: true }));
    assert!(matches!(parse_command(&args(&["i", "status"])), Command::Status { json: false }));
    assert!(matches!(parse_command(&args(&["i", "list", "--json"])), Command::ListMods { json: true }));
    assert!(matches!(parse_command(&args(&["i", "list-mods"])), Command::ListMods { json: false }));
    assert!(matches!(parse_command(&args(&["i", "patch"])), Command::Patch));
    assert!(matches!(parse_command(&args(&["i", "unpatch"])), Command::Unpatch));
    assert!(matches!(parse_command(&args(&["i", "-h"])), Command::Help));
    assert!(matches!(parse_command(&args(&["i", "--version"])), Command::Version));
    match parse_command(&args(&["i", "toggle", "Theme"])) {
        Command::Toggle { name } => assert_eq!(name, "Theme"),
        other => panic!("{:?}", other),
    }
    match parse_command(&args(&["i", "import", r"C:\m.css"])) {
        Command::Import { path } => assert_eq!(path, r"C:\m.css"),
        other => panic!("{:?}", other),
    }
    match parse_command(&args(&["i", "install-hook", "--target", "vivaldi.exe"])) {
        Command::InstallHook { target } => assert_eq!(target.as_deref(), Some("vivaldi.exe")),
        other => panic!("{:?}", other),
    }
    match parse_command(&args(&["i", "uninstall-hook"])) {
        Command::UninstallHook { target } => assert_eq!(target, None),
        other => panic!("{:?}", other),
    }
}

#[test]
fn missing_subcommand_arguments_give_usage() {
    match parse_command(&args(&["i", "toggle"])) {
        Command::Usage { message } => assert_eq!(message, "Usage: interceptor toggle <mod_name>"),
        other => panic!("{:?}", other),
    }
    match parse_command(&args(&["i", "import"])) {
        Command::Usage { message } => assert_eq!(message, "Usage: interceptor import <file_path>"),
        other => panic!("{:?}", other),
    }
}

#[test]
fn flag_values() {
    assert_eq!(get_flag_value(&args(&["w", "--port", "8080"]), "--port"), Some("8080".to_string()));
    assert_eq!(get_flag_value(&args(&["w", "--port=9"]), "--port"), Some("9".to_string()));
    assert_eq!(get_flag_value(&args(&["w", "--port"]), "--port"), None);
    assert_eq!(get_flag_value(&args(&["w", "--open"]), "--port"), None);
    assert!(any_arg_is(&args(&["a", "--json"]), "--json"));
    assert!(!any_arg_is(&args(&["a", "--jsonx"]), "--json"));
    assert!(str_eq("ab", "ab"));
    assert!(!str_eq("ab", "aB"));
}

#[test]
fn webui_arguments() {
    assert_eq!(parse_webui_args(&args(&["webui"])), WebuiArgs { port: 7979, open_browser: false });
    assert_eq!(parse_webui_args(&args(&["webui", "--port", "8080", "-o"])), WebuiArgs { port: 8080, open_browser: true });
    assert_eq!(parse_webui_args(&args(&["webui", "--port=70000", "--open"])), WebuiArgs { port: 7979, open_browser: true });
    assert_eq!(parse_webui_args(&args(&["webui", "--port", "+81"])), WebuiArgs { port: 81, open_browser: false });
    assert_eq!(parse_webui_args(&args(&["webui", "--port", "x"])), WebuiArgs { port: 7979, open_browser: false });
}
