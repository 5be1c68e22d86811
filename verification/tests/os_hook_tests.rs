use vivaldi_mod_interceptor::os_hook::{debugger_command, elevation_args, get_ifeo_key_path, get_hook_status, HookStatus};

#[test]
fn ifeo_key() {
    assert_eq!(
        get_ifeo_key_path("vivaldi.exe"),
        r"SOFTWARE\Microsoft\Windows NT\CurrentVersion\Image File Execution Options\vivaldi.exe"
    );
}

#[test]
fn hook_status_from_registry_value() {
    assert!(matches!(get_hook_status(None, r"C:\i.exe"), HookStatus::NotInstalled));
    match get_hook_status(Some("\"C:\\tools\\interceptor.exe\"\0"), r"C:\tools\interceptor.exe") {
        HookStatus::Installed { debugger_path, matches_current_exe } => {
            assert_eq!(debugger_path, r"C:\tools\interceptor.exe");
            assert!(matches_current_exe);
        }
        other => panic!("{:?}", other),
    }
    match get_hook_status(Some("\"C:\\other\\dbg.exe\""), r"C:\tools\interceptor.exe") {
        HookStatus::Installed { debugger_path, matches_current_exe } => {
            assert_eq!(debugger_path, r"C:\other\dbg.exe");
            assert!(!matches_current_exe);
        }
        other => panic!("{:?}", other),
    }
}

#[test]
fn debugger_and_elevation_texts() {
    assert_eq!(debugger_command(r"C:\i.exe"), "\"C:\\i.exe\"");
    assert_eq!(elevation_args(true, "vivaldi.exe"), "install-hook --target \"vivaldi.exe\"");
    assert_eq!(elevation_args(false, "v.exe"), "uninstall-hook --target \"v.exe\"");
}

#[test]
fn installed_hook_reads_back_as_matching() {
    let exe = r"C:\Program Files\Interceptor\interceptor.exe";
    let written = debugger_command(exe);
    match get_hook_status(Some(&format!("{}\0", written)), exe) {
        HookStatus::Installed { debugger_path, matches_current_exe } => {
            assert_eq!(debugger_path, exe);
            assert!(matches_current_exe);
        }
        other => panic!("{:?}", other),
    }
}
