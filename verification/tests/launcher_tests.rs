use vivaldi_mod_interceptor::launcher::{
    build_command_line, launch_prompt_text, needs_relink, plan_preparation, real_executable_name,
    FileStamp, Preparation, PROMPT_TITLE,
};

fn args(v: &[&str]) -> Vec<String> {
    v.iter().map(|s| s.to_string()).collect()
}

#[test]
fn command_line_quotes_exe_and_plain_args_stay() {
    assert_eq!(
        build_command_line(r"C:\V\vivaldi_real.exe", &args(&["--flag", "https://x.y/"])),
        r#""C:\V\vivaldi_real.exe" --flag https://x.y/"#
    );
    assert_eq!(build_command_line("a.exe", &[]), "\"a.exe\"");
}

#[test]
fn command_line_escapes_like_the_windows_runtime() {
    assert_eq!(build_command_line("e", &args(&["a b"])), "\"e\" \"a b\"");
    assert_eq!(build_command_line("e", &args(&[""])), "\"e\" \"\"");
    assert_eq!(build_command_line("e", &args(&["say \"hi\""])), r#""e" "say \"hi\"""#);
    assert_eq!(build_command_line("e", &args(&[r"dir\ x\"])), r#""e" "dir\ x\\""#);
    assert_eq!(build_command_line("e", &args(&[r#"a\"b"#])), r#""e" "a\\\"b""#);
    assert_eq!(build_command_line("e", &args(&["tab\there"])), "\"e\" \"tab\there\"");
    assert_eq!(build_command_line("e", &args(&[r"c:\no\space"])), r#""e" c:\no\space"#);
}

#[test]
fn real_executable_names() {
    assert_eq!(real_executable_name(Some("vivaldi.exe")), "vivaldi_real.exe");
    assert_eq!(real_executable_name(Some("VIVALDI.EXE")), "vivaldi_real.exe");
    assert_eq!(real_executable_name(Some("other.exe")), "vivaldi_app_real.exe");
    assert_eq!(real_executable_name(None), "vivaldi_real.exe");
}

#[test]
fn relink_unless_both_stamps_agree() {
    let a = FileStamp { len: 10, modified_nanos: 5 };
    let b = FileStamp { len: 10, modified_nanos: 6 };
    assert!(!needs_relink(Some(a), Some(a)));
    assert!(needs_relink(Some(a), Some(b)));
    assert!(needs_relink(Some(a), Some(FileStamp { len: 11, modified_nanos: 5 })));
    assert!(needs_relink(None, Some(a)));
    assert!(needs_relink(Some(a), None));
}

#[test]
fn prompt_text() {
    assert_eq!(
        launch_prompt_text("boom"),
        "Mod injection could not be completed:\nboom\n\nWould you like to launch Vivaldi without mods anyway?"
    );
    assert_eq!(PROMPT_TITLE, "Vivaldi JIT Mod Interceptor - Warning");
}

#[test]
fn preparation_plan() {
    assert_eq!(plan_preparation(true, true, true), Preparation { compile_bundle: false, patch_page: false });
    assert_eq!(plan_preparation(true, false, true), Preparation { compile_bundle: true, patch_page: false });
    assert_eq!(plan_preparation(true, true, false), Preparation { compile_bundle: true, patch_page: false });
    assert_eq!(plan_preparation(false, true, true), Preparation { compile_bundle: true, patch_page: true });
}

/// Splits the arguments after the program name as the Windows C runtime does.
fn split_args(s: &str) -> Vec<String> {
    let mut out = Vec::new();
    let mut cur = String::new();
    let (mut in_arg, mut in_quotes, mut bs) = (false, false, 0usize);
    for c in s.chars() {
        match c {
            '\\' => {
                bs += 1;
                in_arg = true;
            }
            '"' => {
                cur.push_str(&"\\".repeat(bs / 2));
                if bs % 2 == 1 {
                    cur.push('"');
                } else {
                    in_quotes = !in_quotes;
                }
                bs = 0;
                in_arg = true;
            }
            ' ' | '\t' if !in_quotes => {
                if in_arg {
                    cur.push_str(&"\\".repeat(bs));
                    out.push(std::mem::take(&mut cur));
                }
                bs = 0;
                in_arg = false;
            }
            _ => {
                cur.push_str(&"\\".repeat(bs));
                cur.push(c);
                bs = 0;
                in_arg = true;
            }
        }
    }
    if in_arg {
        cur.push_str(&"\\".repeat(bs));
        out.push(cur);
    }
    out
}

#[test]
fn command_line_splits_back_into_the_arguments() {
    let forwarded = args(&[
        "",
        "plain",
        "two words",
        r"trailing\",
        r"trail space\ ",
        r#"q"uote"#,
        r#"\\"both\\"#,
        "tab\tin",
        r"c:\dir\file",
        "--flag=\"x y\"",
    ]);
    let cmd = build_command_line(r"C:\V\vivaldi_real.exe", &forwarded);
    let rest = cmd.strip_prefix("\"C:\\V\\vivaldi_real.exe\"").unwrap();
    assert_eq!(split_args(rest), forwarded);
}
