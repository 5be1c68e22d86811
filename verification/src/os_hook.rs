//! The Image File Execution Options hook: the registry key it lives under, how
//! its `Debugger` value is read back, and the commands used to set it up.
//! Registry access and elevation are the caller's.

use vstd::prelude::*;
use crate::discovery::{clean_registry_spec, clean_registry_value, trim_end_spec, trim_spec, trim_start_spec};
use crate::text::push_str;
use crate::paths::{path_eq, paths_equal};

verus! {

broadcast use vstd::string::group_string_axioms;

/// Whether the hook is registered, and if so where its debugger points.
#[derive(Debug)]
pub enum HookStatus {
    NotInstalled,
    Installed { debugger_path: String, matches_current_exe: bool },
}

/// The registry key (under HKLM) of the IFEO entry for an executable name.
pub fn get_ifeo_key_path(exe_name: &str) -> (r: String)
    ensures
        r@ == "SOFTWARE\\Microsoft\\Windows NT\\CurrentVersion\\Image File Execution Options\\"@
            + exe_name@,
{
    let mut r = String::new();
    push_str(&mut r, "SOFTWARE\\Microsoft\\Windows NT\\CurrentVersion\\Image File Execution Options\\");
    push_str(&mut r, exe_name);
    r
}

/// The hook status from the key's `Debugger` string value (`None` when the
/// key or a string value is missing) and the path of the running interceptor.
pub fn get_hook_status(debugger_value: Option<&str>, current_exe: &str) -> (r: HookStatus)
    ensures
        match debugger_value {
            None => r is NotInstalled,
            Some(v) => r matches HookStatus::Installed { debugger_path, matches_current_exe } && {
                &&& debugger_path@ == clean_registry_spec(v@)
                &&& matches_current_exe == path_eq(debugger_path@, current_exe@)
            },
        },
{
    match debugger_value {
        None => HookStatus::NotInstalled,
        Some(v) => {
            let debugger_path = clean_registry_value(v);
            let matches_current_exe = paths_equal(debugger_path.as_str(), current_exe);
            HookStatus::Installed { debugger_path, matches_current_exe }
        },
    }
}

/// The `Debugger` value that routes launches through the interceptor: its
/// path in double quotes.
pub fn debugger_command(interceptor_exe: &str) -> (r: String)
    ensures
        r@ == seq!['"'] + interceptor_exe@ + seq!['"'],
{
    let mut r = String::new();
    push_str(&mut r, "\"");
    push_str(&mut r, interceptor_exe);
    push_str(&mut r, "\"");
    proof {
        reveal_strlit("\"");
    }
    assert(r@ =~= seq!['"'] + interceptor_exe@ + seq!['"']);
    r
}

/// The arguments of the elevated relaunch that installs (`install` true) or
/// removes the hook for an executable name.
pub fn elevation_args(install: bool, exe_name: &str) -> (r: String)
    ensures
        r@ == (if install {
            "install-hook"@
        } else {
            "uninstall-hook"@
        }) + " --target \""@ + exe_name@ + "\""@,
{
    let mut r = String::new();
    if install {
        push_str(&mut r, "install-hook");
    } else {
        push_str(&mut r, "uninstall-hook");
    }
    push_str(&mut r, " --target \"");
    push_str(&mut r, exe_name);
    push_str(&mut r, "\"");
    r
}

/// The hook as installed reads back as pointing at the interceptor: the
/// `Debugger` value written for an executable path (a path holds no double
/// quote) cleans back to that path, and a path equals itself, so
/// `get_hook_status` on that value and that path reports `debugger_path`
/// equal to it and `matches_current_exe`.
pub proof fn lemma_installed_hook_reads_back(exe: Seq<char>)
    requires
        !exe.contains('"'),
    ensures
        clean_registry_spec(seq!['"'] + exe + seq!['"']) == exe,
        path_eq(clean_registry_spec(seq!['"'] + exe + seq!['"']), exe),
{
    let q = seq!['"'];
    let v = q + exe + q;
    assert(v[0] == '"');
    assert(v.last() == '"');
    assert(trim_start_spec(v, '\0') == v);
    assert(trim_end_spec(v, '\0') == v);
    assert(trim_spec(v, '\0') == v);
    assert(v.drop_first() =~= exe + q);
    let w = exe + q;
    if exe.len() > 0 {
        assert(exe.contains(exe[0]));
        assert(w[0] == exe[0]);
        assert(trim_start_spec(w, '"') == w);
    } else {
        assert(w.drop_first() =~= exe);
        assert(trim_start_spec(exe, '"') == exe);
    }
    assert(trim_start_spec(v, '"') == trim_start_spec(w, '"'));
    assert(w.drop_last() =~= exe);
    if exe.len() > 0 {
        assert(exe.contains(exe.last()));
        assert(trim_end_spec(exe, '"') == exe);
    }
    assert(trim_end_spec(w, '"') == trim_end_spec(exe, '"'));
}

} // verus!
