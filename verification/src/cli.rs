//! Reading the command lines of the interceptor and of the web interface.

use vstd::prelude::*;
use crate::text::{
    ascii_lower, chars_equal, chars_of, ends_with_chars, lower_chars, occurs_at, parse_u64,
    parse_u64_spec, push_range, push_str,
};

verus! {

broadcast use vstd::string::group_string_axioms;

/// What the interceptor was asked to do.
#[derive(Debug)]
pub enum Command {
    /// Check the patch and launch the browser, optionally a given executable,
    /// with the forwarded arguments.
    JitLaunch { target: Option<String>, forwarded: Vec<String> },
    /// Set up; `portable` (`--portable`) keeps the configuration beside the
    /// interceptor, `vivaldi_path` (`--path`) names Vivaldi's executable or its folder.
    Setup { portable: bool, vivaldi_path: Option<String> },
    Status { json: bool },
    ListMods { json: bool },
    Toggle { name: String },
    Import { path: String },
    Patch,
    Unpatch,
    InstallHook { target: Option<String> },
    UninstallHook { target: Option<String> },
    Help,
    Version,
    /// A subcommand lacks its argument; the text is its usage line.
    Usage { message: String },
}

/// A command with its texts as character sequences.
pub enum CommandView {
    JitLaunch { target: Option<Seq<char>>, forwarded: Seq<Seq<char>> },
    Setup { portable: bool, vivaldi_path: Option<Seq<char>> },
    Status { json: bool },
    ListMods { json: bool },
    Toggle { name: Seq<char> },
    Import { path: Seq<char> },
    Patch,
    Unpatch,
    InstallHook { target: Option<Seq<char>> },
    UninstallHook { target: Option<Seq<char>> },
    Help,
    Version,
    Usage { message: Seq<char> },
}

/// The texts of a list of strings.
pub open spec fn arg_texts(v: Seq<String>) -> Seq<Seq<char>> {
    v.map_values(|s: String| s@)
}

/// The text of an optional string.
pub open spec fn opt_view(o: Option<String>) -> Option<Seq<char>> {
    match o {
        Some(s) => Some(s@),
        None => None,
    }
}

impl View for Command {
    type V = CommandView;

    open spec fn view(&self) -> CommandView {
        match self {
            Command::JitLaunch { target, forwarded } => CommandView::JitLaunch {
                target: opt_view(*target),
                forwarded: arg_texts(forwarded@),
            },
            Command::Setup { portable, vivaldi_path } => CommandView::Setup {
                portable: *portable,
                vivaldi_path: opt_view(*vivaldi_path),
            },
            Command::Status { json } => CommandView::Status { json: *json },
            Command::ListMods { json } => CommandView::ListMods { json: *json },
            Command::Toggle { name } => CommandView::Toggle { name: name@ },
            Command::Import { path } => CommandView::Import { path: path@ },
            Command::Patch => CommandView::Patch,
            Command::Unpatch => CommandView::Unpatch,
            Command::InstallHook { target } => CommandView::InstallHook { target: opt_view(*target) },
            Command::UninstallHook { target } => CommandView::UninstallHook {
                target: opt_view(*target),
            },
            Command::Help => CommandView::Help,
            Command::Version => CommandView::Version,
            Command::Usage { message } => CommandView::Usage { message: message@ },
        }
    }
}

/// The value given for `flag` from position `i` on: the argument after the
/// first `flag`, or the text after `flag=` in the first argument of that form.
pub open spec fn flag_value_from(a: Seq<Seq<char>>, flag: Seq<char>, i: int) -> Option<Seq<char>>
    decreases a.len() - i,
{
    if i < 0 || i >= a.len() {
        None
    } else if a[i] == flag && i + 1 < a.len() {
        Some(a[i + 1])
    } else if occurs_at(a[i], flag.push('='), 0) {
        Some(a[i].skip(flag.len() + 1int))
    } else {
        flag_value_from(a, flag, i + 1)
    }
}

/// The first argument names an executable: it ends with ".exe" in any ASCII case.
pub open spec fn is_exe_arg(f: Seq<char>) -> bool {
    let l = ascii_lower(f);
    l.len() >= 4 && l.skip(l.len() - 4) == seq!['.', 'e', 'x', 'e']
}

/// The command for the arguments (`a[0]` being the program).
pub open spec fn command_spec(a: Seq<Seq<char>>) -> CommandView {
    if a.len() <= 1 {
        CommandView::JitLaunch { target: None, forwarded: Seq::empty() }
    } else {
        let f = a[1];
        if is_exe_arg(f) {
            CommandView::JitLaunch { target: Some(f), forwarded: a.skip(2) }
        } else if f == "launch"@ {
            CommandView::JitLaunch { target: None, forwarded: a.skip(2) }
        } else if f == "setup"@ {
            CommandView::Setup {
                portable: a.contains("--portable"@),
                vivaldi_path: flag_value_from(a, "--path"@, 0),
            }
        } else if f == "status"@ {
            CommandView::Status { json: a.contains("--json"@) }
        } else if f == "list-mods"@ || f == "list"@ {
            CommandView::ListMods { json: a.contains("--json"@) }
        } else if f == "toggle"@ {
            if a.len() < 3 {
                CommandView::Usage { message: "Usage: interceptor toggle <mod_name>"@ }
            } else {
                CommandView::Toggle { name: a[2] }
            }
        } else if f == "import"@ {
            if a.len() < 3 {
                CommandView::Usage { message: "Usage: interceptor import <file_path>"@ }
            } else {
                CommandView::Import { path: a[2] }
            }
        } else if f == "patch"@ {
            CommandView::Patch
        } else if f == "unpatch"@ {
            CommandView::Unpatch
        } else if f == "install-hook"@ {
            CommandView::InstallHook { target: flag_value_from(a, "--target"@, 0) }
        } else if f == "uninstall-hook"@ {
            CommandView::UninstallHook { target: flag_value_from(a, "--target"@, 0) }
        } else if f == "help"@ || f == "--help"@ || f == "-h"@ {
            CommandView::Help
        } else if f == "version"@ || f == "--version"@ || f == "-v"@ {
            CommandView::Version
        } else {
            CommandView::JitLaunch { target: None, forwarded: a.skip(1) }
        }
    }
}

proof fn lemma_word_not_exe(f: Seq<char>)
    requires
        f.len() < 4 || f[f.len() - 4] != '.',
    ensures
        !is_exe_arg(f),
{
    let l = ascii_lower(f);
    if l.len() >= 4 && l.skip(l.len() - 4) == seq!['.', 'e', 'x', 'e'] {
        assert(l.skip(l.len() - 4)[0] == l[l.len() - 4]);
    }
}

/// The length, first and last character of a text: enough to tell the
/// subcommand words apart.
spec fn word_code(s: Seq<char>) -> (nat, char, char) {
    (s.len(), s[0], s[s.len() - 1])
}

/// The subcommand words: `help`, `--help` and `-h` ask for the help text;
/// `version`, `--version` and `-v` for the version; `patch` and `unpatch`
/// for patching and restoring the page; `status` and `list`/`list-mods` for
/// the reports, with `--json` anywhere asking for JSON; and with no argument
/// at all the browser is launched with nothing forwarded.
pub proof fn lemma_command_words(a: Seq<Seq<char>>)
    ensures
        a.len() <= 1 ==> command_spec(a) == (CommandView::JitLaunch {
            target: None,
            forwarded: Seq::empty(),
        }),
        a.len() >= 2 && (a[1] == "help"@ || a[1] == "--help"@ || a[1] == "-h"@) ==> command_spec(a)
            == CommandView::Help,
        a.len() >= 2 && (a[1] == "version"@ || a[1] == "--version"@ || a[1] == "-v"@)
            ==> command_spec(a) == CommandView::Version,
        a.len() >= 2 && a[1] == "patch"@ ==> command_spec(a) == CommandView::Patch,
        a.len() >= 2 && a[1] == "unpatch"@ ==> command_spec(a) == CommandView::Unpatch,
        a.len() >= 2 && a[1] == "status"@ ==> command_spec(a) == (CommandView::Status {
            json: a.contains("--json"@),
        }),
        a.len() >= 2 && (a[1] == "list"@ || a[1] == "list-mods"@) ==> command_spec(a) == (
        CommandView::ListMods { json: a.contains("--json"@) }),
        a.len() >= 3 && a[1] == "toggle"@ ==> command_spec(a) == (CommandView::Toggle {
            name: a[2],
        }),
        a.len() >= 3 && a[1] == "import"@ ==> command_spec(a) == (CommandView::Import {
            path: a[2],
        }),
        a.len() >= 2 && a[1] == "launch"@ ==> command_spec(a) == (CommandView::JitLaunch {
            target: None,
            forwarded: a.skip(2),
        }),
{
    reveal_strlit("help");
    reveal_strlit("--help");
    reveal_strlit("-h");
    reveal_strlit("version");
    reveal_strlit("--version");
    reveal_strlit("-v");
    reveal_strlit("patch");
    reveal_strlit("unpatch");
    reveal_strlit("status");
    reveal_strlit("list");
    reveal_strlit("list-mods");
    reveal_strlit("toggle");
    reveal_strlit("import");
    reveal_strlit("launch");
    reveal_strlit("setup");
    reveal_strlit("install-hook");
    reveal_strlit("uninstall-hook");
    assert(word_code("help"@) == (4nat, 'h', 'p'));
    assert(word_code("--help"@) == (6nat, '-', 'p'));
    assert(word_code("-h"@) == (2nat, '-', 'h'));
    assert(word_code("version"@) == (7nat, 'v', 'n'));
    assert(word_code("--version"@) == (9nat, '-', 'n'));
    assert(word_code("-v"@) == (2nat, '-', 'v'));
    assert(word_code("patch"@) == (5nat, 'p', 'h'));
    assert(word_code("unpatch"@) == (7nat, 'u', 'h'));
    assert(word_code("status"@) == (6nat, 's', 's'));
    assert(word_code("list"@) == (4nat, 'l', 't'));
    assert(word_code("list-mods"@) == (9nat, 'l', 's'));
    assert(word_code("toggle"@) == (6nat, 't', 'e'));
    assert(word_code("import"@) == (6nat, 'i', 't'));
    assert(word_code("launch"@) == (6nat, 'l', 'h'));
    assert(word_code("setup"@) == (5nat, 's', 'p'));
    assert(word_code("install-hook"@) == (12nat, 'i', 'k'));
    assert(word_code("uninstall-hook"@) == (14nat, 'u', 'k'));
    if a.len() >= 2 {
        let f = a[1];
        let c = word_code(f);
        if f == "help"@ || f == "--help"@ || f == "-h"@ || f == "version"@ || f == "--version"@
            || f == "-v"@ || f == "patch"@ || f == "unpatch"@ || f == "status"@ || f == "list"@
            || f == "list-mods"@ || f == "toggle"@ || f == "import"@ || f == "launch"@ {
            lemma_word_not_exe(f);
        }
    }
}

/// Texts are equal.
pub fn str_eq(a: &str, b: &str) -> (r: bool)
    ensures
        r == (a@ == b@),
{
    let x = chars_of(a);
    let y = chars_of(b);
    chars_equal(x.as_slice(), y.as_slice())
}

fn copy_str(s: &str) -> (r: String)
    ensures
        r@ == s@,
{
    let mut r = String::new();
    push_str(&mut r, s);
    r
}

fn copy_args_from(args: &[String], from: usize) -> (r: Vec<String>)
    requires
        from <= args@.len(),
    ensures
        arg_texts(r@) == arg_texts(args@).skip(from as int),
{
    let mut r: Vec<String> = Vec::new();
    let mut i: usize = from;
    while i < args.len()
        invariant
            from <= i <= args@.len(),
            arg_texts(r@) == arg_texts(args@).subrange(from as int, i as int),
        decreases args@.len() - i,
    {
        let ghost before = arg_texts(r@);
        r.push(args[i].clone());
        assert(arg_texts(r@) =~= before.push(args@[i as int]@));
        assert(arg_texts(args@).subrange(from as int, i + 1) =~= arg_texts(args@).subrange(
            from as int,
            i as int,
        ).push(args@[i as int]@));
        i = i + 1;
    }
    assert(arg_texts(args@).subrange(from as int, args@.len() as int) =~= arg_texts(args@).skip(
        from as int,
    ));
    r
}

/// Some argument equals `needle`.
pub fn any_arg_is(args: &[String], needle: &str) -> (r: bool)
    ensures
        r == arg_texts(args@).contains(needle@),
{
    let mut i: usize = 0;
    while i < args.len()
        invariant
            i <= args@.len(),
            forall|k: int| 0 <= k < i ==> args@[k]@ != needle@,
        decreases args@.len() - i,
    {
        if str_eq(args[i].as_str(), needle) {
            assert(arg_texts(args@)[i as int] == needle@);
            return true;
        }
        i = i + 1;
    }
    assert forall|k: int| 0 <= k < arg_texts(args@).len() implies arg_texts(args@)[k] != needle@ by {
        assert(arg_texts(args@)[k] == args@[k]@);
    }
    false
}

/// The value given for `flag`: the argument after the first `flag`, or the
/// text after `flag=` in the first argument of that form.
pub fn get_flag_value(args: &[String], flag: &str) -> (r: Option<String>)
    ensures
        opt_view(r) == flag_value_from(arg_texts(args@), flag@, 0),
{
    let fc = chars_of(flag);
    let mut prefix = fc.clone();
    prefix.push('=');
    let mut i: usize = 0;
    while i < args.len()
        invariant
            i <= args@.len(),
            fc@ == flag@,
            prefix@ == flag@.push('='),
            flag_value_from(arg_texts(args@), flag@, 0) == flag_value_from(
                arg_texts(args@),
                flag@,
                i as int,
            ),
        decreases args@.len() - i,
    {
        let a = chars_of(args[i].as_str());
        assert(arg_texts(args@)[i as int] == a@);
        if chars_equal(a.as_slice(), fc.as_slice()) && i + 1 < args.len() {
            assert(arg_texts(args@)[i + 1] == args@[i + 1]@);
            return Some(args[i + 1].clone());
        }
        if crate::text::starts_with_chars(a.as_slice(), prefix.as_slice()) {
            let mut r = String::new();
            push_range(&mut r, a.as_slice(), prefix.len(), a.len());
            assert(a@.subrange(prefix@.len() as int, a@.len() as int) =~= a@.skip(
                flag@.len() + 1int,
            ));
            return Some(r);
        }
        i = i + 1;
    }
    None
}

/// Reads the interceptor's arguments (`args[0]` being the program): no
/// argument means launch; a first argument ending in ".exe" is the executable
/// to launch (as when Windows routes a launch through the hook) with the rest
/// forwarded; otherwise the first argument names a subcommand, and anything
/// unrecognised is forwarded to the browser with the rest.
pub fn parse_command(args: &[String]) -> (r: Command)
    ensures
        r@ == command_spec(arg_texts(args@)),
{
    let ghost a = arg_texts(args@);
    if args.len() <= 1 {
        let r = Command::JitLaunch { target: None, forwarded: Vec::new() };
        assert(r@ == command_spec(a)) by {
            assert(arg_texts(Seq::<String>::empty()) =~= Seq::<Seq<char>>::empty());
        }
        return r;
    }
    let f = args[1].as_str();
    assert(a[1] == f@);
    let lower = lower_chars(chars_of(f).as_slice());
    let exe = chars_of(".exe");
    proof {
        reveal_strlit(".exe");
    }
    assert(exe@ =~= seq!['.', 'e', 'x', 'e']);
    if ends_with_chars(lower.as_slice(), exe.as_slice()) {
        assert(lower@.subrange(lower@.len() - 4, lower@.len() as int) =~= lower@.skip(
            lower@.len() - 4,
        ));
        return Command::JitLaunch { target: Some(copy_str(f)), forwarded: copy_args_from(args, 2) };
    }
    assert(!is_exe_arg(f@)) by {
        if lower@.len() >= 4 {
            assert(lower@.subrange(lower@.len() - 4, lower@.len() as int) =~= lower@.skip(
                lower@.len() - 4,
            ));
        }
    }
    if str_eq(f, "launch") {
        Command::JitLaunch { target: None, forwarded: copy_args_from(args, 2) }
    } else if str_eq(f, "setup") {
        Command::Setup {
            portable: any_arg_is(args, "--portable"),
            vivaldi_path: get_flag_value(args, "--path"),
        }
    } else if str_eq(f, "status") {
        Command::Status { json: any_arg_is(args, "--json") }
    } else if str_eq(f, "list-mods") || str_eq(f, "list") {
        Command::ListMods { json: any_arg_is(args, "--json") }
    } else if str_eq(f, "toggle") {
        if args.len() < 3 {
            Command::Usage { message: copy_str("Usage: interceptor toggle <mod_name>") }
        } else {
            Command::Toggle { name: args[2].clone() }
        }
    } else if str_eq(f, "import") {
        if args.len() < 3 {
            Command::Usage { message: copy_str("Usage: interceptor import <file_path>") }
        } else {
            Command::Import { path: args[2].clone() }
        }
    } else if str_eq(f, "patch") {
        Command::Patch
    } else if str_eq(f, "unpatch") {
        Command::Unpatch
    } else if str_eq(f, "install-hook") {
        Command::InstallHook { target: get_flag_value(args, "--target") }
    } else if str_eq(f, "uninstall-hook") {
        Command::UninstallHook { target: get_flag_value(args, "--target") }
    } else if str_eq(f, "help") || str_eq(f, "--help") || str_eq(f, "-h") {
        Command::Help
    } else if str_eq(f, "version") || str_eq(f, "--version") || str_eq(f, "-v") {
        Command::Version
    } else {
        Command::JitLaunch { target: None, forwarded: copy_args_from(args, 1) }
    }
}

/// `str::parse::<u16>`, answering `None` where the standard library answers an error.
pub open spec fn parse_u16_spec(s: Seq<char>) -> Option<u16> {
    match parse_u64_spec(s) {
        Some(v) => if v <= u16::MAX {
            Some(v as u16)
        } else {
            None
        },
        None => None,
    }
}

/// Every port number written in decimal reads back as that port.
pub proof fn lemma_port_reads_back(p: u16)
    ensures
        parse_u16_spec(crate::text::decimal(p as nat)) == Some(p),
{
    crate::text::lemma_parse_decimal(p as u64);
}

/// The options of the web interface.
#[derive(Clone, Copy, Debug, PartialEq, Eq, Structural)]
pub struct WebuiArgs {
    pub port: u16,
    pub open_browser: bool,
}

/// Reads the web interface's arguments: the port given with `--port`
/// (7979 when missing or not a port number), and whether `--open` or `-o`
/// asks to open the browser.
pub fn parse_webui_args(args: &[String]) -> (r: WebuiArgs)
    ensures
        r.port == (match flag_value_from(arg_texts(args@), "--port"@, 0) {
            Some(v) => match parse_u16_spec(v) {
                Some(p) => p,
                None => 7979u16,
            },
            None => 7979u16,
        }),
        r.open_browser == (arg_texts(args@).contains("--open"@) || arg_texts(args@).contains(
            "-o"@,
        )),
{
    let port = match get_flag_value(args, "--port") {
        Some(v) => match parse_u64(chars_of(v.as_str()).as_slice()) {
            Some(p) => if p <= 65535 {
                p as u16
            } else {
                7979
            },
            None => 7979,
        },
        None => 7979,
    };
    let open_browser = any_arg_is(args, "--open") || any_arg_is(args, "-o");
    WebuiArgs { port, open_browser }
}

} // verus!
