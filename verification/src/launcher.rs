//! Decisions behind launching the real browser: the Windows command line that
//! forwards the user's arguments, the name of the hard-linked executable that
//! escapes the IFEO hook, and when that link must be renewed.

use vstd::prelude::*;
use crate::text::{chars_of, contains_chars, eq_ignore_ascii_case, eq_ignore_case, push_char, push_str};

verus! {

broadcast use vstd::string::group_string_axioms;

/// The title of the dialog shown when mods cannot be applied.
pub const PROMPT_TITLE: &'static str = "Vivaldi JIT Mod Interceptor - Warning";

// ---------------------------------------------------------------------------
// Command line
// ---------------------------------------------------------------------------

/// `n` backslashes.
pub open spec fn backslashes(n: nat) -> Seq<char> {
    Seq::new(n, |i: int| '\\')
}

/// An argument is wrapped in quotes when it is empty or holds a space, a tab
/// or a double quote.
pub open spec fn needs_quotes(arg: Seq<char>) -> bool {
    arg.len() == 0 || arg.contains(' ') || arg.contains('\t') || arg.contains('"')
}

/// The inside of a quoted argument, `pending` backslashes having been read
/// and not yet written: backslashes before a double quote are doubled and the
/// quote escaped, backslashes before the closing quote are doubled, all other
/// backslashes are kept as they are.
pub open spec fn escape_from(s: Seq<char>, pending: nat) -> Seq<char>
    decreases s.len(),
{
    if s.len() == 0 {
        backslashes(2 * pending)
    } else if s[0] == '\\' {
        escape_from(s.drop_first(), pending + 1)
    } else if s[0] == '"' {
        backslashes(2 * pending + 1) + seq!['"'] + escape_from(s.drop_first(), 0)
    } else {
        backslashes(pending) + seq![s[0]] + escape_from(s.drop_first(), 0)
    }
}

/// One argument as it appears on the command line.
pub open spec fn quote_arg(arg: Seq<char>) -> Seq<char> {
    if needs_quotes(arg) {
        seq!['"'] + escape_from(arg, 0) + seq!['"']
    } else {
        arg
    }
}

/// The arguments, each preceded by a space.
pub open spec fn args_part(args: Seq<Seq<char>>) -> Seq<char>
    decreases args.len(),
{
    if args.len() == 0 {
        Seq::<char>::empty()
    } else {
        args_part(args.drop_last()) + seq![' '] + quote_arg(args.last())
    }
}

/// The whole command line: the quoted executable path, then the arguments.
pub open spec fn command_line_spec(exe: Seq<char>, args: Seq<Seq<char>>) -> Seq<char> {
    seq!['"'] + exe + seq!['"'] + args_part(args)
}

/// The texts of a list of strings.
pub open spec fn texts(v: Seq<String>) -> Seq<Seq<char>> {
    v.map_values(|s: String| s@)
}

fn push_backslashes(out: &mut String, n: usize)
    ensures
        final(out)@ == old(out)@ + backslashes(n as nat),
{
    let ghost start = out@;
    let mut i: usize = 0;
    while i < n
        invariant
            i <= n,
            out@ == start + backslashes(i as nat),
        decreases n - i,
    {
        push_char(out, '\\');
        assert(backslashes((i + 1) as nat) =~= backslashes(i as nat).push('\\'));
        i = i + 1;
    }
}

fn push_quoted_arg(out: &mut String, arg: &str)
    ensures
        final(out)@ == old(out)@ + quote_arg(arg@),
{
    let a = chars_of(arg);
    let space = chars_of(" ");
    let tab = chars_of("\t");
    let quote = chars_of("\"");
    proof {
        reveal_strlit(" ");
        reveal_strlit("\t");
        reveal_strlit("\"");
        assert(a@.contains(' ') <==> crate::text::contains_seq(a@, space@)) by {
            if a@.contains(' ') {
                let k = choose|k: int| 0 <= k < a@.len() && a@[k] == ' ';
                assert(a@.subrange(k, k + 1) =~= space@);
                assert(crate::text::occurs_at(a@, space@, k));
            }
            if crate::text::contains_seq(a@, space@) {
                let k = choose|k: int| crate::text::occurs_at(a@, space@, k);
                assert(a@.subrange(k, k + 1)[0] == a@[k]);
            }
        }
        assert(a@.contains('\t') <==> crate::text::contains_seq(a@, tab@)) by {
            if a@.contains('\t') {
                let k = choose|k: int| 0 <= k < a@.len() && a@[k] == '\t';
                assert(a@.subrange(k, k + 1) =~= tab@);
                assert(crate::text::occurs_at(a@, tab@, k));
            }
            if crate::text::contains_seq(a@, tab@) {
                let k = choose|k: int| crate::text::occurs_at(a@, tab@, k);
                assert(a@.subrange(k, k + 1)[0] == a@[k]);
            }
        }
        assert(a@.contains('"') <==> crate::text::contains_seq(a@, quote@)) by {
            if a@.contains('"') {
                let k = choose|k: int| 0 <= k < a@.len() && a@[k] == '"';
                assert(a@.subrange(k, k + 1) =~= quote@);
                assert(crate::text::occurs_at(a@, quote@, k));
            }
            if crate::text::contains_seq(a@, quote@) {
                let k = choose|k: int| crate::text::occurs_at(a@, quote@, k);
                assert(a@.subrange(k, k + 1)[0] == a@[k]);
            }
        }
    }
    let quoted = a.len() == 0 || contains_chars(a.as_slice(), space.as_slice()) || contains_chars(
        a.as_slice(),
        tab.as_slice(),
    ) || contains_chars(a.as_slice(), quote.as_slice());
    if !quoted {
        push_str(out, arg);
        return;
    }
    let ghost start = out@;
    push_char(out, '"');
    let mut pending: usize = 0;
    let mut i: usize = 0;
    assert(a@.skip(0) =~= a@);
    while i < a.len()
        invariant
            i <= a@.len(),
            pending <= i,
            a@ == arg@,
            out@ + escape_from(a@.skip(i as int), pending as nat) == start + seq!['"']
                + escape_from(a@, 0),
        decreases a@.len() - i,
    {
        let c = a[i];
        let ghost rest = a@.skip(i as int);
        assert(rest[0] == c);
        assert(rest.drop_first() =~= a@.skip(i + 1));
        if c == '\\' {
            pending = pending + 1;
        } else if c == '"' {
            push_backslashes(out, pending);
            push_backslashes(out, pending);
            push_char(out, '\\');
            push_char(out, '"');
            assert(backslashes(pending as nat) + backslashes(pending as nat) + seq!['\\']
                =~= backslashes((2 * pending + 1) as nat));
            pending = 0;
        } else {
            push_backslashes(out, pending);
            push_char(out, c);
            pending = 0;
        }
        i = i + 1;
    }
    assert(a@.skip(a@.len() as int) =~= Seq::<char>::empty());
    assert(escape_from(a@.skip(i as int), pending as nat) == backslashes(2 * pending as nat));
    assert(needs_quotes(arg@));
    let ghost before = out@;
    push_backslashes(out, pending);
    push_backslashes(out, pending);
    push_char(out, '"');
    assert(backslashes(pending as nat) + backslashes(pending as nat) =~= backslashes(
        (2 * pending) as nat,
    ));
    assert(out@ =~= before + backslashes((2 * pending) as nat) + seq!['"']);
    assert(out@ =~= start + quote_arg(arg@));
}

/// The Windows command line that starts `exe` with `args`: the executable path
/// in double quotes, then each argument after a space, quoted and escaped so
/// that the standard argument splitting gives it back.
pub fn build_command_line(exe: &str, args: &[String]) -> (cmd: String)
    ensures
        cmd@ == command_line_spec(exe@, texts(args@)),
{
    let mut cmd = String::new();
    push_char(&mut cmd, '"');
    push_str(&mut cmd, exe);
    push_char(&mut cmd, '"');
    let mut i: usize = 0;
    while i < args.len()
        invariant
            i <= args@.len(),
            cmd@ == command_line_spec(exe@, texts(args@.take(i as int))),
        decreases args@.len() - i,
    {
        let ghost prev = texts(args@.take(i as int));
        push_char(&mut cmd, ' ');
        push_quoted_arg(&mut cmd, &args[i]);
        assert(texts(args@.take(i + 1)).drop_last() =~= prev);
        assert(texts(args@.take(i + 1)).last() == args@[i as int]@);
        assert(cmd@ =~= command_line_spec(exe@, texts(args@.take(i + 1))));
        i = i + 1;
    }
    assert(args@.take(args@.len() as int) =~= args@);
    cmd
}

// ---------------------------------------------------------------------------
// How the started program splits its command line
// ---------------------------------------------------------------------------

/// The state of a left-to-right reading of arguments: the arguments
/// finished, the current one, whether an argument has begun, whether a
/// quoted stretch is open, and how many backslashes wait to be resolved.
pub struct ArgScan {
    pub done: Seq<Seq<char>>,
    pub cur: Seq<char>,
    pub in_arg: bool,
    pub in_quotes: bool,
    pub bs: nat,
}

/// Between arguments, with `done` finished.
pub open spec fn idle(done: Seq<Seq<char>>) -> ArgScan {
    ArgScan { done, cur: Seq::empty(), in_arg: false, in_quotes: false, bs: 0 }
}

/// One character under the Windows C runtime's rules: backslashes are
/// literal unless a double quote follows; `2n` backslashes and a quote give
/// `n` backslashes and open or close a quoted stretch, `2n + 1` backslashes
/// and a quote give `n` backslashes and a literal quote; a space or a tab
/// outside a quoted stretch ends the argument.
pub open spec fn scan_step(st: ArgScan, c: char) -> ArgScan {
    if c == '\\' {
        ArgScan { bs: st.bs + 1, in_arg: true, ..st }
    } else if c == '"' {
        let cur = st.cur + backslashes(st.bs / 2);
        if st.bs % 2 == 1 {
            ArgScan { cur: cur.push('"'), bs: 0, in_arg: true, ..st }
        } else {
            ArgScan { cur, bs: 0, in_arg: true, in_quotes: !st.in_quotes, ..st }
        }
    } else if (c == ' ' || c == '\t') && !st.in_quotes {
        if st.in_arg {
            idle(st.done.push(st.cur + backslashes(st.bs)))
        } else {
            idle(st.done)
        }
    } else {
        ArgScan { cur: st.cur + backslashes(st.bs) + seq![c], bs: 0, in_arg: true, ..st }
    }
}

/// Reads `s` from state `st`.
pub open spec fn scan(st: ArgScan, s: Seq<char>) -> ArgScan
    decreases s.len(),
{
    if s.len() == 0 {
        st
    } else {
        scan(scan_step(st, s[0]), s.drop_first())
    }
}

/// The arguments once the text is read to its end.
pub open spec fn scan_finish(st: ArgScan) -> Seq<Seq<char>> {
    if st.in_arg {
        st.done.push(st.cur + backslashes(st.bs))
    } else {
        st.done
    }
}

/// The arguments that follow the program name.
pub open spec fn split_args(s: Seq<char>) -> Seq<Seq<char>> {
    scan_finish(scan(idle(Seq::empty()), s))
}

/// The text up to the first double quote, and what follows that quote.
pub open spec fn until_quote(s: Seq<char>) -> (Seq<char>, Seq<char>)
    decreases s.len(),
{
    if s.len() == 0 {
        (s, s)
    } else if s[0] == '"' {
        (Seq::empty(), s.drop_first())
    } else {
        let (a, b) = until_quote(s.drop_first());
        (seq![s[0]] + a, b)
    }
}

/// The text up to the first space or tab, and the rest from there.
pub open spec fn until_blank(s: Seq<char>) -> (Seq<char>, Seq<char>)
    decreases s.len(),
{
    if s.len() == 0 || s[0] == ' ' || s[0] == '\t' {
        (Seq::empty(), s)
    } else {
        let (a, b) = until_blank(s.drop_first());
        (seq![s[0]] + a, b)
    }
}

/// A whole command line split into the program name and its arguments: a
/// program name in double quotes runs to the next quote, an unquoted one to
/// the first space or tab; the rest is read by `split_args`.
pub open spec fn split_command_line(s: Seq<char>) -> Seq<Seq<char>> {
    if s.len() > 0 && s[0] == '"' {
        let (name, rest) = until_quote(s.drop_first());
        seq![name] + split_args(rest)
    } else {
        let (name, rest) = until_blank(s);
        seq![name] + split_args(rest)
    }
}

proof fn lemma_scan_concat(st: ArgScan, a: Seq<char>, b: Seq<char>)
    ensures
        scan(st, a + b) == scan(scan(st, a), b),
    decreases a.len(),
{
    if a.len() == 0 {
        assert(a + b =~= b);
    } else {
        assert((a + b)[0] == a[0]);
        assert((a + b).drop_first() =~= a.drop_first() + b);
        lemma_scan_concat(scan_step(st, a[0]), a.drop_first(), b);
    }
}

proof fn lemma_scan_one(st: ArgScan, c: char)
    ensures
        scan(st, seq![c]) == scan_step(st, c),
{
    assert(seq![c].drop_first() =~= Seq::<char>::empty());
    assert(seq![c][0] == c);
    assert(scan(scan_step(st, c), Seq::<char>::empty()) == scan_step(st, c));
}

proof fn lemma_scan_backslashes(st: ArgScan, n: nat)
    ensures
        n > 0 ==> scan(st, backslashes(n)) == (ArgScan { bs: st.bs + n, in_arg: true, ..st }),
        n == 0 ==> scan(st, backslashes(n)) == st,
    decreases n,
{
    if n > 0 {
        let m = (n - 1) as nat;
        assert(backslashes(n) =~= backslashes(m) + seq!['\\']);
        lemma_scan_concat(st, backslashes(m), seq!['\\']);
        lemma_scan_backslashes(st, m);
        let mid = scan(st, backslashes(m));
        lemma_scan_one(mid, '\\');
    } else {
        assert(backslashes(n) =~= Seq::<char>::empty());
    }
}

/// The inside of a quoted argument and its closing quote give back the
/// argument's text, `p` backslashes of it having been read before.
proof fn lemma_scan_escaped(s: Seq<char>, p: nat, done: Seq<Seq<char>>, cur: Seq<char>)
    ensures
        scan(
            ArgScan { done, cur, in_arg: true, in_quotes: true, bs: 0 },
            escape_from(s, p) + seq!['"'],
        ) == (ArgScan { done, cur: cur + backslashes(p) + s, in_arg: true, in_quotes: false, bs: 0 }),
    decreases s.len(),
{
    let st = ArgScan { done, cur, in_arg: true, in_quotes: true, bs: 0 };
    let q = seq!['"'];
    assert(q.drop_first() =~= Seq::<char>::empty());
    if s.len() == 0 {
        lemma_scan_concat(st, backslashes(2 * p), q);
        lemma_scan_backslashes(st, 2 * p);
        lemma_scan_one(scan(st, backslashes(2 * p)), '"');
        assert((2 * p) / 2 == p);
        assert(cur + backslashes(p) + s =~= cur + backslashes(p));
    } else {
        let c = s[0];
        let t = s.drop_first();
        assert(s =~= seq![c] + t);
        if c == '\\' {
            lemma_scan_escaped(t, p + 1, done, cur);
            assert(backslashes(p + 1) + t =~= backslashes(p) + s);
            assert(cur + backslashes(p + 1) + t =~= cur + backslashes(p) + s);
        } else if c == '"' {
            let pre = backslashes(2 * p + 1) + q;
            assert(escape_from(s, p) + q =~= pre + (escape_from(t, 0) + q));
            lemma_scan_concat(st, pre, escape_from(t, 0) + q);
            lemma_scan_concat(st, backslashes(2 * p + 1), q);
            lemma_scan_backslashes(st, 2 * p + 1);
            lemma_scan_one(scan(st, backslashes(2 * p + 1)), '"');
            assert((2 * p + 1) / 2 == p && (2 * p + 1) % 2 == 1);
            let cur1 = (cur + backslashes(p)).push('"');
            lemma_scan_escaped(t, 0, done, cur1);
            assert(cur1 + backslashes(0) + t =~= cur + backslashes(p) + s);
        } else {
            let pre = backslashes(p) + seq![c];
            assert(escape_from(s, p) + q =~= pre + (escape_from(t, 0) + q));
            lemma_scan_concat(st, pre, escape_from(t, 0) + q);
            lemma_scan_concat(st, backslashes(p), seq![c]);
            lemma_scan_backslashes(st, p);
            lemma_scan_one(scan(st, backslashes(p)), c);
            assert(seq![c].drop_first() =~= Seq::<char>::empty());
            let cur1 = cur + backslashes(p) + seq![c];
            lemma_scan_escaped(t, 0, done, cur1);
            assert(cur1 + backslashes(0) + t =~= cur + backslashes(p) + s);
        }
    }
}

/// An argument that needs no quotes is read back as itself, up to
/// backslashes still waiting at its end.
proof fn lemma_scan_plain(s: Seq<char>, st: ArgScan)
    requires
        !st.in_quotes,
        st.in_arg || (st.bs == 0 && st.cur.len() == 0),
        !s.contains(' '),
        !s.contains('\t'),
        !s.contains('"'),
    ensures
        ({
            let r = scan(st, s);
            &&& !r.in_quotes
            &&& r.done == st.done
            &&& r.in_arg == (st.in_arg || s.len() > 0)
            &&& r.cur + backslashes(r.bs) == st.cur + backslashes(st.bs) + s
        }),
    decreases s.len(),
{
    if s.len() == 0 {
        assert(st.cur + backslashes(st.bs) + s =~= st.cur + backslashes(st.bs));
    } else {
        let c = s[0];
        let t = s.drop_first();
        assert(s.contains(c));
        assert(!t.contains(' ') && !t.contains('\t') && !t.contains('"')) by {
            if t.contains(' ') {
                let k = choose|k: int| 0 <= k < t.len() && t[k] == ' ';
                assert(s[k + 1] == ' ');
            }
            if t.contains('\t') {
                let k = choose|k: int| 0 <= k < t.len() && t[k] == '\t';
                assert(s[k + 1] == '\t');
            }
            if t.contains('"') {
                let k = choose|k: int| 0 <= k < t.len() && t[k] == '"';
                assert(s[k + 1] == '"');
            }
        }
        let st1 = scan_step(st, c);
        lemma_scan_plain(t, st1);
        assert(scan(st, s) == scan(st1, t));
        if c == '\\' {
            assert(backslashes(st.bs + 1) =~= backslashes(st.bs) + seq!['\\']);
            assert(st.cur + backslashes(st.bs + 1) + t =~= st.cur + backslashes(st.bs) + s);
        } else {
            assert(st1.cur + backslashes(0) + t =~= st.cur + backslashes(st.bs) + s);
        }
    }
}

/// The arguments part is read back as the arguments, the last one still
/// open.
proof fn lemma_split_args_part(args: Seq<Seq<char>>)
    ensures
        ({
            let r = scan(idle(Seq::empty()), args_part(args));
            &&& !r.in_quotes
            &&& args.len() == 0 ==> r == idle(Seq::empty())
            &&& args.len() > 0 ==> r.in_arg && r.done == args.drop_last() && r.cur + backslashes(
                r.bs,
            ) == args.last()
        }),
    decreases args.len(),
{
    if args.len() > 0 {
        let init = args.drop_last();
        let x = args.last();
        lemma_split_args_part(init);
        let r0 = scan(idle(Seq::empty()), args_part(init));
        let sp = seq![' '];
        lemma_scan_concat(idle(Seq::empty()), args_part(init) + sp, quote_arg(x));
        lemma_scan_concat(idle(Seq::empty()), args_part(init), sp);
        lemma_scan_one(r0, ' ');
        let r1 = scan(r0, sp);
        assert(r1 == idle(init)) by {
            if init.len() > 0 {
                assert(init.drop_last().push(init.last()) =~= init);
            } else {
                assert(init =~= Seq::<Seq<char>>::empty());
            }
        }
        if needs_quotes(x) {
            let q = seq!['"'];
            assert(quote_arg(x) =~= q + (escape_from(x, 0) + q));
            lemma_scan_concat(idle(init), q, escape_from(x, 0) + q);
            lemma_scan_one(idle(init), '"');
            lemma_scan_escaped(x, 0, init, Seq::empty());
            assert(Seq::<char>::empty() + backslashes(0) + x =~= x);
            assert(x + backslashes(0) =~= x);
        } else {
            lemma_scan_plain(x, idle(init));
            assert(Seq::<char>::empty() + backslashes(0) + x =~= x);
        }
    }
}

proof fn lemma_until_quote(a: Seq<char>, b: Seq<char>)
    requires
        !a.contains('"'),
    ensures
        until_quote(a + seq!['"'] + b) == (a, b),
    decreases a.len(),
{
    if a.len() == 0 {
        assert(a + seq!['"'] + b =~= seq!['"'] + b);
        assert((seq!['"'] + b).drop_first() =~= b);
    } else {
        let t = a.drop_first();
        assert(a.contains(a[0]));
        assert(!t.contains('"')) by {
            if t.contains('"') {
                let k = choose|k: int| 0 <= k < t.len() && t[k] == '"';
                assert(a[k + 1] == '"');
            }
        }
        lemma_until_quote(t, b);
        assert((a + seq!['"'] + b).drop_first() =~= t + seq!['"'] + b);
        assert(seq![a[0]] + t =~= a);
    }
}

/// The command line carries the browser its arguments unchanged: split by
/// the Windows C runtime's rules it gives back the executable path and every
/// forwarded argument, whatever characters they hold (a path holds no double
/// quote).
pub proof fn lemma_command_line_splits_back(exe: Seq<char>, args: Seq<Seq<char>>)
    requires
        !exe.contains('"'),
    ensures
        split_command_line(command_line_spec(exe, args)) == seq![exe] + args,
{
    let s = command_line_spec(exe, args);
    assert(s[0] == '"');
    assert(s.drop_first() =~= exe + seq!['"'] + args_part(args));
    lemma_until_quote(exe, args_part(args));
    lemma_split_args_part(args);
    if args.len() > 0 {
        assert(args.drop_last().push(args.last()) =~= args);
    } else {
        assert(args =~= Seq::<Seq<char>>::empty());
    }
}

// ---------------------------------------------------------------------------
// The hard-linked executable
// ---------------------------------------------------------------------------

/// The name of the link through which the browser is started: a link to
/// `vivaldi.exe` (compared without regard to ASCII case) is called
/// `vivaldi_real.exe`, a link to any other executable `vivaldi_app_real.exe`.
/// Without a readable file name the executable is taken to be `vivaldi.exe`.
pub fn real_executable_name(file_name: Option<&str>) -> (r: &'static str)
    ensures
        r@ == (if file_name matches Some(n) && !eq_ignore_case(n@, "vivaldi.exe"@) {
            "vivaldi_app_real.exe"@
        } else {
            "vivaldi_real.exe"@
        }),
{
    match file_name {
        Some(n) => {
            if eq_ignore_ascii_case(n, "vivaldi.exe") {
                "vivaldi_real.exe"
            } else {
                "vivaldi_app_real.exe"
            }
        },
        None => "vivaldi_real.exe",
    }
}

/// What is known of an executable file on disk: its length and its
/// modification time in nanoseconds from the Unix epoch (zero when the time
/// cannot be read).
#[derive(Clone, Copy, Debug, PartialEq, Eq, Structural)]
pub struct FileStamp {
    pub len: u64,
    pub modified_nanos: i128,
}

/// The link must be (re)created unless both files can be inspected and agree
/// in length and modification time.
pub fn needs_relink(target: Option<FileStamp>, link: Option<FileStamp>) -> (r: bool)
    ensures
        r == !(target matches Some(t) && link matches Some(l) && t.len == l.len
            && t.modified_nanos == l.modified_nanos),
{
    match (target, link) {
        (Some(t), Some(l)) => t.len != l.len || t.modified_nanos != l.modified_nanos,
        _ => true,
    }
}

/// The text of the dialog that offers to launch the browser without mods.
pub fn launch_prompt_text(error_reason: &str) -> (r: String)
    ensures
        r@ == "Mod injection could not be completed:\n"@ + error_reason@
            + "\n\nWould you like to launch Vivaldi without mods anyway?"@,
{
    let mut r = String::new();
    push_str(&mut r, "Mod injection could not be completed:\n");
    push_str(&mut r, error_reason);
    push_str(&mut r, "\n\nWould you like to launch Vivaldi without mods anyway?");
    r
}

/// What has to happen before a launch with mods: compile the bundle when
/// the page is not patched or either bundle file is missing, and patch the
/// page when it is not patched.
#[derive(Debug, Clone, Copy, PartialEq, Eq, Structural)]
pub struct Preparation {
    pub compile_bundle: bool,
    pub patch_page: bool,
}

/// Decides the preparation from what is found on disk.
pub fn plan_preparation(patched: bool, bundle_js_exists: bool, bundle_css_exists: bool) -> (r:
    Preparation)
    ensures
        r.compile_bundle == (!patched || !bundle_js_exists || !bundle_css_exists),
        r.patch_page == !patched,
{
    let needs_bundle = !bundle_js_exists || !bundle_css_exists;
    Preparation { compile_bundle: !patched || needs_bundle, patch_page: !patched }
}

} // verus!
