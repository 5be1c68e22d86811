//! Windows path texts: joining a component onto a directory, the extension of
//! a file name, and the verbatim prefix that `canonicalize` adds.

use vstd::prelude::*;
use crate::text::{char_to_lower, chars_equal, lower_char, chars_of, pieces_view, push_char, push_range, push_str, split_char, split_chars};

verus! {

broadcast use vstd::string::group_string_axioms;

/// A path separator on Windows.
pub open spec fn is_separator(c: char) -> bool {
    c == '\\' || c == '/'
}

/// A drive prefix on its own, such as `C:`.
pub open spec fn is_bare_drive(p: Seq<char>) -> bool {
    p.len() == 2 && (('A' <= p[0] && p[0] <= 'Z') || ('a' <= p[0] && p[0] <= 'z')) && p[1] == ':'
}

/// A text that opens with a drive prefix, such as `C:` in `C:\x` or `C:x`.
pub open spec fn has_drive_prefix(p: Seq<char>) -> bool {
    p.len() >= 2 && (('A' <= p[0] && p[0] <= 'Z') || ('a' <= p[0] && p[0] <= 'z')) && p[1] == ':'
}

/// A text that opens with two separators: a UNC, verbatim or device prefix.
pub open spec fn has_share_prefix(p: Seq<char>) -> bool {
    p.len() >= 2 && is_separator(p[0]) && is_separator(p[1])
}

/// A separator as a prefix is read: in a verbatim prefix only the backslash.
pub open spec fn prefix_sep(c: char, verbatim: bool) -> bool {
    c == '\\' || (!verbatim && c == '/')
}

/// Where the component that starts at `i` ends: at the first separator from
/// `i` on, or at the end of the text.
pub open spec fn comp_end(s: Seq<char>, i: int, verbatim: bool) -> int
    decreases s.len() - i,
{
    if i >= s.len() {
        s.len() as int
    } else if prefix_sep(s[i], verbatim) {
        i
    } else {
        comp_end(s, i + 1, verbatim)
    }
}

/// The end of a server and share prefix whose server starts at `i`: the
/// server's end, or the share's end when a non-empty share follows.
pub open spec fn server_share_end(s: Seq<char>, i: int, verbatim: bool) -> int {
    let e1 = comp_end(s, i, verbatim);
    if e1 < s.len() && comp_end(s, e1 + 1, verbatim) > e1 + 1 {
        comp_end(s, e1 + 1, verbatim)
    } else {
        e1
    }
}

/// The length of a path's Windows prefix (0 when it has none):
/// `\\?\UNC\server\share`, `\\?\C:`, `\\?\name`, `\\.\device`,
/// `\\server\share` or `C:`. The first four characters are read with `/`
/// as a backslash, except that a verbatim prefix must be written with
/// backslashes.
pub open spec fn prefix_len(s: Seq<char>) -> int {
    if s.len() >= 2 && is_separator(s[0]) && is_separator(s[1]) {
        if s.len() >= 4 && s[0] == '\\' && s[1] == '\\' && s[2] == '?' && s[3] == '\\' {
            if s.len() >= 8 && s[4] == 'U' && s[5] == 'N' && s[6] == 'C' && is_separator(s[7]) {
                server_share_end(s, 8, true)
            } else if s.len() >= 6 && (('A' <= s[4] && s[4] <= 'Z') || ('a' <= s[4] && s[4] <= 'z'))
                && s[5] == ':' && (s.len() == 6 || s[6] == '\\') {
                6
            } else {
                comp_end(s, 4, true)
            }
        } else if s.len() >= 4 && s[2] == '.' && is_separator(s[3]) {
            comp_end(s, 4, false)
        } else {
            server_share_end(s, 2, false)
        }
    } else if has_drive_prefix(s) {
        2
    } else {
        0
    }
}

/// `Path::join` on Windows. A component with a prefix (a drive or two
/// leading separators) replaces the directory; a component with a root but
/// no prefix keeps only the directory's prefix (see `prefix_len`); a
/// relative component is appended, with a backslash between the two unless
/// the directory is empty, a bare drive, or already ends with a separator (a
/// directory with a verbatim prefix is taken to hold no empty, `.` or `..`
/// component, which `Path::join` would drop or resolve).
pub open spec fn join_spec(base: Seq<char>, part: Seq<char>) -> Seq<char> {
    if has_drive_prefix(part) || has_share_prefix(part) {
        part
    } else if part.len() > 0 && is_separator(part[0]) {
        base.take(prefix_len(base)) + part
    } else if base.len() == 0 || is_bare_drive(base) || is_separator(base.last()) {
        base + part
    } else {
        base.push('\\') + part
    }
}

fn comp_end_exec(v: &[char], i: usize, verbatim: bool) -> (r: usize)
    requires
        i <= v@.len(),
    ensures
        r as int == comp_end(v@, i as int, verbatim),
        i <= r <= v@.len(),
{
    let mut j: usize = i;
    while j < v.len() && !(v[j] == '\\' || (!verbatim && v[j] == '/'))
        invariant
            i <= j <= v@.len(),
            comp_end(v@, i as int, verbatim) == comp_end(v@, j as int, verbatim),
        decreases v@.len() - j,
    {
        j = j + 1;
    }
    j
}

fn server_share_end_exec(v: &[char], i: usize, verbatim: bool) -> (r: usize)
    requires
        i <= v@.len(),
    ensures
        r as int == server_share_end(v@, i as int, verbatim),
        r <= v@.len(),
{
    let e1 = comp_end_exec(v, i, verbatim);
    if e1 < v.len() {
        let e2 = comp_end_exec(v, e1 + 1, verbatim);
        if e2 > e1 + 1 {
            return e2;
        }
    }
    e1
}

fn is_sep_char(c: char) -> (r: bool)
    ensures
        r == is_separator(c),
{
    c == '\\' || c == '/'
}

fn prefix_len_exec(v: &[char]) -> (r: usize)
    ensures
        r as int == prefix_len(v@),
        r <= v@.len(),
{
    let n = v.len();
    if n >= 2 && is_sep_char(v[0]) && is_sep_char(v[1]) {
        if n >= 4 && v[0] == '\\' && v[1] == '\\' && v[2] == '?' && v[3] == '\\' {
            if n >= 8 && v[4] == 'U' && v[5] == 'N' && v[6] == 'C' && is_sep_char(v[7]) {
                server_share_end_exec(v, 8, true)
            } else if n >= 6 && is_letter(v[4]) && v[5] == ':' && (n == 6 || v[6] == '\\') {
                6
            } else {
                comp_end_exec(v, 4, true)
            }
        } else if n >= 4 && v[2] == '.' && is_sep_char(v[3]) {
            comp_end_exec(v, 4, false)
        } else {
            server_share_end_exec(v, 2, false)
        }
    } else if drive_prefixed(v) {
        2
    } else {
        0
    }
}

fn is_letter(c: char) -> (r: bool)
    ensures
        r == (('A' <= c && c <= 'Z') || ('a' <= c && c <= 'z')),
{
    ('A' <= c && c <= 'Z') || ('a' <= c && c <= 'z')
}

fn drive_prefixed(v: &[char]) -> (r: bool)
    ensures
        r == has_drive_prefix(v@),
{
    v.len() >= 2 && is_letter(v[0]) && v[1] == ':'
}

/// `Path::extension` of a file name: the text after the last '.', unless
/// there is no '.', the only one opens the name, or the name is `..` (the
/// parent directory, which has no file name).
pub open spec fn extension_spec(name: Seq<char>) -> Option<Seq<char>> {
    if name == seq!['.', '.'] {
        None
    } else if exists|i: int| 0 < i < name.len() && name[i] == '.' {
        let i = choose|i: int|
            0 < i < name.len() && name[i] == '.' && forall|j: int| i < j < name.len() ==> name[j] != '.';
        Some(name.skip(i + 1))
    } else {
        None
    }
}

/// The verbatim prefix `\\?\` that `canonicalize` puts in front of paths.
pub open spec fn verbatim_prefix() -> Seq<char> {
    seq!['\\', '\\', '?', '\\']
}

/// A path without its verbatim prefix, when it has one.
pub open spec fn strip_unc_spec(p: Seq<char>) -> Seq<char> {
    if p.len() >= 4 && p.take(4) == verbatim_prefix() {
        p.skip(4)
    } else {
        p
    }
}

/// Joins a component onto a directory, as `Path::join` does on Windows (see
/// `join_spec`).
pub fn join_path(base: &str, part: &str) -> (r: String)
    ensures
        r@ == join_spec(base@, part@),
{
    let b = chars_of(base);
    let p = chars_of(part);
    let mut r = String::new();
    if drive_prefixed(p.as_slice()) || (p.len() >= 2 && (p[0] == '\\' || p[0] == '/') && (p[1]
        == '\\' || p[1] == '/')) {
        push_str(&mut r, part);
        return r;
    }
    if p.len() > 0 && (p[0] == '\\' || p[0] == '/') {
        let k = prefix_len_exec(b.as_slice());
        push_range(&mut r, b.as_slice(), 0, k);
        assert(b@.subrange(0, k as int) =~= base@.take(k as int));
        push_str(&mut r, part);
        return r;
    }
    let n = b.len();
    let bare_drive = n == 2 && is_letter(b[0]) && b[1] == ':';
    push_str(&mut r, base);
    if !(n == 0 || bare_drive || b[n - 1] == '\\' || b[n - 1] == '/') {
        push_char(&mut r, '\\');
    }
    push_str(&mut r, part);
    r
}

/// The extension of a file name, as `Path::extension` gives it.
pub fn file_extension(name: &str) -> (r: Option<String>)
    ensures
        match r {
            Some(e) => extension_spec(name@) == Some(e@),
            None => extension_spec(name@) is None,
        },
{
    let v = chars_of(name);
    let n = v.len();
    if n == 2 && v[0] == '.' && v[1] == '.' {
        assert(name@ =~= seq!['.', '.']);
        return None;
    }
    assert(name@ != seq!['.', '.']) by {
        if name@ == seq!['.', '.'] {
            assert(v@[0] == '.' && v@[1] == '.');
        }
    }
    let mut i: usize = n;
    while i > 1
        invariant
            i <= n,
            n == v@.len(),
            v@ == name@,
            name@ != seq!['.', '.'],
            forall|j: int| i <= j < n ==> v@[j] != '.',
        decreases i,
    {
        if v[i - 1] == '.' {
            let mut e = String::new();
            push_range(&mut e, v.as_slice(), i, n);
            let ghost k = (i - 1) as int;
            assert(0 < k < name@.len() && name@[k] == '.');
            let ghost c = choose|c: int|
                0 < c < name@.len() && name@[c] == '.' && forall|j: int|
                    c < j < name@.len() ==> name@[j] != '.';
            assert(c == k) by {
                if c < k {
                } else if c > k {
                }
            }
            assert(v@.subrange(i as int, n as int) =~= name@.skip(k + 1));
            return Some(e);
        }
        i = i - 1;
    }
    None
}

/// The path without the verbatim prefix `\\?\`, so that it reads as an
/// ordinary path.
pub fn strip_unc_prefix(path: &str) -> (r: String)
    ensures
        r@ == strip_unc_spec(path@),
{
    let v = chars_of(path);
    let mut r = String::new();
    if v.len() >= 4 && v[0] == '\\' && v[1] == '\\' && v[2] == '?' && v[3] == '\\' {
        push_range(&mut r, v.as_slice(), 4, v.len());
        assert(v@.take(4) =~= verbatim_prefix());
        assert(v@.subrange(4, v@.len() as int) =~= path@.skip(4));
    } else {
        push_str(&mut r, path);
        proof {
            if v@.len() >= 4 && v@.take(4) == verbatim_prefix() {
                assert(v@.take(4)[0] == v@[0]);
                assert(v@.take(4)[1] == v@[1]);
                assert(v@.take(4)[2] == v@[2]);
                assert(v@.take(4)[3] == v@[3]);
            }
        }
    }
    r
}

// ---------------------------------------------------------------------------
// Path equality
// ---------------------------------------------------------------------------

/// The text from `i` to `j`.
pub open spec fn piece(s: Seq<char>, i: int, j: int) -> Seq<char> {
    s.subrange(i, j)
}

/// The server and the share of a server-and-share prefix whose server starts
/// at `i`, joined by a backslash (the server holds no separator).
pub open spec fn server_share(s: Seq<char>, i: int, verbatim: bool) -> Seq<char> {
    let e1 = comp_end(s, i, verbatim);
    let share = if e1 < s.len() {
        piece(s, e1 + 1, comp_end(s, e1 + 1, verbatim))
    } else {
        Seq::empty()
    };
    piece(s, i, e1).push('\\') + share
}

/// A path component as `Path` compares it: a tag and a text. Tags 11 to 16
/// are the prefixes (verbatim UNC, verbatim disk, verbatim, device, UNC,
/// disk, the drive letter in lower case, as drive letters compare without
/// regard to case), 0 the root, 1 the current
/// directory, 2 the parent directory, 3 a name.
pub open spec fn prefix_comp(s: Seq<char>) -> Option<(u8, Seq<char>)> {
    if s.len() >= 2 && is_separator(s[0]) && is_separator(s[1]) {
        if s.len() >= 4 && s[0] == '\\' && s[1] == '\\' && s[2] == '?' && s[3] == '\\' {
            if s.len() >= 8 && s[4] == 'U' && s[5] == 'N' && s[6] == 'C' && is_separator(s[7]) {
                Some((11u8, server_share(s, 8, true)))
            } else if s.len() >= 6 && (('A' <= s[4] && s[4] <= 'Z') || ('a' <= s[4] && s[4] <= 'z'))
                && s[5] == ':' && (s.len() == 6 || s[6] == '\\') {
                Some((12u8, seq![lower_char(s[4])]))
            } else {
                Some((13u8, piece(s, 4, comp_end(s, 4, true))))
            }
        } else if s.len() >= 4 && s[2] == '.' && is_separator(s[3]) {
            Some((14u8, piece(s, 4, comp_end(s, 4, false))))
        } else {
            Some((15u8, server_share(s, 2, false)))
        }
    } else if has_drive_prefix(s) {
        Some((16u8, seq![lower_char(s[0])]))
    } else {
        None
    }
}

/// The path has a verbatim prefix, where only the backslash separates.
pub open spec fn is_verbatim(s: Seq<char>) -> bool {
    match prefix_comp(s) {
        Some((k, _)) => 11 <= k <= 13,
        None => false,
    }
}

/// The text with `/` read as a backslash, unless the path is verbatim.
pub open spec fn normalize_seps(t: Seq<char>, verbatim: bool) -> Seq<char> {
    t.map_values(|c: char| if !verbatim && c == '/' {
        '\\'
    } else {
        c
    })
}

/// The components of the pieces between separators: empty pieces and `.`
/// are dropped (a verbatim path keeps `.` as the current directory), `..` is
/// the parent directory, anything else a name.
pub open spec fn body_comps(pieces: Seq<Seq<char>>, verbatim: bool) -> Seq<(u8, Seq<char>)>
    decreases pieces.len(),
{
    if pieces.len() == 0 {
        Seq::empty()
    } else {
        let p = pieces.last();
        let init = body_comps(pieces.drop_last(), verbatim);
        if p.len() == 0 {
            init
        } else if p == seq!['.'] {
            if verbatim {
                init.push((1u8, Seq::empty()))
            } else {
                init
            }
        } else if p == seq!['.', '.'] {
            init.push((2u8, Seq::empty()))
        } else {
            init.push((3u8, p))
        }
    }
}

/// The components of a path as `Path` on Windows reads them: the prefix, the
/// root (written, or implied by a device or UNC prefix), a leading `.` of a
/// relative path without root, and the components between separators.
pub open spec fn components(s: Seq<char>) -> Seq<(u8, Seq<char>)> {
    let pl = prefix_len(s);
    let v = is_verbatim(s);
    let phys = pl < s.len() && is_separator(s[pl]);
    let pre: Seq<(u8, Seq<char>)> = match prefix_comp(s) {
        Some(c) => seq![c],
        None => Seq::empty(),
    };
    let implicit = match prefix_comp(s) {
        Some((k, _)) => k == 14 || k == 15,
        None => false,
    };
    let has_root = phys || (prefix_comp(s) is Some && !(prefix_comp(s) matches Some((16u8, _))));
    let root: Seq<(u8, Seq<char>)> = if phys || implicit {
        seq![(0u8, Seq::empty())]
    } else {
        Seq::empty()
    };
    let cur: Seq<(u8, Seq<char>)> = if !has_root && pl < s.len() && s[pl] == '.' && (pl + 1
        == s.len() || is_separator(s[pl + 1])) {
        seq![(1u8, Seq::empty())]
    } else {
        Seq::empty()
    };
    let body_start = if phys {
        pl + 1
    } else {
        pl
    };
    pre + root + cur + body_comps(split_char(normalize_seps(s.skip(body_start), v), '\\'), v)
}

/// `Path::eq` on Windows: the paths have the same components.
pub open spec fn path_eq(a: Seq<char>, b: Seq<char>) -> bool {
    components(a) == components(b)
}

fn piece_exec(v: &[char], i: usize, j: usize) -> (r: Vec<char>)
    requires
        i <= j <= v@.len(),
    ensures
        r@ == piece(v@, i as int, j as int),
{
    let mut r: Vec<char> = Vec::new();
    let mut k: usize = i;
    while k < j
        invariant
            i <= k <= j <= v@.len(),
            r@ == v@.subrange(i as int, k as int),
        decreases j - k,
    {
        r.push(v[k]);
        assert(v@.subrange(i as int, k + 1) =~= v@.subrange(i as int, k as int).push(v@[k as int]));
        k = k + 1;
    }
    r
}

fn server_share_exec(v: &[char], i: usize, verbatim: bool) -> (r: Vec<char>)
    requires
        i <= v@.len(),
    ensures
        r@ == server_share(v@, i as int, verbatim),
{
    let e1 = comp_end_exec(v, i, verbatim);
    let mut r = piece_exec(v, i, e1);
    r.push('\\');
    if e1 < v.len() {
        let e2 = comp_end_exec(v, e1 + 1, verbatim);
        let share = piece_exec(v, e1 + 1, e2);
        let ghost before = r@;
        let mut k: usize = 0;
        while k < share.len()
            invariant
                k <= share@.len(),
                r@ == before + share@.take(k as int),
            decreases share@.len() - k,
        {
            r.push(share[k]);
            assert(share@.take(k + 1) =~= share@.take(k as int).push(share@[k as int]));
            k = k + 1;
        }
        assert(share@.take(share@.len() as int) =~= share@);
    } else {
        assert(r@ =~= server_share(v@, i as int, verbatim));
    }
    r
}

fn prefix_comp_exec(v: &[char]) -> (r: Option<(u8, Vec<char>)>)
    ensures
        match r {
            Some((k, t)) => prefix_comp(v@) == Some((k, t@)),
            None => prefix_comp(v@) is None,
        },
{
    let n = v.len();
    if n >= 2 && is_sep_char(v[0]) && is_sep_char(v[1]) {
        if n >= 4 && v[0] == '\\' && v[1] == '\\' && v[2] == '?' && v[3] == '\\' {
            if n >= 8 && v[4] == 'U' && v[5] == 'N' && v[6] == 'C' && is_sep_char(v[7]) {
                Some((11u8, server_share_exec(v, 8, true)))
            } else if n >= 6 && is_letter(v[4]) && v[5] == ':' && (n == 6 || v[6] == '\\') {
                let mut t: Vec<char> = Vec::new();
                t.push(char_to_lower(v[4]));
                assert(t@ =~= seq![lower_char(v@[4])]);
                Some((12u8, t))
            } else {
                let e = comp_end_exec(v, 4, true);
                Some((13u8, piece_exec(v, 4, e)))
            }
        } else if n >= 4 && v[2] == '.' && is_sep_char(v[3]) {
            let e = comp_end_exec(v, 4, false);
            Some((14u8, piece_exec(v, 4, e)))
        } else {
            Some((15u8, server_share_exec(v, 2, false)))
        }
    } else if drive_prefixed(v) {
        let mut t: Vec<char> = Vec::new();
        t.push(char_to_lower(v[0]));
        assert(t@ =~= seq![lower_char(v@[0])]);
        Some((16u8, t))
    } else {
        None
    }
}

/// The components of a path as tag and text vectors.
pub open spec fn comps_view(v: Seq<(u8, Vec<char>)>) -> Seq<(u8, Seq<char>)> {
    v.map_values(|c: (u8, Vec<char>)| (c.0, c.1@))
}

fn push_comp(out: &mut Vec<(u8, Vec<char>)>, tag: u8, text: Vec<char>)
    ensures
        comps_view(final(out)@) == comps_view(old(out)@).push((tag, text@)),
{
    let ghost before = comps_view(out@);
    out.push((tag, text));
    assert(comps_view(out@) =~= before.push((tag, text@)));
}

fn components_exec(s: &str) -> (r: Vec<(u8, Vec<char>)>)
    ensures
        comps_view(r@) == components(s@),
{
    let v = chars_of(s);
    let n = v.len();
    let pl = prefix_len_exec(v.as_slice());
    let pc = prefix_comp_exec(v.as_slice());
    let verbatim = match &pc {
        Some((k, _)) => 11 <= *k && *k <= 13,
        None => false,
    };
    let phys = pl < n && is_sep_char(v[pl]);
    let implicit = match &pc {
        Some((k, _)) => *k == 14 || *k == 15,
        None => false,
    };
    let has_root = phys || match &pc {
        Some((k, _)) => *k != 16,
        None => false,
    };
    let mut out: Vec<(u8, Vec<char>)> = Vec::new();
    assert(comps_view(out@) =~= Seq::<(u8, Seq<char>)>::empty());
    match pc {
        Some((k, t)) => push_comp(&mut out, k, t),
        None => {},
    }
    if phys || implicit {
        push_comp(&mut out, 0, Vec::new());
    }
    if !has_root && pl < n && v[pl] == '.' && (pl + 1 == n || is_sep_char(v[pl + 1])) {
        push_comp(&mut out, 1, Vec::new());
    }
    let body_start = if phys {
        pl + 1
    } else {
        pl
    };
    let mut rest: Vec<char> = Vec::new();
    let mut k: usize = body_start;
    while k < n
        invariant
            body_start <= k <= n,
            n == v@.len(),
            rest@ == normalize_seps(v@.subrange(body_start as int, k as int), verbatim),
        decreases n - k,
    {
        let c = v[k];
        rest.push(if !verbatim && c == '/' {
            '\\'
        } else {
            c
        });
        assert(normalize_seps(v@.subrange(body_start as int, k + 1), verbatim) =~= normalize_seps(
            v@.subrange(body_start as int, k as int),
            verbatim,
        ).push(if !verbatim && c == '/' {
            '\\'
        } else {
            c
        }));
        k = k + 1;
    }
    assert(v@.subrange(body_start as int, n as int) =~= v@.skip(body_start as int));
    let pieces = split_chars(rest.as_slice(), '\\');
    let ghost head = comps_view(out@);
    let mut i: usize = 0;
    while i < pieces.len()
        invariant
            i <= pieces@.len(),
            comps_view(out@) == head + body_comps(pieces_view(pieces@).take(i as int), verbatim),
        decreases pieces@.len() - i,
    {
        let p = &pieces[i];
        let ghost pv = pieces_view(pieces@);
        assert(pv.take(i + 1).drop_last() =~= pv.take(i as int));
        assert(pv.take(i + 1).last() == p@);
        let ghost prev = body_comps(pv.take(i as int), verbatim);
        if p.len() == 0 {
        } else if p.len() == 1 && p[0] == '.' {
            assert(p@ =~= seq!['.']);
            if verbatim {
                push_comp(&mut out, 1, Vec::new());
                assert(head + prev.push((1u8, Seq::empty())) =~= (head + prev).push(
                    (1u8, Seq::empty()),
                ));
            }
        } else if p.len() == 2 && p[0] == '.' && p[1] == '.' {
            assert(p@ =~= seq!['.', '.']);
            push_comp(&mut out, 2, Vec::new());
            assert(head + prev.push((2u8, Seq::empty())) =~= (head + prev).push(
                (2u8, Seq::empty()),
            ));
        } else {
            assert(p@ != seq!['.']) by {
                if p@ == seq!['.'] {
                    assert(p@.len() == 1 && p@[0] == '.');
                }
            }
            assert(p@ != seq!['.', '.']) by {
                if p@ == seq!['.', '.'] {
                    assert(p@.len() == 2 && p@[0] == '.' && p@[1] == '.');
                }
            }
            let copy = piece_exec(p.as_slice(), 0, p.len());
            assert(copy@ =~= p@);
            push_comp(&mut out, 3, copy);
            assert(head + prev.push((3u8, p@)) =~= (head + prev).push((3u8, p@)));
        }
        i = i + 1;
    }
    assert(pieces_view(pieces@).take(pieces@.len() as int) =~= pieces_view(pieces@));
    out
}

/// `Path::eq` on Windows: the two paths have the same components (see
/// `components`).
pub fn paths_equal(a: &str, b: &str) -> (r: bool)
    ensures
        r == path_eq(a@, b@),
{
    let ca = components_exec(a);
    let cb = components_exec(b);
    if ca.len() != cb.len() {
        assert(comps_view(ca@).len() != comps_view(cb@).len());
        return false;
    }
    let mut i: usize = 0;
    while i < ca.len()
        invariant
            i <= ca@.len(),
            ca@.len() == cb@.len(),
            comps_view(ca@) == components(a@),
            comps_view(cb@) == components(b@),
            forall|j: int| 0 <= j < i ==> comps_view(ca@)[j] == comps_view(cb@)[j],
        decreases ca@.len() - i,
    {
        if ca[i].0 != cb[i].0 || !chars_equal(ca[i].1.as_slice(), cb[i].1.as_slice()) {
            assert(comps_view(ca@)[i as int] != comps_view(cb@)[i as int]);
            return false;
        }
        i = i + 1;
    }
    assert(comps_view(ca@) =~= comps_view(cb@));
    true
}

} // verus!
