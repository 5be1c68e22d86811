//! Locating the Vivaldi installation: where to look for the executable, which
//! version directory is active, and the paths derived from it. Registry
//! lookups and file-system checks are the caller's.

use vstd::prelude::*;
use crate::text::{push_char, 
    chars_of, lemma_split_char_nonempty, parse_u64, parse_u64_spec, push_range, push_str,
    split_char,
};
use crate::paths::{join_path, join_spec};

verus! {

broadcast use vstd::string::group_string_axioms;

// ---------------------------------------------------------------------------
// Version numbers
// ---------------------------------------------------------------------------

/// A version number such as 7.1.3370.47, as its numeric components.
#[derive(Debug)]
pub struct VersionParts(pub Vec<u64>);

/// A version number's components: the pieces between dots, each of which must
/// read as a `u64`.
pub open spec fn parse_version_spec(s: Seq<char>) -> Option<Seq<u64>> {
    let parts = split_char(s, '.');
    if forall|i: int| 0 <= i < parts.len() ==> (#[trigger] parse_u64_spec(parts[i])) is Some {
        Some(parts.map_values(|p: Seq<char>| parse_u64_spec(p)->0))
    } else {
        None
    }
}

/// The order of version numbers: component by component, a number that is a
/// prefix of another coming first (the order of `Vec<u64>`).
pub open spec fn version_le(a: Seq<u64>, b: Seq<u64>) -> bool
    decreases a.len(),
{
    if a.len() == 0 {
        true
    } else if b.len() == 0 {
        false
    } else if a[0] != b[0] {
        a[0] < b[0]
    } else {
        version_le(a.drop_first(), b.drop_first())
    }
}

/// Version numbers compare component by component as numbers: where `a`
/// and `b` agree before component `k` and `a[k] > b[k]`, `a` is the higher
/// version (`b <= a` and not `a <= b`), whatever follows.
pub proof fn lemma_version_first_difference(a: Seq<u64>, b: Seq<u64>, k: int)
    requires
        0 <= k < a.len(),
        k < b.len(),
        a.take(k) == b.take(k),
        a[k] > b[k],
    ensures
        version_le(b, a),
        !version_le(a, b),
    decreases k,
{
    if k > 0 {
        assert(a[0] == a.take(k)[0]);
        assert(b[0] == b.take(k)[0]);
        assert(a.drop_first().take(k - 1) =~= a.take(k).drop_first());
        assert(b.drop_first().take(k - 1) =~= b.take(k).drop_first());
        lemma_version_first_difference(a.drop_first(), b.drop_first(), k - 1);
    }
}

/// A version number that extends another with more components is the higher
/// one (as `7.1.1` is higher than `7.1`).
pub proof fn lemma_version_prefix(a: Seq<u64>, b: Seq<u64>)
    requires
        a.len() < b.len(),
        b.take(a.len() as int) == a,
    ensures
        version_le(a, b),
        !version_le(b, a),
    decreases a.len(),
{
    if a.len() > 0 {
        assert(a[0] == b.take(a.len() as int)[0]);
        assert(b.drop_first().take(a.len() - 1) =~= a.drop_first());
        lemma_version_prefix(a.drop_first(), b.drop_first());
    }
}

proof fn lemma_version_total(a: Seq<u64>, b: Seq<u64>)
    ensures
        version_le(a, b) || version_le(b, a),
    decreases a.len(),
{
    if a.len() > 0 && b.len() > 0 && a[0] == b[0] {
        lemma_version_total(a.drop_first(), b.drop_first());
    }
}

proof fn lemma_version_refl(a: Seq<u64>)
    ensures
        version_le(a, a),
    decreases a.len(),
{
    if a.len() > 0 {
        lemma_version_refl(a.drop_first());
    }
}

proof fn lemma_version_trans(a: Seq<u64>, b: Seq<u64>, c: Seq<u64>)
    requires
        version_le(a, b),
        version_le(b, c),
    ensures
        version_le(a, c),
    decreases a.len(),
{
    if a.len() > 0 && b.len() > 0 && c.len() > 0 && a[0] == b[0] && b[0] == c[0] {
        lemma_version_trans(a.drop_first(), b.drop_first(), c.drop_first());
    }
}

impl VersionParts {
    /// Reads a directory name as a version number: `None` unless every
    /// dot-separated piece is a `u64`.
    pub fn parse(s: &str) -> (r: Option<VersionParts>)
        ensures
            match r {
                Some(v) => parse_version_spec(s@) == Some(v.0@),
                None => parse_version_spec(s@) is None,
            },
    {
        let c = chars_of(s);
        let mut parts: Vec<u64> = Vec::new();
        let mut cur: Vec<char> = Vec::new();
        let ghost mut done: Seq<Seq<char>> = Seq::empty();
        let mut i: usize = 0;
        while i < c.len()
            invariant
                i <= c@.len(),
                c@ == s@,
                split_char(c@.take(i as int), '.') == done.push(cur@),
                parts@.len() == done.len(),
                forall|k: int|
                    0 <= k < done.len() ==> parse_u64_spec(#[trigger] done[k]) == Some(
                        parts@[k],
                    ),
            decreases c@.len() - i,
        {
            let ch = c[i];
            let ghost q = c@.take(i + 1);
            assert(q.drop_last() =~= c@.take(i as int));
            if ch == '.' {
                match parse_u64(cur.as_slice()) {
                    Some(v) => {
                        parts.push(v);
                        proof {
                            done = done.push(cur@);
                        }
                        cur = Vec::new();
                        assert(split_char(q, '.') =~= done.push(cur@));
                    },
                    None => {
                        proof {
                            lemma_split_char_nonempty(c@.take(i as int), '.');
                            lemma_split_prefix_piece(c@, i as int + 1, done.len() as int, '.');
                            assert(split_char(q, '.')[done.len() as int] == cur@);
                            assert(split_char(s@, '.')[done.len() as int] == cur@);
                        }
                        return None;
                    },
                }
            } else {
                cur.push(ch);
                assert(split_char(q, '.') =~= done.push(cur@));
            }
            i = i + 1;
        }
        assert(c@.take(c@.len() as int) =~= c@);
        match parse_u64(cur.as_slice()) {
            Some(v) => {
                parts.push(v);
                let ghost all = done.push(cur@);
                assert(all =~= split_char(s@, '.'));
                assert(parts@ =~= all.map_values(|p: Seq<char>| parse_u64_spec(p)->0));
                Some(VersionParts(parts))
            },
            None => {
                assert(split_char(s@, '.')[done.len() as int] == cur@);
                None
            },
        }
    }

    /// `self` is not after `other` in version order.
    pub fn le(&self, other: &VersionParts) -> (r: bool)
        ensures
            r == version_le(self.0@, other.0@),
    {
        let a = &self.0;
        let b = &other.0;
        let mut i: usize = 0;
        assert(a@.skip(0) =~= a@);
        assert(b@.skip(0) =~= b@);
        while i < a.len() && i < b.len()
            invariant
                a@ == self.0@,
                b@ == other.0@,
                i <= a@.len(),
                i <= b@.len(),
                version_le(a@, b@) == version_le(a@.skip(i as int), b@.skip(i as int)),
            decreases a@.len() - i,
        {
            assert(a@.skip(i as int)[0] == a@[i as int]);
            assert(b@.skip(i as int)[0] == b@[i as int]);
            assert(a@.skip(i as int).len() > 0 && b@.skip(i as int).len() > 0);
            if a[i] != b[i] {
                assert(version_le(a@.skip(i as int), b@.skip(i as int)) == (a@[i as int]
                    < b@[i as int]));
                assert(version_le(self.0@, other.0@) == (a@[i as int] < b@[i as int]));
                return a[i] < b[i];
            }
            assert(a@.skip(i as int).drop_first() =~= a@.skip(i + 1));
            assert(b@.skip(i as int).drop_first() =~= b@.skip(i + 1));
            i = i + 1;
        }
        if i == a.len() {
            assert(a@.skip(i as int).len() == 0);
            true
        } else {
            assert(b@.skip(i as int).len() == 0);
            false
        }
    }
}

/// A piece that splitting a prefix completed is also a piece of the whole text.
proof fn lemma_split_prefix_piece(s: Seq<char>, n: int, k: int, sep: char)
    requires
        0 <= n <= s.len(),
        0 <= k < split_char(s.take(n), sep).len() - 1,
    ensures
        split_char(s, sep)[k] == split_char(s.take(n), sep)[k],
        k < split_char(s, sep).len() - 1,
    decreases s.len() - n,
{
    if n < s.len() {
        let p = s.take(n + 1);
        assert(p.drop_last() =~= s.take(n));
        lemma_split_char_nonempty(s.take(n), sep);
        assert(split_char(p, sep)[k] == split_char(s.take(n), sep)[k]);
        lemma_split_prefix_piece(s, n + 1, k, sep);
    } else {
        assert(s.take(n) =~= s);
    }
}

// ---------------------------------------------------------------------------
// The active version directory
// ---------------------------------------------------------------------------

/// A subdirectory of the Vivaldi application directory: its name, and whether
/// `resources\vivaldi\window.html` is a file inside it.
pub struct VersionDirEntry {
    pub name: String,
    pub has_window_html: bool,
}

/// The resources directory of a version directory.
pub open spec fn resources_spec(version_dir: Seq<char>) -> Seq<char> {
    join_spec(join_spec(version_dir, "resources"@), "vivaldi"@)
}

/// The `window.html` of a version directory.
pub open spec fn window_html_spec(version_dir: Seq<char>) -> Seq<char> {
    join_spec(resources_spec(version_dir), "window.html"@)
}

/// An entry is a candidate when its name is a version number and it holds a
/// `window.html`.
pub open spec fn is_candidate(e: VersionDirEntry) -> bool {
    parse_version_spec(e.name@) is Some && e.has_window_html
}

/// The version of a candidate.
pub open spec fn version_of(e: VersionDirEntry) -> Seq<u64> {
    parse_version_spec(e.name@)->0
}

/// Entry `i` is the active version: a candidate with the highest version, and
/// the first such in listing order.
pub open spec fn is_active(entries: Seq<VersionDirEntry>, i: int) -> bool {
    &&& 0 <= i < entries.len()
    &&& is_candidate(entries[i])
    &&& forall|j: int|
        0 <= j < entries.len() && is_candidate(#[trigger] entries[j]) ==> version_le(
            version_of(entries[j]),
            version_of(entries[i]),
        )
    &&& forall|j: int|
        0 <= j < i && is_candidate(#[trigger] entries[j]) ==> !version_le(
            version_of(entries[i]),
            version_of(entries[j]),
        )
}

/// The active version is the highest: no candidate has a version that is
/// higher at the first component where the two differ, nor one that extends
/// the active version with more components; and a candidate listed before it
/// has a lower version.
pub proof fn lemma_active_is_highest(entries: Seq<VersionDirEntry>, i: int, j: int)
    requires
        is_active(entries, i),
        0 <= j < entries.len(),
        is_candidate(entries[j]),
    ensures
        ({
            let v = version_of(entries[i]);
            let w = version_of(entries[j]);
            &&& forall|k: int|
                0 <= k < v.len() && k < w.len() && v.take(k) == w.take(k) ==> w[k] <= v[k]
            &&& !(v.len() < w.len() && w.take(v.len() as int) == v)
            &&& j < i ==> !version_le(v, w)
        }),
{
    let v = version_of(entries[i]);
    let w = version_of(entries[j]);
    assert(version_le(w, v));
    assert forall|k: int| 0 <= k < v.len() && k < w.len() && v.take(k) == w.take(k) implies w[k]
        <= v[k] by {
        if w[k] > v[k] {
            lemma_version_first_difference(w, v, k);
        }
    }
    if v.len() < w.len() && w.take(v.len() as int) == v {
        lemma_version_prefix(v, w);
    }
}

/// The message when no version directory qualifies.
pub open spec fn no_version_message(app_dir: Seq<char>) -> Seq<char> {
    "No valid Vivaldi version directory with resources/vivaldi/window.html found in "@ + app_dir
}

/// The resources directory of a version directory.
pub fn version_resources_dir(version_dir: &str) -> (r: String)
    ensures
        r@ == resources_spec(version_dir@),
{
    let a = join_path(version_dir, "resources");
    join_path(a.as_str(), "vivaldi")
}

/// The `window.html` of a version directory.
pub fn version_window_html(version_dir: &str) -> (r: String)
    ensures
        r@ == window_html_spec(version_dir@),
{
    let a = version_resources_dir(version_dir);
    join_path(a.as_str(), "window.html")
}

/// Picks the active version among the subdirectories of `app_dir`: the
/// highest version number whose directory holds a `window.html` (the first
/// listed, on a tie). Answers its name, its directory and its `window.html`.
pub fn find_active_version_dir(app_dir: &str, entries: &[VersionDirEntry]) -> (r: Result<
    (String, String, String),
    String,
>)
    ensures
        match r {
            Ok((version, dir, window)) => exists|i: int|
                #![trigger entries@[i]]
                is_active(entries@, i) && version@ == entries@[i].name@ && dir@ == join_spec(
                    app_dir@,
                    entries@[i].name@,
                ) && window@ == window_html_spec(dir@),
            Err(e) => (forall|j: int|
                0 <= j < entries@.len() ==> !is_candidate(#[trigger] entries@[j])) && e@
                == no_version_message(app_dir@),
        },
{
    let mut best: Option<(usize, VersionParts)> = None;
    let mut i: usize = 0;
    while i < entries.len()
        invariant
            i <= entries@.len(),
            best is None ==> forall|j: int| 0 <= j < i ==> !is_candidate(#[trigger] entries@[j]),
            best matches Some((b, v)) ==> {
                &&& b < i
                &&& is_candidate(entries@[b as int])
                &&& v.0@ == version_of(entries@[b as int])
                &&& forall|j: int|
                    0 <= j < i && is_candidate(#[trigger] entries@[j]) ==> version_le(
                        version_of(entries@[j]),
                        v.0@,
                    )
                &&& forall|j: int|
                    0 <= j < b && is_candidate(#[trigger] entries@[j]) ==> !version_le(
                        v.0@,
                        version_of(entries@[j]),
                    )
            },
        decreases entries@.len() - i,
    {
        let e = &entries[i];
        assert(entries@[i as int] == *e);
        if !e.has_window_html {
            assert(!is_candidate(entries@[i as int]));
        }
        if e.has_window_html {
            match VersionParts::parse(e.name.as_str()) {
                Some(v) => {
                    let better = match &best {
                        None => true,
                        Some((_, bv)) => !v.le(bv),
                    };
                    if better {
                        proof {
                            lemma_version_refl(v.0@);
                            match best {
                                None => {},
                                Some((b, bv)) => {
                                    lemma_version_total(v.0@, bv.0@);
                                    assert forall|j: int|
                                        0 <= j < i && is_candidate(#[trigger] entries@[j])
                                        implies version_le(version_of(entries@[j]), v.0@) by {
                                        lemma_version_trans(version_of(entries@[j]), bv.0@, v.0@);
                                    }
                                    assert forall|j: int|
                                        0 <= j < i && is_candidate(#[trigger] entries@[j])
                                        implies !version_le(v.0@, version_of(entries@[j])) by {
                                        if version_le(v.0@, version_of(entries@[j])) {
                                            lemma_version_trans(
                                                v.0@,
                                                version_of(entries@[j]),
                                                bv.0@,
                                            );
                                        }
                                    }
                                },
                            }
                        }
                        best = Some((i, v));
                    }
                },
                None => {
                    assert(!is_candidate(entries@[i as int]));
                },
            }
        }
        assert(best is None ==> forall|j: int| 0 <= j < i + 1 ==> !is_candidate(#[trigger] entries@[j]));
        i = i + 1;
    }
    match best {
        Some((b, _)) => {
            let name = &entries[b].name;
            let mut version = String::new();
            push_str(&mut version, name.as_str());
            let dir = join_path(app_dir, name.as_str());
            let window = version_window_html(dir.as_str());
            assert(is_active(entries@, b as int));
            Ok((version, dir, window))
        },
        None => {
            let mut e = String::new();
            push_str(
                &mut e,
                "No valid Vivaldi version directory with resources/vivaldi/window.html found in ",
            );
            push_str(&mut e, app_dir);
            Err(e)
        },
    }
}

// ---------------------------------------------------------------------------
// The installation
// ---------------------------------------------------------------------------

/// A located Vivaldi installation.
#[derive(Debug)]
pub struct VivaldiTarget {
    pub exe_path: String,
    pub app_dir: String,
    pub version: String,
    pub version_dir: String,
    pub resources_dir: String,
    pub window_html: String,
}

/// Builds the installation record from the executable's canonical path, the
/// directory holding it and that directory's subdirectories.
pub fn resolve_vivaldi(canonical_exe: &str, app_dir: &str, entries: &[VersionDirEntry]) -> (r:
    Result<VivaldiTarget, String>)
    ensures
        match r {
            Ok(t) => exists|i: int|
                #![trigger entries@[i]]
                is_active(entries@, i) && t.exe_path@ == canonical_exe@ && t.app_dir@ == app_dir@
                    && t.version@ == entries@[i].name@ && t.version_dir@ == join_spec(
                    app_dir@,
                    entries@[i].name@,
                ) && t.resources_dir@ == resources_spec(t.version_dir@) && t.window_html@
                    == window_html_spec(t.version_dir@),
            Err(e) => (forall|j: int|
                0 <= j < entries@.len() ==> !is_candidate(#[trigger] entries@[j])) && e@
                == no_version_message(app_dir@),
        },
{
    let (version, version_dir, window_html) = find_active_version_dir(app_dir, entries)?;
    let resources_dir = version_resources_dir(version_dir.as_str());
    let mut exe_path = String::new();
    push_str(&mut exe_path, canonical_exe);
    let mut dir = String::new();
    push_str(&mut dir, app_dir);
    Ok(
        VivaldiTarget {
            exe_path,
            app_dir: dir,
            version,
            version_dir,
            resources_dir,
            window_html,
        },
    )
}

/// What a user-supplied location turned out to be on disk.
#[derive(Clone, Copy, Debug, PartialEq, Eq, Structural)]
pub enum HintKind {
    /// An existing file.
    File,
    /// A directory that holds `vivaldi.exe`.
    DirWithExe,
    /// Anything else.
    Other,
}

/// The executable named by a user-supplied location: the file itself, or
/// `vivaldi.exe` in the directory; `None` when the installation must be
/// searched for instead.
pub fn exe_from_hint(hint: &str, kind: HintKind) -> (r: Option<String>)
    ensures
        match kind {
            HintKind::File => r matches Some(p) && p@ == hint@,
            HintKind::DirWithExe => r matches Some(p) && p@ == join_spec(hint@, "vivaldi.exe"@),
            HintKind::Other => r is None,
        },
{
    match kind {
        HintKind::File => {
            let mut p = String::new();
            push_str(&mut p, hint);
            Some(p)
        },
        HintKind::DirWithExe => Some(join_path(hint, "vivaldi.exe")),
        HintKind::Other => None,
    }
}

/// `Vivaldi\Application\vivaldi.exe` under a directory.
pub open spec fn exe_under(dir: Seq<char>) -> Seq<char> {
    join_spec(join_spec(join_spec(dir, "Vivaldi"@), "Application"@), "vivaldi.exe"@)
}

/// The list of optional texts that are present, in order.
pub open spec fn present(v: Seq<Option<Seq<char>>>) -> Seq<Seq<char>>
    decreases v.len(),
{
    if v.len() == 0 {
        Seq::empty()
    } else {
        match v.last() {
            Some(x) => present(v.drop_last()).push(x),
            None => present(v.drop_last()),
        }
    }
}

fn exe_under_exec(dir: &str) -> (r: String)
    ensures
        r@ == exe_under(dir@),
{
    let a = join_path(dir, "Vivaldi");
    let b = join_path(a.as_str(), "Application");
    join_path(b.as_str(), "vivaldi.exe")
}

fn push_opt(v: &mut Vec<String>, o: Option<&str>)
    ensures
        final(v)@.len() == old(v)@.len() + if o is Some {
            1int
        } else {
            0int
        },
        forall|k: int| 0 <= k < old(v)@.len() ==> final(v)@[k] == old(v)@[k],
        o matches Some(d) ==> final(v)@.last()@ == exe_under(d@),
{
    match o {
        Some(d) => v.push(exe_under_exec(d)),
        None => {},
    }
}

/// The standard installation on a drive: `<d>:\Vivaldi\Application\vivaldi.exe`.
pub open spec fn drive_exe(d: char) -> Seq<char> {
    seq![d] + ":\\Vivaldi\\Application\\vivaldi.exe"@
}

/// The Snapshot installation on a drive:
/// `<d>:\Vivaldi Snapshot\Application\vivaldi.exe`.
pub open spec fn drive_snapshot_exe(d: char) -> Seq<char> {
    seq![d] + ":\\Vivaldi Snapshot\\Application\\vivaldi.exe"@
}

/// The candidates for the given drive letters, in order: for each drive its
/// standard installation, then its Snapshot installation.
pub open spec fn drive_candidates(drives: Seq<char>) -> Seq<Seq<char>>
    decreases drives.len(),
{
    if drives.len() == 0 {
        Seq::empty()
    } else {
        drive_candidates(drives.drop_last()).push(drive_exe(drives.last())).push(
            drive_snapshot_exe(drives.last()),
        )
    }
}

/// Each drive contributes its standard and then its Snapshot installation,
/// in the order the drives are given.
pub proof fn lemma_drive_candidates(drives: Seq<char>)
    ensures
        drive_candidates(drives).len() == 2 * drives.len(),
        forall|k: int|
            0 <= k < drives.len() ==> drive_candidates(drives)[2 * k] == drive_exe(
                #[trigger] drives[k],
            ) && drive_candidates(drives)[2 * k + 1] == drive_snapshot_exe(drives[k]),
    decreases drives.len(),
{
    if drives.len() > 0 {
        let init = drives.drop_last();
        lemma_drive_candidates(init);
        assert forall|k: int| 0 <= k < drives.len() implies drive_candidates(drives)[2 * k]
            == drive_exe(#[trigger] drives[k]) && drive_candidates(drives)[2 * k + 1]
            == drive_snapshot_exe(drives[k]) by {
            if k < init.len() {
                assert(init[k] == drives[k]);
            }
        }
    }
}

/// Where the executable is looked for after the registry: under
/// `%LOCALAPPDATA%`, `%ProgramFiles%` and `%ProgramFiles(x86)%` (when set),
/// then on every active drive (`drives`, the letters of the drives that are
/// present, in order) its standard and its Snapshot installation.
pub fn vivaldi_exe_candidates(
    local_app_data: Option<&str>,
    program_files: Option<&str>,
    program_files_x86: Option<&str>,
    drives: &[char],
) -> (r: Vec<String>)
    ensures
        ({
            let dirs = present(
                seq![
                    crate::config::opt_str_text(local_app_data),
                    crate::config::opt_str_text(program_files),
                    crate::config::opt_str_text(program_files_x86),
                ],
            );
            &&& r@.len() == dirs.len() + 2 * drives@.len()
            &&& forall|k: int| 0 <= k < dirs.len() ==> (#[trigger] r@[k])@ == exe_under(dirs[k])
            &&& forall|k: int|
                0 <= k < 2 * drives@.len() ==> (#[trigger] r@[dirs.len() + k])@ == drive_candidates(
                    drives@,
                )[k]
        }),
{
    let mut r: Vec<String> = Vec::new();
    proof {
        reveal_with_fuel(present, 4);
    }
    push_opt(&mut r, local_app_data);
    push_opt(&mut r, program_files);
    push_opt(&mut r, program_files_x86);
    let ghost n = r@.len();
    let ghost dirs = present(
        seq![
            crate::config::opt_str_text(local_app_data),
            crate::config::opt_str_text(program_files),
            crate::config::opt_str_text(program_files_x86),
        ],
    );
    let ghost opts = seq![
        crate::config::opt_str_text(local_app_data),
        crate::config::opt_str_text(program_files),
        crate::config::opt_str_text(program_files_x86),
    ];
    assert(opts.drop_last().drop_last().drop_last() =~= Seq::<Option<Seq<char>>>::empty());
    assert(opts.drop_last().drop_last() =~= seq![crate::config::opt_str_text(local_app_data)]);
    assert(opts.drop_last() =~= seq![
        crate::config::opt_str_text(local_app_data),
        crate::config::opt_str_text(program_files),
    ]);
    assert(n == dirs.len());
    let mut i: usize = 0;
    while i < drives.len()
        invariant
            i <= drives@.len(),
            n == dirs.len(),
            r@.len() == n + 2 * i,
            forall|k: int| 0 <= k < n ==> (#[trigger] r@[k])@ == exe_under(dirs[k]),
            forall|k: int| 0 <= k < 2 * i ==> (#[trigger] r@[n + k])@ == drive_candidates(
                drives@.take(i as int),
            )[k],
        decreases drives@.len() - i,
    {
        let d = drives[i];
        let mut a = String::new();
        push_char(&mut a, d);
        push_str(&mut a, ":\\Vivaldi\\Application\\vivaldi.exe");
        let mut b = String::new();
        push_char(&mut b, d);
        push_str(&mut b, ":\\Vivaldi Snapshot\\Application\\vivaldi.exe");
        let ghost before = r@;
        r.push(a);
        r.push(b);
        assert(drives@.take(i + 1).drop_last() =~= drives@.take(i as int));
        assert(drives@.take(i + 1).last() == d);
        proof {
            lemma_drive_candidates(drives@.take(i as int));
        }
        assert forall|k: int| 0 <= k < 2 * (i + 1) implies (#[trigger] r@[n + k])@
            == drive_candidates(drives@.take(i + 1))[k] by {
            if k < 2 * i {
                assert(r@[n + k] == before[n + k]);
            }
        }
        i = i + 1;
    }
    assert(drives@.take(drives@.len() as int) =~= drives@);
    r
}

// ---------------------------------------------------------------------------
// Registry strings and wide strings
// ---------------------------------------------------------------------------

/// `s` without leading occurrences of `c`.
pub open spec fn trim_start_spec(s: Seq<char>, c: char) -> Seq<char>
    decreases s.len(),
{
    if s.len() > 0 && s[0] == c {
        trim_start_spec(s.drop_first(), c)
    } else {
        s
    }
}

/// `s` without trailing occurrences of `c`.
pub open spec fn trim_end_spec(s: Seq<char>, c: char) -> Seq<char>
    decreases s.len(),
{
    if s.len() > 0 && s.last() == c {
        trim_end_spec(s.drop_last(), c)
    } else {
        s
    }
}

/// `str::trim_matches` with one character: every leading and trailing
/// occurrence removed.
pub open spec fn trim_spec(s: Seq<char>, c: char) -> Seq<char> {
    trim_end_spec(trim_start_spec(s, c), c)
}

/// A registry string value as a path: NUL padding and surrounding double
/// quotes removed.
pub open spec fn clean_registry_spec(s: Seq<char>) -> Seq<char> {
    trim_spec(trim_spec(s, '\0'), '"')
}

proof fn lemma_trim_start_at(s: Seq<char>, c: char, a: int)
    requires
        0 <= a <= s.len(),
        forall|k: int| 0 <= k < a ==> s[k] == c,
        a == s.len() || s[a] != c,
    ensures
        trim_start_spec(s, c) == s.skip(a),
    decreases a,
{
    if a == 0 {
        assert(s.skip(0) =~= s);
    } else {
        lemma_trim_start_at(s.drop_first(), c, a - 1);
        assert(s.drop_first().skip(a - 1) =~= s.skip(a));
    }
}

proof fn lemma_trim_end_at(s: Seq<char>, c: char, b: int)
    requires
        0 <= b <= s.len(),
        forall|k: int| b <= k < s.len() ==> s[k] == c,
        b == 0 || s[b - 1] != c,
    ensures
        trim_end_spec(s, c) == s.take(b),
    decreases s.len() - b,
{
    if b == s.len() {
        assert(s.take(b) =~= s);
    } else {
        lemma_trim_end_at(s.drop_last(), c, b);
        assert(s.drop_last().take(b) =~= s.take(b));
    }
}

/// `str::trim_matches` with one character.
pub fn trim_char(s: &str, c: char) -> (r: String)
    ensures
        r@ == trim_spec(s@, c),
{
    let v = chars_of(s);
    let n = v.len();
    let mut a: usize = 0;
    while a < n && v[a] == c
        invariant
            a <= n,
            n == v@.len(),
            forall|k: int| 0 <= k < a ==> v@[k] == c,
        decreases n - a,
    {
        a = a + 1;
    }
    let mut b: usize = n;
    while b > a && v[b - 1] == c
        invariant
            a <= b <= n,
            n == v@.len(),
            forall|k: int| b <= k < n ==> v@[k] == c,
        decreases b,
    {
        b = b - 1;
    }
    proof {
        lemma_trim_start_at(s@, c, a as int);
        let t = s@.skip(a as int);
        lemma_trim_end_at(t, c, b - a);
        assert(t.take(b - a) =~= v@.subrange(a as int, b as int));
    }
    let mut r = String::new();
    push_range(&mut r, v.as_slice(), a, b);
    r
}

/// A registry string value as a path: NUL padding and surrounding double
/// quotes removed.
pub fn clean_registry_value(s: &str) -> (r: String)
    ensures
        r@ == clean_registry_spec(s@),
{
    let t = trim_char(s, '\0');
    trim_char(t.as_str(), '"')
}

/// The UTF-16 code units of one character.
pub open spec fn utf16_units(c: char) -> Seq<u16> {
    let v = c as u32;
    if v < 0x10000 {
        seq![v as u16]
    } else {
        let w = (v - 0x10000) as int;
        seq![(0xD800 + w / 0x400) as u16, (0xDC00 + w % 0x400) as u16]
    }
}

/// The UTF-16 encoding of a text.
pub open spec fn utf16_spec(s: Seq<char>) -> Seq<u16>
    decreases s.len(),
{
    if s.len() == 0 {
        Seq::empty()
    } else {
        utf16_spec(s.drop_last()) + utf16_units(s.last())
    }
}

/// The text as a NUL-terminated UTF-16 string, as Windows API calls take it.
pub fn encode_wide(s: &str) -> (r: Vec<u16>)
    ensures
        r@ == utf16_spec(s@).push(0),
{
    let v = chars_of(s);
    let mut r: Vec<u16> = Vec::new();
    let mut i: usize = 0;
    while i < v.len()
        invariant
            i <= v@.len(),
            v@ == s@,
            r@ == utf16_spec(v@.take(i as int)),
        decreases v@.len() - i,
    {
        let c = v[i];
        let x = c as u32;
        assert(v@.take(i + 1).drop_last() =~= v@.take(i as int));
        if x < 0x10000 {
            r.push(x as u16);
        } else {
            let w = x - 0x10000;
            let hi: u32 = 0xD800 + w / 0x400;
            let lo: u32 = 0xDC00 + w % 0x400;
            r.push(#[verifier::truncate] (hi as u16));
            r.push(#[verifier::truncate] (lo as u16));
        }
        assert(r@ =~= utf16_spec(v@.take(i as int)) + utf16_units(c));
        i = i + 1;
    }
    assert(v@.take(v@.len() as int) =~= v@);
    r.push(0);
    r
}

} // verus!
