//! Idempotent injection of the bundle hook into Vivaldi's `window.html`.
//!
//! The functions here decide what a `window.html` should become; reading and
//! writing the file (and keeping the `window.html.orig` backup) is left to the
//! caller.

use vstd::prelude::*;
use crate::text::{
    ascii_lower, chars_of, contains_chars, contains_seq, is_last_occurrence, lower_chars, occurs_at, push_char,
    push_chars, push_range, push_str, rfind_chars, split_char, str_contains, lemma_split_char_nonempty, lines_spec, strip_cr,
};

verus! {

broadcast use vstd::string::group_string_axioms;

/// The tag inserted into `window.html` to load the compiled bundle.
pub const HOOK_SCRIPT_TAG: &'static str = "  <!-- VIVALDI-JIT-HOOK -->\n  <script src=\"inject_bundle.js\"></script>";

/// A page that contains this text is considered patched.
pub const HOOK_IDENTIFIER: &'static str = "inject_bundle.js";

/// The comment that marks the hook tag.
pub const HOOK_MARKER: &'static str = "VIVALDI-JIT-HOOK";

/// The closing body tag, searched for without regard to ASCII case.
pub const BODY_CLOSE: &'static str = "</body>";

// ---------------------------------------------------------------------------
// Specifications
// ---------------------------------------------------------------------------

/// The characters of `HOOK_IDENTIFIER`.
pub open spec fn hook_id() -> Seq<char> {
    seq!['i', 'n', 'j', 'e', 'c', 't', '_', 'b', 'u', 'n', 'd', 'l', 'e', '.', 'j', 's']
}

/// The characters of `HOOK_MARKER`.
pub open spec fn hook_marker() -> Seq<char> {
    seq!['V', 'I', 'V', 'A', 'L', 'D', 'I', '-', 'J', 'I', 'T', '-', 'H', 'O', 'O', 'K']
}

/// The part of the hook tag before the identifier.
pub open spec fn hook_lead() -> Seq<char> {
    seq![
        ' ', ' ', '<', '!', '-', '-', ' ', 'V', 'I', 'V', 'A', 'L', 'D', 'I', '-', 'J', 'I', 'T',
        '-', 'H', 'O', 'O', 'K', ' ', '-', '-', '>', '\n', ' ', ' ', '<', 's', 'c', 'r', 'i', 'p',
        't', ' ', 's', 'r', 'c', '=', '"',
    ]
}

/// The part of the hook tag after the identifier.
pub open spec fn hook_trail() -> Seq<char> {
    seq!['"', '>', '<', '/', 's', 'c', 'r', 'i', 'p', 't', '>']
}

/// The characters of `HOOK_SCRIPT_TAG`.
pub open spec fn hook_tag() -> Seq<char> {
    hook_lead() + hook_id() + hook_trail()
}

/// What the injection inserts: the hook tag and a line break.
pub open spec fn hook_block() -> Seq<char> {
    hook_tag().push('\n')
}

/// The characters of `BODY_CLOSE`.
pub open spec fn body_close() -> Seq<char> {
    seq!['<', '/', 'b', 'o', 'd', 'y', '>']
}

/// A page is patched when it contains the hook identifier.
pub open spec fn is_patched_spec(html: Seq<char>) -> bool {
    contains_seq(html, hook_id())
}

/// Where the hook block goes: before the last closing body tag (compared
/// without regard to ASCII case); with no such tag, after the page and a line
/// break.
pub open spec fn injection_point(html: Seq<char>) -> int {
    let lower = ascii_lower(html);
    if contains_seq(lower, body_close()) {
        choose|p: int| is_last_occurrence(lower, body_close(), p)
    } else {
        html.len() + 1int
    }
}

/// The page with the hook block inserted and nothing else changed.
pub open spec fn inject_spec(html: Seq<char>) -> Seq<char> {
    let lower = ascii_lower(html);
    if contains_seq(lower, body_close()) {
        let p = injection_point(html);
        html.take(p) + hook_block() + html.skip(p)
    } else {
        html.push('\n') + hook_block()
    }
}

/// What patching does to a page: nothing when it is already patched,
/// otherwise the page with the hook injected.
pub open spec fn patch_spec(html: Seq<char>) -> Option<Seq<char>> {
    if is_patched_spec(html) {
        None
    } else {
        Some(inject_spec(html))
    }
}

/// A line that belongs to the hook and is dropped when unpatching.
pub open spec fn is_hook_line(l: Seq<char>) -> bool {
    contains_seq(l, hook_id()) || contains_seq(l, hook_marker())
}

/// The lines that do not belong to the hook, in order.
pub open spec fn kept_lines(ls: Seq<Seq<char>>) -> Seq<Seq<char>>
    decreases ls.len(),
{
    if ls.len() == 0 {
        ls
    } else if is_hook_line(ls.last()) {
        kept_lines(ls.drop_last())
    } else {
        kept_lines(ls.drop_last()).push(ls.last())
    }
}

/// Lines joined with line feeds between them.
pub open spec fn join_lines(ls: Seq<Seq<char>>) -> Seq<char>
    decreases ls.len(),
{
    if ls.len() == 0 {
        Seq::<char>::empty()
    } else if ls.len() == 1 {
        ls[0]
    } else {
        join_lines(ls.drop_last()).push('\n') + ls.last()
    }
}

/// What unpatching makes of a page when no backup is at hand: `None` when the
/// page does not carry the hook, otherwise the page without the lines that
/// belong to the hook.
pub open spec fn unpatch_spec(html: Seq<char>) -> Option<Seq<char>> {
    if !is_patched_spec(html) {
        None
    } else {
        Some(join_lines(kept_lines(lines_spec(html))))
    }
}

// ---------------------------------------------------------------------------
// Facts about the hook text
// ---------------------------------------------------------------------------

proof fn lemma_hook_text()
    ensures
        hook_lead().len() == 43,
        hook_id().len() == 16,
        hook_trail().len() == 11,
        hook_block().len() == 71,
        hook_id()[6] == '_',
        forall|m: int| 0 <= m < 16 ==> hook_id()[m] != ' ' && hook_id()[m] != '"' && hook_id()[m] != '\n',
        forall|k: int| 0 <= k < 43 ==> hook_block()[k] != '_',
        hook_block()[0] == ' ',
        hook_block()[42] == '"',
        hook_block()[59] == '"',
        hook_block()[70] == '\n',
        hook_block().subrange(43, 59) == hook_id(),
{
    assert(forall|k: int| 0 <= k < 43 ==> hook_lead()[k] != '_');
    assert(forall|k: int| 0 <= k < 43 ==> hook_block()[k] == hook_lead()[k]);
    assert(hook_block().subrange(43, 59) =~= hook_id());
}

/// The hook identifier never occurs twice in a page that lacked it before the
/// block was inserted: in `a + hook_block() + b` it occurs exactly once, inside
/// the block.
pub proof fn lemma_single_occurrence(a: Seq<char>, b: Seq<char>)
    requires
        !contains_seq(a + b, hook_id()),
    ensures
        forall|i: int|
            #[trigger] occurs_at(a + hook_block() + b, hook_id(), i) <==> i == a.len() + 43,
{
    lemma_hook_text();
    let r = a + hook_block() + b;
    let la = a.len() as int;
    let id = hook_id();
    assert(r.len() == la + 71 + b.len());
    assert forall|j: int| la <= j < la + 71 implies #[trigger] r[j] == hook_block()[j - la] by {}
    assert(r.subrange(la + 43, la + 59) =~= hook_block().subrange(43, 59));
    assert(occurs_at(r, id, la + 43));
    assert forall|i: int| #[trigger] occurs_at(r, id, i) implies i == la + 43 by {
        let w = r.subrange(i, i + 16);
        assert(w == id);
        assert forall|k: int| i <= k < i + 16 implies r[k] == #[trigger] id[k - i] by {
            assert(w[k - i] == r[k]);
        }
        if i + 16 <= la {
            assert((a + b).subrange(i, i + 16) =~= w);
            assert(occurs_at(a + b, id, i));
        } else if i < la {
            assert(r[la] == id[la - i]);
        } else if i <= la + 26 {
            assert(r[i + 6] == id[6]);
            assert(r[i + 6] == hook_block()[i + 6 - la]);
        } else if i <= la + 42 {
            assert(r[la + 42] == id[la + 42 - i]);
        } else if i == la + 43 {
        } else if i <= la + 59 {
            assert(r[la + 59] == id[la + 59 - i]);
        } else if i <= la + 70 {
            assert(r[la + 70] == id[la + 70 - i]);
        } else {
            assert((a + b).subrange(i - 71, i - 71 + 16) =~= w);
            assert(occurs_at(a + b, id, i - 71));
        }
    }
}

proof fn lemma_last_occurrence_unique(h: Seq<char>, n: Seq<char>, p: int)
    requires
        is_last_occurrence(h, n, p),
    ensures
        contains_seq(h, n),
        (choose|q: int| is_last_occurrence(h, n, q)) == p,
{
    assert(occurs_at(h, n, p));
    let q = choose|q: int| is_last_occurrence(h, n, q);
    assert(is_last_occurrence(h, n, q));
    if q < p {
        assert(!occurs_at(h, n, p));
    } else if p < q {
        assert(!occurs_at(h, n, q));
    }
}

proof fn lemma_no_occurrence_push(h: Seq<char>)
    requires
        !contains_seq(h, hook_id()),
    ensures
        !contains_seq(h.push('\n'), hook_id()),
{
    lemma_hook_text();
    assert forall|i: int| !#[trigger] occurs_at(h.push('\n'), hook_id(), i) by {
        if occurs_at(h.push('\n'), hook_id(), i) {
            let w = h.push('\n').subrange(i, i + 16);
            if i + 16 <= h.len() {
                assert(h.subrange(i, i + 16) =~= w);
                assert(occurs_at(h, hook_id(), i));
            } else {
                assert(w[h.len() - i] == '\n');
                assert(hook_id()[h.len() - i] == '\n');
            }
        }
    }
}

// ---------------------------------------------------------------------------
// Laws
// ---------------------------------------------------------------------------

/// Injection changes nothing but the inserted hook block: removing the block
/// gives back the page.
pub proof fn lemma_injection_is_pure(html: Seq<char>)
    ensures
        inject_spec(html) == html.take(injection_point(html)) + hook_block() + html.skip(
            injection_point(html),
        ) || inject_spec(html) == html.push('\n') + hook_block(),
        0 <= injection_point(html) <= html.len() + 1,
        contains_seq(ascii_lower(html), body_close()) ==> is_last_occurrence(
            ascii_lower(html),
            body_close(),
            injection_point(html),
        ),
{
    let lower = ascii_lower(html);
    if contains_seq(lower, body_close()) {
        let w = choose|i: int| occurs_at(lower, body_close(), i);
        assert(occurs_at(lower, body_close(), w));
        lemma_last_occurrence_exists(lower, body_close(), w);
        let p = injection_point(html);
        assert(is_last_occurrence(lower, body_close(), p));
        assert(lower.len() == html.len());
    }
}

proof fn lemma_last_occurrence_exists(h: Seq<char>, n: Seq<char>, w: int)
    requires
        occurs_at(h, n, w),
    ensures
        exists|p: int| is_last_occurrence(h, n, p),
    decreases h.len() - w,
{
    if exists|j: int| w < j && #[trigger] occurs_at(h, n, j) {
        let j = choose|j: int| w < j && #[trigger] occurs_at(h, n, j);
        lemma_last_occurrence_exists(h, n, j);
    } else {
        assert(is_last_occurrence(h, n, w));
    }
}

/// A patched page is recognised as patched, and when the page did not carry
/// the hook before, the hook identifier occurs in it exactly once.
pub proof fn lemma_patch_marks_once(html: Seq<char>)
    requires
        !is_patched_spec(html),
    ensures
        is_patched_spec(inject_spec(html)),
        forall|i: int|
            #[trigger] occurs_at(inject_spec(html), hook_id(), i) <==> i == injection_point(html)
                + 43,
{
    let lower = ascii_lower(html);
    if contains_seq(lower, body_close()) {
        lemma_injection_is_pure(html);
        let p = injection_point(html);
        assert(ascii_lower(html).len() == html.len());
        assert(html.take(p) + html.skip(p) =~= html);
        lemma_single_occurrence(html.take(p), html.skip(p));
        assert(occurs_at(inject_spec(html), hook_id(), p + 43));
    } else {
        lemma_no_occurrence_push(html);
        let e = Seq::<char>::empty();
        assert(html.push('\n') + e =~= html.push('\n'));
        assert(html.push('\n') + hook_block() + e =~= inject_spec(html));
        lemma_single_occurrence(html.push('\n'), e);
        assert(occurs_at(inject_spec(html), hook_id(), html.len() + 44int));
    }
}

/// Patching is idempotent: a page that patching produced is left alone by a
/// second patch.
pub proof fn lemma_patch_idempotent(html: Seq<char>)
    ensures
        patch_spec(html) matches Some(patched) ==> patch_spec(patched) is None,
        is_patched_spec(html) ==> patch_spec(html) is None,
{
    if !is_patched_spec(html) {
        lemma_patch_marks_once(html);
    }
}

/// A `window.html` and its `window.html.orig` backup, as read from disk.
#[derive(Debug)]
pub struct PageFiles {
    pub page: String,
    pub backup: Option<String>,
}

pub struct PageFilesView {
    pub page: Seq<char>,
    pub backup: Option<Seq<char>>,
}

impl View for PageFiles {
    type V = PageFilesView;

    open spec fn view(&self) -> PageFilesView {
        PageFilesView {
            page: self.page@,
            backup: match self.backup {
                Some(b) => Some(b@),
                None => None,
            },
        }
    }
}

/// Patching the page and its backup: nothing when the page is patched;
/// otherwise the injected page, and the backup kept or, when there is none,
/// taken from the page as it was.
pub open spec fn patch_files_spec(f: PageFilesView) -> Option<PageFilesView> {
    match patch_spec(f.page) {
        None => None,
        Some(p) => Some(
            PageFilesView {
                page: p,
                backup: match f.backup {
                    Some(b) => Some(b),
                    None => Some(f.page),
                },
            },
        ),
    }
}

/// Unpatching the page and its backup: the backup restored where there is
/// one, otherwise the hook lines removed from a patched page.
pub open spec fn unpatch_files_spec(f: PageFilesView) -> Option<PageFilesView> {
    match f.backup {
        Some(b) => Some(PageFilesView { page: b, backup: Some(b) }),
        None => match unpatch_spec(f.page) {
            None => None,
            Some(p) => Some(PageFilesView { page: p, backup: None }),
        },
    }
}

/// Unpatching undoes patching: after a patch, an unpatch gives back the page
/// as it was before the first patch (the backup, or the page itself when no
/// backup existed), and a second patch changes nothing. A backup that exists
/// is never overwritten.
pub proof fn lemma_unpatch_undoes_patch(f: PageFilesView)
    requires
        !is_patched_spec(f.page),
    ensures
        patch_files_spec(f) matches Some(g) && patch_files_spec(g) is None && unpatch_files_spec(g)
            == Some(
            PageFilesView {
                page: match f.backup {
                    Some(b) => b,
                    None => f.page,
                },
                backup: g.backup,
            },
        ) && (f.backup is Some ==> g.backup == f.backup),
{
    lemma_patch_idempotent(f.page);
}

// ---------------------------------------------------------------------------
// Executable functions
// ---------------------------------------------------------------------------

/// The page carries the hook.
pub fn is_patched(content: &str) -> (r: bool)
    ensures
        r == is_patched_spec(content@),
{
    proof {
        reveal_strlit("inject_bundle.js");
    }
    assert(HOOK_IDENTIFIER@ =~= hook_id());
    str_contains(content, HOOK_IDENTIFIER)
}

/// The page with the hook tag inserted before the last closing body tag (or,
/// without one, appended after a line break), all other text unchanged.
pub fn inject_into_html(html: &str) -> (r: String)
    ensures
        r@ == inject_spec(html@),
{
    proof {
        reveal_strlit("</body>");
        reveal_strlit("  <!-- VIVALDI-JIT-HOOK -->\n  <script src=\"inject_bundle.js\"></script>");
    }
    assert(BODY_CLOSE@ =~= body_close());
    assert(HOOK_SCRIPT_TAG@ =~= hook_tag());
    let h = chars_of(html);
    let lower = lower_chars(h.as_slice());
    let close = chars_of(BODY_CLOSE);
    let mut out = String::new();
    match rfind_chars(lower.as_slice(), close.as_slice()) {
        Some(p) => {
            proof {
                lemma_last_occurrence_unique(lower@, close@, p as int);
            }
            push_range(&mut out, h.as_slice(), 0, p);
            push_str(&mut out, HOOK_SCRIPT_TAG);
            push_char(&mut out, '\n');
            push_range(&mut out, h.as_slice(), p, h.len());
            assert(h@.subrange(0, p as int) =~= html@.take(p as int));
            assert(h@.subrange(p as int, h@.len() as int) =~= html@.skip(p as int));
            assert(out@ =~= inject_spec(html@));
        },
        None => {
            push_str(&mut out, html);
            push_char(&mut out, '\n');
            push_str(&mut out, HOOK_SCRIPT_TAG);
            push_char(&mut out, '\n');
            assert(out@ =~= inject_spec(html@));
        },
    }
    out
}



/// Appends one line to the joined output, unless it belongs to the hook.
fn emit_line(out: &mut String, emitted: &mut bool, line: &[char], Ghost(done): Ghost<Seq<Seq<char>>>)
    requires
        old(out)@ == join_lines(kept_lines(done)),
        *old(emitted) == (kept_lines(done).len() > 0),
    ensures
        final(out)@ == join_lines(kept_lines(done.push(line@))),
        *final(emitted) == (kept_lines(done.push(line@)).len() > 0),
{
    proof {
        reveal_strlit("inject_bundle.js");
        reveal_strlit("VIVALDI-JIT-HOOK");
    }
    assert(HOOK_IDENTIFIER@ =~= hook_id());
    assert(HOOK_MARKER@ =~= hook_marker());
    let id = chars_of(HOOK_IDENTIFIER);
    let marker = chars_of(HOOK_MARKER);
    assert(done.push(line@).drop_last() =~= done);
    let hook = contains_chars(line, id.as_slice()) || contains_chars(line, marker.as_slice());
    if !hook {
        let ghost k = kept_lines(done);
        assert(kept_lines(done.push(line@)) == k.push(line@));
        assert(k.push(line@).drop_last() =~= k);
        if *emitted {
            push_char(out, '\n');
        }
        push_chars(out, line);
        *emitted = true;
        proof {
            if k.len() == 0 {
                assert(join_lines(k.push(line@)) == line@);
                assert(out@ =~= line@);
            }
        }
    }
}

/// What unpatching makes of a page when no backup is at hand: `None` when the
/// page does not carry the hook, otherwise the page without the lines that
/// mention the hook identifier or the hook marker.
pub fn strip_hook_lines(content: &str) -> (r: Option<String>)
    ensures
        r is None <==> unpatch_spec(content@) is None,
        r matches Some(s) ==> unpatch_spec(content@) == Some(s@),
{
    if !is_patched(content) {
        return None;
    }
    let s = chars_of(content);
    let mut out = String::new();
    let mut emitted = false;
    let mut cur: Vec<char> = Vec::new();
    let ghost mut done: Seq<Seq<char>> = Seq::empty();
    let mut i: usize = 0;
    while i < s.len()
        invariant
            i <= s@.len(),
            s@ == content@,
            split_char(s@.take(i as int), '\n') == done.push(cur@),
            out@ == join_lines(kept_lines(done.map_values(|l: Seq<char>| strip_cr(l)))),
            emitted == (kept_lines(done.map_values(|l: Seq<char>| strip_cr(l))).len() > 0),
        decreases s@.len() - i,
    {
        let c = s[i];
        let ghost q = s@.take(i + 1);
        assert(q.drop_last() =~= s@.take(i as int));
        assert(q.last() == c);
        if c == '\n' {
            let n = cur.len();
            let ghost mapped = done.map_values(|l: Seq<char>| strip_cr(l));
            let ghost whole = cur@;
            if n > 0 && cur[n - 1] == '\r' {
                cur.truncate(n - 1);
                assert(cur@ =~= strip_cr(whole));
                emit_line(&mut out, &mut emitted, cur.as_slice(), Ghost(mapped));
            } else {
                emit_line(&mut out, &mut emitted, cur.as_slice(), Ghost(mapped));
            }
            assert(done.push(whole).map_values(|l: Seq<char>| strip_cr(l)) =~= mapped.push(
                strip_cr(whole),
            ));
            proof {
                done = done.push(whole);
            }
            cur = Vec::new();
            assert(split_char(q, '\n') =~= done.push(cur@));
        } else {
            cur.push(c);
            assert(split_char(q, '\n') =~= done.push(cur@));
        }
        i = i + 1;
    }
    assert(s@.take(s@.len() as int) =~= s@);
    let ghost mapped = done.map_values(|l: Seq<char>| strip_cr(l));
    assert(split_char(s@, '\n').drop_last() =~= done);
    assert(split_char(s@, '\n').last() == cur@);
    proof {
        if s@.len() > 0 {
            let p = split_char(s@.drop_last(), '\n');
            lemma_split_char_nonempty(s@.drop_last(), '\n');
            if s@.last() != '\n' {
                assert(split_char(s@, '\n').last() == p.last().push(s@.last()));
            }
        }
    }
    if cur.len() > 0 {
        emit_line(&mut out, &mut emitted, cur.as_slice(), Ghost(mapped));
    }
    Some(out)
}

fn copy_text(s: &str) -> (r: String)
    ensures
        r@ == s@,
{
    let mut r = String::new();
    push_str(&mut r, s);
    r
}

/// What patching makes of the page and its backup: `None` when the page
/// already carries the hook (nothing to write); otherwise the page with the
/// hook injected, and the page as it was kept as the backup unless a backup
/// exists already.
pub fn patch_window_html(files: &PageFiles) -> (r: Option<PageFiles>)
    ensures
        match r {
            Some(g) => patch_files_spec(files@) == Some(g@),
            None => patch_files_spec(files@) is None,
        },
{
    if is_patched(files.page.as_str()) {
        return None;
    }
    let backup = match &files.backup {
        Some(b) => copy_text(b.as_str()),
        None => copy_text(files.page.as_str()),
    };
    Some(PageFiles { page: inject_into_html(files.page.as_str()), backup: Some(backup) })
}

/// What unpatching makes of the page and its backup: with a backup, the page
/// becomes the backup; without one, the page loses the lines that belong to
/// the hook, and `None` (nothing to write) when it does not carry the hook.
pub fn unpatch_window_html(files: &PageFiles) -> (r: Option<PageFiles>)
    ensures
        match r {
            Some(g) => unpatch_files_spec(files@) == Some(g@),
            None => unpatch_files_spec(files@) is None,
        },
{
    match &files.backup {
        Some(b) => Some(PageFiles { page: copy_text(b.as_str()), backup: Some(copy_text(b.as_str())) }),
        None => match strip_hook_lines(files.page.as_str()) {
            Some(p) => Some(PageFiles { page: p, backup: None }),
            None => None,
        },
    }
}

} // verus!
