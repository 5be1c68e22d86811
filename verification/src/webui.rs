//! The web interface's request handling: routing, reading multipart uploads
//! and JSON request bodies, and the error body. Serving HTTP and carrying out
//! the requests is the caller's.

use vstd::prelude::*;
use vstd::utf8::{decode_utf8, valid_utf8};
use vstd::string::StringSliceAdditionalSpecFns;
use crate::text::{
    ascii_lower, chars_of, contains_seq, is_first_occurrence, lines_of, lines_spec, lower_chars,
    occurs_at, pieces_view, push_chars, push_str, split_char, split_chars, starts_with_chars,
    str_contains, string_of, trim_ws, trim_ws_chars,
};
use crate::discovery::{trim_char, trim_spec};
use crate::config::{type_of_extension, ModType};
use crate::text::lemma_split_char_nonempty;

verus! {

broadcast use vstd::string::group_string_axioms;

// ---------------------------------------------------------------------------
// Routing
// ---------------------------------------------------------------------------

/// The request methods the interface tells apart.
#[derive(Clone, Copy, Debug, PartialEq, Eq, Structural)]
pub enum HttpMethod {
    Get,
    Post,
    Other,
}

/// What a request asks for.
#[derive(Clone, Copy, Debug, PartialEq, Eq, Structural)]
pub enum Route {
    Index,
    Status,
    ListMods { rescan: bool },
    GetConfig,
    Toggle,
    SetOrder,
    Import,
    SaveConfig,
    Patch,
    Unpatch { clean: bool },
    InstallHook,
    UninstallHook,
    Shutdown,
    NotFound,
}

/// The route of a request from its method, path and query.
pub open spec fn route_spec(m: HttpMethod, path: Seq<char>, query: Seq<char>) -> Route {
    match m {
        HttpMethod::Get => if path == "/"@ || path == "/index.html"@ {
            Route::Index
        } else if path == "/api/status"@ {
            Route::Status
        } else if path == "/api/mods"@ {
            Route::ListMods { rescan: contains_seq(query, "rescan=true"@) }
        } else if path == "/api/config"@ {
            Route::GetConfig
        } else {
            Route::NotFound
        },
        HttpMethod::Post => if path == "/api/toggle"@ {
            Route::Toggle
        } else if path == "/api/set-order"@ {
            Route::SetOrder
        } else if path == "/api/import"@ {
            Route::Import
        } else if path == "/api/config"@ {
            Route::SaveConfig
        } else if path == "/api/patch"@ {
            Route::Patch
        } else if path == "/api/unpatch"@ {
            Route::Unpatch { clean: contains_seq(query, "clean=true"@) }
        } else if path == "/api/install-hook"@ {
            Route::InstallHook
        } else if path == "/api/uninstall-hook"@ {
            Route::UninstallHook
        } else if path == "/api/shutdown"@ {
            Route::Shutdown
        } else {
            Route::NotFound
        },
        HttpMethod::Other => Route::NotFound,
    }
}

/// The length, first and last character of a path: enough to tell the
/// interface's paths apart.
spec fn path_code(s: Seq<char>) -> (nat, char, char) {
    (s.len(), s[0], s[s.len() - 1])
}

/// Every path of the interface reaches its handler, only by its method: GET
/// for the page (`/`, `/index.html`), the status, the mod list (rescanning
/// when the query asks `rescan=true`) and the configuration; POST for
/// toggling, ordering, importing, saving the configuration, patching,
/// unpatching (cleaning when the query asks `clean=true`), the hook and
/// shutting down. Any other method is not found.
pub proof fn lemma_routes(m: HttpMethod, path: Seq<char>, q: Seq<char>)
    ensures
        m == HttpMethod::Get && (path == "/"@ || path == "/index.html"@) ==> route_spec(m, path, q)
            == Route::Index,
        m == HttpMethod::Get && path == "/api/status"@ ==> route_spec(m, path, q) == Route::Status,
        m == HttpMethod::Get && path == "/api/mods"@ ==> route_spec(m, path, q) == (Route::ListMods {
            rescan: contains_seq(q, "rescan=true"@),
        }),
        m == HttpMethod::Get && path == "/api/config"@ ==> route_spec(m, path, q)
            == Route::GetConfig,
        m == HttpMethod::Post && path == "/api/toggle"@ ==> route_spec(m, path, q) == Route::Toggle,
        m == HttpMethod::Post && path == "/api/set-order"@ ==> route_spec(m, path, q)
            == Route::SetOrder,
        m == HttpMethod::Post && path == "/api/import"@ ==> route_spec(m, path, q) == Route::Import,
        m == HttpMethod::Post && path == "/api/config"@ ==> route_spec(m, path, q)
            == Route::SaveConfig,
        m == HttpMethod::Post && path == "/api/patch"@ ==> route_spec(m, path, q) == Route::Patch,
        m == HttpMethod::Post && path == "/api/unpatch"@ ==> route_spec(m, path, q) == (
        Route::Unpatch { clean: contains_seq(q, "clean=true"@) }),
        m == HttpMethod::Post && path == "/api/install-hook"@ ==> route_spec(m, path, q)
            == Route::InstallHook,
        m == HttpMethod::Post && path == "/api/uninstall-hook"@ ==> route_spec(m, path, q)
            == Route::UninstallHook,
        m == HttpMethod::Post && path == "/api/shutdown"@ ==> route_spec(m, path, q)
            == Route::Shutdown,
        m == HttpMethod::Get && (path == "/api/toggle"@ || path == "/api/shutdown"@)
            ==> route_spec(m, path, q) == Route::NotFound,
        m == HttpMethod::Post && (path == "/"@ || path == "/api/status"@ || path == "/api/mods"@)
            ==> route_spec(m, path, q) == Route::NotFound,
        m == HttpMethod::Other ==> route_spec(m, path, q) == Route::NotFound,
{
    reveal_strlit("/");
    reveal_strlit("/index.html");
    reveal_strlit("/api/status");
    reveal_strlit("/api/mods");
    reveal_strlit("/api/config");
    reveal_strlit("/api/toggle");
    reveal_strlit("/api/set-order");
    reveal_strlit("/api/import");
    reveal_strlit("/api/patch");
    reveal_strlit("/api/unpatch");
    reveal_strlit("/api/install-hook");
    reveal_strlit("/api/uninstall-hook");
    reveal_strlit("/api/shutdown");
    assert(path_code("/"@) == (1nat, '/', '/'));
    assert(path_code("/index.html"@) == (11nat, '/', 'l'));
    assert(path_code("/api/status"@) == (11nat, '/', 's'));
    assert(path_code("/api/mods"@) == (9nat, '/', 's'));
    assert(path_code("/api/config"@) == (11nat, '/', 'g'));
    assert(path_code("/api/toggle"@) == (11nat, '/', 'e'));
    assert(path_code("/api/set-order"@) == (14nat, '/', 'r'));
    assert(path_code("/api/import"@) == (11nat, '/', 't'));
    assert(path_code("/api/patch"@) == (10nat, '/', 'h'));
    assert(path_code("/api/unpatch"@) == (12nat, '/', 'h'));
    assert(path_code("/api/install-hook"@) == (17nat, '/', 'k'));
    assert(path_code("/api/uninstall-hook"@) == (19nat, '/', 'k'));
    assert(path_code("/api/shutdown"@) == (13nat, '/', 'n'));
    if path.len() > 0 {
        let c = path_code(path);
    }
}

fn eq_str(a: &str, b: &str) -> (r: bool)
    ensures
        r == (a@ == b@),
{
    crate::cli::str_eq(a, b)
}

/// Routes a request by method, path and query.
pub fn route(method: HttpMethod, path: &str, query: &str) -> (r: Route)
    ensures
        r == route_spec(method, path@, query@),
{
    match method {
        HttpMethod::Get => {
            if eq_str(path, "/") || eq_str(path, "/index.html") {
                Route::Index
            } else if eq_str(path, "/api/status") {
                Route::Status
            } else if eq_str(path, "/api/mods") {
                Route::ListMods { rescan: str_contains(query, "rescan=true") }
            } else if eq_str(path, "/api/config") {
                Route::GetConfig
            } else {
                Route::NotFound
            }
        },
        HttpMethod::Post => {
            if eq_str(path, "/api/toggle") {
                Route::Toggle
            } else if eq_str(path, "/api/set-order") {
                Route::SetOrder
            } else if eq_str(path, "/api/import") {
                Route::Import
            } else if eq_str(path, "/api/config") {
                Route::SaveConfig
            } else if eq_str(path, "/api/patch") {
                Route::Patch
            } else if eq_str(path, "/api/unpatch") {
                Route::Unpatch { clean: str_contains(query, "clean=true") }
            } else if eq_str(path, "/api/install-hook") {
                Route::InstallHook
            } else if eq_str(path, "/api/uninstall-hook") {
                Route::UninstallHook
            } else if eq_str(path, "/api/shutdown") {
                Route::Shutdown
            } else {
                Route::NotFound
            }
        },
        HttpMethod::Other => Route::NotFound,
    }
}

/// How a route is answered: with the interface's HTML page (status 200),
/// with a fixed JSON reply (its status, its body, and whether the server
/// stops after sending it), or by the route's handler.
#[derive(Debug, PartialEq, Eq)]
pub enum Reply {
    Page,
    Fixed { status: u16, body: String, shutdown: bool },
    Handler,
}

/// The answer of each route: the page for the index; 404 with
/// `{"error":"Not found"}` for an unknown request; 200 with
/// `{"message":"Shutting down"}` for the shutdown request, after which the
/// server stops; the handler for every other route.
pub open spec fn reply_spec(r: Route) -> (bool, Option<(u16, Seq<char>, bool)>) {
    match r {
        Route::Index => (true, None),
        Route::NotFound => (false, Some((404u16, "{\"error\":\"Not found\"}"@, false))),
        Route::Shutdown => (false, Some((200u16, "{\"message\":\"Shutting down\"}"@, true))),
        _ => (false, None),
    }
}

/// The answer of a route (see `reply_spec`).
pub fn reply_of(r: Route) -> (res: Reply)
    ensures
        match res {
            Reply::Page => reply_spec(r) == (true, None::<(u16, Seq<char>, bool)>),
            Reply::Fixed { status, body, shutdown } => reply_spec(r) == (
                false,
                Some((status, body@, shutdown)),
            ),
            Reply::Handler => reply_spec(r) == (false, None::<(u16, Seq<char>, bool)>),
        },
{
    match r {
        Route::Index => Reply::Page,
        Route::NotFound => {
            let mut body = String::new();
            push_str(&mut body, "{\"error\":\"Not found\"}");
            Reply::Fixed { status: 404, body, shutdown: false }
        },
        Route::Shutdown => {
            let mut body = String::new();
            push_str(&mut body, "{\"message\":\"Shutting down\"}");
            Reply::Fixed { status: 200, body, shutdown: true }
        },
        _ => Reply::Handler,
    }
}

/// The path and the query of a request URL: the text before the first '?',
/// and the text between the first and the second '?' (empty when none).
pub fn split_url(url: &str) -> (r: (String, String))
    ensures
        r.0@ == split_char(url@, '?')[0],
        r.1@ == (if split_char(url@, '?').len() > 1 {
            split_char(url@, '?')[1]
        } else {
            Seq::<char>::empty()
        }),
{
    let pieces = split_chars(chars_of(url).as_slice(), '?');
    proof {
        crate::text::lemma_split_char_nonempty(url@, '?');
    }
    let path = string_of(pieces[0].as_slice());
    let query = if pieces.len() > 1 {
        string_of(pieces[1].as_slice())
    } else {
        String::new()
    };
    assert(pieces_view(pieces@)[0] == pieces@[0]@);
    proof {
        if pieces@.len() > 1 {
            assert(pieces_view(pieces@)[1] == pieces@[1]@);
        }
    }
    (path, query)
}

// ---------------------------------------------------------------------------
// Multipart uploads
// ---------------------------------------------------------------------------

/// The value after the first `;`-separated parameter (trimmed) of the form
/// `boundary=...`, without surrounding double quotes; empty when none.
pub open spec fn boundary_in(parts: Seq<Seq<char>>) -> Seq<char>
    decreases parts.len(),
{
    if parts.len() == 0 {
        Seq::empty()
    } else {
        let t = trim_ws(parts[0]);
        if occurs_at(t, "boundary="@, 0) {
            trim_spec(t.skip("boundary="@.len() as int), '"')
        } else {
            boundary_in(parts.drop_first())
        }
    }
}

/// The multipart boundary named in a `Content-Type` header; empty when none.
pub fn extract_boundary(content_type: &str) -> (r: String)
    ensures
        r@ == boundary_in(split_char(content_type@, ';')),
{
    let parts = split_chars(chars_of(content_type).as_slice(), ';');
    let key = chars_of("boundary=");
    let mut i: usize = 0;
    assert(pieces_view(parts@).skip(0) =~= pieces_view(parts@));
    while i < parts.len()
        invariant
            i <= parts@.len(),
            key@ == "boundary="@,
            boundary_in(split_char(content_type@, ';')) == boundary_in(
                pieces_view(parts@).skip(i as int),
            ),
            pieces_view(parts@) == split_char(content_type@, ';'),
        decreases parts@.len() - i,
    {
        let ghost rest = pieces_view(parts@).skip(i as int);
        assert(rest[0] == parts@[i as int]@);
        assert(rest.drop_first() =~= pieces_view(parts@).skip(i + 1));
        let t = trim_ws_chars(parts[i].as_slice());
        if starts_with_chars(t.as_slice(), key.as_slice()) {
            let mut v = String::new();
            crate::text::push_range(&mut v, t.as_slice(), key.len(), t.len());
            assert(t@.subrange(key@.len() as int, t@.len() as int) =~= t@.skip(
                "boundary="@.len() as int,
            ));
            return trim_char(v.as_str(), '"');
        }
        i = i + 1;
    }
    assert(pieces_view(parts@).skip(i as int).len() == 0);
    String::new()
}

/// The value after the first `;`-separated parameter (trimmed) that starts
/// with `filename=` in any ASCII case, without surrounding double quotes.
pub open spec fn filename_in_parts(parts: Seq<Seq<char>>) -> Option<Seq<char>>
    decreases parts.len(),
{
    if parts.len() == 0 {
        None
    } else {
        let t = trim_ws(parts[0]);
        if occurs_at(ascii_lower(t), "filename="@, 0) {
            Some(trim_spec(t.skip("filename="@.len() as int), '"'))
        } else {
            filename_in_parts(parts.drop_first())
        }
    }
}

/// The file name given by the first `Content-Disposition` line (in any ASCII
/// case) that names one.
pub open spec fn filename_in_lines(lines: Seq<Seq<char>>) -> Option<Seq<char>>
    decreases lines.len(),
{
    if lines.len() == 0 {
        None
    } else {
        let l = lines[0];
        let here = if occurs_at(ascii_lower(l), "content-disposition"@, 0) {
            filename_in_parts(split_char(l, ';'))
        } else {
            None
        };
        match here {
            Some(f) => Some(f),
            None => filename_in_lines(lines.drop_first()),
        }
    }
}

/// The uploaded file's name from a part's headers.
pub open spec fn filename_spec(headers: Seq<char>) -> Option<Seq<char>> {
    filename_in_lines(lines_spec(headers))
}

fn filename_in_line(line: &[char]) -> (r: Option<String>)
    ensures
        match r {
            Some(f) => filename_in_parts(split_char(line@, ';')) == Some(f@),
            None => filename_in_parts(split_char(line@, ';')) is None,
        },
{
    let parts = split_chars(line, ';');
    let key = chars_of("filename=");
    let mut i: usize = 0;
    assert(pieces_view(parts@).skip(0) =~= pieces_view(parts@));
    while i < parts.len()
        invariant
            i <= parts@.len(),
            key@ == "filename="@,
            pieces_view(parts@) == split_char(line@, ';'),
            filename_in_parts(split_char(line@, ';')) == filename_in_parts(
                pieces_view(parts@).skip(i as int),
            ),
        decreases parts@.len() - i,
    {
        let ghost rest = pieces_view(parts@).skip(i as int);
        assert(rest[0] == parts@[i as int]@);
        assert(rest.drop_first() =~= pieces_view(parts@).skip(i + 1));
        let t = trim_ws_chars(parts[i].as_slice());
        let lt = lower_chars(t.as_slice());
        if starts_with_chars(lt.as_slice(), key.as_slice()) {
            let mut v = String::new();
            crate::text::push_range(&mut v, t.as_slice(), key.len(), t.len());
            assert(t@.subrange(key@.len() as int, t@.len() as int) =~= t@.skip(
                "filename="@.len() as int,
            ));
            return Some(trim_char(v.as_str(), '"'));
        }
        i = i + 1;
    }
    assert(pieces_view(parts@).skip(i as int).len() == 0);
    None
}

/// The uploaded file's name from a part's headers: the `filename=` parameter
/// of the first `Content-Disposition` line that has one.
pub fn extract_filename(headers: &str) -> (r: Option<String>)
    ensures
        match r {
            Some(f) => filename_spec(headers@) == Some(f@),
            None => filename_spec(headers@) is None,
        },
{
    let lines = lines_of(chars_of(headers).as_slice());
    let key = chars_of("content-disposition");
    let mut i: usize = 0;
    assert(pieces_view(lines@).skip(0) =~= pieces_view(lines@));
    while i < lines.len()
        invariant
            i <= lines@.len(),
            key@ == "content-disposition"@,
            pieces_view(lines@) == lines_spec(headers@),
            filename_spec(headers@) == filename_in_lines(pieces_view(lines@).skip(i as int)),
        decreases lines@.len() - i,
    {
        let ghost rest = pieces_view(lines@).skip(i as int);
        assert(rest[0] == lines@[i as int]@);
        assert(rest.drop_first() =~= pieces_view(lines@).skip(i + 1));
        let l = lines[i].as_slice();
        let ll = lower_chars(l);
        if starts_with_chars(ll.as_slice(), key.as_slice()) {
            match filename_in_line(l) {
                Some(f) => {
                    return Some(f);
                },
                None => {},
            }
        }
        i = i + 1;
    }
    assert(pieces_view(lines@).skip(i as int).len() == 0);
    None
}

/// `std::str::from_utf8`: the bytes as text, when they are valid UTF-8.
#[verifier::external_body]
fn utf8_text(bytes: &[u8]) -> (r: Option<&str>)
    ensures
        r is Some <==> valid_utf8(bytes@),
        r matches Some(s) ==> s.spec_bytes() == bytes@,
{
    std::str::from_utf8(bytes).ok()
}

/// The first position of `needle` in `hay`; none for an empty needle.
pub open spec fn find_bytes_spec(hay: Seq<u8>, needle: Seq<u8>) -> Option<int> {
    if needle.len() == 0 || !contains_seq(hay, needle) {
        None
    } else {
        Some(choose|i: int| is_first_occurrence(hay, needle, i))
    }
}

proof fn lemma_first_occurrence_exists(h: Seq<u8>, n: Seq<u8>, k: int)
    requires
        occurs_at(h, n, k),
    ensures
        exists|i: int| is_first_occurrence(h, n, i),
    decreases k,
{
    if exists|j: int| 0 <= j < k && #[trigger] occurs_at(h, n, j) {
        let j = choose|j: int| 0 <= j < k && #[trigger] occurs_at(h, n, j);
        lemma_first_occurrence_exists(h, n, j);
    } else {
        assert(is_first_occurrence(h, n, k));
    }
}

/// What a found position satisfies.
pub proof fn lemma_find_bytes_spec(h: Seq<u8>, n: Seq<u8>)
    ensures
        find_bytes_spec(h, n) matches Some(i) ==> n.len() > 0 && is_first_occurrence(h, n, i)
            && 0 <= i && i + n.len() <= h.len(),
{
    if n.len() > 0 && contains_seq(h, n) {
        let k = choose|k: int| occurs_at(h, n, k);
        lemma_first_occurrence_exists(h, n, k);
    }
}

fn bytes_match_at(hay: &[u8], needle: &[u8], i: usize) -> (r: bool)
    ensures
        r == occurs_at(hay@, needle@, i as int),
{
    let n = hay.len();
    if i > n || needle.len() > n - i {
        return false;
    }
    let mut k: usize = 0;
    while k < needle.len()
        invariant
            n == hay@.len(),
            i + needle@.len() <= n,
            k <= needle@.len(),
            forall|m: int| 0 <= m < k ==> hay@[i + m] == needle@[m],
        decreases needle@.len() - k,
    {
        if hay[i + k] != needle[k] {
            assert(hay@.subrange(i as int, i + needle@.len())[k as int] != needle@[k as int]);
            return false;
        }
        k = k + 1;
    }
    assert(hay@.subrange(i as int, i + needle@.len()) =~= needle@);
    true
}

proof fn lemma_first_occurrence_unique(h: Seq<u8>, n: Seq<u8>, i: int)
    requires
        is_first_occurrence(h, n, i),
    ensures
        contains_seq(h, n),
        (choose|j: int| is_first_occurrence(h, n, j)) == i,
{
    assert(occurs_at(h, n, i));
    let j = choose|j: int| is_first_occurrence(h, n, j);
    assert(is_first_occurrence(h, n, j));
    if j < i {
        assert(!occurs_at(h, n, j));
    } else if i < j {
        assert(!occurs_at(h, n, i));
    }
}

/// The first position of `needle` in `hay[from..]`, counted from `from`;
/// none for an empty needle.
pub fn find_bytes_from(hay: &[u8], from: usize, needle: &[u8]) -> (r: Option<usize>)
    requires
        from <= hay@.len(),
    ensures
        match r {
            Some(i) => find_bytes_spec(hay@.skip(from as int), needle@) == Some(i as int)
                && is_first_occurrence(hay@.skip(from as int), needle@, i as int),
            None => find_bytes_spec(hay@.skip(from as int), needle@) is None,
        },
{
    let ghost h = hay@.skip(from as int);
    let n = hay.len();
    if needle.len() == 0 || n - from < needle.len() {
        proof {
            if needle.len() > 0 && contains_seq(h, needle@) {
                let j = choose|j: int| occurs_at(h, needle@, j);
                assert(occurs_at(h, needle@, j));
            }
        }
        return None;
    }
    let last = n - from - needle.len();
    let mut i: usize = 0;
    loop
        invariant
            n == hay@.len(),
            from <= n,
            h == hay@.skip(from as int),
            last + needle@.len() == h.len(),
            needle@.len() > 0,
            i <= last,
            forall|j: int| 0 <= j < i ==> !#[trigger] occurs_at(h, needle@, j),
        decreases last - i,
    {
        if bytes_match_at(hay, needle, from + i) {
            assert(hay@.subrange(from + i, from + i + needle@.len()) =~= h.subrange(
                i as int,
                i + needle@.len(),
            ));
            assert(occurs_at(h, needle@, i as int));
            proof {
                lemma_first_occurrence_unique(h, needle@, i as int);
            }
            return Some(i);
        }
        assert(!occurs_at(h, needle@, i as int)) by {
            if occurs_at(h, needle@, i as int) {
                assert(hay@.subrange(from + i, from + i + needle@.len()) =~= h.subrange(
                    i as int,
                    i + needle@.len(),
                ));
            }
        }
        if i == last {
            proof {
                if contains_seq(h, needle@) {
                    let j = choose|j: int| occurs_at(h, needle@, j);
                    assert(occurs_at(h, needle@, j));
                }
            }
            return None;
        }
        i = i + 1;
    }
}

/// `windows().position()` of a byte pattern: its first position in `hay`,
/// or none (always none for an empty pattern).
pub fn find_bytes(hay: &[u8], needle: &[u8]) -> (r: Option<usize>)
    ensures
        match r {
            Some(i) => find_bytes_spec(hay@, needle@) == Some(i as int) && is_first_occurrence(
                hay@,
                needle@,
                i as int,
            ),
            None => find_bytes_spec(hay@, needle@) is None,
        },
{
    assert(hay@.skip(0) =~= hay@);
    find_bytes_from(hay, 0, needle)
}

/// Line break bytes.
pub open spec fn crlf() -> Seq<u8> {
    seq![13u8, 10u8]
}

/// Two dashes.
pub open spec fn dashes() -> Seq<u8> {
    seq![45u8, 45u8]
}

/// The blank line between a part's headers and its content.
pub open spec fn blank_line() -> Seq<u8> {
    seq![13u8, 10u8, 13u8, 10u8]
}

/// A part's headers as text: empty unless they are valid UTF-8.
pub open spec fn header_text(h: Seq<u8>) -> Seq<char> {
    if valid_utf8(h) {
        decode_utf8(h)
    } else {
        Seq::empty()
    }
}

/// The uploaded file in one part: its name and its content, when the part
/// has a blank line and its headers name a file.
pub open spec fn part_file(part: Seq<u8>) -> Option<(Seq<char>, Seq<u8>)> {
    match find_bytes_spec(part, blank_line()) {
        Some(sep) => match filename_spec(header_text(part.take(sep))) {
            Some(f) => Some((f, part.skip(sep + 4))),
            None => None,
        },
        None => None,
    }
}

/// The uploaded files from `cursor` on, for the delimiter `delim`: find the
/// next delimiter, skip a line break after it, stop at a closing `--`, take
/// the bytes up to the following delimiter (less a line break before it) as
/// one part, and go on from that delimiter. `None` when a part would end
/// before it starts (where slicing the body fails).
pub open spec fn multipart_from(body: Seq<u8>, delim: Seq<u8>, cursor: int) -> Option<
    Seq<(Seq<char>, Seq<u8>)>,
>
    decreases body.len() - cursor,
{
    if cursor < 0 || cursor >= body.len() {
        Some(Seq::empty())
    } else {
        match find_bytes_spec(body.skip(cursor), delim) {
            None => Some(Seq::empty()),
            Some(f) => {
                let c1 = cursor + f + delim.len();
                let c2 = if c1 + 2 <= body.len() && body.subrange(c1, c1 + 2) == crlf() {
                    c1 + 2
                } else {
                    c1
                };
                if c2 + 2 <= body.len() && body.subrange(c2, c2 + 2) == dashes() {
                    Some(Seq::empty())
                } else {
                    match find_bytes_spec(body.skip(c2), delim) {
                        None => Some(Seq::empty()),
                        Some(nf) => {
                            proof {
                                lemma_find_bytes_spec(body.skip(cursor), delim);
                                lemma_find_bytes_spec(body.skip(c2), delim);
                            }
                            let pe0 = c2 + nf;
                            let pe = if pe0 >= 2 && body.subrange(pe0 - 2, pe0) == crlf() {
                                pe0 - 2
                            } else {
                                pe0
                            };
                            if pe < c2 {
                                None
                            } else {
                                let here = match part_file(body.subrange(c2, pe)) {
                                    Some(e) => seq![e],
                                    None => Seq::empty(),
                                };
                                match multipart_from(body, delim, pe0) {
                                    Some(rest) => Some(here + rest),
                                    None => None,
                                }
                            }
                        },
                    }
                }
            },
        }
    }
}

/// A multipart body framed as a browser frames an upload: each part opens
/// with the delimiter and a line break, then its header bytes, a blank line,
/// its content and a line break; the delimiter and two dashes close the body.
pub open spec fn frame_parts(parts: Seq<(Seq<u8>, Seq<u8>)>, delim: Seq<u8>) -> Seq<u8>
    decreases parts.len(),
{
    if parts.len() == 0 {
        delim + dashes() + crlf()
    } else {
        delim + crlf() + parts[0].0 + blank_line() + parts[0].1 + crlf() + frame_parts(
            parts.drop_first(),
            delim,
        )
    }
}

/// The files of framed parts: for each part whose headers name a file, that
/// name and the part's content, in order.
pub open spec fn framed_files(parts: Seq<(Seq<u8>, Seq<u8>)>) -> Seq<(Seq<char>, Seq<u8>)>
    decreases parts.len(),
{
    if parts.len() == 0 {
        Seq::empty()
    } else {
        (match filename_spec(header_text(parts[0].0)) {
            Some(f) => seq![(f, parts[0].1)],
            None => Seq::empty(),
        }) + framed_files(parts.drop_first())
    }
}

/// A part the delimiter can frame: the delimiter occurs in neither its
/// headers nor its content, and its headers hold no blank line, neither end
/// with a line break nor begin with two dashes.
pub open spec fn part_framable(part: (Seq<u8>, Seq<u8>), delim: Seq<u8>) -> bool {
    let h = part.0;
    &&& !contains_seq(h, delim)
    &&& !contains_seq(part.1, delim)
    &&& !contains_seq(h, blank_line())
    &&& !(h.len() >= 2 && h.skip(h.len() - 2) == crlf())
    &&& !(h.len() >= 2 && h.take(2) == dashes())
}

/// A delimiter (two dashes and a boundary without line-break bytes) and
/// parts it can frame.
pub open spec fn well_framed(parts: Seq<(Seq<u8>, Seq<u8>)>, delim: Seq<u8>) -> bool {
    &&& delim.len() >= 2
    &&& delim.take(2) == dashes()
    &&& !delim.contains(13u8)
    &&& !delim.contains(10u8)
    &&& forall|i: int| 0 <= i < parts.len() ==> part_framable(#[trigger] parts[i], delim)
}

proof fn lemma_found_at(h: Seq<u8>, n: Seq<u8>, k: int)
    requires
        n.len() > 0,
        is_first_occurrence(h, n, k),
    ensures
        find_bytes_spec(h, n) == Some(k),
{
    lemma_first_occurrence_unique(h, n, k);
}

/// A part's blank line is found right after its headers.
#[verifier::spinoff_prover]
proof fn lemma_part_file_framed(h: Seq<u8>, c: Seq<u8>)
    requires
        !contains_seq(h, blank_line()),
        !(h.len() >= 2 && h.skip(h.len() - 2) == crlf()),
    ensures
        part_file(h + blank_line() + c) == match filename_spec(header_text(h)) {
            Some(f) => Some((f, c)),
            None => None::<(Seq<char>, Seq<u8>)>,
        },
{
    let b = blank_line();
    let p = h + b + c;
    let k = h.len() as int;
    assert(p.subrange(k, k + 4) =~= b);
    assert forall|j: int| 0 <= j < k implies !#[trigger] occurs_at(p, b, j) by {
        if occurs_at(p, b, j) {
            let w = p.subrange(j, j + 4);
            assert(w == b);
            if j + 4 <= k {
                assert(h.subrange(j, j + 4) =~= w);
                assert(occurs_at(h, b, j));
            } else if j == k - 1 {
                assert(w[1] == p[k]);
            } else if j == k - 2 {
                assert(w[0] == p[k - 2] && w[1] == p[k - 1]);
                assert(h.skip(k - 2) =~= crlf());
            } else {
                assert(w[3] == p[k]);
            }
        }
    }
    lemma_found_at(p, b, k);
    assert(p.take(k) =~= h);
    assert(p.skip(k + 4) =~= c);
}

/// In a part and the delimiter after it, the first delimiter is that one.
#[verifier::spinoff_prover]
proof fn lemma_next_delim(h: Seq<u8>, c: Seq<u8>, rest: Seq<u8>, delim: Seq<u8>)
    requires
        delim.len() >= 2,
        delim[0] == 45u8,
        !delim.contains(13u8),
        !delim.contains(10u8),
        !contains_seq(h, delim),
        !contains_seq(c, delim),
    ensures
        find_bytes_spec(h + blank_line() + c + crlf() + delim + rest, delim) == Some(
            (h.len() + 4 + c.len() + 2) as int,
        ),
{
    let s = h + blank_line() + c + crlf() + delim + rest;
    let n = delim.len() as int;
    let hl = h.len() as int;
    let cs = hl + 4;
    let ce = cs + c.len();
    let k = ce + 2;
    assert(s.subrange(k, k + n) =~= delim);
    assert forall|j: int| 0 <= j < k implies !#[trigger] occurs_at(s, delim, j) by {
        if occurs_at(s, delim, j) {
            let w = s.subrange(j, j + n);
            assert(w == delim);
            if j < hl {
                if j + n <= hl {
                    assert(h.subrange(j, j + n) =~= w);
                    assert(occurs_at(h, delim, j));
                } else {
                    assert(w[hl - j] == s[hl]);
                    assert(delim[hl - j] == 13u8);
                    assert(delim.contains(13u8));
                }
            } else if j < cs {
                assert(w[0] == s[j]);
            } else if j < ce {
                if j + n <= ce {
                    assert(c.subrange(j - cs, j - cs + n) =~= w);
                    assert(occurs_at(c, delim, j - cs));
                } else {
                    assert(w[ce - j] == s[ce]);
                    assert(delim[ce - j] == 13u8);
                    assert(delim.contains(13u8));
                }
            } else {
                assert(w[0] == s[j]);
            }
        }
    }
    lemma_found_at(s, delim, k);
}

proof fn lemma_frame_starts_with_delim(parts: Seq<(Seq<u8>, Seq<u8>)>, delim: Seq<u8>)
    ensures
        frame_parts(parts, delim) =~= delim + frame_parts(parts, delim).skip(delim.len() as int),
{
}

/// One part read by `multipart_from`, its steps given.
#[verifier::spinoff_prover]
proof fn lemma_multipart_step(
    body: Seq<u8>,
    delim: Seq<u8>,
    cursor: int,
    pe0: int,
    rest: Seq<(Seq<char>, Seq<u8>)>,
)
    requires
        0 <= cursor < body.len(),
        find_bytes_spec(body.skip(cursor), delim) == Some(0int),
        cursor + delim.len() + 2 <= body.len(),
        body.subrange(cursor + delim.len(), cursor + delim.len() + 2) == crlf(),
        !(cursor + delim.len() + 4 <= body.len() && body.subrange(
            cursor + delim.len() + 2,
            cursor + delim.len() + 4,
        ) == dashes()),
        find_bytes_spec(body.skip(cursor + delim.len() + 2), delim) == Some(
            pe0 - (cursor + delim.len() + 2),
        ),
        cursor + delim.len() + 4 <= pe0,
        body.subrange(pe0 - 2, pe0) == crlf(),
        multipart_from(body, delim, pe0) == Some(rest),
    ensures
        multipart_from(body, delim, cursor) == Some(
            match part_file(body.subrange(cursor + delim.len() + 2, pe0 - 2)) {
                Some(e) => seq![e],
                None => Seq::empty(),
            } + rest,
        ),
{
}

/// One part read by `multipart_from`, its steps given.
#[verifier::spinoff_prover]
proof fn lemma_multipart_end(body: Seq<u8>, delim: Seq<u8>, cursor: int)
    requires
        0 <= cursor < body.len(),
        find_bytes_spec(body.skip(cursor), delim) == Some(0int),
        cursor + delim.len() + 2 <= body.len(),
        body.subrange(cursor + delim.len(), cursor + delim.len() + 2) == dashes(),
    ensures
        multipart_from(body, delim, cursor) == Some(Seq::<(Seq<char>, Seq<u8>)>::empty()),
{
    assert(dashes()[0] != crlf()[0]);
}

/// Where the pieces of a framed part lie in the body.
#[verifier::spinoff_prover]
proof fn lemma_framed_layout(
    body: Seq<u8>,
    p: Seq<u8>,
    delim: Seq<u8>,
    h: Seq<u8>,
    c: Seq<u8>,
    tail: Seq<u8>,
    tail_rest: Seq<u8>,
)
    requires
        delim.len() >= 2,
        !(h.len() >= 2 && h.take(2) == dashes()),
        tail == delim + tail_rest,
        body == p + (delim + crlf() + h + blank_line() + c + crlf() + tail),
    ensures
        ({
            let c1 = (p.len() + delim.len()) as int;
            let c2 = c1 + 2;
            let pe0 = c2 + h.len() + 4 + c.len() + 2;
            &&& body.subrange(c1, c1 + 2) == crlf()
            &&& !(c2 + 2 <= body.len() && body.subrange(c2, c2 + 2) == dashes())
            &&& body.skip(c2) == h + blank_line() + c + crlf() + delim + tail_rest
            &&& body.subrange(pe0 - 2, pe0) == crlf()
            &&& body.subrange(c2, pe0 - 2) == h + blank_line() + c
            &&& body == body.take(pe0) + tail
            &&& body.take(pe0).len() == pe0
        }),
{
    let c1 = (p.len() + delim.len()) as int;
    let c2 = c1 + 2;
    let pe0 = c2 + h.len() + 4 + c.len() + 2;
    assert(body.subrange(c1, c1 + 2) =~= crlf());
    assert(!(c2 + 2 <= body.len() && body.subrange(c2, c2 + 2) == dashes())) by {
        if c2 + 2 <= body.len() && body.subrange(c2, c2 + 2) == dashes() {
            if h.len() >= 2 {
                assert(body.subrange(c2, c2 + 2) =~= h.take(2));
            } else if h.len() == 1 {
                assert(body.subrange(c2, c2 + 2)[1] == body[c2 + 1]);
            } else {
                assert(body.subrange(c2, c2 + 2)[0] == body[c2]);
            }
        }
    }
    assert(body.skip(c2) =~= h + blank_line() + c + crlf() + delim + tail_rest);
    assert(body.subrange(pe0 - 2, pe0) =~= crlf());
    assert(body.subrange(c2, pe0 - 2) =~= h + blank_line() + c);
    assert(body =~= body.take(pe0) + tail);
}

proof fn lemma_well_framed_rest(parts: Seq<(Seq<u8>, Seq<u8>)>, delim: Seq<u8>)
    requires
        well_framed(parts, delim),
        parts.len() > 0,
    ensures
        well_framed(parts.drop_first(), delim),
        part_framable(parts[0], delim),
        delim[0] == 45u8,
{
    let rest = parts.drop_first();
    assert forall|i: int| 0 <= i < rest.len() implies part_framable(#[trigger] rest[i], delim) by {
        assert(rest[i] == parts[i + 1]);
    }
    assert(delim[0] == delim.take(2)[0]);
}

proof fn lemma_frame_split(parts: Seq<(Seq<u8>, Seq<u8>)>, delim: Seq<u8>)
    requires
        parts.len() > 0,
    ensures
        ({
            let tail = frame_parts(parts.drop_first(), delim);
            &&& tail == delim + tail.skip(delim.len() as int)
            &&& frame_parts(parts, delim) == delim + crlf() + parts[0].0 + blank_line() + parts[0].1
                + crlf() + tail
        }),
{
    lemma_frame_starts_with_delim(parts.drop_first(), delim);
}

#[verifier::spinoff_prover]
#[verifier::rlimit(40)]
proof fn lemma_multipart_from_framed(
    p: Seq<u8>,
    parts: Seq<(Seq<u8>, Seq<u8>)>,
    delim: Seq<u8>,
)
    requires
        well_framed(parts, delim),
    ensures
        multipart_from(p + frame_parts(parts, delim), delim, p.len() as int) == Some(
            framed_files(parts),
        ),
    decreases parts.len(),
{
    let frame = frame_parts(parts, delim);
    let body = p + frame;
    let n = delim.len() as int;
    let cur = p.len() as int;
    assert(find_bytes_spec(body.skip(cur), delim) == Some(0int)) by {
        assert(body.skip(cur) =~= frame);
        lemma_frame_starts_with_delim(parts, delim);
        assert(frame.subrange(0, n) =~= delim);
        lemma_found_at(frame, delim, 0);
    }
    if parts.len() == 0 {
        assert(body.subrange(cur + n, cur + n + 2) =~= dashes());
        lemma_multipart_end(body, delim, cur);
    } else {
        let h = parts[0].0;
        let c = parts[0].1;
        let rest = parts.drop_first();
        let tail = frame_parts(rest, delim);
        let tail_rest = tail.skip(n);
        lemma_well_framed_rest(parts, delim);
        lemma_frame_split(parts, delim);
        lemma_framed_layout(body, p, delim, h, c, tail, tail_rest);
        let c2 = (p.len() + delim.len()) as int + 2;
        let pe0 = c2 + h.len() + 4 + c.len() + 2;
        let k = (h.len() + 4 + c.len() + 2) as int;
        let s2 = h + blank_line() + c + crlf() + delim + tail_rest;
        assert(find_bytes_spec(body.skip(c2), delim) == Some(k)) by {
            assert(body.skip(c2) == s2);
            lemma_next_delim(h, c, tail_rest, delim);
        }
        lemma_part_file_framed(h, c);
        let p2 = body.take(pe0);
        lemma_multipart_from_framed(p2, rest, delim);
        lemma_multipart_step(body, delim, cur, pe0, framed_files(rest));
    }
}

/// An upload framed with a delimiter that occurs in none of its parts is
/// read back: every part whose headers name a file gives that name and the
/// part's content, in order.
pub proof fn lemma_multipart_reads_back(parts: Seq<(Seq<u8>, Seq<u8>)>, delim: Seq<u8>)
    requires
        well_framed(parts, delim),
    ensures
        multipart_from(frame_parts(parts, delim), delim, 0) == Some(framed_files(parts)),
{
    lemma_multipart_from_framed(Seq::empty(), parts, delim);
    assert(Seq::<u8>::empty() + frame_parts(parts, delim) =~= frame_parts(parts, delim));
}

/// An uploaded file as texts.
pub open spec fn entry_view(e: (String, Vec<u8>)) -> (Seq<char>, Seq<u8>) {
    (e.0@, e.1@)
}

/// The delimiter of a boundary: two dashes and the boundary's bytes.
pub open spec fn delimiter(boundary: &str) -> Seq<u8> {
    dashes() + boundary.spec_bytes()
}

fn copy_bytes(v: &[u8], lo: usize, hi: usize) -> (r: Vec<u8>)
    requires
        lo <= hi <= v@.len(),
    ensures
        r@ == v@.subrange(lo as int, hi as int),
{
    let mut r: Vec<u8> = Vec::new();
    let mut i: usize = lo;
    while i < hi
        invariant
            lo <= i <= hi <= v@.len(),
            r@ == v@.subrange(lo as int, i as int),
        decreases hi - i,
    {
        r.push(v[i]);
        assert(v@.subrange(lo as int, i + 1) =~= v@.subrange(lo as int, i as int).push(v@[i as int]));
        i = i + 1;
    }
    r
}

fn bytes_pair_at(v: &[u8], i: usize, a: u8, b: u8) -> (r: bool)
    ensures
        r == (i + 2 <= v@.len() && v@.subrange(i as int, i + 2) == seq![a, b]),
{
    if i < v.len() && v.len() - i >= 2 {
        let r = v[i] == a && v[i + 1] == b;
        proof {
            if r {
                assert(v@.subrange(i as int, i + 2) =~= seq![a, b]);
            } else {
                assert(v@.subrange(i as int, i + 2)[0] == v@[i as int]);
                assert(v@.subrange(i as int, i + 2)[1] == v@[i + 1]);
            }
        }
        r
    } else {
        false
    }
}

fn part_file_exec(part: &[u8]) -> (r: Option<(String, Vec<u8>)>)
    ensures
        match r {
            Some((f, c)) => part_file(part@) == Some((f@, c@)),
            None => part_file(part@) is None,
        },
{
    let mut sep4: Vec<u8> = Vec::new();
    sep4.push(13u8);
    sep4.push(10u8);
    sep4.push(13u8);
    sep4.push(10u8);
    assert(sep4@ =~= blank_line());
    match find_bytes(part, sep4.as_slice()) {
        Some(sep) => {
            proof {
                assert(occurs_at(part@, blank_line(), sep as int));
            }
            let head = copy_bytes(part, 0, sep);
            let headers: &str = match utf8_text(head.as_slice()) {
                Some(s) => {
                    proof {
                        vstd::utf8::encode_utf8_decode_utf8(s@);
                    }
                    s
                },
                None => "",
            };
            proof {
                reveal_strlit("");
            }
            assert(headers@ == header_text(part@.take(sep as int))) by {
                assert(head@ =~= part@.take(sep as int));
            }
            let n = part.len();
            assert(sep + 4 <= n);
            match extract_filename(headers) {
                Some(f) => {
                    let content = copy_bytes(part, sep + 4, n);
                    assert(content@ =~= part@.skip(sep + 4));
                    Some((f, content))
                },
                None => None,
            }
        },
        None => None,
    }
}

/// The uploaded files of a multipart body: (file name, content) for every
/// part that has a blank line after its headers and a `filename=` in them,
/// in order. `None` where a part would end before it starts.
pub fn parse_multipart(body: &[u8], boundary: &str) -> (r: Option<Vec<(String, Vec<u8>)>>)
    ensures
        match r {
            Some(v) => multipart_from(body@, delimiter(boundary), 0) == Some(
                v@.map_values(|e: (String, Vec<u8>)| entry_view(e)),
            ),
            None => multipart_from(body@, delimiter(boundary), 0) is None,
        },
{
    let mut delim: Vec<u8> = Vec::new();
    delim.push(45u8);
    delim.push(45u8);
    let bb = boundary.as_bytes();
    let mut k: usize = 0;
    while k < bb.len()
        invariant
            k <= bb@.len(),
            bb@ == boundary.spec_bytes(),
            delim@ == dashes() + bb@.take(k as int),
        decreases bb@.len() - k,
    {
        delim.push(bb[k]);
        assert(bb@.take(k + 1) =~= bb@.take(k as int).push(bb@[k as int]));
        assert(delim@ =~= dashes() + bb@.take(k + 1));
        k = k + 1;
    }
    assert(bb@.take(bb@.len() as int) =~= bb@);
    let ghost d = delimiter(boundary);
    assert(delim@ == d);
    let mut results: Vec<(String, Vec<u8>)> = Vec::new();
    let n = body.len();
    let mut cursor: usize = 0;
    while cursor < n
        invariant
            n == body@.len(),
            cursor <= n,
            delim@ == d,
            d == delimiter(boundary),
            d.len() >= 2,
            multipart_from(body@, d, 0) == match multipart_from(body@, d, cursor as int) {
                Some(rest) => Some(results@.map_values(|e: (String, Vec<u8>)| entry_view(e)) + rest),
                None => None::<Seq<(Seq<char>, Seq<u8>)>>,
            },
        ensures
            multipart_from(body@, d, 0) == Some(results@.map_values(|e: (String, Vec<u8>)| entry_view(e))),
        decreases n - cursor,
    {
        let ghost here_spec = multipart_from(body@, d, cursor as int);
        let f = match find_bytes_from(body, cursor, delim.as_slice()) {
            Some(f) => f,
            None => {
                assert(here_spec == Some(Seq::<(Seq<char>, Seq<u8>)>::empty()));
                assert(results@.map_values(|e: (String, Vec<u8>)| entry_view(e)) + Seq::<(Seq<char>, Seq<u8>)>::empty()
                    =~= results@.map_values(|e: (String, Vec<u8>)| entry_view(e)));
                break;
            },
        };
        proof {
            let h = body@.skip(cursor as int);
            lemma_first_occurrence_unique(h, d, f as int);
            assert(occurs_at(h, d, f as int));
        }
        let c1 = cursor + f + delim.len();
        let c2 = if bytes_pair_at(body, c1, 13u8, 10u8) {
            c1 + 2
        } else {
            c1
        };
        if bytes_pair_at(body, c2, 45u8, 45u8) {
            assert(here_spec == Some(Seq::<(Seq<char>, Seq<u8>)>::empty()));
            assert(results@.map_values(|e: (String, Vec<u8>)| entry_view(e)) + Seq::<(Seq<char>, Seq<u8>)>::empty()
                =~= results@.map_values(|e: (String, Vec<u8>)| entry_view(e)));
            break;
        }
        let nf = match find_bytes_from(body, c2, delim.as_slice()) {
            Some(nf) => nf,
            None => {
                assert(here_spec == Some(Seq::<(Seq<char>, Seq<u8>)>::empty()));
                assert(results@.map_values(|e: (String, Vec<u8>)| entry_view(e)) + Seq::<(Seq<char>, Seq<u8>)>::empty()
                    =~= results@.map_values(|e: (String, Vec<u8>)| entry_view(e)));
                break;
            },
        };
        proof {
            let h2 = body@.skip(c2 as int);
            lemma_first_occurrence_unique(h2, d, nf as int);
            assert(occurs_at(h2, d, nf as int));
        }
        let pe0 = c2 + nf;
        let pe = if pe0 >= 2 && bytes_pair_at(body, pe0 - 2, 13u8, 10u8) {
            pe0 - 2
        } else {
            pe0
        };
        if pe < c2 {
            assert(here_spec is None);
            assert(multipart_from(body@, d, 0) is None);
            assert(d == delimiter(boundary));
            return None;
        }
        let part = copy_bytes(body, c2, pe);
        let ghost before = results@.map_values(|e: (String, Vec<u8>)| entry_view(e));
        let ghost here_seq = match part_file(part@) {
            Some(e) => seq![e],
            None => Seq::<(Seq<char>, Seq<u8>)>::empty(),
        };
        assert(here_spec == match multipart_from(body@, d, pe0 as int) {
            Some(rest) => Some(here_seq + rest),
            None => None::<Seq<(Seq<char>, Seq<u8>)>>,
        });
        match part_file_exec(part.as_slice()) {
            Some(entry) => {
                assert(here_seq == seq![(entry.0@, entry.1@)]);
                results.push(entry);
                assert(results@.map_values(|e: (String, Vec<u8>)| entry_view(e)) =~= before + here_seq);
            },
            None => {
                assert(results@.map_values(|e: (String, Vec<u8>)| entry_view(e)) =~= before + here_seq);
            },
        }
        proof {
            match multipart_from(body@, d, pe0 as int) {
                Some(rest) => {
                    assert(before + (here_seq + rest) =~= (before + here_seq) + rest);
                },
                None => {},
            }
        }
        cursor = pe0;
    }
    Some(results)
}

// ---------------------------------------------------------------------------
// Responses
// ---------------------------------------------------------------------------

/// The message with every double quote replaced by a single quote.
pub open spec fn unquote(msg: Seq<char>) -> Seq<char> {
    msg.map_values(|c: char| if c == '"' {
        '\''
    } else {
        c
    })
}

/// An error response: the status code and the body `{"error":"<message>"}`,
/// double quotes in the message turned into single quotes.
pub fn err_json(code: u16, msg: &str) -> (r: (u16, String))
    ensures
        r.0 == code,
        r.1@ == "{\"error\":\""@ + unquote(msg@) + "\"}"@,
{
    let m = chars_of(msg);
    let mut safe: Vec<char> = Vec::new();
    let mut i: usize = 0;
    while i < m.len()
        invariant
            i <= m@.len(),
            m@ == msg@,
            safe@ == unquote(m@.take(i as int)),
        decreases m@.len() - i,
    {
        let c = m[i];
        safe.push(if c == '"' { '\'' } else { c });
        assert(unquote(m@.take(i + 1)) =~= unquote(m@.take(i as int)).push(if c == '"' {
            '\''
        } else {
            c
        }));
        i = i + 1;
    }
    assert(m@.take(m@.len() as int) =~= m@);
    let mut body = String::new();
    push_str(&mut body, "{\"error\":\"");
    push_chars(&mut body, safe.as_slice());
    push_str(&mut body, "\"}");
    (code, body)
}

/// The text padded with spaces to `width` bytes (unchanged when already that long).
pub fn pad_to(s: &str, width: usize) -> (r: String)
    ensures
        r@ == (if s.len() >= width {
            s@
        } else {
            s@ + Seq::new((width - s.len()) as nat, |i: int| ' ')
        }),
{
    let mut r = String::new();
    push_str(&mut r, s);
    let n = s.len();
    if n >= width {
        return r;
    }
    let ghost start = r@;
    let mut k: usize = 0;
    while k < width - n
        invariant
            n < width,
            n == s.len(),
            start == s@,
            k <= width - n,
            r@ == start + Seq::new(k as nat, |i: int| ' '),
        decreases width - n - k,
    {
        crate::text::push_char(&mut r, ' ');
        assert(start + Seq::new((k + 1) as nat, |i: int| ' ') =~= start + Seq::new(
            k as nat,
            |i: int| ' ',
        ) + seq![' ']);
        k = k + 1;
    }
    r
}

// ---------------------------------------------------------------------------
// Uploads
// ---------------------------------------------------------------------------

/// The kind of an uploaded file, judged by the text after its last '.' (the
/// whole name when it has none), in any ASCII case.
pub open spec fn upload_kind_spec(file_name: Seq<char>) -> Option<ModType> {
    type_of_extension(split_char(file_name, '.').last())
}

proof fn lemma_split_last_piece(x: Seq<char>, e: Seq<char>)
    requires
        !e.contains('.'),
    ensures
        split_char(x.push('.') + e, '.').last() == e,
        split_char(e, '.') == seq![e],
    decreases e.len(),
{
    if e.len() == 0 {
        assert(x.push('.') + e =~= x.push('.'));
        assert(x.push('.').drop_last() =~= x);
        lemma_split_char_nonempty(x, '.');
        assert(e =~= Seq::<char>::empty());
        assert(split_char(e, '.') =~= seq![e]);
    } else {
        let init = e.drop_last();
        assert(e.contains(e.last()));
        assert(!init.contains('.')) by {
            if init.contains('.') {
                let k = choose|k: int| 0 <= k < init.len() && init[k] == '.';
                assert(e[k] == '.');
            }
        }
        lemma_split_last_piece(x, init);
        assert((x.push('.') + e).drop_last() =~= x.push('.') + init);
        assert((x.push('.') + e).last() == e.last());
        lemma_split_char_nonempty(x.push('.') + init, '.');
        assert(init.push(e.last()) =~= e);
        lemma_split_char_nonempty(init, '.');
        assert(split_char(e, '.') =~= seq![e]);
    }
}

/// An uploaded file's kind is read from the text after its last '.': a name
/// `n.e` whose `e` holds no '.' has the kind of the extension `e` (so
/// `theme.min.css` is CSS), and a name without any '.' is judged as a whole.
pub proof fn lemma_upload_kind_last_extension(n: Seq<char>, e: Seq<char>)
    requires
        !e.contains('.'),
    ensures
        upload_kind_spec(n + seq!['.'] + e) == type_of_extension(e),
        upload_kind_spec(e) == type_of_extension(e),
{
    assert(n + seq!['.'] + e =~= n.push('.') + e);
    lemma_split_last_piece(n, e);
}

/// The kind of an uploaded file: `None` for anything but CSS and JS.
pub fn upload_kind(file_name: &str) -> (r: Option<ModType>)
    ensures
        r == upload_kind_spec(file_name@),
{
    let pieces = split_chars(chars_of(file_name).as_slice(), '.');
    proof {
        lemma_split_char_nonempty(file_name@, '.');
    }
    let last = &pieces[pieces.len() - 1];
    assert(last@ == split_char(file_name@, '.').last());
    ModType::from_extension(string_of(last.as_slice()).as_str())
}

/// The files of an upload request, or the refusal: without a boundary in
/// the content type, "Missing multipart boundary in Content-Type"; with no
/// file part (or a body whose parts cannot be delimited), "No file parts
/// found in multipart body".
pub open spec fn upload_spec(content_type: Seq<char>, body: Seq<u8>) -> Result<
    Seq<(Seq<char>, Seq<u8>)>,
    Seq<char>,
> {
    let b = boundary_in(split_char(content_type, ';'));
    if b.len() == 0 {
        Err("Missing multipart boundary in Content-Type"@)
    } else {
        match multipart_from(body, dashes() + vstd::utf8::encode_utf8(b), 0) {
            Some(parts) => if parts.len() == 0 {
                Err("No file parts found in multipart body"@)
            } else {
                Ok(parts)
            },
            None => Err("No file parts found in multipart body"@),
        }
    }
}

/// Reads the files of an upload request from its content type and body.
pub fn upload_files(content_type: &str, body: &[u8]) -> (r: Result<Vec<(String, Vec<u8>)>, String>)
    ensures
        match r {
            Ok(v) => upload_spec(content_type@, body@) == Ok::<Seq<(Seq<char>, Seq<u8>)>, Seq<char>>(
                v@.map_values(|e: (String, Vec<u8>)| entry_view(e)),
            ),
            Err(e) => upload_spec(content_type@, body@) == Err::<Seq<(Seq<char>, Seq<u8>)>, Seq<char>>(
                e@,
            ),
        },
{
    let boundary = extract_boundary(content_type);
    if boundary.as_str().is_empty() {
        let mut e = String::new();
        push_str(&mut e, "Missing multipart boundary in Content-Type");
        return Err(e);
    }
    match parse_multipart(body, boundary.as_str()) {
        Some(v) => {
            if v.len() == 0 {
                let mut e = String::new();
                push_str(&mut e, "No file parts found in multipart body");
                Err(e)
            } else {
                Ok(v)
            }
        },
        None => {
            let mut e = String::new();
            push_str(&mut e, "No file parts found in multipart body");
            Err(e)
        },
    }
}

/// The uploaded files that are mods (see `upload_kind_spec`), in order.
pub open spec fn mod_uploads_spec(parts: Seq<(Seq<char>, Seq<u8>)>) -> Seq<(Seq<char>, Seq<u8>)>
    decreases parts.len(),
{
    if parts.len() == 0 {
        parts
    } else if upload_kind_spec(parts.last().0) is Some {
        mod_uploads_spec(parts.drop_last()).push(parts.last())
    } else {
        mod_uploads_spec(parts.drop_last())
    }
}

/// The CSS and JS files among the uploaded ones, or the refusal "No valid
/// .css or .js files found in upload" when there is none.
pub fn mod_uploads(parts: &[(String, Vec<u8>)]) -> (r: Result<Vec<(String, Vec<u8>)>, String>)
    ensures
        ({
            let want = mod_uploads_spec(parts@.map_values(|e: (String, Vec<u8>)| entry_view(e)));
            match r {
                Ok(v) => want.len() > 0 && v@.map_values(|e: (String, Vec<u8>)| entry_view(e))
                    == want,
                Err(e) => want.len() == 0 && e@ == "No valid .css or .js files found in upload"@,
            }
        }),
{
    let ghost all = parts@.map_values(|e: (String, Vec<u8>)| entry_view(e));
    let mut out: Vec<(String, Vec<u8>)> = Vec::new();
    let mut i: usize = 0;
    while i < parts.len()
        invariant
            i <= parts@.len(),
            all == parts@.map_values(|e: (String, Vec<u8>)| entry_view(e)),
            out@.map_values(|e: (String, Vec<u8>)| entry_view(e)) == mod_uploads_spec(
                all.take(i as int),
            ),
        decreases parts@.len() - i,
    {
        let ghost before = out@;
        assert(all.take(i + 1).drop_last() =~= all.take(i as int));
        assert(all.take(i + 1).last() == entry_view(parts@[i as int]));
        if upload_kind(parts[i].0.as_str()).is_some() {
            let mut name = String::new();
            push_str(&mut name, parts[i].0.as_str());
            let n = parts[i].1.len();
            let content = copy_bytes(parts[i].1.as_slice(), 0, n);
            assert(content@ =~= parts@[i as int].1@);
            out.push((name, content));
            assert(out@.map_values(|e: (String, Vec<u8>)| entry_view(e)) =~= before.map_values(
                |e: (String, Vec<u8>)| entry_view(e),
            ).push(entry_view(parts@[i as int])));
        }
        i = i + 1;
    }
    assert(all.take(parts@.len() as int) =~= all);
    if out.len() == 0 {
        let mut e = String::new();
        push_str(&mut e, "No valid .css or .js files found in upload");
        Err(e)
    } else {
        Ok(out)
    }
}

} // verus!
