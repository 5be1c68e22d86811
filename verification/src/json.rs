//! The JSON bodies of the web interface's requests. `serde_json` reads the
//! text; the library keeps of the document what the requests look at: whether
//! it is an object, and the scalar value of each of its members.

use vstd::prelude::*;
use serde_json::Value;
use crate::config::{opt_text, ConfigView, ModConfig};
use crate::text::push_str;
use crate::cli::str_eq;

verus! {

broadcast use vstd::string::group_string_axioms;

/// A member's value; of an array or an object only the kind is kept.
/// A number carries what it is as a signed and as an unsigned 64-bit integer.
#[derive(Debug)]
pub enum JsonScalar {
    Null,
    Bool(bool),
    Number(Option<i64>, Option<u64>),
    Str(String),
    Array,
    Object,
}

pub enum ScalarView {
    Null,
    Bool(bool),
    Number(Option<i64>, Option<u64>),
    Str(Seq<char>),
    Array,
    Object,
}

impl View for JsonScalar {
    type V = ScalarView;

    open spec fn view(&self) -> ScalarView {
        match self {
            JsonScalar::Null => ScalarView::Null,
            JsonScalar::Bool(b) => ScalarView::Bool(*b),
            JsonScalar::Number(i, u) => ScalarView::Number(*i, *u),
            JsonScalar::Str(s) => ScalarView::Str(s@),
            JsonScalar::Array => ScalarView::Array,
            JsonScalar::Object => ScalarView::Object,
        }
    }
}

/// A parsed document: whether its top level is an object, and if so its
/// members with their values.
#[derive(Debug)]
pub struct JsonDoc {
    pub object: bool,
    pub members: Vec<(String, JsonScalar)>,
}

pub struct DocView {
    pub object: bool,
    pub members: Seq<(Seq<char>, ScalarView)>,
}

pub open spec fn members_view(m: Seq<(String, JsonScalar)>) -> Seq<(Seq<char>, ScalarView)> {
    m.map_values(|p: (String, JsonScalar)| (p.0@, p.1@))
}

impl View for JsonDoc {
    type V = DocView;

    open spec fn view(&self) -> DocView {
        DocView { object: self.object, members: members_view(self.members@) }
    }
}

/// No two members share a name.
pub open spec fn names_distinct(m: Seq<(Seq<char>, ScalarView)>) -> bool {
    forall|i: int, j: int| 0 <= i < j < m.len() ==> m[i].0 != m[j].0
}

/// What `serde_json` reads from a text: `None` where the text is not JSON.
pub uninterp spec fn json_document(text: Seq<char>) -> Option<DocView>;

/// `serde_json::from_str::<Value>`, with the top-level members taken one for
/// one into a `JsonDoc` (`Number::as_i64` and `Number::as_u64` for numbers).
/// The document is the named result of the text; an object is a map, so its
/// member names are distinct, and a document that is no object has no members.
#[verifier::external_body]
fn parse_json(body: &str) -> (r: Option<JsonDoc>)
    ensures
        match r {
            Some(d) => json_document(body@) == Some(d@),
            None => json_document(body@) is None,
        },
        r matches Some(d) ==> names_distinct(d@.members) && (!d.object ==> d.members@.len() == 0),
{
    match serde_json::from_str::<Value>(body) {
        Ok(Value::Object(m)) => Some(JsonDoc { object: true, members: m.into_iter().map(|(k, v)| (k, match v {
            Value::Null => JsonScalar::Null,
            Value::Bool(b) => JsonScalar::Bool(b),
            Value::Number(n) => JsonScalar::Number(n.as_i64(), n.as_u64()),
            Value::String(s) => JsonScalar::Str(s),
            Value::Array(_) => JsonScalar::Array,
            Value::Object(_) => JsonScalar::Object,
        })).collect() }),
        Ok(_) => Some(JsonDoc { object: false, members: Vec::new() }),
        Err(_) => None,
    }
}

/// The value of the first member named `key`, as indexing a JSON value by a
/// key reads it (nothing for a document that is no object).
pub open spec fn lookup(m: Seq<(Seq<char>, ScalarView)>, key: Seq<char>) -> Option<ScalarView>
    decreases m.len(),
{
    if m.len() == 0 {
        None
    } else if m[0].0 == key {
        Some(m[0].1)
    } else {
        lookup(m.drop_first(), key)
    }
}

pub open spec fn member(d: DocView, key: Seq<char>) -> Option<ScalarView> {
    if d.object {
        lookup(d.members, key)
    } else {
        None
    }
}

/// The text of a member that is a string.
pub open spec fn member_text(d: DocView, key: Seq<char>) -> Option<Seq<char>> {
    match member(d, key) {
        Some(ScalarView::Str(s)) => Some(s),
        _ => None,
    }
}

proof fn lemma_lookup_step(m: Seq<(Seq<char>, ScalarView)>, key: Seq<char>, i: int)
    requires
        0 <= i < m.len(),
        m[i].0 != key,
    ensures
        lookup(m.skip(i), key) == lookup(m.skip(i + 1), key),
{
    assert(m.skip(i).drop_first() =~= m.skip(i + 1));
}

/// The member named `key`, if the document is an object that has one.
pub fn get_member<'a>(d: &'a JsonDoc, key: &str) -> (r: Option<&'a JsonScalar>)
    ensures
        match r {
            Some(v) => member(d@, key@) == Some(v@),
            None => member(d@, key@) is None,
        },
{
    if !d.object {
        return None;
    }
    let mut i: usize = 0;
    assert(d@.members.skip(0) =~= d@.members);
    while i < d.members.len()
        invariant
            d.object,
            i <= d.members@.len(),
            lookup(d@.members, key@) == lookup(d@.members.skip(i as int), key@),
        decreases d.members@.len() - i,
    {
        if str_eq(d.members[i].0.as_str(), key) {
            assert(d@.members.skip(i as int)[0] == d@.members[i as int]);
            return Some(&d.members[i].1);
        }
        proof {
            lemma_lookup_step(d@.members, key@, i as int);
        }
        i = i + 1;
    }
    assert(d@.members.skip(i as int).len() == 0);
    None
}

fn member_str(d: &JsonDoc, key: &str) -> (r: Option<String>)
    ensures
        match r {
            Some(s) => member_text(d@, key@) == Some(s@),
            None => member_text(d@, key@) is None,
        },
{
    match get_member(d, key) {
        Some(JsonScalar::Str(s)) => Some(s.clone()),
        _ => None,
    }
}

fn message(text: &str) -> (r: String)
    ensures
        r@ == text@,
{
    let mut r = String::new();
    push_str(&mut r, text);
    r
}

/// A request's answer: a value, or the message of a refusal.
pub open spec fn text_result(r: Result<String, String>) -> Result<Seq<char>, Seq<char>> {
    match r {
        Ok(s) => Ok(s@),
        Err(e) => Err(e@),
    }
}

pub open spec fn invalid_json() -> Seq<char> {
    "Invalid JSON body"@
}

pub open spec fn missing_name() -> Seq<char> {
    "Missing 'name' field"@
}

pub open spec fn missing_order() -> Seq<char> {
    "Missing or invalid 'order' field"@
}

/// A toggle request names its mod in the string member `name`.
pub open spec fn toggle_spec(d: DocView) -> Result<Seq<char>, Seq<char>> {
    match member_text(d, "name"@) {
        Some(n) => Ok(n),
        None => Err(missing_name()),
    }
}

/// The mod named by a parsed toggle request.
pub fn toggle_from_doc(d: &JsonDoc) -> (r: Result<String, String>)
    ensures
        text_result(r) == toggle_spec(d@),
{
    match member_str(d, "name") {
        Some(n) => Ok(n),
        None => Err(message("Missing 'name' field")),
    }
}

/// The mod named by a toggle request `{"name": ...}`.
pub fn toggle_request(body: &str) -> (r: Result<String, String>)
    ensures
        match json_document(body@) {
            None => text_result(r) == Err::<Seq<char>, Seq<char>>(invalid_json()),
            Some(d) => text_result(r) == toggle_spec(d),
        },
{
    match parse_json(body) {
        Some(d) => toggle_from_doc(&d),
        None => Err(message("Invalid JSON body")),
    }
}

/// An order request names its mod in `name` and gives the priority as an
/// integer member `order` that fits in 64 bits, cut to its low 32 bits.
pub open spec fn order_spec(d: DocView) -> Result<(Seq<char>, i32), Seq<char>> {
    match member_text(d, "name"@) {
        None => Err(missing_name()),
        Some(n) => match member(d, "order"@) {
            Some(ScalarView::Number(Some(o), _)) => Ok((n, o as i32)),
            _ => Err(missing_order()),
        },
    }
}

pub open spec fn order_result(r: Result<(String, i32), String>) -> Result<(Seq<char>, i32), Seq<char>> {
    match r {
        Ok((s, o)) => Ok((s@, o)),
        Err(e) => Err(e@),
    }
}

/// The mod and its new priority from a parsed order request.
pub fn set_order_from_doc(d: &JsonDoc) -> (r: Result<(String, i32), String>)
    ensures
        order_result(r) == order_spec(d@),
{
    let name = match member_str(d, "name") {
        Some(n) => n,
        None => return Err(message("Missing 'name' field")),
    };
    match get_member(d, "order") {
        Some(JsonScalar::Number(Some(o), _)) => Ok((name, #[verifier::truncate] (*o as i32))),
        _ => Err(message("Missing or invalid 'order' field")),
    }
}

/// The mod and its new priority from a request `{"name": ..., "order": ...}`.
pub fn set_order_request(body: &str) -> (r: Result<(String, i32), String>)
    ensures
        match json_document(body@) {
            None => order_result(r) == Err::<(Seq<char>, i32), Seq<char>>(invalid_json()),
            Some(d) => order_result(r) == order_spec(d),
        },
{
    match parse_json(body) {
        Some(d) => set_order_from_doc(&d),
        None => Err(message("Invalid JSON body")),
    }
}

/// The settings a configuration request changes; `None` leaves a setting
/// as it is. For the Vivaldi path, `Some(None)` clears it.
#[derive(Debug)]
pub struct SettingsUpdate {
    pub vivaldi_path: Option<Option<String>>,
    pub ui_ready_selector: Option<String>,
    pub init_delay_ms: Option<u64>,
    pub detach_timeout_ms: Option<u64>,
    pub exe_name: Option<String>,
    pub auto_patch: Option<bool>,
}

pub struct SettingsView {
    pub vivaldi_path: Option<Option<Seq<char>>>,
    pub ui_ready_selector: Option<Seq<char>>,
    pub init_delay_ms: Option<u64>,
    pub detach_timeout_ms: Option<u64>,
    pub exe_name: Option<Seq<char>>,
    pub auto_patch: Option<bool>,
}

impl View for SettingsUpdate {
    type V = SettingsView;

    open spec fn view(&self) -> SettingsView {
        SettingsView {
            vivaldi_path: match self.vivaldi_path {
                Some(p) => Some(opt_text(p)),
                None => None,
            },
            ui_ready_selector: opt_text(self.ui_ready_selector),
            init_delay_ms: self.init_delay_ms,
            detach_timeout_ms: self.detach_timeout_ms,
            exe_name: opt_text(self.exe_name),
            auto_patch: self.auto_patch,
        }
    }
}

pub open spec fn member_u64(d: DocView, key: Seq<char>) -> Option<u64> {
    match member(d, key) {
        Some(ScalarView::Number(_, Some(n))) => Some(n),
        _ => None,
    }
}

pub open spec fn member_bool(d: DocView, key: Seq<char>) -> Option<bool> {
    match member(d, key) {
        Some(ScalarView::Bool(b)) => Some(b),
        _ => None,
    }
}

/// The settings of a configuration request: a missing, `null` or empty
/// `vivaldi_path` clears the path and another string sets it; the other
/// settings are taken when their member has the right JSON type (a string,
/// an integer that fits in `u64`, a boolean).
pub open spec fn settings_spec(d: DocView) -> SettingsView {
    SettingsView {
        vivaldi_path: match member(d, "vivaldi_path"@) {
            None => Some(None),
            Some(ScalarView::Null) => Some(None),
            Some(ScalarView::Str(p)) => if p.len() == 0 {
                Some(None)
            } else {
                Some(Some(p))
            },
            _ => None,
        },
        ui_ready_selector: member_text(d, "ui_ready_selector"@),
        init_delay_ms: member_u64(d, "init_delay_ms"@),
        detach_timeout_ms: member_u64(d, "detach_timeout_ms"@),
        exe_name: member_text(d, "exe_name"@),
        auto_patch: member_bool(d, "auto_patch"@),
    }
}

fn member_u64_exec(d: &JsonDoc, key: &str) -> (r: Option<u64>)
    ensures
        r == member_u64(d@, key@),
{
    match get_member(d, key) {
        Some(JsonScalar::Number(_, Some(n))) => Some(*n),
        _ => None,
    }
}

/// The settings of a parsed configuration request.
pub fn settings_from_doc(d: &JsonDoc) -> (r: SettingsUpdate)
    ensures
        r@ == settings_spec(d@),
{
    let vivaldi_path = match get_member(d, "vivaldi_path") {
        None => Some(None),
        Some(JsonScalar::Null) => Some(None),
        Some(JsonScalar::Str(p)) => if p.as_str().is_empty() {
            Some(None)
        } else {
            Some(Some(p.clone()))
        },
        _ => None,
    };
    let auto_patch = match get_member(d, "auto_patch") {
        Some(JsonScalar::Bool(b)) => Some(*b),
        _ => None,
    };
    SettingsUpdate {
        vivaldi_path,
        ui_ready_selector: member_str(d, "ui_ready_selector"),
        init_delay_ms: member_u64_exec(d, "init_delay_ms"),
        detach_timeout_ms: member_u64_exec(d, "detach_timeout_ms"),
        exe_name: member_str(d, "exe_name"),
        auto_patch,
    }
}

/// The settings of a configuration request, or the refusal of a body that is
/// not JSON.
pub fn settings_request(body: &str) -> (r: Result<SettingsUpdate, String>)
    ensures
        match json_document(body@) {
            None => r matches Err(e) && e@ == invalid_json(),
            Some(d) => r matches Ok(u) && u@ == settings_spec(d),
        },
{
    match parse_json(body) {
        Some(d) => Ok(settings_from_doc(&d)),
        None => Err(message("Invalid JSON body")),
    }
}

/// The configuration with the update's settings applied; the detach timeout
/// keeps the low 32 bits of the value.
pub open spec fn apply_spec(c: ConfigView, u: SettingsView) -> ConfigView {
    ConfigView {
        vivaldi_path: match u.vivaldi_path {
            Some(p) => p,
            None => c.vivaldi_path,
        },
        ui_ready_selector: match u.ui_ready_selector {
            Some(s) => s,
            None => c.ui_ready_selector,
        },
        init_delay_ms: match u.init_delay_ms {
            Some(n) => n,
            None => c.init_delay_ms,
        },
        detach_timeout_ms: match u.detach_timeout_ms {
            Some(n) => n as u32,
            None => c.detach_timeout_ms,
        },
        exe_name: match u.exe_name {
            Some(s) => s,
            None => c.exe_name,
        },
        auto_patch: match u.auto_patch {
            Some(b) => b,
            None => c.auto_patch,
        },
        ..c
    }
}

/// Applying settings changes exactly the settings the update gives: each
/// setting the update leaves out keeps its value, each one it gives takes the
/// given value (the detach timeout its value modulo 2^32), and the version
/// and the mods are never touched.
pub proof fn lemma_apply_settings_fields(c: ConfigView, u: SettingsView)
    ensures
        ({
            let r = apply_spec(c, u);
            &&& r.version == c.version
            &&& r.mods == c.mods
            &&& u.vivaldi_path is None ==> r.vivaldi_path == c.vivaldi_path
            &&& u.vivaldi_path matches Some(p) ==> r.vivaldi_path == p
            &&& u.ui_ready_selector is None ==> r.ui_ready_selector == c.ui_ready_selector
            &&& u.ui_ready_selector matches Some(x) ==> r.ui_ready_selector == x
            &&& u.init_delay_ms is None ==> r.init_delay_ms == c.init_delay_ms
            &&& u.init_delay_ms matches Some(n) ==> r.init_delay_ms == n
            &&& u.detach_timeout_ms is None ==> r.detach_timeout_ms == c.detach_timeout_ms
            &&& u.detach_timeout_ms matches Some(n) ==> r.detach_timeout_ms as int == n as int
                % 0x1_0000_0000
            &&& u.exe_name is None ==> r.exe_name == c.exe_name
            &&& u.exe_name matches Some(x) ==> r.exe_name == x
            &&& u.auto_patch is None ==> r.auto_patch == c.auto_patch
            &&& u.auto_patch matches Some(b) ==> r.auto_patch == b
        }),
{
    if let Some(n) = u.detach_timeout_ms {
        assert((n as u32) as u64 == n % 0x1_0000_0000) by (bit_vector);
    }
}

/// A configuration request that does not mention a setting leaves it as it
/// is, except the Vivaldi path, which a request without it clears; a request
/// that gives a setting a value of the wrong JSON type leaves it too.
pub proof fn lemma_request_leaves_unmentioned(c: ConfigView, d: DocView)
    ensures
        ({
            let r = apply_spec(c, settings_spec(d));
            &&& member(d, "vivaldi_path"@) is None ==> r.vivaldi_path is None
            &&& !(member(d, "ui_ready_selector"@) matches Some(ScalarView::Str(_)))
                ==> r.ui_ready_selector == c.ui_ready_selector
            &&& !(member(d, "init_delay_ms"@) matches Some(ScalarView::Number(_, Some(_))))
                ==> r.init_delay_ms == c.init_delay_ms
            &&& !(member(d, "detach_timeout_ms"@) matches Some(ScalarView::Number(_, Some(_))))
                ==> r.detach_timeout_ms == c.detach_timeout_ms
            &&& !(member(d, "exe_name"@) matches Some(ScalarView::Str(_))) ==> r.exe_name
                == c.exe_name
            &&& !(member(d, "auto_patch"@) matches Some(ScalarView::Bool(_))) ==> r.auto_patch
                == c.auto_patch
            &&& r.version == c.version
            &&& r.mods == c.mods
        }),
{
    lemma_apply_settings_fields(c, settings_spec(d));
}

impl ModConfig {
    /// Applies the settings of a configuration request. Saving is the caller's.
    pub fn apply_settings(&mut self, u: SettingsUpdate)
        ensures
            final(self)@ == apply_spec(old(self)@, u@),
    {
        let ghost uv = u@;
        match u.vivaldi_path {
            Some(p) => {
                self.vivaldi_path = p;
            },
            None => {},
        }
        match u.ui_ready_selector {
            Some(s) => {
                self.ui_ready_selector = s;
            },
            None => {},
        }
        match u.init_delay_ms {
            Some(n) => {
                self.init_delay_ms = n;
            },
            None => {},
        }
        match u.detach_timeout_ms {
            Some(n) => {
                self.detach_timeout_ms = #[verifier::truncate] (n as u32);
            },
            None => {},
        }
        match u.exe_name {
            Some(s) => {
                self.exe_name = s;
            },
            None => {},
        }
        match u.auto_patch {
            Some(b) => {
                self.auto_patch = b;
            },
            None => {},
        }
        assert(self@ == apply_spec(old(self)@, uv));
    }
}

} // verus!
