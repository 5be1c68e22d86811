//! The mod registry: mod types, mod entries, the configuration and every change
//! the manager makes to it. Loading and saving the JSON file is the caller's.

use vstd::prelude::*;
use crate::text::{
    ascii_lower, chars_of, eq_ignore_ascii_case, eq_ignore_case, lower_char, lower_chars,
    push_str, to_ascii_lower,
};
use vstd::multiset::Multiset;
use crate::paths::{extension_spec, file_extension, join_path, join_spec};

verus! {

broadcast use vstd::string::group_string_axioms;

// ---------------------------------------------------------------------------
// Mod types
// ---------------------------------------------------------------------------

/// The two kinds of mods.
#[derive(Clone, Copy, Debug, PartialEq, Eq, Structural)]
pub enum ModType {
    Css,
    Js,
}

/// The text "css".
pub open spec fn css_text() -> Seq<char> {
    seq!['c', 's', 's']
}

/// The text "js".
pub open spec fn js_text() -> Seq<char> {
    seq!['j', 's']
}

/// The mod type of a file extension, compared without regard to ASCII case.
pub open spec fn type_of_extension(ext: Seq<char>) -> Option<ModType> {
    if ascii_lower(ext) == css_text() {
        Some(ModType::Css)
    } else if ascii_lower(ext) == js_text() {
        Some(ModType::Js)
    } else {
        None
    }
}

/// Lower-casing twice is lower-casing once.
pub proof fn lemma_ascii_lower_idempotent(s: Seq<char>)
    ensures
        ascii_lower(ascii_lower(s)) == ascii_lower(s),
{
    assert(ascii_lower(ascii_lower(s)) =~= ascii_lower(s));
}

/// The mod type of an extension ignores ASCII case: "css" and "CSS" are
/// stylesheets, "js" and "JS" scripts, and the empty extension is neither.
pub proof fn lemma_extension_types(e: Seq<char>)
    ensures
        type_of_extension(e) == type_of_extension(ascii_lower(e)),
        type_of_extension(seq!['c', 's', 's']) == Some(ModType::Css),
        type_of_extension(seq!['C', 'S', 'S']) == Some(ModType::Css),
        type_of_extension(seq!['j', 's']) == Some(ModType::Js),
        type_of_extension(seq!['J', 'S']) == Some(ModType::Js),
        type_of_extension(Seq::<char>::empty()) is None,
        type_of_extension(e) is Some ==> e.len() == 2 || e.len() == 3,
{
    lemma_ascii_lower_idempotent(e);
    assert(ascii_lower(seq!['c', 's', 's']) =~= css_text());
    assert(ascii_lower(seq!['C', 'S', 'S']) =~= css_text());
    assert(ascii_lower(seq!['j', 's']) =~= js_text());
    assert(ascii_lower(seq!['J', 'S']) =~= js_text());
    assert(ascii_lower(Seq::<char>::empty()).len() == 0);
}

/// The name of a mod type, which is also its file extension.
pub open spec fn type_text(t: ModType) -> Seq<char> {
    match t {
        ModType::Css => css_text(),
        ModType::Js => js_text(),
    }
}

/// The mod type of a whole file name: that of its extension, if any.
pub open spec fn type_of_file(name: Seq<char>) -> Option<ModType> {
    match extension_spec(name) {
        Some(e) => type_of_extension(e),
        None => None,
    }
}

impl ModType {
    /// The mod type of a file extension ("css" or "js", in any ASCII case).
    pub fn from_extension(ext: &str) -> (r: Option<ModType>)
        ensures
            r == type_of_extension(ext@),
    {
        let l = lower_chars(chars_of(ext).as_slice());
        proof {
            reveal_strlit("css");
            reveal_strlit("js");
        }
        let css = chars_of("css");
        let js = chars_of("js");
        assert(css@ =~= css_text());
        assert(js@ =~= js_text());
        if crate::text::chars_equal(l.as_slice(), css.as_slice()) {
            Some(ModType::Css)
        } else if crate::text::chars_equal(l.as_slice(), js.as_slice()) {
            Some(ModType::Js)
        } else {
            None
        }
    }

    /// The name of the mod type: "css" or "js".
    pub fn as_str(&self) -> (r: &'static str)
        ensures
            r@ == type_text(*self),
    {
        proof {
            reveal_strlit("css");
            reveal_strlit("js");
        }
        match self {
            ModType::Css => "css",
            ModType::Js => "js",
        }
    }
}

// ---------------------------------------------------------------------------
// Mod entries
// ---------------------------------------------------------------------------

/// One registered mod: its file name, its type, whether it is bundled, its
/// load priority (lower loads first) and a free description.
#[derive(Debug)]
pub struct ModItem {
    pub name: String,
    pub mod_type: ModType,
    pub enabled: bool,
    pub order: i32,
    pub description: String,
}

/// A mod entry with its texts as character sequences.
pub struct ModItemView {
    pub name: Seq<char>,
    pub mod_type: ModType,
    pub enabled: bool,
    pub order: i32,
    pub description: Seq<char>,
}

impl View for ModItem {
    type V = ModItemView;

    open spec fn view(&self) -> ModItemView {
        ModItemView {
            name: self.name@,
            mod_type: self.mod_type,
            enabled: self.enabled,
            order: self.order,
            description: self.description@,
        }
    }
}

impl Clone for ModItem {
    fn clone(&self) -> (r: Self)
        ensures
            r == *self,
    {
        ModItem {
            name: self.name.clone(),
            mod_type: self.mod_type,
            enabled: self.enabled,
            order: self.order,
            description: self.description.clone(),
        }
    }
}

/// The entries of a list of mods.
pub open spec fn items_view(v: Seq<ModItem>) -> Seq<ModItemView> {
    v.map_values(|m: ModItem| m@)
}

/// A freshly registered mod: enabled, priority 0, no description.
pub open spec fn new_item_view(name: Seq<char>, t: ModType) -> ModItemView {
    ModItemView { name, mod_type: t, enabled: true, order: 0, description: Seq::empty() }
}

/// The entry with its enabled flag set to `e`.
pub open spec fn with_enabled(m: ModItemView, e: bool) -> ModItemView {
    ModItemView { enabled: e, ..m }
}

/// The entry with its type set to `t`.
pub open spec fn with_type(m: ModItemView, t: ModType) -> ModItemView {
    ModItemView { mod_type: t, ..m }
}

/// The entry with its priority set to `o`.
pub open spec fn with_order(m: ModItemView, o: i32) -> ModItemView {
    ModItemView { order: o, ..m }
}

fn new_item(name: &str, t: ModType) -> (r: ModItem)
    ensures
        r@ == new_item_view(name@, t),
{
    let mut n = String::new();
    push_str(&mut n, name);
    ModItem { name: n, mod_type: t, enabled: true, order: 0, description: String::new() }
}

// ---------------------------------------------------------------------------
// Ordering of entries
// ---------------------------------------------------------------------------

/// Lexicographic order of texts by character code (that of their UTF-8 bytes).
pub open spec fn lex_le(a: Seq<char>, b: Seq<char>) -> bool
    decreases a.len(),
{
    if a.len() == 0 {
        true
    } else if b.len() == 0 {
        false
    } else if a[0] != b[0] {
        a[0] < b[0]
    } else {
        lex_le(a.drop_first(), b.drop_first())
    }
}

/// Lexicographic order decides at the first difference: when `a` and `b`
/// agree before position `k` and `a[k] < b[k]`, `a` comes first and `b` does
/// not, whatever the lengths of the two texts.
pub proof fn lemma_lex_le_first_difference(a: Seq<char>, b: Seq<char>, k: int)
    requires
        0 <= k < a.len(),
        k < b.len(),
        a.take(k) == b.take(k),
        a[k] < b[k],
    ensures
        lex_le(a, b),
        !lex_le(b, a),
    decreases k,
{
    if k > 0 {
        assert(a[0] == a.take(k)[0]);
        assert(b[0] == b.take(k)[0]);
        assert(a.drop_first().take(k - 1) =~= a.take(k).drop_first());
        assert(b.drop_first().take(k - 1) =~= b.take(k).drop_first());
        lemma_lex_le_first_difference(a.drop_first(), b.drop_first(), k - 1);
    }
}

/// A text comes before every text it is a prefix of, and a longer text never
/// comes before its own proper prefix.
pub proof fn lemma_lex_le_prefix(a: Seq<char>, b: Seq<char>)
    requires
        a.len() <= b.len(),
        b.take(a.len() as int) == a,
    ensures
        lex_le(a, b),
        a.len() < b.len() ==> !lex_le(b, a),
    decreases a.len(),
{
    if a.len() > 0 {
        assert(a[0] == b.take(a.len() as int)[0]);
        assert(b.drop_first().take(a.len() - 1) =~= a.drop_first());
        lemma_lex_le_prefix(a.drop_first(), b.drop_first());
    }
}

/// Lower-casing changes only the letters 'A' to 'Z', each into its lower-case
/// letter, and keeps the length.
pub proof fn lemma_ascii_lower_chars(s: Seq<char>, i: int)
    requires
        0 <= i < s.len(),
    ensures
        ascii_lower(s).len() == s.len(),
        'A' <= s[i] <= 'Z' ==> ascii_lower(s)[i] as u32 == s[i] as u32 + 32,
        !('A' <= s[i] <= 'Z') ==> ascii_lower(s)[i] == s[i],
{
}

/// The sort key of an entry: its name in lower case.
pub open spec fn name_key(m: ModItemView) -> Seq<char> {
    ascii_lower(m.name)
}

/// Entry `a` may stand before entry `b`: by lower-case name, or, when
/// `by_order`, first by priority and then by lower-case name.
pub open spec fn item_le(a: ModItemView, b: ModItemView, by_order: bool) -> bool {
    if by_order && a.order != b.order {
        a.order < b.order
    } else {
        lex_le(name_key(a), name_key(b))
    }
}

/// `x` inserted into `s` after every entry that may stand before it, counted
/// from the end: the insertion step of a stable sort.
pub open spec fn insert_sorted(s: Seq<ModItemView>, x: ModItemView, by_order: bool) -> Seq<
    ModItemView,
>
    decreases s.len(),
{
    if s.len() == 0 {
        seq![x]
    } else if item_le(s.last(), x, by_order) {
        s.push(x)
    } else {
        insert_sorted(s.drop_last(), x, by_order).push(s.last())
    }
}

/// The stable sort of `s` (what `sort_by` gives).
pub open spec fn sort_spec(s: Seq<ModItemView>, by_order: bool) -> Seq<ModItemView>
    decreases s.len(),
{
    if s.len() == 0 {
        s
    } else {
        insert_sorted(sort_spec(s.drop_last(), by_order), s.last(), by_order)
    }
}

/// Every entry may stand before every later one.
pub open spec fn is_sorted(s: Seq<ModItemView>, by_order: bool) -> bool {
    forall|i: int, j: int| 0 <= i < j < s.len() ==> item_le(#[trigger] s[i], #[trigger] s[j], by_order)
}

proof fn lemma_lex_total(a: Seq<char>, b: Seq<char>)
    ensures
        lex_le(a, b) || lex_le(b, a),
    decreases a.len(),
{
    if a.len() > 0 && b.len() > 0 && a[0] == b[0] {
        lemma_lex_total(a.drop_first(), b.drop_first());
    }
}

proof fn lemma_lex_trans(a: Seq<char>, b: Seq<char>, c: Seq<char>)
    requires
        lex_le(a, b),
        lex_le(b, c),
    ensures
        lex_le(a, c),
    decreases a.len(),
{
    if a.len() > 0 && b.len() > 0 && c.len() > 0 && a[0] == b[0] && b[0] == c[0] {
        lemma_lex_trans(a.drop_first(), b.drop_first(), c.drop_first());
    }
}

/// The order on entries is total.
pub proof fn lemma_item_le_total(a: ModItemView, b: ModItemView, by_order: bool)
    ensures
        item_le(a, b, by_order) || item_le(b, a, by_order),
{
    lemma_lex_total(name_key(a), name_key(b));
}

/// The order on entries is transitive.
pub proof fn lemma_item_le_trans(a: ModItemView, b: ModItemView, c: ModItemView, by_order: bool)
    requires
        item_le(a, b, by_order),
        item_le(b, c, by_order),
    ensures
        item_le(a, c, by_order),
{
    if by_order && (a.order != b.order || b.order != c.order) {
    } else {
        lemma_lex_trans(name_key(a), name_key(b), name_key(c));
    }
}

/// Insertion keeps the entries (with `x` added) and keeps a sorted sequence sorted.
pub proof fn lemma_insert_sorted(s: Seq<ModItemView>, x: ModItemView, by_order: bool)
    requires
        is_sorted(s, by_order),
    ensures
        is_sorted(insert_sorted(s, x, by_order), by_order),
        insert_sorted(s, x, by_order).to_multiset() == s.to_multiset().insert(x),
        insert_sorted(s, x, by_order).len() == s.len() + 1,
    decreases s.len(),
{
    broadcast use vstd::seq_lib::group_seq_properties;
    broadcast use vstd::multiset::group_multiset_axioms;
    let r = insert_sorted(s, x, by_order);
    if s.len() == 0 {
        assert(r =~= seq![x]);
        assert(seq![x].to_multiset() =~= Multiset::<ModItemView>::empty().insert(x)) by {
            assert(seq![x] =~= Seq::<ModItemView>::empty().push(x));
        }
    } else if item_le(s.last(), x, by_order) {
        assert forall|i: int, j: int| 0 <= i < j < r.len() implies item_le(
            #[trigger] r[i],
            #[trigger] r[j],
            by_order,
        ) by {
            if j == s.len() {
                if i < s.len() - 1 {
                    lemma_item_le_trans(s[i], s.last(), x, by_order);
                }
            }
        }
    } else {
        let p = s.drop_last();
        assert(is_sorted(p, by_order));
        lemma_insert_sorted(p, x, by_order);
        let q = insert_sorted(p, x, by_order);
        assert(r == q.push(s.last()));
        lemma_item_le_total(s.last(), x, by_order);
        assert forall|i: int, j: int| 0 <= i < j < r.len() implies item_le(
            #[trigger] r[i],
            #[trigger] r[j],
            by_order,
        ) by {
            if j == r.len() - 1 {
                // every element of q is either x or an element of p, all of
                // which may stand before s.last()
                assert(q.to_multiset().count(q[i]) > 0);
                assert(q.to_multiset() == p.to_multiset().insert(x));
                if q[i] != x {
                    assert(p.to_multiset().count(q[i]) > 0);
                    assert(p.contains(q[i]));
                    let k = choose|k: int| 0 <= k < p.len() && p[k] == q[i];
                    assert(s[k] == p[k]);
                    assert(item_le(s[k], s[s.len() - 1], by_order));
                }
            }
        }
        assert(p.push(s.last()) =~= s);
        assert(s.to_multiset() == p.to_multiset().insert(s.last()));
        assert(r.to_multiset() =~= s.to_multiset().insert(x));
    }
}

/// The stable sort yields a sorted arrangement of the same entries.
pub proof fn lemma_sort_sorted_permutation(s: Seq<ModItemView>, by_order: bool)
    ensures
        is_sorted(sort_spec(s, by_order), by_order),
        sort_spec(s, by_order).to_multiset() == s.to_multiset(),
        sort_spec(s, by_order).len() == s.len(),
    decreases s.len(),
{
    broadcast use vstd::seq_lib::group_seq_properties;
    if s.len() > 0 {
        let p = s.drop_last();
        lemma_sort_sorted_permutation(p, by_order);
        lemma_insert_sorted(sort_spec(p, by_order), s.last(), by_order);
        assert(p.push(s.last()) =~= s);
    }
}

/// `x` inserted at position `j` when every entry from `j` on must stand after
/// it and the entry before `j` (if any) may stand before it.
proof fn lemma_insert_at(s: Seq<ModItemView>, x: ModItemView, by_order: bool, j: int)
    requires
        0 <= j <= s.len(),
        forall|k: int| j <= k < s.len() ==> !item_le(#[trigger] s[k], x, by_order),
        j > 0 ==> item_le(s[j - 1], x, by_order),
    ensures
        insert_sorted(s, x, by_order) == s.take(j).push(x) + s.skip(j),
    decreases s.len(),
{
    if s.len() == 0 {
        assert(s.take(j).push(x) + s.skip(j) =~= seq![x]);
    } else if j == s.len() {
        assert(s.take(j).push(x) + s.skip(j) =~= s.push(x));
    } else {
        let p = s.drop_last();
        lemma_insert_at(p, x, by_order, j);
        assert(p.take(j).push(x) + p.skip(j) + seq![s.last()] =~= s.take(j).push(x) + s.skip(j));
    }
}

fn lex_le_exec(a: &[char], b: &[char]) -> (r: bool)
    ensures
        r == lex_le(a@, b@),
{
    let mut i: usize = 0;
    assert(a@.skip(0) =~= a@);
    assert(b@.skip(0) =~= b@);
    assert(a@.take(0) =~= b@.take(0));
    while i < a.len() && i < b.len()
        invariant
            i <= a@.len(),
            i <= b@.len(),
            a@.take(i as int) == b@.take(i as int),
            lex_le(a@, b@) == lex_le(a@.skip(i as int), b@.skip(i as int)),
        decreases a@.len() - i,
    {
        let ca = a[i];
        let cb = b[i];
        assert(a@.skip(i as int)[0] == ca);
        assert(b@.skip(i as int)[0] == cb);
        if ca != cb {
            return ca < cb;
        }
        assert(a@.skip(i as int).drop_first() =~= a@.skip(i + 1));
        assert(b@.skip(i as int).drop_first() =~= b@.skip(i + 1));
        assert(a@.take(i + 1) =~= a@.take(i as int).push(ca));
        assert(b@.take(i + 1) =~= b@.take(i as int).push(cb));
        i = i + 1;
    }
    if i == a.len() {
        assert(a@.skip(i as int).len() == 0);
        true
    } else {
        assert(b@.skip(i as int).len() == 0);
        false
    }
}

fn item_le_exec(a: &ModItem, b: &ModItem, by_order: bool) -> (r: bool)
    ensures
        r == item_le(a@, b@, by_order),
{
    if by_order && a.order != b.order {
        a.order < b.order
    } else {
        let ka = lower_chars(chars_of(a.name.as_str()).as_slice());
        let kb = lower_chars(chars_of(b.name.as_str()).as_slice());
        lex_le_exec(ka.as_slice(), kb.as_slice())
    }
}

/// The entries stably sorted: by lower-case name, or, when `by_order`, by
/// priority and then lower-case name; entries that compare equal keep their
/// relative order.
pub fn sort_mods(v: &Vec<ModItem>, by_order: bool) -> (r: Vec<ModItem>)
    ensures
        items_view(r@) == sort_spec(items_view(v@), by_order),
{
    let mut r: Vec<ModItem> = Vec::new();
    for i in 0..v.len()
        invariant
            items_view(r@) == sort_spec(items_view(v@.take(i as int)), by_order),
    {
        let x = v[i].clone();
        let ghost before = items_view(r@);
        let mut j = r.len();
        while j > 0 && !item_le_exec(&r[j - 1], &x, by_order)
            invariant
                j <= r@.len(),
                items_view(r@) == before,
                forall|k: int| j <= k < r@.len() ==> !item_le(#[trigger] before[k], x@, by_order),
            decreases j,
        {
            j = j - 1;
        }
        proof {
            lemma_insert_at(before, x@, by_order, j as int);
        }
        r.insert(j, x);
        assert(items_view(r@) =~= before.take(j as int).push(x@) + before.skip(j as int));
        assert(items_view(v@.take(i + 1)).drop_last() =~= items_view(v@.take(i as int)));
        assert(items_view(v@.take(i + 1)).last() == x@);
    }
    assert(v@.take(v@.len() as int) =~= v@);
    r
}


// ---------------------------------------------------------------------------
// The configuration
// ---------------------------------------------------------------------------

/// The whole configuration: schema version, the Vivaldi executable chosen by
/// the user, whether launches patch automatically, the selector and delay the
/// bundle waits for before running JS mods, the detach timeout, the name of
/// the intercepted executable, and the registered mods.
#[derive(Debug)]
pub struct ModConfig {
    pub version: u32,
    pub vivaldi_path: Option<String>,
    pub auto_patch: bool,
    pub ui_ready_selector: String,
    pub init_delay_ms: u64,
    pub detach_timeout_ms: u32,
    pub exe_name: String,
    pub mods: Vec<ModItem>,
}

/// The configuration with its texts as character sequences.
pub struct ConfigView {
    pub version: u32,
    pub vivaldi_path: Option<Seq<char>>,
    pub auto_patch: bool,
    pub ui_ready_selector: Seq<char>,
    pub init_delay_ms: u64,
    pub detach_timeout_ms: u32,
    pub exe_name: Seq<char>,
    pub mods: Seq<ModItemView>,
}

/// The text of an optional string.
pub open spec fn opt_text(o: Option<String>) -> Option<Seq<char>> {
    match o {
        Some(s) => Some(s@),
        None => None,
    }
}

impl View for ModConfig {
    type V = ConfigView;

    open spec fn view(&self) -> ConfigView {
        ConfigView {
            version: self.version,
            vivaldi_path: opt_text(self.vivaldi_path),
            auto_patch: self.auto_patch,
            ui_ready_selector: self.ui_ready_selector@,
            init_delay_ms: self.init_delay_ms,
            detach_timeout_ms: self.detach_timeout_ms,
            exe_name: self.exe_name@,
            mods: items_view(self.mods@),
        }
    }
}

/// The configuration before anything is set up: version 1, no Vivaldi path,
/// automatic patching on, readiness selector "#browser", a 60 ms delay, a
/// 5000 ms detach timeout, target "vivaldi.exe", no mods.
pub open spec fn default_view() -> ConfigView {
    ConfigView {
        version: 1,
        vivaldi_path: None,
        auto_patch: true,
        ui_ready_selector: seq!['#', 'b', 'r', 'o', 'w', 's', 'e', 'r'],
        init_delay_ms: 60,
        detach_timeout_ms: 5000,
        exe_name: seq!['v', 'i', 'v', 'a', 'l', 'd', 'i', '.', 'e', 'x', 'e'],
        mods: Seq::empty(),
    }
}

impl Default for ModConfig {
    fn default() -> (r: Self)
        ensures
            r@ == default_view(),
    {
        proof {
            reveal_strlit("#browser");
            reveal_strlit("vivaldi.exe");
        }
        let mut sel = String::new();
        push_str(&mut sel, "#browser");
        let mut exe = String::new();
        push_str(&mut exe, "vivaldi.exe");
        let r = ModConfig {
            version: 1,
            vivaldi_path: None,
            auto_patch: true,
            ui_ready_selector: sel,
            init_delay_ms: 60,
            detach_timeout_ms: 5000,
            exe_name: exe,
            mods: Vec::new(),
        };
        assert(r@.mods =~= Seq::<ModItemView>::empty());
        assert(r@.ui_ready_selector =~= default_view().ui_ready_selector);
        assert(r@.exe_name =~= default_view().exe_name);
        r
    }
}

/// The configuration with its mod list replaced.
pub open spec fn with_mods(c: ConfigView, mods: Seq<ModItemView>) -> ConfigView {
    ConfigView { mods, ..c }
}

/// A name given on the command line selects an entry when, in lower case,
/// it equals the entry's name, or the entry's name without ".css" or ".js".
pub open spec fn matches_query(name: Seq<char>, query: Seq<char>) -> bool {
    let n = ascii_lower(name);
    let q = ascii_lower(query);
    n == q || n == q + seq!['.', 'c', 's', 's'] || n == q + seq!['.', 'j', 's']
}

/// Some entry is selected by the query.
pub open spec fn has_match(mods: Seq<ModItemView>, query: Seq<char>) -> bool {
    exists|i: int| 0 <= i < mods.len() && matches_query(#[trigger] mods[i].name, query)
}

/// `i` is the first entry selected by the query.
pub open spec fn is_first_match(mods: Seq<ModItemView>, query: Seq<char>, i: int) -> bool {
    &&& 0 <= i < mods.len()
    &&& matches_query(mods[i].name, query)
    &&& forall|j: int| 0 <= j < i ==> !matches_query(#[trigger] mods[j].name, query)
}

/// The first entry selected by the query.
pub open spec fn first_match(mods: Seq<ModItemView>, query: Seq<char>) -> int {
    choose|i: int| is_first_match(mods, query, i)
}

/// Some entry has the name, compared without regard to ASCII case.
pub open spec fn has_name(mods: Seq<ModItemView>, name: Seq<char>) -> bool {
    exists|i: int| 0 <= i < mods.len() && eq_ignore_case(#[trigger] mods[i].name, name)
}

/// `i` is the first entry with the name, compared without regard to ASCII case.
pub open spec fn is_first_named(mods: Seq<ModItemView>, name: Seq<char>, i: int) -> bool {
    &&& 0 <= i < mods.len()
    &&& eq_ignore_case(mods[i].name, name)
    &&& forall|j: int| 0 <= j < i ==> !eq_ignore_case(#[trigger] mods[j].name, name)
}

/// The first entry with the name, compared without regard to ASCII case.
pub open spec fn first_named(mods: Seq<ModItemView>, name: Seq<char>) -> int {
    choose|i: int| is_first_named(mods, name, i)
}

/// The message for a name that selects no entry.
pub open spec fn not_found_message(name: Seq<char>) -> Seq<char> {
    "Mod '"@ + name + "' not found in configuration"@
}

/// The registry after importing a file: an entry with the same name (in any
/// ASCII case) takes the new type, otherwise a fresh entry is added; then the
/// list is sorted by lower-case name.
pub open spec fn register_spec(mods: Seq<ModItemView>, name: Seq<char>, t: ModType) -> Seq<
    ModItemView,
> {
    let updated = if has_name(mods, name) {
        let i = first_named(mods, name);
        mods.update(i, with_type(mods[i], t))
    } else {
        mods.push(new_item_view(name, t))
    };
    sort_spec(updated, false)
}

/// The registry after adding, in order, every file of `files` whose
/// extension names the type `t` and whose name (in any ASCII case) is not yet
/// registered.
pub open spec fn rescan_spec(mods: Seq<ModItemView>, files: Seq<Seq<char>>, t: ModType) -> Seq<
    ModItemView,
>
    decreases files.len(),
{
    if files.len() == 0 {
        mods
    } else {
        let prev = rescan_spec(mods, files.drop_last(), t);
        let f = files.last();
        if type_of_file(f) == Some(t) && !has_name(prev, f) {
            prev.push(new_item_view(f, t))
        } else {
            prev
        }
    }
}

/// What an import is told about a file: its name (when the path has one that
/// is valid Unicode) and its extension (when it has one).
pub open spec fn import_check_spec(file_name: Option<Seq<char>>, extension: Option<Seq<char>>) -> Result<
    (Seq<char>, ModType),
    Seq<char>,
> {
    match file_name {
        None => Err("Invalid file name"@),
        Some(n) => {
            let ext = match extension {
                Some(e) => ascii_lower(e),
                None => Seq::empty(),
            };
            match type_of_extension(ext) {
                Some(t) => Ok((n, t)),
                None => Err(
                    "Unsupported file extension '."@ + ext
                        + "'. Only .css and .js supported."@,
                ),
            }
        },
    }
}

/// The directory for the configuration and the mods: the directory named by
/// `VIVALDI_MOD_MANAGER_DIR` if set, else `VivaldiModManager` under
/// `%APPDATA%`, else `.vivaldi_mod_manager` under the working directory.
pub open spec fn app_dir_spec(
    custom_dir: Option<Seq<char>>,
    portable_dir: Option<Seq<char>>,
    appdata: Option<Seq<char>>,
) -> Seq<char> {
    match custom_dir {
        Some(c) => c,
        None => match portable_dir {
            Some(p) => p,
            None => match appdata {
                Some(a) => join_spec(a, "VivaldiModManager"@),
                None => join_spec("."@, ".vivaldi_mod_manager"@),
            },
        },
    }
}

/// The directory holding the mods of one type.
pub open spec fn type_dir_spec(app_dir: Seq<char>, t: ModType) -> Seq<char> {
    join_spec(join_spec(app_dir, "user_mods"@), type_text(t))
}

/// The number of enabled entries of a type.
pub open spec fn enabled_count_spec(mods: Seq<ModItemView>, t: ModType) -> nat
    decreases mods.len(),
{
    if mods.len() == 0 {
        0
    } else {
        enabled_count_spec(mods.drop_last(), t) + if mods.last().enabled && mods.last().mod_type
            == t {
            1nat
        } else {
            0nat
        }
    }
}

proof fn lemma_first_match_exists(mods: Seq<ModItemView>, query: Seq<char>, k: int)
    requires
        0 <= k < mods.len(),
        matches_query(mods[k].name, query),
    ensures
        is_first_match(mods, query, first_match(mods, query)),
    decreases k,
{
    if exists|j: int| 0 <= j < k && matches_query(#[trigger] mods[j].name, query) {
        let j = choose|j: int| 0 <= j < k && matches_query(#[trigger] mods[j].name, query);
        lemma_first_match_exists(mods, query, j);
    } else {
        assert(is_first_match(mods, query, k));
    }
}

proof fn lemma_first_named_exists(mods: Seq<ModItemView>, name: Seq<char>, k: int)
    requires
        0 <= k < mods.len(),
        eq_ignore_case(mods[k].name, name),
    ensures
        is_first_named(mods, name, first_named(mods, name)),
    decreases k,
{
    if exists|j: int| 0 <= j < k && eq_ignore_case(#[trigger] mods[j].name, name) {
        let j = choose|j: int| 0 <= j < k && eq_ignore_case(#[trigger] mods[j].name, name);
        lemma_first_named_exists(mods, name, j);
    } else {
        assert(is_first_named(mods, name, k));
    }
}

proof fn lemma_first_match_unique(mods: Seq<ModItemView>, query: Seq<char>, i: int)
    requires
        is_first_match(mods, query, i),
    ensures
        first_match(mods, query) == i,
        has_match(mods, query),
{
    let k = first_match(mods, query);
    assert(is_first_match(mods, query, k));
    if k < i {
        assert(!matches_query(mods[k].name, query));
    } else if i < k {
        assert(!matches_query(mods[i].name, query));
    }
}

proof fn lemma_first_named_unique(mods: Seq<ModItemView>, name: Seq<char>, i: int)
    requires
        is_first_named(mods, name, i),
    ensures
        first_named(mods, name) == i,
        has_name(mods, name),
{
    let k = first_named(mods, name);
    assert(is_first_named(mods, name, k));
    if k < i {
        assert(!eq_ignore_case(mods[k].name, name));
    } else if i < k {
        assert(!eq_ignore_case(mods[i].name, name));
    }
}

fn not_found(name: &str) -> (r: String)
    ensures
        r@ == not_found_message(name@),
{
    let mut r = String::new();
    push_str(&mut r, "Mod '");
    push_str(&mut r, name);
    push_str(&mut r, "' not found in configuration");
    r
}

impl ModConfig {
    /// The first entry selected by `name` (see `matches_query`).
    fn find_query(&self, name: &str) -> (r: Option<usize>)
        ensures
            match r {
                Some(i) => is_first_match(self@.mods, name@, i as int),
                None => !has_match(self@.mods, name@),
            },
    {
        let q = to_ascii_lower(name);
        let mut q_css = q.clone();
        push_str(&mut q_css, ".css");
        let mut q_js = q.clone();
        push_str(&mut q_js, ".js");
        proof {
            reveal_strlit(".css");
            reveal_strlit(".js");
        }
        assert(q_css@ =~= ascii_lower(name@) + seq!['.', 'c', 's', 's']);
        assert(q_js@ =~= ascii_lower(name@) + seq!['.', 'j', 's']);
        let mut i: usize = 0;
        while i < self.mods.len()
            invariant
                i <= self@.mods.len(),
                q@ == ascii_lower(name@),
                q_css@ == ascii_lower(name@) + seq!['.', 'c', 's', 's'],
                q_js@ == ascii_lower(name@) + seq!['.', 'j', 's'],
                forall|j: int| 0 <= j < i ==> !matches_query(#[trigger] self@.mods[j].name, name@),
            decreases self@.mods.len() - i,
        {
            let n = to_ascii_lower(self.mods[i].name.as_str());
            assert(self@.mods[i as int].name == self.mods@[i as int].name@);
            if n == q || n == q_css || n == q_js {
                return Some(i);
            }
            i = i + 1;
        }
        None
    }

    /// The first entry whose name equals `name` without regard to ASCII case.
    fn find_named(&self, name: &str) -> (r: Option<usize>)
        ensures
            match r {
                Some(i) => is_first_named(self@.mods, name@, i as int),
                None => !has_name(self@.mods, name@),
            },
    {
        let mut i: usize = 0;
        while i < self.mods.len()
            invariant
                i <= self@.mods.len(),
                forall|j: int| 0 <= j < i ==> !eq_ignore_case(#[trigger] self@.mods[j].name, name@),
            decreases self@.mods.len() - i,
        {
            assert(self@.mods[i as int].name == self.mods@[i as int].name@);
            if eq_ignore_ascii_case(self.mods[i].name.as_str(), name) {
                return Some(i);
            }
            i = i + 1;
        }
        None
    }

    /// Flips the enabled flag of the first entry that `name` selects and
    /// answers its new state; with no such entry, answers the not-found
    /// message and changes nothing. Saving is the caller's.
    pub fn toggle_mod(&mut self, name: &str) -> (r: Result<bool, String>)
        ensures
            r is Ok <==> has_match(old(self)@.mods, name@),
            r matches Ok(state) ==> {
                let i = first_match(old(self)@.mods, name@);
                &&& state == !old(self)@.mods[i].enabled
                &&& final(self)@ == with_mods(
                    old(self)@,
                    old(self)@.mods.update(i, with_enabled(old(self)@.mods[i], state)),
                )
            },
            r matches Err(e) ==> e@ == not_found_message(name@) && final(self)@ == old(self)@,
            final(self)@ == toggle_spec(old(self)@, name@),
    {
        match self.find_query(name) {
            Some(i) => {
                proof {
                    lemma_first_match_unique(self@.mods, name@, i as int);
                }
                let state = !self.mods[i].enabled;
                self.mods[i].enabled = state;
                assert(self@.mods =~= old(self)@.mods.update(
                    i as int,
                    with_enabled(old(self)@.mods[i as int], state),
                ));
                Ok(state)
            },
            None => Err(not_found(name)),
        }
    }

    /// Sets the enabled flag of the first entry that `name` selects; with no
    /// such entry, answers the not-found message and changes nothing. Saving
    /// is the caller's.
    pub fn set_mod_enabled(&mut self, name: &str, enabled: bool) -> (r: Result<(), String>)
        ensures
            r is Ok <==> has_match(old(self)@.mods, name@),
            r is Ok ==> {
                let i = first_match(old(self)@.mods, name@);
                final(self)@ == with_mods(
                    old(self)@,
                    old(self)@.mods.update(i, with_enabled(old(self)@.mods[i], enabled)),
                )
            },
            r matches Err(e) ==> e@ == not_found_message(name@) && final(self)@ == old(self)@,
    {
        match self.find_query(name) {
            Some(i) => {
                proof {
                    lemma_first_match_unique(self@.mods, name@, i as int);
                }
                self.mods[i].enabled = enabled;
                assert(self@.mods =~= old(self)@.mods.update(
                    i as int,
                    with_enabled(old(self)@.mods[i as int], enabled),
                ));
                Ok(())
            },
            None => Err(not_found(name)),
        }
    }

    /// Checks a file offered for import: it needs a name, and an extension
    /// that is "css" or "js" in any ASCII case. Answers the name and the mod
    /// type, or the error message.
    pub fn check_import(file_name: Option<&str>, extension: Option<&str>) -> (r: Result<
        (String, ModType),
        String,
    >)
        ensures
            match r {
                Ok((n, t)) => import_check_spec(
                    opt_str_text(file_name),
                    opt_str_text(extension),
                ) == Ok::<(Seq<char>, ModType), Seq<char>>((n@, t)),
                Err(e) => import_check_spec(opt_str_text(file_name), opt_str_text(extension))
                    == Err::<(Seq<char>, ModType), Seq<char>>(e@),
            },
    {
        proof {
            reveal_strlit("Invalid file name");
        }
        let n = match file_name {
            Some(n) => n,
            None => {
                let mut e = String::new();
                push_str(&mut e, "Invalid file name");
                return Err(e);
            },
        };
        let ext = match extension {
            Some(e) => to_ascii_lower(e),
            None => String::new(),
        };
        match ModType::from_extension(ext.as_str()) {
            Some(t) => {
                proof {
                    assert(ascii_lower(ext@) =~= ext@) by {
                        assert forall|k: int| 0 <= k < ext@.len() implies lower_char(ext@[k])
                            == ext@[k] by {}
                    }
                }
                let mut name = String::new();
                push_str(&mut name, n);
                Ok((name, t))
            },
            None => {
                proof {
                    assert(ascii_lower(ext@) =~= ext@) by {
                        assert forall|k: int| 0 <= k < ext@.len() implies lower_char(ext@[k])
                            == ext@[k] by {}
                    }
                }
                let mut e = String::new();
                push_str(&mut e, "Unsupported file extension '.");
                push_str(&mut e, ext.as_str());
                push_str(&mut e, "'. Only .css and .js supported.");
                Err(e)
            },
        }
    }

    /// Registers an imported file: an entry with the same name (in any ASCII
    /// case) takes the given type, otherwise a fresh enabled entry with
    /// priority 0 is added; the list is then sorted by lower-case name.
    /// Copying the file and saving are the caller's.
    pub fn register_mod(&mut self, name: &str, mod_type: ModType)
        ensures
            final(self)@ == with_mods(old(self)@, register_spec(old(self)@.mods, name@, mod_type)),
    {
        match self.find_named(name) {
            Some(i) => {
                proof {
                    lemma_first_named_unique(self@.mods, name@, i as int);
                }
                self.mods[i].mod_type = mod_type;
                assert(self@.mods =~= old(self)@.mods.update(
                    i as int,
                    with_type(old(self)@.mods[i as int], mod_type),
                ));
            },
            None => {
                self.mods.push(new_item(name, mod_type));
                assert(self@.mods =~= old(self)@.mods.push(new_item_view(name@, mod_type)));
            },
        }
        self.mods = sort_mods(&self.mods, false);
    }

    fn rescan_folder(&mut self, files: &[String], t: ModType) -> (added: usize)
        ensures
            final(self)@ == with_mods(old(self)@, rescan_spec(old(self)@.mods, texts_of(files@), t)),
            added == final(self)@.mods.len() - old(self)@.mods.len(),
    {
        let ghost start = self@;
        let mut added: usize = 0;
        let mut i: usize = 0;
        while i < files.len()
            invariant
                i <= files@.len(),
                self@ == with_mods(start, rescan_spec(start.mods, texts_of(files@.take(i as int)), t)),
                added == self@.mods.len() - start.mods.len(),
                self@.mods.len() >= start.mods.len(),
                self@.mods.len() <= start.mods.len() + i,
                start.mods.len() == old(self)@.mods.len(),
                start == old(self)@,
            decreases files@.len() - i,
        {
            let f = &files[i];
            let ghost prev = self@.mods;
            assert(texts_of(files@.take(i + 1)).drop_last() =~= texts_of(files@.take(i as int)));
            assert(texts_of(files@.take(i + 1)).last() == f@);
            let ext_ok = match file_extension(f.as_str()) {
                Some(e) => match ModType::from_extension(e.as_str()) {
                    Some(ft) => ft == t,
                    None => false,
                },
                None => false,
            };
            if ext_ok && self.find_named(f.as_str()).is_none() {
                self.mods.push(new_item(f.as_str(), t));
                added = added + 1;
                assert(self@.mods =~= prev.push(new_item_view(f@, t)));
            }
            i = i + 1;
        }
        assert(files@.take(files@.len() as int) =~= files@);
        added
    }

    /// Registers the mod files found in the type folders: every `css_files`
    /// name with a css extension and every `js_files` name with a js
    /// extension that is not yet registered (in any ASCII case) becomes a
    /// fresh enabled entry; when any was added the list is sorted by
    /// lower-case name. Answers how many were added. Listing the folders and
    /// saving are the caller's.
    pub fn rescan_mods(&mut self, css_files: &[String], js_files: &[String]) -> (added: usize)
        ensures
            ({
                let all = rescan_spec(
                    rescan_spec(old(self)@.mods, texts_of(css_files@), ModType::Css),
                    texts_of(js_files@),
                    ModType::Js,
                );
                &&& added == all.len() - old(self)@.mods.len()
                &&& final(self)@ == with_mods(
                    old(self)@,
                    if added > 0 {
                        sort_spec(all, false)
                    } else {
                        all
                    },
                )
            }),
    {
        let start_len = self.mods.len();
        self.rescan_folder(css_files, ModType::Css);
        self.rescan_folder(js_files, ModType::Js);
        let added = self.mods.len() - start_len;
        if added > 0 {
            self.mods = sort_mods(&self.mods, false);
        }
        added
    }

    /// Sets the priority of the first entry named `name` (in any ASCII case)
    /// and sorts the list by priority, then lower-case name; with no such
    /// entry answers "Mod '<name>' not found." and changes nothing.
    pub fn set_mod_order(&mut self, name: &str, order: i32) -> (r: Result<(), String>)
        ensures
            r is Ok <==> has_name(old(self)@.mods, name@),
            r is Ok ==> {
                let i = first_named(old(self)@.mods, name@);
                final(self)@ == with_mods(
                    old(self)@,
                    sort_spec(old(self)@.mods.update(i, with_order(old(self)@.mods[i], order)), true),
                )
            },
            r matches Err(e) ==> e@ == "Mod '"@ + name@ + "' not found."@ && final(self)@ == old(
                self,
            )@,
    {
        match self.find_named(name) {
            Some(i) => {
                proof {
                    lemma_first_named_unique(self@.mods, name@, i as int);
                }
                self.mods[i].order = order;
                assert(self@.mods =~= old(self)@.mods.update(
                    i as int,
                    with_order(old(self)@.mods[i as int], order),
                ));
                self.mods = sort_mods(&self.mods, true);
                Ok(())
            },
            None => {
                let mut e = String::new();
                push_str(&mut e, "Mod '");
                push_str(&mut e, name);
                push_str(&mut e, "' not found.");
                Err(e)
            },
        }
    }

    /// The number of enabled mods of a type.
    pub fn enabled_count(&self, t: ModType) -> (n: usize)
        ensures
            n == enabled_count_spec(self@.mods, t),
    {
        let mut n: usize = 0;
        let mut i: usize = 0;
        while i < self.mods.len()
            invariant
                i <= self@.mods.len(),
                n == enabled_count_spec(self@.mods.take(i as int), t),
                n <= i,
            decreases self@.mods.len() - i,
        {
            assert(self@.mods.take(i + 1).drop_last() =~= self@.mods.take(i as int));
            if self.mods[i].enabled && self.mods[i].mod_type == t {
                n = n + 1;
            }
            i = i + 1;
        }
        assert(self@.mods.take(self@.mods.len() as int) =~= self@.mods);
        n
    }

    /// The directory for the configuration and the mods: the value of
    /// `VIVALDI_MOD_MANAGER_DIR` when set; otherwise the interceptor's own
    /// directory in portable mode (`portable_dir`, given when `portable.lock`,
    /// `mods_config.json` or `user_mods` lies next to the executable);
    /// otherwise `VivaldiModManager` under `APPDATA`.
    pub fn get_app_dir(custom_dir: Option<&str>, portable_dir: Option<&str>, appdata: Option<&str>) -> (r:
        String)
        ensures
            r@ == app_dir_spec(
                opt_str_text(custom_dir),
                opt_str_text(portable_dir),
                opt_str_text(appdata),
            ),
    {
        match custom_dir {
            Some(c) => {
                let mut r = String::new();
                push_str(&mut r, c);
                r
            },
            None => match portable_dir {
                Some(p) => {
                    let mut r = String::new();
                    push_str(&mut r, p);
                    r
                },
                None => match appdata {
                    Some(a) => join_path(a, "VivaldiModManager"),
                    None => join_path(".", ".vivaldi_mod_manager"),
                },
            },
        }
    }

    /// The configuration file in the application directory.
    pub fn get_config_path(app_dir: &str) -> (r: String)
        ensures
            r@ == join_spec(app_dir@, "mods_config.json"@),
    {
        join_path(app_dir, "mods_config.json")
    }

    /// The folder of all mod files in the application directory.
    pub fn get_mods_dir(app_dir: &str) -> (r: String)
        ensures
            r@ == join_spec(app_dir@, "user_mods"@),
    {
        join_path(app_dir, "user_mods")
    }

    /// The folder of CSS mods in the application directory.
    pub fn get_css_dir(app_dir: &str) -> (r: String)
        ensures
            r@ == type_dir_spec(app_dir@, ModType::Css),
    {
        proof {
            reveal_strlit("css");
        }
        let m = Self::get_mods_dir(app_dir);
        let r = join_path(m.as_str(), "css");
        assert(r@ =~= type_dir_spec(app_dir@, ModType::Css));
        r
    }

    /// The folder of JS mods in the application directory.
    pub fn get_js_dir(app_dir: &str) -> (r: String)
        ensures
            r@ == type_dir_spec(app_dir@, ModType::Js),
    {
        proof {
            reveal_strlit("js");
        }
        let m = Self::get_mods_dir(app_dir);
        let r = join_path(m.as_str(), "js");
        assert(r@ =~= type_dir_spec(app_dir@, ModType::Js));
        r
    }

    /// The stored file of a mod: its name in the folder of its type.
    pub fn mod_file_path(app_dir: &str, mod_type: ModType, name: &str) -> (r: String)
        ensures
            r@ == join_spec(type_dir_spec(app_dir@, mod_type), name@),
    {
        let d = match mod_type {
            ModType::Css => Self::get_css_dir(app_dir),
            ModType::Js => Self::get_js_dir(app_dir),
        };
        join_path(d.as_str(), name)
    }
}

/// The text of an optional string slice.
pub open spec fn opt_str_text(o: Option<&str>) -> Option<Seq<char>> {
    match o {
        Some(s) => Some(s@),
        None => None,
    }
}

/// The texts of a list of strings.
pub open spec fn texts_of(v: Seq<String>) -> Seq<Seq<char>> {
    v.map_values(|s: String| s@)
}

// ---------------------------------------------------------------------------
// Laws of the registry
// ---------------------------------------------------------------------------

/// The configuration after `toggle_mod(query)`.
pub open spec fn toggle_spec(c: ConfigView, query: Seq<char>) -> ConfigView {
    if has_match(c.mods, query) {
        let i = first_match(c.mods, query);
        with_mods(c, c.mods.update(i, with_enabled(c.mods[i], !c.mods[i].enabled)))
    } else {
        c
    }
}

/// Toggling the same mod twice gives back the configuration it started from.
pub proof fn lemma_toggle_twice(c: ConfigView, query: Seq<char>)
    ensures
        toggle_spec(toggle_spec(c, query), query) == c,
{
    if has_match(c.mods, query) {
        let w = choose|w: int| 0 <= w < c.mods.len() && matches_query(#[trigger] c.mods[w].name, query);
        lemma_first_match_exists(c.mods, query, w);
        let i = first_match(c.mods, query);
        let c1 = toggle_spec(c, query);
        assert(is_first_match(c1.mods, query, i)) by {
            assert forall|j: int| 0 <= j < i implies !matches_query(
                #[trigger] c1.mods[j].name,
                query,
            ) by {
                assert(c1.mods[j] == c.mods[j]);
            }
        }
        lemma_first_match_unique(c1.mods, query, i);
        let c2 = toggle_spec(c1, query);
        assert(c2.mods =~= c.mods);
    }
}

/// Toggling flips the enabled flag of the first entry whose lower-case name is
/// the lower-case query, or the query followed by ".css" or ".js", and leaves
/// every other entry and setting as it was.
pub proof fn lemma_toggle_selects(c: ConfigView, k: int, query: Seq<char>)
    requires
        0 <= k < c.mods.len(),
        ascii_lower(c.mods[k].name) == ascii_lower(query) || ascii_lower(c.mods[k].name)
            == ascii_lower(query) + seq!['.', 'c', 's', 's'] || ascii_lower(c.mods[k].name)
            == ascii_lower(query) + seq!['.', 'j', 's'],
        forall|j: int|
            0 <= j < k ==> ascii_lower(#[trigger] c.mods[j].name) != ascii_lower(query)
                && ascii_lower(c.mods[j].name) != ascii_lower(query) + seq!['.', 'c', 's', 's']
                && ascii_lower(c.mods[j].name) != ascii_lower(query) + seq!['.', 'j', 's'],
    ensures
        toggle_spec(c, query).mods.len() == c.mods.len(),
        toggle_spec(c, query).mods[k].enabled == !c.mods[k].enabled,
        toggle_spec(c, query).mods[k].name == c.mods[k].name,
        toggle_spec(c, query).mods[k].mod_type == c.mods[k].mod_type,
        toggle_spec(c, query).mods[k].order == c.mods[k].order,
        forall|j: int|
            0 <= j < c.mods.len() && j != k ==> toggle_spec(c, query).mods[j] == c.mods[j],
        toggle_spec(c, query) == (ConfigView { mods: toggle_spec(c, query).mods, ..c }),
{
    assert(is_first_match(c.mods, query, k)) by {
        assert forall|j: int| 0 <= j < k implies !matches_query(
            #[trigger] c.mods[j].name,
            query,
        ) by {}
    }
    lemma_first_match_unique(c.mods, query, k);
}

proof fn lemma_rescan_prefix(mods: Seq<ModItemView>, files: Seq<Seq<char>>, t: ModType)
    ensures
        rescan_spec(mods, files, t).len() >= mods.len(),
        rescan_spec(mods, files, t).take(mods.len() as int) == mods,
    decreases files.len(),
{
    if files.len() > 0 {
        lemma_rescan_prefix(mods, files.drop_last(), t);
        let prev = rescan_spec(mods, files.drop_last(), t);
        assert(prev.push(new_item_view(files.last(), t)).take(mods.len() as int) =~= prev.take(
            mods.len() as int,
        ));
    }
}

proof fn lemma_has_name_prefix(m: Seq<ModItemView>, r: Seq<ModItemView>, name: Seq<char>)
    requires
        r.len() >= m.len(),
        r.take(m.len() as int) == m,
        has_name(m, name),
    ensures
        has_name(r, name),
{
    let i = choose|i: int| 0 <= i < m.len() && eq_ignore_case(#[trigger] m[i].name, name);
    assert(r.take(m.len() as int)[i] == r[i]);
    assert(eq_ignore_case(r[i].name, name));
}

proof fn lemma_rescan_registers(mods: Seq<ModItemView>, files: Seq<Seq<char>>, t: ModType, k: int)
    requires
        0 <= k < files.len(),
        type_of_file(files[k]) == Some(t),
    ensures
        has_name(rescan_spec(mods, files, t), files[k]),
    decreases files.len(),
{
    let prev = rescan_spec(mods, files.drop_last(), t);
    let r = rescan_spec(mods, files, t);
    lemma_rescan_prefix(prev, seq![files.last()], t);
    if k < files.len() - 1 {
        lemma_rescan_registers(mods, files.drop_last(), t, k);
        assert(files.drop_last()[k] == files[k]);
        if type_of_file(files.last()) == Some(t) && !has_name(prev, files.last()) {
            assert(r == prev.push(new_item_view(files.last(), t)));
            assert(r.take(prev.len() as int) =~= prev);
        } else {
            assert(r == prev);
            assert(r.take(prev.len() as int) =~= prev);
        }
        lemma_has_name_prefix(prev, r, files[k]);
    } else {
        if !has_name(prev, files.last()) {
            let n = prev.len() as int;
            assert(r[n].name == files.last());
            assert(eq_ignore_case(r[n].name, files.last()));
        }
        else {
            assert(r == prev);
        }
    }
}

proof fn lemma_rescan_nothing_new(mods: Seq<ModItemView>, files: Seq<Seq<char>>, t: ModType)
    requires
        forall|k: int|
            0 <= k < files.len() && type_of_file(#[trigger] files[k]) == Some(t) ==> has_name(
                mods,
                files[k],
            ),
    ensures
        rescan_spec(mods, files, t) == mods,
    decreases files.len(),
{
    if files.len() > 0 {
        let p = files.drop_last();
        assert forall|k: int|
            0 <= k < p.len() && type_of_file(#[trigger] p[k]) == Some(t) implies has_name(
            mods,
            p[k],
        ) by {
            assert(p[k] == files[k]);
        }
        lemma_rescan_nothing_new(mods, p, t);
        if type_of_file(files.last()) == Some(t) {
            assert(has_name(mods, files[files.len() - 1]));
        }
    }
}

proof fn lemma_has_name_permutation(a: Seq<ModItemView>, b: Seq<ModItemView>, name: Seq<char>)
    requires
        a.to_multiset() == b.to_multiset(),
        has_name(a, name),
    ensures
        has_name(b, name),
{
    broadcast use vstd::seq_lib::group_seq_properties;
    let i = choose|i: int| 0 <= i < a.len() && eq_ignore_case(#[trigger] a[i].name, name);
    assert(a.to_multiset().count(a[i]) > 0);
    assert(b.to_multiset().count(a[i]) > 0);
    assert(b.contains(a[i]));
    let j = choose|j: int| 0 <= j < b.len() && b[j] == a[i];
    assert(eq_ignore_case(b[j].name, name));
}

/// The mod list after `rescan_mods(css_files, js_files)`.
pub open spec fn rescan_result(
    mods: Seq<ModItemView>,
    css_files: Seq<Seq<char>>,
    js_files: Seq<Seq<char>>,
) -> Seq<ModItemView> {
    let all = rescan_spec(rescan_spec(mods, css_files, ModType::Css), js_files, ModType::Js);
    if all.len() - mods.len() > 0 {
        sort_spec(all, false)
    } else {
        all
    }
}

/// After a rescan every listed file of the right type is registered, so a
/// second rescan of the same folders adds nothing and changes nothing.
pub proof fn lemma_rescan_idempotent(
    mods: Seq<ModItemView>,
    css_files: Seq<Seq<char>>,
    js_files: Seq<Seq<char>>,
)
    ensures
        rescan_spec(
            rescan_spec(rescan_result(mods, css_files, js_files), css_files, ModType::Css),
            js_files,
            ModType::Js,
        ) == rescan_result(mods, css_files, js_files),
{
    let a = rescan_spec(mods, css_files, ModType::Css);
    let all = rescan_spec(a, js_files, ModType::Js);
    let r = rescan_result(mods, css_files, js_files);
    lemma_rescan_prefix(a, js_files, ModType::Js);
    lemma_sort_sorted_permutation(all, false);
    assert forall|k: int|
        0 <= k < css_files.len() && type_of_file(#[trigger] css_files[k]) == Some(
            ModType::Css,
        ) implies has_name(r, css_files[k]) by {
        lemma_rescan_registers(mods, css_files, ModType::Css, k);
        lemma_has_name_prefix(a, all, css_files[k]);
        if all.len() - mods.len() > 0 {
            lemma_has_name_permutation(all, r, css_files[k]);
        }
    }
    assert forall|k: int|
        0 <= k < js_files.len() && type_of_file(#[trigger] js_files[k]) == Some(
            ModType::Js,
        ) implies has_name(r, js_files[k]) by {
        lemma_rescan_registers(a, js_files, ModType::Js, k);
        if all.len() - mods.len() > 0 {
            lemma_has_name_permutation(all, r, js_files[k]);
        }
    }
    lemma_rescan_nothing_new(r, css_files, ModType::Css);
    lemma_rescan_nothing_new(r, js_files, ModType::Js);
}

/// After an import the list is sorted by lower-case name, holds the imported
/// name, and grows by one entry only when that name was not yet registered.
pub proof fn lemma_register(mods: Seq<ModItemView>, name: Seq<char>, t: ModType)
    ensures
        is_sorted(register_spec(mods, name, t), false),
        has_name(register_spec(mods, name, t), name),
        register_spec(mods, name, t).len() == mods.len() + if has_name(mods, name) {
            0int
        } else {
            1int
        },
{
    if has_name(mods, name) {
        let w = choose|w: int| 0 <= w < mods.len() && eq_ignore_case(#[trigger] mods[w].name, name);
        lemma_first_named_exists(mods, name, w);
    }
    let updated = if has_name(mods, name) {
        let i = first_named(mods, name);
        mods.update(i, with_type(mods[i], t))
    } else {
        mods.push(new_item_view(name, t))
    };
    lemma_sort_sorted_permutation(updated, false);
    if has_name(mods, name) {
        let i = first_named(mods, name);
        assert(is_first_named(mods, name, i));
        assert(eq_ignore_case(updated[i].name, name));
    } else {
        let n = mods.len() as int;
        assert(eq_ignore_case(updated[n].name, name));
    }
    lemma_has_name_permutation(updated, register_spec(mods, name, t), name);
}

} // verus!
