//! Compilation of the enabled mods into `inject_bundle.css` and
//! `inject_bundle.js`. Reading the mod files and writing the bundles is the
//! caller's; the texts are decided here.

use vstd::prelude::*;
use crate::config::{
    is_sorted, item_le, items_view, lemma_lex_le_first_difference, lemma_lex_le_prefix,
    lemma_sort_sorted_permutation, lex_le, sort_mods, sort_spec, type_dir_spec,
    type_text, ModConfig, ModItem, ModItemView, ModType,
};
use crate::paths::{join_path, join_spec};
use crate::text::{ascii_lower, decimal, push_decimal, push_signed_decimal, push_str, signed_decimal};

verus! {

broadcast use vstd::string::group_string_axioms;

/// The first line of the stylesheet bundle.
pub const CSS_HEADER: &'static str = "/* [Vivaldi JIT Mod Interceptor - Compiled Stylesheet] */\n\n";

/// The start of the script bundle: it links the stylesheet bundle and opens
/// the function that runs the JS mods.
pub const JS_HEADER: &'static str = r#"// [Vivaldi JIT Mod Interceptor - JavaScript Bootstrap Payload]
(function() {
    'use strict';
    console.info('[VivaldiModInterceptor] Initializing mod loader...');

    // 1. Inject compiled stylesheet into <head>
    function injectStylesheets() {
        if (!document.getElementById('vivaldi-jit-bundle-css')) {
            const link = document.createElement('link');
            link.id = 'vivaldi-jit-bundle-css';
            link.rel = 'stylesheet';
            link.type = 'text/css';
            link.href = 'inject_bundle.css';
            (document.head || document.documentElement).appendChild(link);
        }
    }

    injectStylesheets();

    // 2. Mod execution routine with isolated scopes & error traps
    function executeMods() {
"#;

/// The stylesheet bundle's file name.
pub const CSS_BUNDLE_NAME: &'static str = "inject_bundle.css";

/// The script bundle's file name.
pub const JS_BUNDLE_NAME: &'static str = "inject_bundle.js";

/// What compiling produced: how many mods of each kind went in, and where the
/// bundles go.
pub struct BundleResult {
    pub css_count: usize,
    pub js_count: usize,
    pub css_path: String,
    pub js_path: String,
}

/// The bundles' texts together with the result reported for them.
pub struct CompiledBundle {
    pub result: BundleResult,
    pub css_bundle: String,
    pub js_bundle: String,
}

// ---------------------------------------------------------------------------
// Specifications
// ---------------------------------------------------------------------------

/// The enabled entries of a type, in registry order.
pub open spec fn enabled_of_type(mods: Seq<ModItemView>, t: ModType) -> Seq<ModItemView>
    decreases mods.len(),
{
    if mods.len() == 0 {
        mods
    } else if mods.last().enabled && mods.last().mod_type == t {
        enabled_of_type(mods.drop_last(), t).push(mods.last())
    } else {
        enabled_of_type(mods.drop_last(), t)
    }
}

/// The mods of a type that go into a bundle: the enabled ones, stably sorted
/// by priority and then lower-case name.
pub open spec fn bundle_order(mods: Seq<ModItemView>, t: ModType) -> Seq<ModItemView> {
    sort_spec(enabled_of_type(mods, t), true)
}

/// The text of the `i`-th source, when it could be read.
pub open spec fn source_at(sources: Seq<Option<String>>, i: int) -> Option<Seq<char>> {
    if 0 <= i < sources.len() {
        match sources[i] {
            Some(s) => Some(s@),
            None => None,
        }
    } else {
        None
    }
}

/// The number of mods whose source could be read.
pub open spec fn loaded_count(n: int, sources: Seq<Option<String>>) -> nat
    decreases n,
{
    if n <= 0 {
        0
    } else {
        loaded_count(n - 1, sources) + if source_at(sources, n - 1) is Some {
            1nat
        } else {
            0nat
        }
    }
}

/// One mod in the stylesheet bundle: a comment naming it and its priority,
/// then its text.
pub open spec fn css_entry(m: ModItemView, content: Seq<char>) -> Seq<char> {
    "/* === [Mod: "@ + m.name + " (order: "@ + signed_decimal(m.order as int) + ")] === */\n"@
        + content + "\n\n"@
}

/// One mod in the script bundle: its text in its own function scope, with
/// any exception it throws caught and logged.
pub open spec fn js_entry(m: ModItemView, content: Seq<char>) -> Seq<char> {
    "        // --- [Mod: "@ + m.name + " (order: "@ + signed_decimal(m.order as int)
        + ")] ---\n        try {\n            (function() {\n"@ + content
        + "\n            })();\n        } catch (err) {\n            console.error('[VivaldiModInterceptor] Error executing mod \""@
        + m.name + "\":', err);\n        }\n\n"@
}

/// The entries of the first `n` mods whose source could be read.
pub open spec fn entries(
    mods: Seq<ModItemView>,
    sources: Seq<Option<String>>,
    n: int,
    js: bool,
) -> Seq<char>
    decreases n,
{
    if n <= 0 {
        Seq::empty()
    } else {
        entries(mods, sources, n - 1, js) + match source_at(sources, n - 1) {
            Some(c) => if js {
                js_entry(mods[n - 1], c)
            } else {
                css_entry(mods[n - 1], c)
            },
            None => Seq::empty(),
        }
    }
}

/// The stylesheet bundle of mods `mods` with sources `sources`.
pub open spec fn css_bundle_spec(mods: Seq<ModItemView>, sources: Seq<Option<String>>) -> Seq<
    char,
> {
    CSS_HEADER@ + entries(mods, sources, mods.len() as int, false)
}

/// The end of the script bundle: it reports the counts, then waits until the
/// UI element `selector` exists and runs the mods `delay_ms` later.
pub open spec fn js_footer(css_count: nat, js_count: nat, selector: Seq<char>, delay_ms: u64) -> Seq<
    char,
> {
    "        console.info('[VivaldiModInterceptor] Successfully injected "@ + decimal(css_count)
        + " CSS and "@ + decimal(js_count) + " JS mods.');\n    }\n\n"@
        + "    // 3. Wait for configured root UI readiness container before executing DOM mods\n    function waitForUI() {\n        if (document.querySelector('"@
        + selector + "')) {\n            setTimeout(executeMods, "@ + decimal(delay_ms as nat)
        + ");\n        } else {\n            setTimeout(waitForUI, 200);\n        }\n    }\n\n    if (document.readyState === 'loading') {\n        document.addEventListener('DOMContentLoaded', waitForUI);\n    } else {\n        waitForUI();\n    }\n})();\n"@
}

/// The script bundle of mods `mods` with sources `sources`.
pub open spec fn js_bundle_spec(
    mods: Seq<ModItemView>,
    sources: Seq<Option<String>>,
    css_count: nat,
    selector: Seq<char>,
    delay_ms: u64,
) -> Seq<char> {
    JS_HEADER@ + entries(mods, sources, mods.len() as int, true) + js_footer(
        css_count,
        loaded_count(mods.len() as int, sources),
        selector,
        delay_ms,
    )
}

/// Where the mirror copy of a mod goes in the resources directory.
pub open spec fn mirror_path_spec(resources_dir: Seq<char>, m: ModItemView) -> Seq<char> {
    join_spec(join_spec(join_spec(resources_dir, "user_mods"@), type_text(m.mod_type)), m.name)
}

proof fn lemma_enabled_of_type_members(mods: Seq<ModItemView>, t: ModType)
    ensures
        forall|x: ModItemView|
            #[trigger] enabled_of_type(mods, t).contains(x) <==> (mods.contains(x) && x.enabled
                && x.mod_type == t),
    decreases mods.len(),
{
    if mods.len() > 0 {
        let init = mods.drop_last();
        lemma_enabled_of_type_members(init, t);
        assert(mods =~= init.push(mods.last()));
        assert forall|x: ModItemView| #[trigger] enabled_of_type(mods, t).contains(x) <==> (
        mods.contains(x) && x.enabled && x.mod_type == t) by {
            if mods.contains(x) {
                let k = choose|k: int| 0 <= k < mods.len() && mods[k] == x;
                if k < mods.len() - 1 {
                    assert(init[k] == x);
                }
            }
            if init.contains(x) {
                let k = choose|k: int| 0 <= k < init.len() && init[k] == x;
                assert(mods[k] == x);
            }
            if enabled_of_type(mods, t) != enabled_of_type(init, t) {
                let e = enabled_of_type(init, t);
                assert(enabled_of_type(mods, t) == e.push(mods.last()));
                if e.push(mods.last()).contains(x) {
                    let k = choose|k: int| 0 <= k < e.len() + 1 && e.push(mods.last())[k] == x;
                    if k < e.len() {
                        assert(e[k] == x);
                    }
                }
                if e.contains(x) {
                    let k = choose|k: int| 0 <= k < e.len() && e[k] == x;
                    assert(e.push(mods.last())[k] == x);
                }
                assert(e.push(mods.last())[e.len() as int] == mods.last());
            }
        }
    }
}

/// A bundle of one kind loads exactly the enabled mods of that kind, each as
/// often as the configuration lists it, in ascending priority and, within a
/// priority, by lower-case name.
pub proof fn lemma_bundle_order(mods: Seq<ModItemView>, t: ModType)
    ensures
        is_sorted(bundle_order(mods, t), true),
        bundle_order(mods, t).to_multiset() == enabled_of_type(mods, t).to_multiset(),
        forall|x: ModItemView|
            #[trigger] bundle_order(mods, t).contains(x) <==> (mods.contains(x) && x.enabled
                && x.mod_type == t),
{
    broadcast use vstd::seq_lib::group_to_multiset_ensures;
    lemma_sort_sorted_permutation(enabled_of_type(mods, t), true);
    lemma_enabled_of_type_members(mods, t);
    assert forall|x: ModItemView| #[trigger] bundle_order(mods, t).contains(x) <==> (mods.contains(x)
        && x.enabled && x.mod_type == t) by {
        assert(bundle_order(mods, t).contains(x) <==> bundle_order(mods, t).to_multiset().count(x)
            > 0);
        assert(enabled_of_type(mods, t).contains(x) <==> enabled_of_type(mods, t).to_multiset().count(
            x,
        ) > 0);
    }
}

/// In a bundle, a mod of lower priority number comes first, and among mods
/// of equal priority the lower-case names are in lexicographic order: at the
/// first position where two names differ, the earlier one has the smaller
/// character, and a name never follows a longer name it is a prefix of.
pub proof fn lemma_bundle_priority_then_name(mods: Seq<ModItemView>, t: ModType, i: int, j: int)
    requires
        0 <= i < j < bundle_order(mods, t).len(),
    ensures
        ({
            let bo = bundle_order(mods, t);
            let x = ascii_lower(bo[i].name);
            let y = ascii_lower(bo[j].name);
            &&& bo[i].order <= bo[j].order
            &&& bo[i].order == bo[j].order ==> forall|k: int|
                0 <= k < x.len() && k < y.len() && x.take(k) == y.take(k) && x[k] != y[k] ==> x[k]
                    < y[k]
            &&& bo[i].order == bo[j].order ==> !(y.len() < x.len() && x.take(y.len() as int) == y)
        }),
{
    let bo = bundle_order(mods, t);
    lemma_bundle_order(mods, t);
    assert(item_le(bo[i], bo[j], true));
    let x = ascii_lower(bo[i].name);
    let y = ascii_lower(bo[j].name);
    if bo[i].order == bo[j].order {
        assert(lex_le(x, y));
        assert forall|k: int|
            0 <= k < x.len() && k < y.len() && x.take(k) == y.take(k) && x[k] != y[k] implies x[k]
            < y[k] by {
            if y[k] < x[k] {
                lemma_lex_le_first_difference(y, x, k);
            }
        }
        if y.len() < x.len() && x.take(y.len() as int) == y {
            lemma_lex_le_prefix(y, x);
        }
    }
}

// ---------------------------------------------------------------------------
// Executable functions
// ---------------------------------------------------------------------------

/// The enabled mods of a type, in the order they go into the bundle: by
/// priority, then lower-case name, ties kept in registry order.
pub fn bundle_mods(config: &ModConfig, mod_type: ModType) -> (r: Vec<ModItem>)
    ensures
        items_view(r@) == bundle_order(config@.mods, mod_type),
{
    let mut picked: Vec<ModItem> = Vec::new();
    let mut i: usize = 0;
    while i < config.mods.len()
        invariant
            i <= config@.mods.len(),
            items_view(picked@) == enabled_of_type(config@.mods.take(i as int), mod_type),
        decreases config@.mods.len() - i,
    {
        assert(config@.mods.take(i + 1).drop_last() =~= config@.mods.take(i as int));
        assert(config@.mods[i as int] == config.mods@[i as int]@);
        if config.mods[i].enabled && config.mods[i].mod_type == mod_type {
            picked.push(config.mods[i].clone());
            assert(items_view(picked@) =~= enabled_of_type(
                config@.mods.take(i as int),
                mod_type,
            ).push(config@.mods[i as int]));
        }
        i = i + 1;
    }
    assert(config@.mods.take(config@.mods.len() as int) =~= config@.mods);
    sort_mods(&picked, true)
}

fn push_entries(
    out: &mut String,
    mods: &[ModItem],
    sources: &[Option<String>],
    js: bool,
) -> (count: usize)
    ensures
        final(out)@ == old(out)@ + entries(items_view(mods@), sources@, mods@.len() as int, js),
        count == loaded_count(mods@.len() as int, sources@),
{
    let ghost mv = items_view(mods@);
    let ghost start = out@;
    let mut count: usize = 0;
    let mut i: usize = 0;
    while i < mods.len()
        invariant
            i <= mods@.len(),
            mv == items_view(mods@),
            out@ == start + entries(mv, sources@, i as int, js),
            count == loaded_count(i as int, sources@),
            count <= i,
        decreases mods@.len() - i,
    {
        let ghost before = out@;
        if i < sources.len() {
            match &sources[i] {
                Some(content) => {
                    let m = &mods[i];
                    assert(mv[i as int] == m@);
                    if js {
                        push_str(out, "        // --- [Mod: ");
                        push_str(out, m.name.as_str());
                        push_str(out, " (order: ");
                        push_signed_decimal(out, m.order as i64);
                        push_str(
                            out,
                            ")] ---\n        try {\n            (function() {\n",
                        );
                        push_str(out, content.as_str());
                        push_str(
                            out,
                            "\n            })();\n        } catch (err) {\n            console.error('[VivaldiModInterceptor] Error executing mod \"",
                        );
                        push_str(out, m.name.as_str());
                        push_str(out, "\":', err);\n        }\n\n");
                        assert(out@ =~= before + js_entry(m@, content@));
                    } else {
                        push_str(out, "/* === [Mod: ");
                        push_str(out, m.name.as_str());
                        push_str(out, " (order: ");
                        push_signed_decimal(out, m.order as i64);
                        push_str(out, ")] === */\n");
                        push_str(out, content.as_str());
                        push_str(out, "\n\n");
                        assert(out@ =~= before + css_entry(m@, content@));
                    }
                    count = count + 1;
                },
                None => {},
            }
        }
        assert(out@ =~= start + entries(mv, sources@, i + 1, js));
        i = i + 1;
    }
    count
}

/// The stylesheet bundle: the header, then for every mod whose source could
/// be read (`sources[i]` belongs to `mods[i]`), a comment with its name and
/// priority followed by its text. Answers the bundle and how many mods went in.
pub fn build_css_bundle(mods: &[ModItem], sources: &[Option<String>]) -> (r: (String, usize))
    ensures
        r.0@ == css_bundle_spec(items_view(mods@), sources@),
        r.1 == loaded_count(mods@.len() as int, sources@),
{
    let mut out = String::new();
    push_str(&mut out, CSS_HEADER);
    let n = push_entries(&mut out, mods, sources, false);
    (out, n)
}

/// The script bundle: the loader header, then every mod whose source could be
/// read wrapped in its own scope and error trap, then the counts and the
/// readiness wait on `selector` with `delay_ms`. Answers the bundle and how
/// many mods went in.
pub fn build_js_bundle(
    mods: &[ModItem],
    sources: &[Option<String>],
    css_count: usize,
    selector: &str,
    delay_ms: u64,
) -> (r: (String, usize))
    ensures
        r.0@ == js_bundle_spec(items_view(mods@), sources@, css_count as nat, selector@, delay_ms),
        r.1 == loaded_count(mods@.len() as int, sources@),
{
    let mut out = String::new();
    push_str(&mut out, JS_HEADER);
    let n = push_entries(&mut out, mods, sources, true);
    let ghost mid = out@;
    push_str(&mut out, "        console.info('[VivaldiModInterceptor] Successfully injected ");
    push_decimal(&mut out, css_count as u64);
    push_str(&mut out, " CSS and ");
    push_decimal(&mut out, n as u64);
    push_str(&mut out, " JS mods.');\n    }\n\n");
    push_str(
        &mut out,
        "    // 3. Wait for configured root UI readiness container before executing DOM mods\n    function waitForUI() {\n        if (document.querySelector('",
    );
    push_str(&mut out, selector);
    push_str(&mut out, "')) {\n            setTimeout(executeMods, ");
    push_decimal(&mut out, delay_ms);
    push_str(
        &mut out,
        ");\n        } else {\n            setTimeout(waitForUI, 200);\n        }\n    }\n\n    if (document.readyState === 'loading') {\n        document.addEventListener('DOMContentLoaded', waitForUI);\n    } else {\n        waitForUI();\n    }\n})();\n",
    );
    assert(out@ =~= mid + js_footer(css_count as nat, n as nat, selector@, delay_ms));
    (out, n)
}

/// Compiles both bundles for a Vivaldi resources directory. `css_sources[i]`
/// is the text of the `i`-th mod of `bundle_mods(config, Css)` (`None` when
/// its file is missing or unreadable, and so for a missing entry), and
/// likewise for `js_sources`.
pub fn compile_bundle(
    config: &ModConfig,
    resources_dir: &str,
    css_sources: &[Option<String>],
    js_sources: &[Option<String>],
) -> (r: CompiledBundle)
    ensures
        ({
            let css_mods = bundle_order(config@.mods, ModType::Css);
            let js_mods = bundle_order(config@.mods, ModType::Js);
            &&& r.result.css_count == loaded_count(css_mods.len() as int, css_sources@)
            &&& r.result.js_count == loaded_count(js_mods.len() as int, js_sources@)
            &&& r.css_bundle@ == css_bundle_spec(css_mods, css_sources@)
            &&& r.js_bundle@ == js_bundle_spec(
                js_mods,
                js_sources@,
                r.result.css_count as nat,
                config@.ui_ready_selector,
                config@.init_delay_ms,
            )
            &&& r.result.css_path@ == join_spec(resources_dir@, CSS_BUNDLE_NAME@)
            &&& r.result.js_path@ == join_spec(resources_dir@, JS_BUNDLE_NAME@)
        }),
{
    let css_mods = bundle_mods(config, ModType::Css);
    let js_mods = bundle_mods(config, ModType::Js);
    let (css_bundle, css_count) = build_css_bundle(css_mods.as_slice(), css_sources);
    let (js_bundle, js_count) = build_js_bundle(
        js_mods.as_slice(),
        js_sources,
        css_count,
        config.ui_ready_selector.as_str(),
        config.init_delay_ms,
    );
    CompiledBundle {
        result: BundleResult {
            css_count,
            js_count,
            css_path: join_path(resources_dir, CSS_BUNDLE_NAME),
            js_path: join_path(resources_dir, JS_BUNDLE_NAME),
        },
        css_bundle,
        js_bundle,
    }
}

/// The copies that mirror every registered mod (enabled or not) into the
/// `user_mods` folder of the resources directory: pairs of (stored file,
/// mirror file), in registry order. The caller copies each stored file that
/// exists.
pub fn mirror_copies(config: &ModConfig, app_dir: &str, resources_dir: &str) -> (r: Vec<
    (String, String),
>)
    ensures
        r@.len() == config@.mods.len(),
        forall|i: int|
            0 <= i < r@.len() ==> {
                let m = #[trigger] config@.mods[i];
                &&& r@[i].0@ == join_spec(type_dir_spec(app_dir@, m.mod_type), m.name)
                &&& r@[i].1@ == mirror_path_spec(resources_dir@, m)
            },
{
    let mut r: Vec<(String, String)> = Vec::new();
    let mirror_root = join_path(resources_dir, "user_mods");
    let mut i: usize = 0;
    while i < config.mods.len()
        invariant
            i <= config@.mods.len(),
            mirror_root@ == join_spec(resources_dir@, "user_mods"@),
            r@.len() == i,
            forall|k: int|
                0 <= k < i ==> {
                    let m = #[trigger] config@.mods[k];
                    &&& r@[k].0@ == join_spec(type_dir_spec(app_dir@, m.mod_type), m.name)
                    &&& r@[k].1@ == mirror_path_spec(resources_dir@, m)
                },
        decreases config@.mods.len() - i,
    {
        let m = &config.mods[i];
        assert(config@.mods[i as int] == m@);
        let src = ModConfig::mod_file_path(app_dir, m.mod_type, m.name.as_str());
        let dir = join_path(mirror_root.as_str(), m.mod_type.as_str());
        let dst = join_path(dir.as_str(), m.name.as_str());
        r.push((src, dst));
        i = i + 1;
    }
    r
}

} // verus!
