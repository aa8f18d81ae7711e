//! What the ESM module graph walk collects: dependency imports, client
//! boundaries with their reference ids, extracted server actions; the
//! dependency specifiers the walk skips, and the asset kinds it tells apart.
use vstd::prelude::*;
use crate::text;
use crate::paths;
use crate::ids;
use crate::string_set::StringSet;
use crate::server_action_extract as sae;

verus! {

/// A bare specifier import (a `node_modules` dependency).
pub struct DepImport {
    /// The bare specifier (e.g. `dayjs`, `lodash/merge`).
    pub specifier: String,
    /// Named exports used from this dependency across all source files.
    pub named_exports: StringSet,
    /// Whether any import uses a default import.
    pub has_default: bool,
}

/// A discovered `"use client"` boundary with its reference ids.
pub struct ClientBoundary {
    /// Relative path (from the project root) of the boundary module.
    pub rel_path: String,
    /// Export names of the module.
    pub exports: Vec<String>,
    /// Client reference ids, one per export.
    pub ref_ids: Vec<String>,
}

/// An inline server action extracted from a source file.
pub struct ExtractedServerAction {
    /// Relative path of the source file (from the project root).
    pub rel_path: String,
    /// Generated function name (e.g. `__rex_action_0`).
    pub action_name: String,
    /// Stable action id.
    pub action_id: String,
}

/// A module with a module-level `"use server"` directive and its exports.
pub struct ServerActionModule {
    /// Relative path of the module (from the project root).
    pub rel_path: String,
    /// Export names of the module.
    pub exports: Vec<String>,
}

/// What an import graph walk collected besides the transformed sources.
pub struct CollectedModules {
    /// Bare specifier imports not covered by the dependency bundle.
    pub extra_dep_imports: Vec<DepImport>,
    /// Client boundaries discovered during the walk.
    pub client_boundaries: Vec<ClientBoundary>,
    /// Inline server actions extracted from source files.
    pub extracted_actions: Vec<ExtractedServerAction>,
    /// Modules with a module-level `"use server"` directive.
    pub server_action_modules: Vec<ServerActionModule>,
}

/// The specifiers always served from the dependency bundle.
pub open spec fn base_dep_specifiers() -> Set<Seq<char>> {
    set!["react"@, "react/jsx-runtime"@, "react/jsx-dev-runtime"@, "react-dom/server"@]
}

/// The specifiers added when the app router is in use.
pub open spec fn app_dep_specifiers() -> Set<Seq<char>> {
    set!["react-server-dom-webpack/server"@, "react-server-dom-webpack/client"@]
}

/// The specifiers of a list of aliases.
pub open spec fn alias_specifiers(aliases: Seq<(String, Vec<Option<String>>)>) -> Set<Seq<char>> {
    Set::new(|s: Seq<char>| exists|i: int| 0 <= i < aliases.len() && aliases[i].0@ == s)
}

/// The specifiers the import graph walk leaves to the dependency bundle.
pub open spec fn dep_specifier_set(has_app: bool, aliases: Seq<(String, Vec<Option<String>>)>) -> Set<Seq<char>> {
    base_dep_specifiers() + (if has_app { app_dep_specifiers() } else { Set::empty() }) + alias_specifiers(aliases)
}

/// Specifiers that are pre-bundled as dependency modules: React's entry
/// points, the RSC client and server when the app router is used, and
/// every polyfill alias specifier.
pub fn dep_specifiers(has_app: bool, polyfill_aliases: &[(String, Vec<Option<String>>)]) -> (r: StringSet)
    ensures
        r.wf(),
        r@ == dep_specifier_set(has_app, polyfill_aliases@),
{
    let mut set = StringSet::new();
    set.insert(String::from_str("react"));
    set.insert(String::from_str("react/jsx-runtime"));
    set.insert(String::from_str("react/jsx-dev-runtime"));
    set.insert(String::from_str("react-dom/server"));
    if has_app {
        set.insert(String::from_str("react-server-dom-webpack/server"));
        set.insert(String::from_str("react-server-dom-webpack/client"));
    }
    let ghost head = set@;
    proof {
        assert(head =~= base_dep_specifiers() + (if has_app { app_dep_specifiers() } else { Set::empty() }));
    }
    let mut i: usize = 0;
    while i < polyfill_aliases.len()
        invariant
            i <= polyfill_aliases@.len(),
            set.wf(),
            set@ == head + alias_specifiers(polyfill_aliases@.take(i as int)),
        decreases polyfill_aliases.len() - i,
    {
        let s = String::from_str(polyfill_aliases[i].0.as_str());
        set.insert(s);
        i += 1;
        proof {
            let t = polyfill_aliases@.take(i as int);
            let t0 = polyfill_aliases@.take(i - 1);
            assert forall|x: Seq<char>| alias_specifiers(t).contains(x) <==> alias_specifiers(t0).insert(
                polyfill_aliases@[i - 1].0@,
            ).contains(x) by {
                if alias_specifiers(t).contains(x) {
                    let k = choose|k: int| 0 <= k < t.len() && t[k].0@ == x;
                    if k < i - 1 {
                        assert(t0[k] == t[k]);
                    }
                }
                if alias_specifiers(t0).contains(x) {
                    let k = choose|k: int| 0 <= k < t0.len() && t0[k].0@ == x;
                    assert(t[k] == t0[k]);
                }
                if x == polyfill_aliases@[i - 1].0@ {
                    assert(t[i - 1] == polyfill_aliases@[i - 1]);
                }
            }
            assert(set@ =~= head + alias_specifiers(t));
        }
    }
    proof {
        assert(polyfill_aliases@.take(i as int) =~= polyfill_aliases@);
    }
    set
}

/// Extensions of non-code assets, skipped by the module walk.
pub open spec fn is_asset_ext(e: Seq<char>) -> bool {
    ||| e == "png"@ ||| e == "jpg"@ ||| e == "jpeg"@ ||| e == "gif"@ ||| e == "webp"@
    ||| e == "ico"@ ||| e == "avif"@ ||| e == "bmp"@ ||| e == "tiff"@ ||| e == "svg"@
    ||| e == "css"@ ||| e == "scss"@ ||| e == "sass"@ ||| e == "less"@ ||| e == "woff"@
    ||| e == "woff2"@ ||| e == "ttf"@ ||| e == "eot"@ ||| e == "otf"@ ||| e == "mp3"@
    ||| e == "mp4"@ ||| e == "wav"@ ||| e == "ogg"@ ||| e == "webm"@ ||| e == "pdf"@
    ||| e == "json"@
}

/// Extensions of images.
pub open spec fn is_image_ext(e: Seq<char>) -> bool {
    ||| e == "png"@ ||| e == "jpg"@ ||| e == "jpeg"@ ||| e == "gif"@ ||| e == "webp"@
    ||| e == "ico"@ ||| e == "avif"@ ||| e == "bmp"@ ||| e == "tiff"@ ||| e == "svg"@
}

pub(crate) fn is_asset_ext_exec(e: &str) -> (r: bool)
    ensures
        r == is_asset_ext(e@),
{
    text::str_eq(e, "png") || text::str_eq(e, "jpg") || text::str_eq(e, "jpeg") || text::str_eq(e, "gif")
        || text::str_eq(e, "webp") || text::str_eq(e, "ico") || text::str_eq(e, "avif") || text::str_eq(e, "bmp")
        || text::str_eq(e, "tiff") || text::str_eq(e, "svg") || text::str_eq(e, "css") || text::str_eq(e, "scss")
        || text::str_eq(e, "sass") || text::str_eq(e, "less") || text::str_eq(e, "woff") || text::str_eq(e, "woff2")
        || text::str_eq(e, "ttf") || text::str_eq(e, "eot") || text::str_eq(e, "otf") || text::str_eq(e, "mp3")
        || text::str_eq(e, "mp4") || text::str_eq(e, "wav") || text::str_eq(e, "ogg") || text::str_eq(e, "webm")
        || text::str_eq(e, "pdf") || text::str_eq(e, "json")
}

fn is_image_ext_exec(e: &str) -> (r: bool)
    ensures
        r == is_image_ext(e@),
{
    text::str_eq(e, "png") || text::str_eq(e, "jpg") || text::str_eq(e, "jpeg") || text::str_eq(e, "gif")
        || text::str_eq(e, "webp") || text::str_eq(e, "ico") || text::str_eq(e, "avif") || text::str_eq(e, "bmp")
        || text::str_eq(e, "tiff") || text::str_eq(e, "svg")
}

/// Whether a path names a non-code asset: its extension, lowercased, is
/// one of the asset extensions.
pub fn is_asset_file(path: &str) -> (r: bool)
    ensures
        r == (paths::extension_spec(path@) matches Some(e) && is_asset_ext(text::lowercase(e))),
{
    match paths::extension(path) {
        Some(e) => {
            let lower = text::to_lowercase(e.as_str());
            is_asset_ext_exec(lower.as_str())
        },
        None => false,
    }
}

/// Whether a path names an image: its extension, lowercased, is one of
/// the image extensions.
pub fn is_image_asset(path: &str) -> (r: bool)
    ensures
        r == (paths::extension_spec(path@) matches Some(e) && is_image_ext(text::lowercase(e))),
{
    match paths::extension(path) {
        Some(e) => {
            let lower = text::to_lowercase(e.as_str());
            is_image_ext_exec(lower.as_str())
        },
        None => false,
    }
}

/// Whether a path names an MDX file (extension exactly `mdx`).
pub fn is_mdx_file(path: &str) -> (r: bool)
    ensures
        r == (paths::extension_spec(path@) == Some("mdx"@)),
{
    match paths::extension(path) {
        Some(e) => text::str_eq(e.as_str(), "mdx"),
        None => false,
    }
}

/// The statements that register an extracted action as a server
/// reference, as appended to a module walked for ESM loading.
pub open spec fn esm_registration(name: Seq<char>, id: Seq<char>) -> Seq<char> {
    "\n"@ + name + ".$$typeof = Symbol.for(\"react.server.reference\");\n"@ + name + ".$$id = \""@ + id + "\";\n"@
        + name + ".$$bound = null;\n"@
}

/// The registrations of all actions of a module, in order.
pub open spec fn esm_registrations(rel_path: Seq<char>, names: Seq<Seq<char>>, build_id: Seq<char>) -> Seq<char>
    decreases names.len(),
{
    if names.len() == 0 {
        Seq::empty()
    } else {
        esm_registrations(rel_path, names.drop_last(), build_id) + esm_registration(
            names.last(),
            ids::server_action_id_spec(rel_path, names.last(), build_id),
        )
    }
}

/// Builds the registration suffix of a module's extracted actions and
/// records each action with its id in `extracted`.
pub fn register_extracted_actions(
    rel_path: &str,
    names: &[String],
    build_id: &str,
    extracted: &mut Vec<ExtractedServerAction>,
) -> (r: String)
    ensures
        r@ == esm_registrations(rel_path@, text::views(names@), build_id@),
        final(extracted)@.len() == old(extracted)@.len() + names@.len(),
        forall|k: int| 0 <= k < old(extracted)@.len() ==> #[trigger] final(extracted)@[k] == old(extracted)@[k],
        forall|k: int|
            0 <= k < names@.len() ==> {
                let a = #[trigger] final(extracted)@[old(extracted)@.len() + k];
                &&& a.rel_path@ == rel_path@
                &&& a.action_name@ == names@[k]@
                &&& a.action_id@ == ids::server_action_id_spec(rel_path@, names@[k]@, build_id@)
            },
{
    let ghost ns = text::views(names@);
    let ghost n0 = extracted@.len();
    let mut suffix = String::new();
    let mut i: usize = 0;
    while i < names.len()
        invariant
            i <= names@.len(),
            ns == text::views(names@),
            suffix@ == esm_registrations(rel_path@, ns.take(i as int), build_id@),
            n0 == old(extracted)@.len(),
            extracted@.len() == n0 + i,
            forall|k: int| 0 <= k < n0 ==> #[trigger] extracted@[k] == old(extracted)@[k],
            forall|k: int|
                0 <= k < i ==> {
                    let a = #[trigger] extracted@[n0 + k];
                    &&& a.rel_path@ == rel_path@
                    &&& a.action_name@ == names@[k]@
                    &&& a.action_id@ == ids::server_action_id_spec(rel_path@, names@[k]@, build_id@)
                },
        decreases names.len() - i,
    {
        proof {
            assert(ns.take(i + 1).drop_last() =~= ns.take(i as int));
            assert(ns.take(i + 1).last() == names@[i as int]@);
        }
        let n = names[i].as_str();
        let id = ids::server_action_id(rel_path, n, build_id);
        let ghost before = suffix@;
        suffix.append("\n");
        suffix.append(n);
        suffix.append(".$$typeof = Symbol.for(\"react.server.reference\");\n");
        suffix.append(n);
        suffix.append(".$$id = \"");
        suffix.append(id.as_str());
        suffix.append("\";\n");
        suffix.append(n);
        suffix.append(".$$bound = null;\n");
        proof {
            assert(suffix@ =~= before + esm_registration(n@, id@));
        }
        extracted.push(
            ExtractedServerAction {
                rel_path: String::from_str(rel_path),
                action_name: String::from_str(n),
                action_id: id,
            },
        );
        i += 1;
    }
    proof {
        assert(ns.take(i as int) =~= ns);
    }
    suffix
}

/// For a module walked with a build id whose source mentions `use server`:
/// extracts its inline server actions, replaces the source by the
/// extracted one, records each action with its id, and returns the
/// registration suffix to append; otherwise leaves everything unchanged
/// and returns an empty suffix. `Err` when the source is one extraction
/// cannot slice (nothing is changed then).
pub fn extract_server_actions_if_needed(
    source: &mut String,
    rel_path: &str,
    build_id: Option<&str>,
    extracted: &mut Vec<ExtractedServerAction>,
) -> (r: Result<String, ()>)
    ensures
        (build_id is None || !text::contains(old(source)@, "use server"@)) ==> (r is Ok && r->Ok_0@.len() == 0
            && final(source)@ == old(source)@ && final(extracted)@ == old(extracted)@),
        build_id is Some && text::contains(old(source)@, "use server"@) ==> {
            &&& (r is Err <==> !sae::extraction_ok(old(source)@))
            &&& match r {
                Err(_) => final(source)@ == old(source)@ && final(extracted)@ == old(extracted)@,
                Ok(x) => if sae::planned_reps(old(source)@).len() == 0 {
                    x@.len() == 0 && final(source)@ == old(source)@ && final(extracted)@ == old(extracted)@
                } else {
                    let names = sae::extracted_actions(old(source)@).map_values(|a: (Seq<char>, Seq<char>)| a.0);
                    &&& final(source)@ == sae::extracted_source(old(source)@)
                    &&& x@ == esm_registrations(rel_path@, names, build_id->0@)
                    &&& final(extracted)@.len() == old(extracted)@.len() + names.len()
                    &&& forall|k: int| 0 <= k < old(extracted)@.len() ==> #[trigger] final(extracted)@[k] == old(extracted)@[k]
                    &&& forall|k: int|
                        0 <= k < names.len() ==> {
                            let a = #[trigger] final(extracted)@[old(extracted)@.len() + k];
                            &&& a.rel_path@ == rel_path@
                            &&& a.action_name@ == names[k]
                            &&& a.action_id@ == ids::server_action_id_spec(rel_path@, names[k], build_id->0@)
                        }
                },
            }
        },
{
    let bid = match build_id {
        Some(b) => b,
        None => return Ok(String::new()),
    };
    if !text::contains_str(source.as_str(), "use server") {
        return Ok(String::new());
    }
    match sae::try_extract_inline_server_actions(source.as_str(), rel_path) {
        Err(()) => Err(()),
        Ok(None) => Ok(String::new()),
        Ok(Some(res)) => {
            let ghost acts = sae::extracted_actions(old(source)@);
            let mut names: Vec<String> = Vec::new();
            let mut i: usize = 0;
            while i < res.actions.len()
                invariant
                    i <= res.actions@.len(),
                    names@.len() == i,
                    forall|k: int| 0 <= k < i ==> names@[k]@ == res.actions@[k].name@,
                decreases res.actions.len() - i,
            {
                names.push(String::from_str(res.actions[i].name.as_str()));
                i += 1;
            }
            proof {
                assert(text::views(names@) =~= acts.map_values(|a: (Seq<char>, Seq<char>)| a.0));
            }
            *source = res.source;
            let suffix = register_extracted_actions(rel_path, names.as_slice(), bid, extracted);
            Ok(suffix)
        },
    }
}

/// The records of the actions extracted from one module: its relative path,
/// each action's name and its id.
pub open spec fn extracted_action_views(rel_path: Seq<char>, names: Seq<Seq<char>>, build_id: Seq<char>) -> Seq<
    crate::precomputed_ids::ActionView,
> {
    Seq::new(names.len(), |k: int| (rel_path, names[k], ids::server_action_id_spec(rel_path, names[k], build_id)))
}

/// A module to load into V8: its specifier (absolute path) and source.
pub struct EsmSourceModule {
    pub specifier: String,
    pub source: String,
}

/// What the walk does with a module, by its path.
pub enum ModuleKind {
    /// Inside `node_modules`: stubbed, not walked.
    NodeModules,
    /// A non-code asset: stubbed.
    Asset,
    /// A source file: transformed and walked.
    Source,
}

/// The kind of the module at a path: `node_modules` first, then assets.
pub open spec fn module_kind_spec(path: Seq<char>) -> ModuleKind {
    if crate::rsc_graph::in_node_modules_path(path) {
        ModuleKind::NodeModules
    } else if paths::extension_spec(path) matches Some(e) && is_asset_ext(text::lowercase(e)) {
        ModuleKind::Asset
    } else {
        ModuleKind::Source
    }
}

/// The kind of the module at a path.
pub fn module_kind(path: &str) -> (r: ModuleKind)
    ensures
        r == module_kind_spec(path@),
{
    if crate::rsc_graph::path_in_node_modules(path) {
        ModuleKind::NodeModules
    } else if is_asset_file(path) {
        ModuleKind::Asset
    } else {
        ModuleKind::Source
    }
}

/// `s` without a leading `prefix`, when it starts with it.
pub open spec fn strip_prefix_or_keep(s: Seq<char>, prefix: Seq<char>) -> Seq<char> {
    if text::starts_with(s, prefix) {
        s.subrange(prefix.len() as int, s.len() as int)
    } else {
        s
    }
}

/// The stub of an asset module: an image exports its URL (files under
/// `public/` are served at the root), any other asset exports nothing.
pub open spec fn asset_stub(path: Seq<char>, rel_path: Seq<char>) -> Seq<char> {
    if paths::extension_spec(path) matches Some(e) && is_image_ext(text::lowercase(e)) {
        "export default { src: \"/"@ + strip_prefix_or_keep(text::replace_char(rel_path, '\\', "/"@), "public/"@)
            + "\" };"@
    } else {
        "export default {};"@
    }
}

/// Every image is an asset, and so are stylesheets (css, scss, sass,
/// less), fonts (woff, woff2, ttf, eot, otf), media (mp3, mp4, wav, ogg,
/// webm), pdf and json.
pub proof fn lemma_asset_extensions(e: Seq<char>)
    ensures
        is_image_ext(e) ==> is_asset_ext(e),
        (e == "css"@ || e == "scss"@ || e == "sass"@ || e == "less"@ || e == "woff"@ || e == "woff2"@ || e == "ttf"@
            || e == "eot"@ || e == "otf"@ || e == "mp3"@ || e == "mp4"@ || e == "wav"@ || e == "ogg"@ || e == "webm"@
            || e == "pdf"@ || e == "json"@) ==> is_asset_ext(e),
{
}

/// The image extensions: png, jpg, jpeg, gif, webp, ico, avif, bmp, tiff
/// and svg.
pub proof fn lemma_image_extensions(e: Seq<char>)
    ensures
        (e == "png"@ || e == "jpg"@ || e == "jpeg"@ || e == "gif"@ || e == "webp"@ || e == "ico"@ || e == "avif"@
            || e == "bmp"@ || e == "tiff"@ || e == "svg"@) <==> is_image_ext(e),
{
}

/// An image asset exports its URL: `/` and its relative path (with `/`
/// separators), less a leading `public/`, since the files of `public/` are
/// served at the root; any other asset exports an empty object.
pub proof fn lemma_asset_stub_url(path: Seq<char>, rel_path: Seq<char>)
    ensures
        ({
            let r = text::replace_char(rel_path, '\\', "/"@);
            let image = paths::extension_spec(path) matches Some(e) && is_image_ext(text::lowercase(e));
            &&& image && r.len() >= 7 && r.subrange(0, 7) == "public/"@ ==> asset_stub(path, rel_path)
                == "export default { src: \"/"@ + r.subrange(7, r.len() as int) + "\" };"@
            &&& image && !(r.len() >= 7 && r.subrange(0, 7) == "public/"@) ==> asset_stub(path, rel_path)
                == "export default { src: \"/"@ + r + "\" };"@
            &&& !image ==> asset_stub(path, rel_path) == "export default {};"@
        }),
{
    reveal_strlit("public/");
}

/// The stub of an asset module at `path` (relative path `rel_path`).
pub fn asset_stub_source(path: &str, rel_path: &str) -> (r: String)
    ensures
        r@ == asset_stub(path@, rel_path@),
{
    if is_image_asset(path) {
        let rel = text::replace_char_exec(rel_path, '\\', "/");
        let rc = text::chars_of(rel.as_str());
        let pc = text::chars_of("public/");
        let url = if text::occurs_at_exec(&rc, 0, &pc) {
            let n = rc.len();
            text::slice_of(&rc, pc.len(), n)
        } else {
            rc
        };
        let mut r = String::from_str("export default { src: \"/");
        text::push_chars(&mut r, &url);
        r.append("\" };");
        r
    } else {
        String::from_str("export default {};")
    }
}

/// A dependency import as values: named exports and whether a default
/// import is used.
pub type DepView = (Set<Seq<char>>, bool);

/// The dependency imports by specifier.
pub open spec fn dep_map(deps: Seq<DepImport>) -> Map<Seq<char>, DepView>
    decreases deps.len(),
{
    if deps.len() == 0 {
        Map::empty()
    } else {
        dep_map(deps.drop_last()).insert(deps.last().specifier@, (deps.last().named_exports@, deps.last().has_default))
    }
}

/// One bare import merged into the dependency imports: its names join the
/// named exports of the specifier, its default use is or-ed in.
pub open spec fn merge_dep(m: Map<Seq<char>, DepView>, spec: Seq<char>, named: Set<Seq<char>>, has_default: bool) -> Map<
    Seq<char>,
    DepView,
> {
    let old_named = if m.contains_key(spec) { m[spec].0 } else { Set::empty() };
    let old_default = m.contains_key(spec) && m[spec].1;
    m.insert(spec, (old_named + named, old_default || has_default))
}

/// A bare import as the walk gets it: specifier, named imports, default.
pub type BareImport = (String, Vec<String>, bool);

/// The bare imports merged in order, those of known specifiers skipped.
pub open spec fn merge_bare(m: Map<Seq<char>, DepView>, bare: Seq<BareImport>, known: Set<Seq<char>>) -> Map<Seq<char>, DepView>
    decreases bare.len(),
{
    if bare.len() == 0 {
        m
    } else {
        let init = merge_bare(m, bare.drop_last(), known);
        let b = bare.last();
        if known.contains(b.0@) {
            init
        } else {
            merge_dep(init, b.0@, text::views(b.1@).to_set(), b.2)
        }
    }
}

/// No specifier is recorded twice.
pub open spec fn deps_unique(deps: Seq<DepImport>) -> bool {
    forall|i: int, j: int| 0 <= i < j < deps.len() ==> deps[i].specifier@ != deps[j].specifier@
}

proof fn lemma_dep_map_keys(deps: Seq<DepImport>, s: Seq<char>)
    ensures
        dep_map(deps).contains_key(s) <==> exists|i: int| 0 <= i < deps.len() && deps[i].specifier@ == s,
    decreases deps.len(),
{
    if deps.len() > 0 {
        lemma_dep_map_keys(deps.drop_last(), s);
        if exists|i: int| 0 <= i < deps.drop_last().len() && deps.drop_last()[i].specifier@ == s {
            let i = choose|i: int| 0 <= i < deps.drop_last().len() && deps.drop_last()[i].specifier@ == s;
            assert(deps[i].specifier@ == s);
        }
        if exists|i: int| 0 <= i < deps.len() && deps[i].specifier@ == s {
            let i = choose|i: int| 0 <= i < deps.len() && deps[i].specifier@ == s;
            if i < deps.len() - 1 {
                assert(deps.drop_last()[i].specifier@ == s);
            }
        }
    }
}

proof fn lemma_dep_map_at(deps: Seq<DepImport>, i: int)
    requires
        deps_unique(deps),
        0 <= i < deps.len(),
    ensures
        dep_map(deps).contains_key(deps[i].specifier@),
        dep_map(deps)[deps[i].specifier@] == (deps[i].named_exports@, deps[i].has_default),
    decreases deps.len(),
{
    if i < deps.len() - 1 {
        lemma_dep_map_at(deps.drop_last(), i);
        assert(deps.drop_last()[i] == deps[i]);
    }
}

proof fn lemma_dep_map_update(deps: Seq<DepImport>, i: int, d: DepImport)
    requires
        deps_unique(deps),
        0 <= i < deps.len(),
        d.specifier@ == deps[i].specifier@,
    ensures
        deps_unique(deps.update(i, d)),
        dep_map(deps.update(i, d)) == dep_map(deps).insert(d.specifier@, (d.named_exports@, d.has_default)),
    decreases deps.len(),
{
    let u = deps.update(i, d);
    assert forall|a: int, b: int| 0 <= a < b < u.len() implies u[a].specifier@ != u[b].specifier@ by {
        if a != i && b != i {
            assert(u[a] == deps[a] && u[b] == deps[b]);
        }
    }
    if i == deps.len() - 1 {
        assert(u.drop_last() =~= deps.drop_last());
        assert(dep_map(u) =~= dep_map(deps).insert(d.specifier@, (d.named_exports@, d.has_default))) by {
            lemma_dep_map_keys(deps.drop_last(), d.specifier@);
            if dep_map(deps.drop_last()).contains_key(d.specifier@) {
                let j = choose|j: int| 0 <= j < deps.drop_last().len() && deps.drop_last()[j].specifier@ == d.specifier@;
                assert(deps[j].specifier@ == deps[i].specifier@);
            }
        }
    } else {
        let init = deps.drop_last();
        assert(u.drop_last() =~= init.update(i, d));
        assert(init[i] == deps[i]);
        lemma_dep_map_update(init, i, d);
        assert(u.last() == deps.last());
        assert(deps.last().specifier@ != d.specifier@) by {
            assert(deps[deps.len() - 1].specifier@ != deps[i].specifier@);
        }
        assert(dep_map(u) =~= dep_map(deps).insert(d.specifier@, (d.named_exports@, d.has_default)));
    }
}

/// Finds the recorded import of a specifier.
fn find_dep(deps: &Vec<DepImport>, spec: &str) -> (r: Option<usize>)
    ensures
        match r {
            Some(i) => i < deps@.len() && deps@[i as int].specifier@ == spec@,
            None => forall|i: int| 0 <= i < deps@.len() ==> deps@[i].specifier@ != spec@,
        },
{
    let mut i: usize = 0;
    while i < deps.len()
        invariant
            i <= deps@.len(),
            forall|j: int| 0 <= j < i ==> deps@[j].specifier@ != spec@,
        decreases deps.len() - i,
    {
        if text::str_eq(deps[i].specifier.as_str(), spec) {
            return Some(i);
        }
        i += 1;
    }
    None
}

/// Merges the bare imports of one module into the dependency imports,
/// skipping the specifiers served from the dependency bundle.
pub fn merge_bare_imports(deps: &mut Vec<DepImport>, bare: &[BareImport], known: &StringSet)
    requires
        deps_unique(old(deps)@),
        forall|i: int| 0 <= i < old(deps)@.len() ==> (#[trigger] old(deps)@[i]).named_exports.wf(),
    ensures
        deps_unique(final(deps)@),
        forall|i: int| 0 <= i < final(deps)@.len() ==> (#[trigger] final(deps)@[i]).named_exports.wf(),
        dep_map(final(deps)@) == merge_bare(dep_map(old(deps)@), bare@, known@),
{
    let ghost m0 = dep_map(deps@);
    let mut k: usize = 0;
    proof {
        assert(bare@.take(0) =~= Seq::<BareImport>::empty());
    }
    while k < bare.len()
        invariant
            k <= bare@.len(),
            m0 == dep_map(old(deps)@),
            deps_unique(deps@),
            forall|i: int| 0 <= i < deps@.len() ==> (#[trigger] deps@[i]).named_exports.wf(),
            dep_map(deps@) == merge_bare(m0, bare@.take(k as int), known@),
        decreases bare.len() - k,
    {
        proof {
            assert(bare@.take(k + 1).drop_last() =~= bare@.take(k as int));
            assert(bare@.take(k + 1).last() == bare@[k as int]);
        }
        let (spec, named, has_default) = &bare[k];
        if !known.contains(spec.as_str()) {
            let ghost nv = text::views(named@).to_set();
            let ghost m = dep_map(deps@);
            match find_dep(deps, spec.as_str()) {
                Some(i) => {
                    proof {
                        lemma_dep_map_at(deps@, i as int);
                    }
                    let ghost before = deps@;
                    let mut d = deps.remove(i);
                    let ghost d0 = d;
                    let mut t: usize = 0;
                    proof {
                        assert(text::views(named@).take(0).to_set() =~= Set::<Seq<char>>::empty());
                        assert(d.named_exports@ + text::views(named@).take(0).to_set() =~= d0.named_exports@);
                    }
                    while t < named.len()
                        invariant
                            t <= named@.len(),
                            d.named_exports.wf(),
                            d.specifier@ == d0.specifier@,
                            d.has_default == d0.has_default,
                            d.named_exports@ == d0.named_exports@ + text::views(named@).take(t as int).to_set(),
                        decreases named.len() - t,
                    {
                        proof {
                            let nvs = text::views(named@);
                            assert(nvs.take(t + 1) =~= nvs.take(t as int).push(nvs[t as int]));
                            nvs.take(t as int).lemma_push_to_set_commute(nvs[t as int]);
                        }
                        d.named_exports.insert(String::from_str(named[t].as_str()));
                        t += 1;
                    }
                    proof {
                        assert(text::views(named@).take(t as int) =~= text::views(named@));
                    }
                    d.has_default = d.has_default || *has_default;
                    deps.insert(i, d);
                    proof {
                        assert(deps@ =~= before.update(i as int, d));
                        lemma_dep_map_update(before, i as int, d);
                        assert(dep_map(deps@) =~= merge_dep(m, spec@, nv, *has_default));
                        assert forall|j: int| 0 <= j < deps@.len() implies (#[trigger] deps@[j]).named_exports.wf() by {
                            if j != i {
                                assert(deps@[j] == before[j]);
                            }
                        }
                    }
                },
                None => {
                    let mut set = StringSet::new();
                    let mut t: usize = 0;
                    proof {
                        assert(text::views(named@).take(0).to_set() =~= Set::<Seq<char>>::empty());
                    }
                    while t < named.len()
                        invariant
                            t <= named@.len(),
                            set.wf(),
                            set@ == text::views(named@).take(t as int).to_set(),
                        decreases named.len() - t,
                    {
                        proof {
                            let nvs = text::views(named@);
                            assert(nvs.take(t + 1) =~= nvs.take(t as int).push(nvs[t as int]));
                            nvs.take(t as int).lemma_push_to_set_commute(nvs[t as int]);
                        }
                        set.insert(String::from_str(named[t].as_str()));
                        t += 1;
                    }
                    proof {
                        assert(text::views(named@).take(t as int) =~= text::views(named@));
                        lemma_dep_map_keys(deps@, spec@);
                    }
                    let ghost before = deps@;
                    let d = DepImport { specifier: String::from_str(spec.as_str()), named_exports: set, has_default: *has_default };
                    deps.push(d);
                    proof {
                        assert(deps@.drop_last() =~= before);
                        assert(deps@.last() == d);
                        assert(Set::<Seq<char>>::empty() + nv =~= nv);
                        assert(dep_map(deps@) =~= merge_dep(m, spec@, nv, *has_default));
                        assert forall|a: int, b: int| 0 <= a < b < deps@.len() implies deps@[a].specifier@ != deps@[b].specifier@ by {
                            if b == deps@.len() - 1 {
                                assert(deps@[a] == before[a]);
                            } else {
                                assert(deps@[a] == before[a] && deps@[b] == before[b]);
                            }
                        }
                        assert forall|j: int| 0 <= j < deps@.len() implies (#[trigger] deps@[j]).named_exports.wf() by {
                            if j < before.len() {
                                assert(deps@[j] == before[j]);
                            }
                        }
                    }
                },
            }
        }
        k += 1;
    }
    proof {
        assert(bare@.take(k as int) =~= bare@);
    }
}

/// The values of a recorded module.
pub open spec fn module_view(m: EsmSourceModule) -> (Seq<char>, Seq<char>) {
    (m.specifier@, m.source@)
}

/// The values of the recorded modules.
pub open spec fn module_views(ms: Seq<EsmSourceModule>) -> Seq<(Seq<char>, Seq<char>)> {
    ms.map_values(|m: EsmSourceModule| module_view(m))
}

/// The walk of the import graph for ESM loading. The caller reads and
/// transforms each module the walk hands out and reports what it found;
/// the walk decides the order, the stubs, the client reference ids, the
/// dependency imports and the inline server actions.
pub struct EsmWalk {
    queue: Vec<String>,
    head: usize,
    visited: StringSet,
    modules: Vec<EsmSourceModule>,
    deps: Vec<DepImport>,
    boundaries: Vec<ClientBoundary>,
    actions: Vec<ExtractedServerAction>,
    build_id: Option<String>,
}

impl EsmWalk {
    pub closed spec fn queued(&self) -> Seq<Seq<char>> {
        text::views(self.queue@)
    }

    pub closed spec fn handed_out(&self) -> int {
        self.head as int
    }

    pub closed spec fn visited(&self) -> Set<Seq<char>> {
        self.visited@
    }

    /// The modules recorded so far, in order.
    pub closed spec fn modules(&self) -> Seq<(Seq<char>, Seq<char>)> {
        module_views(self.modules@)
    }

    /// The dependency imports recorded so far.
    pub closed spec fn deps(&self) -> Map<Seq<char>, DepView> {
        dep_map(self.deps@)
    }

    /// The client boundaries recorded so far, in order.
    pub closed spec fn boundaries(&self) -> Seq<crate::precomputed_ids::BoundaryView> {
        crate::precomputed_ids::boundary_views(self.boundaries@)
    }

    /// The inline server actions extracted so far, in order.
    pub closed spec fn actions(&self) -> Seq<crate::precomputed_ids::ActionView> {
        crate::precomputed_ids::action_views(self.actions@)
    }

    /// The build id the walk computes ids with, if any.
    pub closed spec fn build(&self) -> Option<Seq<char>> {
        text::opt_view(self.build_id)
    }

    pub closed spec fn wf(&self) -> bool {
        &&& self.visited.wf()
        &&& self.queued().no_duplicates()
        &&& self.head <= self.queue@.len()
        &&& forall|k: int| 0 <= k < self.queued().len() ==> self.visited@.contains(#[trigger] self.queued()[k])
        &&& deps_unique(self.deps@)
        &&& forall|i: int| 0 <= i < self.deps@.len() ==> (#[trigger] self.deps@[i]).named_exports.wf()
    }

    /// Starts a walk from canonical entry paths, each queued once.
    pub fn new(entries: &[String], build_id: Option<String>) -> (r: EsmWalk)
        ensures
            r.wf(),
            r.handed_out() == 0,
            r.queued().to_set() == text::views(entries@).to_set(),
            r.queued() == text::fresh(Set::empty(), text::views(entries@)),
            r.modules() == Seq::<(Seq<char>, Seq<char>)>::empty(),
            r.deps() == Map::<Seq<char>, DepView>::empty(),
            r.boundaries() == Seq::<crate::precomputed_ids::BoundaryView>::empty(),
            r.actions() == Seq::<crate::precomputed_ids::ActionView>::empty(),
            r.build() == text::opt_view(build_id),
    {
        let mut w = EsmWalk {
            queue: Vec::new(),
            head: 0,
            visited: StringSet::new(),
            modules: Vec::new(),
            deps: Vec::new(),
            boundaries: Vec::new(),
            actions: Vec::new(),
            build_id,
        };
        let ghost es = text::views(entries@);
        let mut i: usize = 0;
        proof {
            assert(w.queued() =~= text::fresh(Set::empty(), es.take(0)));
            assert(w.queued().to_set() =~= es.take(0).to_set());
            assert(w.visited@ =~= es.take(0).to_set());
            assert(w.modules() =~= Seq::<(Seq<char>, Seq<char>)>::empty());
            assert(w.boundaries() =~= Seq::<crate::precomputed_ids::BoundaryView>::empty());
            assert(w.actions() =~= Seq::<crate::precomputed_ids::ActionView>::empty());
        }
        while i < entries.len()
            invariant
                i <= entries@.len(),
                es == text::views(entries@),
                w.wf(),
                w.head == 0,
                w.modules@ == Seq::<EsmSourceModule>::empty(),
                w.deps@ == Seq::<DepImport>::empty(),
                w.boundaries@ == Seq::<ClientBoundary>::empty(),
                w.actions@ == Seq::<ExtractedServerAction>::empty(),
                w.build() == text::opt_view(build_id),
                w.queued().to_set() == es.take(i as int).to_set(),
                w.queued() == text::fresh(Set::empty(), es.take(i as int)),
                w.visited@ == es.take(i as int).to_set(),
            decreases entries.len() - i,
        {
            proof {
                assert(es.take(i + 1) =~= es.take(i as int).push(es[i as int]));
                es.take(i as int).lemma_push_to_set_commute(es[i as int]);
                text::lemma_fresh_push(Set::empty(), es.take(i as int), es[i as int]);
                assert(Set::<Seq<char>>::empty() + es.take(i as int).to_set() =~= es.take(i as int).to_set());
                assert(es[i as int] == entries@[i as int]@);
            }
            let ghost qb = w.queued();
            if w.visited.insert(String::from_str(entries[i].as_str())) {
                w.queue.push(String::from_str(entries[i].as_str()));
                proof {
                    assert(w.queued() =~= qb.push(entries@[i as int]@));
                    qb.lemma_push_to_set_commute(entries@[i as int]@);
                    assert(!qb.contains(entries@[i as int]@)) by {
                        if qb.contains(entries@[i as int]@) {
                            let t = choose|t: int| 0 <= t < qb.len() && qb[t] == entries@[i as int]@;
                        }
                    }
                    assert forall|a: int, b: int| 0 <= a < b < w.queued().len() implies w.queued()[a] != w.queued()[b] by {
                        if b == qb.len() {
                            assert(qb[a] == w.queued()[a]);
                        }
                    }
                    assert forall|k: int| 0 <= k < w.queued().len() implies w.visited@.contains(#[trigger] w.queued()[k]) by {
                        if k < qb.len() {
                            assert(qb[k] == w.queued()[k]);
                        }
                    }
                }
            } else {
                proof {
                    assert(es.take(i as int).to_set().contains(entries@[i as int]@));
                    assert(w.queued().to_set().insert(entries@[i as int]@) =~= w.queued().to_set());
                }
            }
            i += 1;
        }
        proof {
            assert(es.take(i as int) =~= es);
            assert(dep_map(w.deps@) =~= Map::<Seq<char>, DepView>::empty());
        }
        w
    }

    /// The build id of the walk.
    pub fn build_id(&self) -> (r: Option<&str>)
        ensures
            text::opt_str_view(r) == self.build(),
    {
        match &self.build_id {
            Some(b) => Some(b.as_str()),
            None => None,
        }
    }

    /// The next queued path, if any is left.
    pub fn next_path(&mut self) -> (r: Option<String>)
        requires
            old(self).wf(),
        ensures
            final(self).wf(),
            final(self).queued() == old(self).queued(),
            final(self).modules() == old(self).modules(),
            final(self).deps() == old(self).deps(),
            final(self).boundaries() == old(self).boundaries(),
            final(self).actions() == old(self).actions(),
            final(self).build() == old(self).build(),
            match r {
                Some(p) => old(self).handed_out() < old(self).queued().len() && p@ == old(self).queued()[old(
                    self,
                ).handed_out()] && final(self).handed_out() == old(self).handed_out() + 1,
                None => old(self).handed_out() == old(self).queued().len() && final(self).handed_out()
                    == old(self).handed_out(),
            },
    {
        if self.head < self.queue.len() {
            let p = String::from_str(self.queue[self.head].as_str());
            self.head = self.head + 1;
            Some(p)
        } else {
            None
        }
    }

    /// Records a `node_modules` module that is not a client boundary (or
    /// walked without a build id): an empty stub.
    pub fn record_empty_stub(&mut self, specifier: &str)
        ensures
            final(self).modules() == old(self).modules().push((specifier@, "export default {};"@)),
            final(self).queued() == old(self).queued(),
            final(self).handed_out() == old(self).handed_out(),
            final(self).visited() == old(self).visited(),
            final(self).deps() == old(self).deps(),
            final(self).boundaries() == old(self).boundaries(),
            final(self).actions() == old(self).actions(),
            final(self).build() == old(self).build(),
            old(self).wf() ==> final(self).wf(),
    {
        let m = EsmSourceModule { specifier: String::from_str(specifier), source: String::from_str("export default {};") };
        let ghost before = self.modules@;
        self.modules.push(m);
        proof {
            assert(module_views(self.modules@) =~= module_views(before).push(module_view(m)));
        }
    }

    /// Records an asset module with its stub.
    pub fn record_asset(&mut self, specifier: &str, rel_path: &str)
        ensures
            final(self).modules() == old(self).modules().push((specifier@, asset_stub(specifier@, rel_path@))),
            final(self).queued() == old(self).queued(),
            final(self).handed_out() == old(self).handed_out(),
            final(self).visited() == old(self).visited(),
            final(self).deps() == old(self).deps(),
            final(self).boundaries() == old(self).boundaries(),
            final(self).actions() == old(self).actions(),
            final(self).build() == old(self).build(),
            old(self).wf() ==> final(self).wf(),
    {
        let src = asset_stub_source(specifier, rel_path);
        let m = EsmSourceModule { specifier: String::from_str(specifier), source: src };
        let ghost before = self.modules@;
        self.modules.push(m);
        proof {
            assert(module_views(self.modules@) =~= module_views(before).push(module_view(m)));
        }
    }

    /// Records a client boundary found by the caller (walked with a build
    /// id): its reference ids are computed and its module is replaced by
    /// the client reference stub; its imports are not walked.
    pub fn record_client_boundary(&mut self, specifier: &str, rel_path: &str, exports: Vec<String>)
        requires
            old(self).build() is Some,
        ensures
            final(self).modules() == old(self).modules().push(
                (specifier@, crate::rsc_stubs::client_stub(rel_path@, text::views(exports@), old(self).build()->0)),
            ),
            final(self).boundaries().len() == old(self).boundaries().len() + 1,
            final(self).boundaries().drop_last() == old(self).boundaries(),
            final(self).boundaries().last().0 == rel_path@,
            final(self).boundaries().last().1 == text::views(exports@),
            final(self).boundaries().last().2.len() == exports@.len(),
            forall|k: int| 0 <= k < exports@.len() ==> #[trigger] final(self).boundaries().last().2[k]
                == ids::client_reference_id_spec(rel_path@, exports@[k]@, old(self).build()->0),
            final(self).queued() == old(self).queued(),
            final(self).handed_out() == old(self).handed_out(),
            final(self).visited() == old(self).visited(),
            final(self).deps() == old(self).deps(),
            final(self).actions() == old(self).actions(),
            final(self).build() == old(self).build(),
            old(self).wf() ==> final(self).wf(),
    {
        let bid = match &self.build_id {
            Some(b) => b.as_str(),
            None => "",
        };
        let mut ref_ids: Vec<String> = Vec::new();
        let mut k: usize = 0;
        while k < exports.len()
            invariant
                k <= exports@.len(),
                bid@ == text::opt_view(self.build_id)->0,
                ref_ids@.len() == k,
                forall|j: int| 0 <= j < k ==> (#[trigger] ref_ids@[j])@ == ids::client_reference_id_spec(
                    rel_path@,
                    exports@[j]@,
                    bid@,
                ),
            decreases exports.len() - k,
        {
            ref_ids.push(ids::client_reference_id(rel_path, exports[k].as_str(), bid));
            k += 1;
        }
        let stub = crate::rsc_stubs::generate_client_stub(rel_path, exports.as_slice(), bid);
        let m = EsmSourceModule { specifier: String::from_str(specifier), source: stub };
        let ghost mb = self.modules@;
        self.modules.push(m);
        let b = ClientBoundary { rel_path: String::from_str(rel_path), exports, ref_ids };
        let ghost bb = self.boundaries@;
        self.boundaries.push(b);
        proof {
            assert(module_views(self.modules@) =~= module_views(mb).push(module_view(m)));
            assert(self.boundaries@ =~= bb.push(b));
            assert(crate::precomputed_ids::boundary_views(self.boundaries@) =~= crate::precomputed_ids::boundary_views(
                bb,
            ).push(crate::precomputed_ids::boundary_view(b)));
            assert(crate::precomputed_ids::boundary_views(self.boundaries@).drop_last() =~= crate::precomputed_ids::boundary_views(
                bb,
            ));
        }
    }

    /// Merges the bare imports of a walked source module.
    pub fn record_bare_imports(&mut self, bare: &[BareImport], known: &StringSet)
        requires
            old(self).wf(),
        ensures
            final(self).wf(),
            final(self).deps() == merge_bare(old(self).deps(), bare@, known@),
            final(self).modules() == old(self).modules(),
            final(self).queued() == old(self).queued(),
            final(self).handed_out() == old(self).handed_out(),
            final(self).visited() == old(self).visited(),
            final(self).boundaries() == old(self).boundaries(),
            final(self).actions() == old(self).actions(),
            final(self).build() == old(self).build(),
    {
        merge_bare_imports(&mut self.deps, bare, known);
    }

    /// Extracts the inline server actions of a walked source module (see
    /// `extract_server_actions_if_needed`), recording them in the walk.
    pub fn extract_actions(&mut self, source: &mut String, rel_path: &str) -> (r: Result<String, ()>)
        ensures
            final(self).modules() == old(self).modules(),
            final(self).queued() == old(self).queued(),
            final(self).handed_out() == old(self).handed_out(),
            final(self).visited() == old(self).visited(),
            final(self).deps() == old(self).deps(),
            final(self).boundaries() == old(self).boundaries(),
            final(self).build() == old(self).build(),
            old(self).wf() ==> final(self).wf(),
            (old(self).build() is None || !text::contains(old(source)@, "use server"@)) ==> (r is Ok && r->Ok_0@.len()
                == 0 && final(source)@ == old(source)@ && final(self).actions() == old(self).actions()),
            old(self).build() is Some && text::contains(old(source)@, "use server"@) ==> {
                &&& (r is Err <==> !crate::server_action_extract::extraction_ok(old(source)@))
                &&& match r {
                    Err(_) => final(source)@ == old(source)@ && final(self).actions() == old(self).actions(),
                    Ok(x) => if crate::server_action_extract::planned_reps(old(source)@).len() == 0 {
                        x@.len() == 0 && final(source)@ == old(source)@ && final(self).actions()
                            == old(self).actions()
                    } else {
                        let names = crate::server_action_extract::extracted_actions(old(source)@).map_values(
                            |a: (Seq<char>, Seq<char>)| a.0,
                        );
                        &&& final(source)@ == crate::server_action_extract::extracted_source(old(source)@)
                        &&& x@ == esm_registrations(rel_path@, names, old(self).build()->0)
                        &&& final(self).actions() == old(self).actions() + extracted_action_views(
                            rel_path@,
                            names,
                            old(self).build()->0,
                        )
                    },
                }
            },
    {
        let bid = match &self.build_id {
            Some(b) => Some(b.as_str()),
            None => None,
        };
        let ghost ab = self.actions@;
        let ghost src0 = source@;
        let r = extract_server_actions_if_needed(source, rel_path, bid, &mut self.actions);
        proof {
            if self.actions@ == ab {
                assert(self.actions() == crate::precomputed_ids::action_views(ab));
            }
            if bid is Some && text::contains(src0, "use server"@) && r is Ok
                && crate::server_action_extract::planned_reps(src0).len() != 0 {
                let names = crate::server_action_extract::extracted_actions(src0).map_values(
                    |a: (Seq<char>, Seq<char>)| a.0,
                );
                assert(self.actions() =~= crate::precomputed_ids::action_views(ab) + extracted_action_views(
                    rel_path@,
                    names,
                    bid->0@,
                )) by {
                    assert forall|k: int| 0 <= k < self.actions@.len() implies #[trigger] self.actions()[k]
                        == (crate::precomputed_ids::action_views(ab) + extracted_action_views(
                        rel_path@,
                        names,
                        bid->0@,
                    ))[k] by {
                        if k >= ab.len() {
                            let a = self.actions@[ab.len() + (k - ab.len())];
                        }
                    }
                }
            }
        }
        r
    }

    /// Records a walked source module with its transformed code, and
    /// queues each of its local imports not visited yet.
    pub fn record_source(&mut self, specifier: &str, code: String, local_imports: &[String])
        requires
            old(self).wf(),
        ensures
            final(self).wf(),
            final(self).modules() == old(self).modules().push((specifier@, code@)),
            final(self).visited() == old(self).visited() + text::views(local_imports@).to_set(),
            final(self).queued() == old(self).queued() + text::fresh(old(self).visited(), text::views(local_imports@)),
            final(self).handed_out() == old(self).handed_out(),
            final(self).deps() == old(self).deps(),
            final(self).boundaries() == old(self).boundaries(),
            final(self).actions() == old(self).actions(),
            final(self).build() == old(self).build(),
    {
        let m = EsmSourceModule { specifier: String::from_str(specifier), source: code };
        let ghost mb = self.modules@;
        self.modules.push(m);
        proof {
            assert(module_views(self.modules@) =~= module_views(mb).push(module_view(m)));
        }
        let ghost v0 = self.visited@;
        let ghost q0 = self.queued();
        let mut j: usize = 0;
        proof {
            assert(v0 + text::views(local_imports@).take(0).to_set() =~= v0);
        }
        while j < local_imports.len()
            invariant
                j <= local_imports@.len(),
                self.wf(),
                self.head == old(self).head,
                self.modules@ == mb.push(m),
                self.deps@ == old(self).deps@,
                self.boundaries@ == old(self).boundaries@,
                self.actions@ == old(self).actions@,
                self.build_id == old(self).build_id,
                self.visited@ == v0 + text::views(local_imports@).take(j as int).to_set(),
                self.queued() == q0 + text::fresh(v0, text::views(local_imports@).take(j as int)),
            decreases local_imports.len() - j,
        {
            let imp = local_imports[j].as_str();
            let ghost qb = self.queued();
            let ghost vb = self.visited@;
            proof {
                let iv = text::views(local_imports@);
                assert(iv.take(j + 1) =~= iv.take(j as int).push(iv[j as int]));
                iv.take(j as int).lemma_push_to_set_commute(iv[j as int]);
                assert(iv[j as int] == imp@);
                text::lemma_fresh_push(v0, iv.take(j as int), imp@);
                assert(vb =~= v0 + iv.take(j as int).to_set());
            }
            if self.visited.insert(String::from_str(imp)) {
                self.queue.push(String::from_str(imp));
                proof {
                    assert(self.queued() =~= qb.push(imp@));
                    assert(!qb.contains(imp@)) by {
                        if qb.contains(imp@) {
                            let t = choose|t: int| 0 <= t < qb.len() && qb[t] == imp@;
                            assert(vb.contains(qb[t]));
                        }
                    }
                    assert forall|a: int, b: int| 0 <= a < b < self.queued().len() implies self.queued()[a]
                        != self.queued()[b] by {
                        if b == qb.len() {
                            assert(qb[a] == self.queued()[a]);
                            assert(qb.contains(qb[a]));
                        }
                    }
                    assert forall|k: int| 0 <= k < self.queued().len() implies self.visited@.contains(
                        #[trigger] self.queued()[k],
                    ) by {
                        if k < qb.len() {
                            assert(qb[k] == self.queued()[k]);
                        }
                    }
                    assert(self.queued() =~= q0 + text::fresh(v0, text::views(local_imports@).take(j + 1)));
                }
            }
            j += 1;
        }
        proof {
            assert(text::views(local_imports@).take(j as int) =~= text::views(local_imports@));
        }
    }

    /// The modules recorded by the walk, and what it collected.
    pub fn finish(self) -> (r: (Vec<EsmSourceModule>, CollectedModules))
        ensures
            module_views(r.0@) == self.modules(),
            dep_map(r.1.extra_dep_imports@) == self.deps(),
            crate::precomputed_ids::boundary_views(r.1.client_boundaries@) == self.boundaries(),
            crate::precomputed_ids::action_views(r.1.extracted_actions@) == self.actions(),
            r.1.server_action_modules@ == Seq::<ServerActionModule>::empty(),
    {
        (
            self.modules,
            CollectedModules {
                extra_dep_imports: self.deps,
                client_boundaries: self.boundaries,
                extracted_actions: self.actions,
                server_action_modules: Vec::new(),
            },
        )
    }
}

} // verus!
