//! Browser-side dependency pre-bundling: URL keys of bare specifiers and
//! the re-export entries bundled for each dependency.
use vstd::prelude::*;
use vstd::hash_map::StringHashMap;
use crate::text;
use crate::esm_transform::DepImport;
use crate::manifest::{upsert, key_index, lemma_key_index};
use crate::paths;
use crate::rsc_bundler::pair_views;

verus! {

/// Result of browser dependency pre-bundling.
pub struct ClientDepBundle {
    /// URL key to ESM source.
    pub modules: StringHashMap<String>,
    /// The import map, as JSON, injected into HTML.
    pub import_map_json: String,
}

/// A bare specifier as a URL-safe key: `@` becomes `_`, `/` becomes `__`.
pub open spec fn url_key(specifier: Seq<char>) -> Seq<char> {
    text::replace_char(text::replace_char(specifier, '@', "_"@), '/', "__"@)
}

/// Encodes a bare specifier into a URL-safe file name
/// (`react/jsx-runtime` to `react__jsx-runtime`, `@scope/pkg` to `_scope__pkg`).
pub fn specifier_to_url_key(specifier: &str) -> (r: String)
    ensures
        r@ == url_key(specifier@),
{
    let a = text::replace_char_exec(specifier, '@', "_");
    text::replace_char_exec(a.as_str(), '/', "__")
}

proof fn lemma_replace_char_absent(s: Seq<char>, from: char, to: Seq<char>, c: char)
    requires
        !to.contains(c),
        c == from || !s.contains(c),
    ensures
        !text::replace_char(s, from, to).contains(c),
    decreases s.len(),
{
    if s.len() > 0 {
        lemma_replace_char_absent(s.drop_first(), from, to, c);
        let head = if s[0] == from { to } else { seq![s[0]] };
        let rest = text::replace_char(s.drop_first(), from, to);
        assert(text::replace_char(s, from, to) == head + rest);
        if (head + rest).contains(c) {
            let k = choose|k: int| 0 <= k < (head + rest).len() && (head + rest)[k] == c;
            if k < head.len() {
                if s[0] == from {
                    assert(to[k] == c);
                } else {
                    assert(s[0] == c);
                    assert(s.contains(c));
                }
            } else {
                assert(rest[k - head.len()] == c);
            }
        }
        if c != from {
            if s.drop_first().contains(c) {
                let k = choose|k: int| 0 <= k < s.drop_first().len() && s.drop_first()[k] == c;
                assert(s[k + 1] == c);
            }
        }
    }
}

/// A URL key holds neither `@` nor `/`.
pub proof fn lemma_url_key_safe(specifier: Seq<char>)
    ensures
        !url_key(specifier).contains('@'),
        !url_key(specifier).contains('/'),
{
    reveal_strlit("_");
    reveal_strlit("__");
    let a = text::replace_char(specifier, '@', "_"@);
    lemma_replace_char_absent(specifier, '@', "_"@, '@');
    lemma_replace_char_absent(a, '/', "__"@, '@');
    lemma_replace_char_absent(a, '/', "__"@, '/');
}

/// The re-export entry of a dependency: its default export when imported
/// by default, its named exports (in recorded order) when any, and a
/// wildcard plus default re-export when neither is known.
pub open spec fn reexport_entry(specifier: Seq<char>, names: Seq<Seq<char>>, has_default: bool) -> Seq<char> {
    let default_line = "export { default } from '"@ + specifier + "';\n"@;
    let named_line = "export { "@ + text::join(names, ", "@) + " } from '"@ + specifier + "';\n"@;
    if has_default && names.len() == 0 {
        default_line
    } else if has_default {
        default_line + named_line
    } else if names.len() != 0 {
        named_line
    } else {
        "export * from '"@ + specifier + "';\n"@ + default_line
    }
}

/// Builds the re-export entry source for an extra dependency.
pub fn build_reexport_entry(dep: &DepImport) -> (r: String)
    ensures
        r@ == reexport_entry(dep.specifier@, dep.named_exports.seq(), dep.has_default),
{
    let names = dep.named_exports.as_slice();
    let spec = dep.specifier.as_str();
    let mut default_line = String::from_str("export { default } from '");
    default_line.append(spec);
    default_line.append("';\n");
    let joined = text::join_strings(names, ", ");
    let mut named_line = String::from_str("export { ");
    named_line.append(joined.as_str());
    named_line.append(" } from '");
    named_line.append(spec);
    named_line.append("';\n");
    proof {
        assert(text::views(names@) == dep.named_exports.seq());
    }
    if dep.has_default && names.len() == 0 {
        default_line
    } else if dep.has_default {
        default_line.append(named_line.as_str());
        default_line
    } else if names.len() != 0 {
        named_line
    } else {
        let mut entry = String::from_str("export * from '");
        entry.append(spec);
        entry.append("';\n");
        entry.append(default_line.as_str());
        entry
    }
}

/// Where the bundled dependency files are served.
pub open spec fn deps_url() -> Seq<char> {
    "/_rex/deps/"@
}

/// A bundled output file is a dependency module: its extension is `js`.
pub open spec fn is_dep_file(f: Seq<char>) -> bool {
    paths::extension_spec(f) == Some("js"@)
}

/// The import map entries a bundled dependency file gives, by its name:
/// `react.*` maps `react` to it (and `react/` to the dependency
/// directory), `react-dom-client*` maps `react-dom/client`, and
/// `react-jsx-runtime*` maps `react/jsx-runtime`.
pub open spec fn dep_file_imports(f: Seq<char>) -> Seq<(Seq<char>, Seq<char>)> {
    let url = deps_url() + f;
    if text::starts_with(f, "react."@) || f == "react.js"@ {
        seq![("react"@, url), ("react/"@, deps_url())]
    } else if text::starts_with(f, "react-dom-client"@) {
        seq![("react-dom/client"@, url)]
    } else if text::starts_with(f, "react-jsx-runtime"@) {
        seq![("react/jsx-runtime"@, url)]
    } else {
        Seq::empty()
    }
}

/// `v` with each entry of `adds` put in turn (a key's value replaced in
/// place, a new key appended).
pub open spec fn upsert_each(v: Seq<(Seq<char>, Seq<char>)>, adds: Seq<(Seq<char>, Seq<char>)>) -> Seq<(Seq<char>, Seq<char>)>
    decreases adds.len(),
{
    if adds.len() == 0 {
        v
    } else {
        upsert(upsert_each(v, adds.drop_last()), adds.last().0, adds.last().1)
    }
}

/// The import map entries of the bundled files, read in the given order.
pub open spec fn dep_file_entries(files: Seq<Seq<char>>) -> Seq<(Seq<char>, Seq<char>)>
    decreases files.len(),
{
    if files.len() == 0 {
        Seq::empty()
    } else if is_dep_file(files.last()) {
        upsert_each(dep_file_entries(files.drop_last()), dep_file_imports(files.last()))
    } else {
        dep_file_entries(files.drop_last())
    }
}

/// The framework modules that the browser loads from the dev server.
pub open spec fn rex_dev_imports() -> Seq<(Seq<char>, Seq<char>)> {
    seq![
        ("rex/head"@, "/_rex/dev/@rex/head.ts"@),
        ("rex/link"@, "/_rex/dev/@rex/link.ts"@),
        ("rex/router"@, "/_rex/dev/@rex/router.ts"@),
    ]
}

/// The browser import map of the bundled dependencies.
pub open spec fn dep_import_map(files: Seq<Seq<char>>) -> Seq<(Seq<char>, Seq<char>)> {
    upsert_each(dep_file_entries(files), rex_dev_imports())
}

fn put_import(v: &mut Vec<(String, String)>, k: &str, url: &str)
    ensures
        pair_views(final(v)@) == upsert(pair_views(old(v)@), k@, url@),
{
    let ghost pv = pair_views(v@);
    proof {
        lemma_key_index(pv, k@);
    }
    let mut i: usize = 0;
    while i < v.len()
        invariant
            i <= v@.len(),
            pv == pair_views(v@),
            v@ == old(v)@,
            forall|j: int| 0 <= j < i ==> (#[trigger] pv[j]).0 != k@,
        decreases v.len() - i,
    {
        if text::str_eq(v[i].0.as_str(), k) {
            proof {
                lemma_key_index(pv, k@);
                assert(pv[i as int] == (v@[i as int].0@, v@[i as int].1@));
                assert(pv[i as int].0 == k@);
                assert(key_index(pv, k@) == i);
            }
            v.set(i, (String::from_str(k), String::from_str(url)));
            proof {
                assert(pair_views(v@) =~= pv.update(i as int, (k@, url@)));
            }
            return;
        }
        i += 1;
    }
    proof {
        lemma_key_index(pv, k@);
        if key_index(pv, k@) >= 0 {
            assert(pv[key_index(pv, k@)].0 == k@);
        }
        assert(key_index(pv, k@) < 0);
    }
    v.push((String::from_str(k), String::from_str(url)));
    proof {
        assert(pair_views(v@) =~= pv.push((k@, url@)));
    }
}

fn put_imports(v: &mut Vec<(String, String)>, adds: &Vec<(String, String)>)
    ensures
        pair_views(final(v)@) == upsert_each(pair_views(old(v)@), pair_views(adds@)),
{
    let ghost v0 = pair_views(v@);
    let ghost av = pair_views(adds@);
    let mut i: usize = 0;
    proof {
        assert(av.take(0) =~= Seq::<(Seq<char>, Seq<char>)>::empty());
    }
    while i < adds.len()
        invariant
            i <= adds@.len(),
            av == pair_views(adds@),
            pair_views(v@) == upsert_each(v0, av.take(i as int)),
        decreases adds.len() - i,
    {
        proof {
            assert(av.take(i + 1).drop_last() =~= av.take(i as int));
            assert(av.take(i + 1).last() == av[i as int]);
        }
        put_import(v, adds[i].0.as_str(), adds[i].1.as_str());
        i += 1;
    }
    proof {
        assert(av.take(i as int) =~= av);
    }
}

fn pair(k: &str, u: &str) -> (r: (String, String))
    ensures
        r.0@ == k@,
        r.1@ == u@,
{
    (String::from_str(k), String::from_str(u))
}

fn dep_file_imports_exec(f: &str) -> (r: Vec<(String, String)>)
    ensures
        pair_views(r@) == dep_file_imports(f@),
{
    let mut url = String::from_str("/_rex/deps/");
    url.append(f);
    let s = text::chars_of(f);
    let mut r: Vec<(String, String)> = Vec::new();
    let react_dot = text::chars_of("react.");
    let dom = text::chars_of("react-dom-client");
    let jsx = text::chars_of("react-jsx-runtime");
    if text::occurs_at_exec(&s, 0, &react_dot) || text::str_eq(f, "react.js") {
        r.push(pair("react", url.as_str()));
        r.push(pair("react/", "/_rex/deps/"));
    } else if text::occurs_at_exec(&s, 0, &dom) {
        r.push(pair("react-dom/client", url.as_str()));
    } else if text::occurs_at_exec(&s, 0, &jsx) {
        r.push(pair("react/jsx-runtime", url.as_str()));
    }
    proof {
        assert(pair_views(r@) =~= dep_file_imports(f@));
    }
    r
}

/// The browser import map of the bundled dependencies, from the names of
/// the bundle's output files in the order they were read: every `.js` file
/// maps its bare specifier (a later file replaces an earlier one's URL),
/// then the framework's `rex/head`, `rex/link` and `rex/router` are mapped
/// onto the dev server.
pub fn client_dep_import_map(files: &[String]) -> (r: Vec<(String, String)>)
    ensures
        pair_views(r@) == dep_import_map(text::views(files@)),
{
    let ghost fv = text::views(files@);
    let mut r: Vec<(String, String)> = Vec::new();
    let mut i: usize = 0;
    proof {
        assert(fv.take(0) =~= Seq::<Seq<char>>::empty());
        assert(pair_views(r@) =~= Seq::<(Seq<char>, Seq<char>)>::empty());
    }
    while i < files.len()
        invariant
            i <= files@.len(),
            fv == text::views(files@),
            pair_views(r@) == dep_file_entries(fv.take(i as int)),
        decreases files.len() - i,
    {
        proof {
            assert(fv.take(i + 1).drop_last() =~= fv.take(i as int));
            assert(fv.take(i + 1).last() == files@[i as int]@);
        }
        let f = files[i].as_str();
        let is_js = match paths::extension(f) {
            Some(x) => text::str_eq(x.as_str(), "js"),
            None => false,
        };
        if is_js {
            let adds = dep_file_imports_exec(f);
            put_imports(&mut r, &adds);
        }
        i += 1;
    }
    proof {
        assert(fv.take(i as int) =~= fv);
    }
    let mut rex: Vec<(String, String)> = Vec::new();
    rex.push(pair("rex/head", "/_rex/dev/@rex/head.ts"));
    rex.push(pair("rex/link", "/_rex/dev/@rex/link.ts"));
    rex.push(pair("rex/router", "/_rex/dev/@rex/router.ts"));
    proof {
        assert(pair_views(rex@) =~= rex_dev_imports());
    }
    put_imports(&mut r, &rex);
    r
}

} // verus!
