//! Shared RSC build configuration: chunk names of file paths and the
//! resolve aliases of `rex/*` and `next/*` imports to runtime files.
use vstd::prelude::*;
use crate::text;
use crate::paths;
use crate::string_set::StringSet;

verus! {

/// A character replaced by `_` in a chunk name.
pub open spec fn is_separator(c: char) -> bool {
    c == '/' || c == '\\' || c == '.'
}

/// Path separators and dots replaced by `_`.
pub open spec fn underscored(s: Seq<char>) -> Seq<char> {
    s.map_values(|c: char| if is_separator(c) { '_' } else { c })
}

/// `s` without leading `_`.
pub open spec fn strip_underscores_start(s: Seq<char>) -> Seq<char>
    decreases s.len(),
{
    if s.len() > 0 && s[0] == '_' {
        strip_underscores_start(s.drop_first())
    } else {
        s
    }
}

/// `s` without trailing `_`.
pub open spec fn strip_underscores_end(s: Seq<char>) -> Seq<char>
    decreases s.len(),
{
    if s.len() > 0 && s.last() == '_' {
        strip_underscores_end(s.drop_last())
    } else {
        s
    }
}

/// The chunk name of a path: separators and dots become `_`, and `_` at
/// either end is dropped.
pub open spec fn chunk_name(path: Seq<char>) -> Seq<char> {
    strip_underscores_end(strip_underscores_start(underscored(path)))
}

/// Sanitizes a file path into a valid chunk name.
pub fn sanitize_filename(path: &str) -> (r: String)
    ensures
        r@ == chunk_name(path@),
{
    let p = text::chars_of(path);
    let mut u: Vec<char> = Vec::new();
    let mut i: usize = 0;
    while i < p.len()
        invariant
            i <= p@.len(),
            u@ == underscored(p@.take(i as int)),
        decreases p.len() - i,
    {
        let c = p[i];
        if c == '/' || c == '\\' || c == '.' {
            u.push('_');
        } else {
            u.push(c);
        }
        i += 1;
        proof {
            assert(u@ =~= underscored(p@.take(i as int)));
        }
    }
    proof {
        assert(p@.take(i as int) =~= p@);
    }
    let mut a: usize = 0;
    proof {
        assert(u@.subrange(0, u@.len() as int) =~= u@);
    }
    while a < u.len() && u[a] == '_'
        invariant
            a <= u@.len(),
            strip_underscores_start(u@) == strip_underscores_start(u@.subrange(a as int, u@.len() as int)),
        decreases u.len() - a,
    {
        proof {
            assert(u@.subrange(a as int, u@.len() as int).drop_first() =~= u@.subrange(a + 1, u@.len() as int));
        }
        a += 1;
    }
    let n = u.len();
    let t = text::slice_of(&u, a, n);
    let mut e: usize = t.len();
    proof {
        assert(t@.subrange(0, t@.len() as int) =~= t@);
    }
    while e > 0 && t[e - 1] == '_'
        invariant
            e <= t@.len(),
            strip_underscores_end(t@) == strip_underscores_end(t@.subrange(0, e as int)),
        decreases e,
    {
        proof {
            assert(t@.subrange(0, e as int).drop_last() =~= t@.subrange(0, e - 1));
        }
        e -= 1;
    }
    let r = text::slice_of(&t, 0, e);
    text::string_of(&r)
}

proof fn lemma_strip_start_no_sep(s: Seq<char>)
    requires
        forall|k: int| 0 <= k < s.len() ==> !is_separator(#[trigger] s[k]),
    ensures
        forall|k: int| 0 <= k < strip_underscores_start(s).len() ==> !is_separator(
            #[trigger] strip_underscores_start(s)[k],
        ),
        strip_underscores_start(s).len() == 0 || strip_underscores_start(s)[0] != '_',
    decreases s.len(),
{
    if s.len() > 0 && s[0] == '_' {
        lemma_strip_start_no_sep(s.drop_first());
    }
}

proof fn lemma_strip_end_keeps(s: Seq<char>)
    requires
        forall|k: int| 0 <= k < s.len() ==> !is_separator(#[trigger] s[k]),
        s.len() == 0 || s[0] != '_',
    ensures
        forall|k: int| 0 <= k < strip_underscores_end(s).len() ==> !is_separator(
            #[trigger] strip_underscores_end(s)[k],
        ),
        strip_underscores_end(s).len() == 0 || (strip_underscores_end(s)[0] != '_'
            && strip_underscores_end(s).last() != '_'),
    decreases s.len(),
{
    if s.len() > 0 && s.last() == '_' {
        lemma_strip_end_keeps(s.drop_last());
    }
}

/// A chunk name holds no separator or dot and neither starts nor ends
/// with `_`.
pub proof fn lemma_chunk_name_clean(path: Seq<char>)
    ensures
        forall|k: int| 0 <= k < chunk_name(path).len() ==> !is_separator(#[trigger] chunk_name(path)[k]),
        chunk_name(path).len() == 0 || (chunk_name(path)[0] != '_' && chunk_name(path).last() != '_'),
{
    let u = underscored(path);
    assert forall|k: int| 0 <= k < u.len() implies !is_separator(#[trigger] u[k]) by {}
    lemma_strip_start_no_sep(u);
    lemma_strip_end_keeps(strip_underscores_start(u));
}

/// A resolve alias: a specifier and the paths it resolves to.
pub type Alias = (String, Vec<Option<String>>);

/// The values of an alias.
pub open spec fn alias_view(a: Alias) -> (Seq<char>, Seq<Option<Seq<char>>>) {
    (a.0@, a.1@.map_values(|o: Option<String>| text::opt_view(o)))
}

/// The values of a list of aliases.
pub open spec fn alias_views(v: Seq<Alias>) -> Seq<(Seq<char>, Seq<Option<Seq<char>>>)> {
    v.map_values(|a: Alias| alias_view(a))
}

/// The file of a runtime directory a module stem resolves to: the first
/// of `.ts`, `.tsx`, `.js`, `.jsx` present in the directory.
pub open spec fn runtime_file(stem: Seq<char>, entries: Set<Seq<char>>) -> Option<Seq<char>> {
    if entries.contains(stem + ".ts"@) {
        Some(stem + ".ts"@)
    } else if entries.contains(stem + ".tsx"@) {
        Some(stem + ".tsx"@)
    } else if entries.contains(stem + ".js"@) {
        Some(stem + ".js"@)
    } else if entries.contains(stem + ".jsx"@) {
        Some(stem + ".jsx"@)
    } else {
        None
    }
}

/// The aliases of `(specifier, stem)` mappings onto a runtime directory,
/// in order, for the stems that resolve.
pub open spec fn mapped_aliases(
    dir: Seq<char>,
    mappings: Seq<(Seq<char>, Seq<char>)>,
    entries: Set<Seq<char>>,
) -> Seq<(Seq<char>, Seq<Option<Seq<char>>>)>
    decreases mappings.len(),
{
    if mappings.len() == 0 {
        Seq::empty()
    } else {
        let init = mapped_aliases(dir, mappings.drop_last(), entries);
        match runtime_file(mappings.last().1, entries) {
            Some(f) => init.push((mappings.last().0, seq![Some(paths::join_spec(dir, f))])),
            None => init,
        }
    }
}

/// The client runtime modules behind `rex/*` and `next/*` imports.
pub open spec fn client_mappings() -> Seq<(Seq<char>, Seq<char>)> {
    seq![
        ("rex/link"@, "link"@),
        ("rex/head"@, "head"@),
        ("rex/router"@, "use-router"@),
        ("rex/image"@, "image"@),
        ("next/link"@, "link"@),
        ("next/head"@, "head"@),
        ("next/router"@, "use-router"@),
        ("next/image"@, "image"@),
    ]
}

/// The server runtime modules behind server-side imports.
pub open spec fn server_mappings() -> Seq<(Seq<char>, Seq<char>)> {
    seq![("rex/actions"@, "actions"@)]
}

/// The server runtime stubs that replace client modules in RSC bundles.
pub open spec fn server_overrides() -> Seq<(Seq<char>, Seq<char>)> {
    seq![("rex/link"@, "link"@), ("rex/head"@, "head"@), ("next/link"@, "link"@), ("next/head"@, "head"@)]
}

fn runtime_file_exec(stem: &str, entries: &StringSet) -> (r: Option<String>)
    ensures
        text::opt_view(r) == runtime_file(stem@, entries@),
{
    let mut c = String::from_str(stem);
    c.append(".ts");
    if entries.contains(c.as_str()) {
        return Some(c);
    }
    let mut c = String::from_str(stem);
    c.append(".tsx");
    if entries.contains(c.as_str()) {
        return Some(c);
    }
    let mut c = String::from_str(stem);
    c.append(".js");
    if entries.contains(c.as_str()) {
        return Some(c);
    }
    let mut c = String::from_str(stem);
    c.append(".jsx");
    if entries.contains(c.as_str()) {
        return Some(c);
    }
    None
}

fn push_mapped_aliases(
    aliases: &mut Vec<Alias>,
    dir: &str,
    mappings: &Vec<(&str, &str)>,
    entries: &StringSet,
)
    ensures
        alias_views(final(aliases)@) == alias_views(old(aliases)@) + mapped_aliases(
            dir@,
            mappings@.map_values(|m: (&str, &str)| (m.0@, m.1@)),
            entries@,
        ),
{
    let ghost ms = mappings@.map_values(|m: (&str, &str)| (m.0@, m.1@));
    let ghost base = alias_views(aliases@);
    let mut i: usize = 0;
    proof {
        assert(base + mapped_aliases(dir@, ms.take(0), entries@) =~= base);
    }
    while i < mappings.len()
        invariant
            i <= mappings@.len(),
            ms == mappings@.map_values(|m: (&str, &str)| (m.0@, m.1@)),
            alias_views(aliases@) == base + mapped_aliases(dir@, ms.take(i as int), entries@),
        decreases mappings.len() - i,
    {
        proof {
            assert(ms.take(i + 1).drop_last() =~= ms.take(i as int));
            assert(ms.take(i + 1).last() == ms[i as int]);
        }
        let (spec, stem) = mappings[i];
        match runtime_file_exec(stem, entries) {
            Some(f) => {
                let target = paths::join(dir, f.as_str());
                let ghost before = aliases@;
                let a: Alias = (String::from_str(spec), vec![Some(target)]);
                aliases.push(a);
                proof {
                    assert(aliases@ =~= before.push(a));
                    assert(alias_view(a).1 =~= seq![Some(paths::join_spec(dir@, f@))]);
                    assert(alias_views(aliases@) =~= alias_views(before).push(alias_view(a)));
                }
            },
            None => {},
        }
        i += 1;
    }
    proof {
        assert(ms.take(i as int) =~= ms);
    }
}

/// The aliases of `rex/*` and `next/*` imports for client bundles:
/// the client runtime modules found in the client runtime directory,
/// then `rex/actions` from the server runtime directory.
pub open spec fn rex_aliases(
    client_dir: Seq<char>,
    client_entries: Set<Seq<char>>,
    server_dir: Seq<char>,
    server_entries: Set<Seq<char>>,
) -> Seq<(Seq<char>, Seq<Option<Seq<char>>>)> {
    mapped_aliases(client_dir, client_mappings(), client_entries) + mapped_aliases(
        server_dir,
        server_mappings(),
        server_entries,
    )
}

/// Builds the resolve aliases of `rex/*` and `next/*` built-in imports
/// for client bundles, given the file names present in the client and
/// server runtime directories.
pub fn build_rex_aliases(
    client_dir: &str,
    client_entries: &StringSet,
    server_dir: &str,
    server_entries: &StringSet,
) -> (r: Vec<Alias>)
    ensures
        alias_views(r@) == rex_aliases(client_dir@, client_entries@, server_dir@, server_entries@),
{
    let mut aliases: Vec<Alias> = Vec::new();
    let client: Vec<(&str, &str)> = vec![
        ("rex/link", "link"),
        ("rex/head", "head"),
        ("rex/router", "use-router"),
        ("rex/image", "image"),
        ("next/link", "link"),
        ("next/head", "head"),
        ("next/router", "use-router"),
        ("next/image", "image"),
    ];
    proof {
        assert(client@.map_values(|m: (&str, &str)| (m.0@, m.1@)) =~= client_mappings());
        assert(alias_views(aliases@) =~= Seq::empty());
    }
    push_mapped_aliases(&mut aliases, client_dir, &client, client_entries);
    let server: Vec<(&str, &str)> = vec![("rex/actions", "actions")];
    proof {
        assert(server@.map_values(|m: (&str, &str)| (m.0@, m.1@)) =~= server_mappings());
    }
    push_mapped_aliases(&mut aliases, server_dir, &server, server_entries);
    aliases
}

/// `aliases` without the entries of `spec`.
pub open spec fn without_spec(
    aliases: Seq<(Seq<char>, Seq<Option<Seq<char>>>)>,
    spec: Seq<char>,
) -> Seq<(Seq<char>, Seq<Option<Seq<char>>>)>
    decreases aliases.len(),
{
    if aliases.len() == 0 {
        aliases
    } else {
        let init = without_spec(aliases.drop_last(), spec);
        if aliases.last().0 != spec {
            init.push(aliases.last())
        } else {
            init
        }
    }
}

/// The server overrides applied in order: each override found in the
/// server runtime directory replaces every alias of its specifier and is
/// appended.
pub open spec fn apply_overrides(
    aliases: Seq<(Seq<char>, Seq<Option<Seq<char>>>)>,
    server_dir: Seq<char>,
    overrides: Seq<(Seq<char>, Seq<char>)>,
    server_entries: Set<Seq<char>>,
) -> Seq<(Seq<char>, Seq<Option<Seq<char>>>)>
    decreases overrides.len(),
{
    if overrides.len() == 0 {
        aliases
    } else {
        let init = apply_overrides(aliases, server_dir, overrides.drop_last(), server_entries);
        match runtime_file(overrides.last().1, server_entries) {
            Some(f) => without_spec(init, overrides.last().0).push(
                (overrides.last().0, seq![Some(paths::join_spec(server_dir, f))]),
            ),
            None => init,
        }
    }
}

fn retain_other_specs(aliases: &mut Vec<Alias>, spec: &str)
    ensures
        alias_views(final(aliases)@) == without_spec(alias_views(old(aliases)@), spec@),
{
    let ghost ov = alias_views(aliases@);
    let mut stack: Vec<Alias> = Vec::new();
    while aliases.len() > 0
        invariant
            alias_views(aliases@) + alias_views(stack@).reverse() == ov,
        decreases aliases.len(),
    {
        let ghost before = aliases@;
        let ghost sb = stack@;
        let a = aliases.pop().unwrap();
        stack.push(a);
        proof {
            assert(before =~= aliases@.push(a));
            assert(alias_views(before) =~= alias_views(aliases@).push(alias_view(a)));
            assert(alias_views(stack@) =~= alias_views(sb).push(alias_view(a)));
            assert(alias_views(stack@).reverse() =~= seq![alias_view(a)] + alias_views(sb).reverse());
            assert(alias_views(aliases@) + alias_views(stack@).reverse() =~= alias_views(before) + alias_views(sb).reverse());
        }
    }
    proof {
        assert(alias_views(stack@).reverse() == ov);
        assert(alias_views(aliases@) =~= without_spec(ov.take(0), spec@));
    }
    let ghost n = ov.len();
    while stack.len() > 0
        invariant
            stack@.len() <= n,
            n == ov.len(),
            alias_views(stack@).reverse() == ov.skip(n - stack@.len()),
            alias_views(aliases@) == without_spec(ov.take(n - stack@.len()), spec@),
        decreases stack.len(),
    {
        let ghost sb = stack@;
        let ghost done = n - sb.len();
        let a = stack.pop().unwrap();
        proof {
            assert(sb =~= stack@.push(a));
            assert(alias_views(sb) =~= alias_views(stack@).push(alias_view(a)));
            assert(alias_views(sb).reverse() =~= seq![alias_view(a)] + alias_views(stack@).reverse());
            assert(ov.skip(done)[0] == alias_view(a));
            assert(ov[done] == alias_view(a));
            assert(ov.skip(done).drop_first() =~= ov.skip(done + 1));
            assert((seq![alias_view(a)] + alias_views(stack@).reverse()).drop_first() =~= alias_views(stack@).reverse());
            assert(alias_views(stack@).reverse() =~= ov.skip(done + 1));
            assert(ov.take(done + 1).drop_last() =~= ov.take(done));
            assert(ov.take(done + 1).last() == alias_view(a));
        }
        if !text::str_eq(a.0.as_str(), spec) {
            let ghost ab = aliases@;
            aliases.push(a);
            proof {
                assert(alias_views(aliases@) =~= alias_views(ab).push(alias_view(a)));
            }
        }
    }
    proof {
        assert(ov.take(n as int) =~= ov);
    }
}

fn push_overrides(aliases: &mut Vec<Alias>, dir: &str, overrides: &Vec<(&str, &str)>, entries: &StringSet)
    ensures
        alias_views(final(aliases)@) == apply_overrides(
            alias_views(old(aliases)@),
            dir@,
            overrides@.map_values(|m: (&str, &str)| (m.0@, m.1@)),
            entries@,
        ),
{
    let ghost ms = overrides@.map_values(|m: (&str, &str)| (m.0@, m.1@));
    let ghost base = alias_views(aliases@);
    let mut i: usize = 0;
    proof {
        assert(ms.take(0) =~= Seq::<(Seq<char>, Seq<char>)>::empty());
    }
    while i < overrides.len()
        invariant
            i <= overrides@.len(),
            ms == overrides@.map_values(|m: (&str, &str)| (m.0@, m.1@)),
            alias_views(aliases@) == apply_overrides(base, dir@, ms.take(i as int), entries@),
        decreases overrides.len() - i,
    {
        proof {
            assert(ms.take(i + 1).drop_last() =~= ms.take(i as int));
            assert(ms.take(i + 1).last() == ms[i as int]);
        }
        let (spec, stem) = overrides[i];
        match runtime_file_exec(stem, entries) {
            Some(f) => {
                retain_other_specs(aliases, spec);
                let target = paths::join(dir, f.as_str());
                let ghost before = aliases@;
                let a: Alias = (String::from_str(spec), vec![Some(target)]);
                aliases.push(a);
                proof {
                    assert(alias_view(a).1 =~= seq![Some(paths::join_spec(dir@, f@))]);
                    assert(alias_views(aliases@) =~= alias_views(before).push(alias_view(a)));
                }
            },
            None => {},
        }
        i += 1;
    }
    proof {
        assert(ms.take(i as int) =~= ms);
    }
}

/// The aliases for RSC server bundles: the client aliases, with `rex/link`,
/// `rex/head` and their `next/*` equivalents replaced by the server
/// runtime stubs found in the server runtime directory.
pub fn build_rex_server_aliases(
    client_dir: &str,
    client_entries: &StringSet,
    server_dir: &str,
    server_entries: &StringSet,
) -> (r: Vec<Alias>)
    ensures
        alias_views(r@) == apply_overrides(
            rex_aliases(client_dir@, client_entries@, server_dir@, server_entries@),
            server_dir@,
            server_overrides(),
            server_entries@,
        ),
{
    let mut aliases = build_rex_aliases(client_dir, client_entries, server_dir, server_entries);
    let overrides: Vec<(&str, &str)> = vec![("rex/link", "link"), ("rex/head", "head"), ("next/link", "link"), ("next/head", "head")];
    proof {
        assert(overrides@.map_values(|m: (&str, &str)| (m.0@, m.1@)) =~= server_overrides());
    }
    push_overrides(&mut aliases, server_dir, &overrides, server_entries);
    aliases
}

} // verus!
