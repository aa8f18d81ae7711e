//! Resolve aliases and directories of the RSC server bundle: the aliases
//! shared by every server bundle, React's server bridge for the core
//! bundle, React's group shims for the route group bundles, and the
//! `"use client"` stub overrides that every bundle ends with.
use vstd::prelude::*;
use crate::text;
use crate::paths::{self, join, join_spec};
use crate::rsc_build_config::{Alias, alias_view, alias_views, without_spec};

verus! {

/// Where the client assets of a build live, given its root:
/// `{build_root}/client/assets`.
pub open spec fn client_assets_spec(build_root: Seq<char>) -> Seq<char> {
    join_spec(join_spec(build_root, "client"@), "assets"@)
}

/// The build root above a server RSC output directory
/// (`{build_root}/server/rsc`): its grandparent, or the directory itself
/// where it has none.
pub open spec fn build_root_of(server_rsc_dir: Seq<char>) -> Seq<char> {
    match paths::path_parent(server_rsc_dir) {
        Some(server) => match paths::path_parent(server) {
            Some(root) => root,
            None => server_rsc_dir,
        },
        None => server_rsc_dir,
    }
}

/// The client asset directory of a build root.
pub fn client_assets_dir(build_root: &str) -> (r: String)
    ensures
        r@ == client_assets_spec(build_root@),
{
    let c = join(build_root, "client");
    join(c.as_str(), "assets")
}

/// The client asset output directory of a build, from its server RSC
/// output directory: `{build_root}/server/rsc` gives
/// `{build_root}/client/assets`.
pub fn client_asset_dir_from(server_rsc_dir: &str) -> (r: String)
    ensures
        r@ == client_assets_spec(build_root_of(server_rsc_dir@)),
{
    let root = match paths::parent(server_rsc_dir) {
        Some(server) => match paths::parent(server.as_str()) {
            Some(root) => root,
            None => String::from_str(server_rsc_dir),
        },
        None => String::from_str(server_rsc_dir),
    };
    client_assets_dir(root.as_str())
}

/// The alias of `spec` to the single file `target`.
pub open spec fn file_alias(spec: Seq<char>, target: Seq<char>) -> (Seq<char>, Seq<Option<Seq<char>>>) {
    (spec, seq![Some(target)])
}

fn push_file_alias(aliases: &mut Vec<Alias>, spec: &str, target: String)
    ensures
        alias_views(final(aliases)@) == alias_views(old(aliases)@).push(file_alias(spec@, target@)),
{
    let ghost before = aliases@;
    let a: Alias = (String::from_str(spec), vec![Some(target)]);
    aliases.push(a);
    proof {
        assert(alias_view(a).1 =~= seq![Some(target@)]);
        assert(alias_views(aliases@) =~= alias_views(before).push(file_alias(spec@, target@)));
    }
}

/// The group shims: `react`, `react/jsx-runtime` and
/// `react/jsx-dev-runtime` resolved to shims that read React from
/// `globalThis.__rex_react_ns`, set by the core bundle.
pub open spec fn react_group_aliases(runtime_dir: Seq<char>) -> Seq<(Seq<char>, Seq<Option<Seq<char>>>)> {
    seq![
        file_alias("react"@, join_spec(runtime_dir, "react-group-shim.ts"@)),
        file_alias("react/jsx-runtime"@, join_spec(runtime_dir, "react-jsx-group-shim.ts"@)),
        file_alias("react/jsx-dev-runtime"@, join_spec(runtime_dir, "react-jsx-dev-group-shim.ts"@)),
    ]
}

/// Appends the React group shim aliases for a route group bundle.
pub fn add_react_group_aliases(aliases: &mut Vec<Alias>, runtime_dir: &str)
    ensures
        alias_views(final(aliases)@) == alias_views(old(aliases)@) + react_group_aliases(runtime_dir@),
{
    let ghost a0 = alias_views(aliases@);
    push_file_alias(aliases, "react", join(runtime_dir, "react-group-shim.ts"));
    push_file_alias(aliases, "react/jsx-runtime", join(runtime_dir, "react-jsx-group-shim.ts"));
    push_file_alias(aliases, "react/jsx-dev-runtime", join(runtime_dir, "react-jsx-dev-group-shim.ts"));
    proof {
        assert(alias_views(aliases@) =~= a0 + react_group_aliases(runtime_dir@));
    }
}

/// React's server build in the project, for the development or the
/// production variant.
pub open spec fn react_server_cjs(project_root: Seq<char>, dev: bool) -> Seq<char> {
    join_spec(
        project_root,
        "node_modules/react/cjs/react.react-server."@ + (if dev {
            "development"@
        } else {
            "production"@
        }) + ".js"@,
    )
}

/// The server bridge in the runtime directory.
pub open spec fn react_server_bridge(runtime_dir: Seq<char>) -> Seq<char> {
    join_spec(runtime_dir, "react-server-bridge.ts"@)
}

/// The two files the core bundle's React aliases point at: the server
/// bridge and React's server build. The aliases are added only where both
/// exist.
pub fn react_core_alias_files(runtime_dir: &str, project_root: &str, dev: bool) -> (r: (String, String))
    ensures
        r.0@ == react_server_bridge(runtime_dir@),
        r.1@ == react_server_cjs(project_root@, dev),
{
    let bridge = join(runtime_dir, "react-server-bridge.ts");
    let mut rel = String::from_str("node_modules/react/cjs/react.react-server.");
    if dev {
        rel.append("development");
    } else {
        rel.append("production");
    }
    rel.append(".js");
    let cjs = join(project_root, rel.as_str());
    (bridge, cjs)
}

/// The React aliases of the core bundle: `react` to the server bridge and
/// `react-server-cjs-internal` to React's server build, when both files
/// exist; none otherwise.
pub open spec fn react_core_aliases(
    runtime_dir: Seq<char>,
    project_root: Seq<char>,
    dev: bool,
    files_exist: bool,
) -> Seq<(Seq<char>, Seq<Option<Seq<char>>>)> {
    if files_exist {
        seq![
            file_alias("react"@, react_server_bridge(runtime_dir)),
            file_alias("react-server-cjs-internal"@, react_server_cjs(project_root, dev)),
        ]
    } else {
        Seq::empty()
    }
}

/// Appends the React server bridge aliases of the core (or single)
/// bundle; `files_exist` says whether both files of
/// `react_core_alias_files` exist.
pub fn add_react_core_aliases(
    aliases: &mut Vec<Alias>,
    runtime_dir: &str,
    project_root: &str,
    dev: bool,
    files_exist: bool,
)
    ensures
        alias_views(final(aliases)@) == alias_views(old(aliases)@) + react_core_aliases(
            runtime_dir@,
            project_root@,
            dev,
            files_exist,
        ),
{
    let ghost a0 = alias_views(aliases@);
    if files_exist {
        let (bridge, cjs) = react_core_alias_files(runtime_dir, project_root, dev);
        push_file_alias(aliases, "react", bridge);
        push_file_alias(aliases, "react-server-cjs-internal", cjs);
    }
    proof {
        assert(alias_views(aliases@) =~= a0 + react_core_aliases(runtime_dir@, project_root@, dev, files_exist));
    }
}

/// `aliases` without the entries whose specifier is one of `keys`.
pub open spec fn without_specs(
    aliases: Seq<(Seq<char>, Seq<Option<Seq<char>>>)>,
    keys: Seq<Seq<char>>,
) -> Seq<(Seq<char>, Seq<Option<Seq<char>>>)>
    decreases aliases.len(),
{
    if aliases.len() == 0 {
        aliases
    } else {
        let init = without_specs(aliases.drop_last(), keys);
        if keys.contains(aliases.last().0) {
            init
        } else {
            init.push(aliases.last())
        }
    }
}

/// The stub aliases: each stubbed module path resolved to its stub.
pub open spec fn stub_alias_views(stubs: Seq<(String, String)>) -> Seq<(Seq<char>, Seq<Option<Seq<char>>>)> {
    stubs.map_values(|s: (String, String)| file_alias(s.0@, s.1@))
}

/// The module paths the stubs stand for.
pub open spec fn stub_keys(stubs: Seq<(String, String)>) -> Seq<Seq<char>> {
    stubs.map_values(|s: (String, String)| s.0@)
}

fn retain_without(aliases: &mut Vec<Alias>, keys: &Vec<String>)
    ensures
        alias_views(final(aliases)@) == without_specs(alias_views(old(aliases)@), text::views(keys@)),
{
    let ghost ov = alias_views(aliases@);
    let ghost ks = text::views(keys@);
    let mut stack: Vec<Alias> = Vec::new();
    while aliases.len() > 0
        invariant
            alias_views(aliases@) + alias_views(stack@).reverse() == ov,
        decreases aliases.len(),
    {
        let ghost before = aliases@;
        let ghost sb = stack@;
        let a = aliases.pop().unwrap();
        stack.push(a);
        proof {
            assert(before =~= aliases@.push(a));
            assert(alias_views(before) =~= alias_views(aliases@).push(alias_view(a)));
            assert(alias_views(stack@) =~= alias_views(sb).push(alias_view(a)));
            assert(alias_views(stack@).reverse() =~= seq![alias_view(a)] + alias_views(sb).reverse());
            assert(alias_views(aliases@) + alias_views(stack@).reverse() =~= alias_views(before) + alias_views(sb).reverse());
        }
    }
    proof {
        assert(alias_views(stack@).reverse() == ov);
        assert(alias_views(aliases@) =~= without_specs(ov.take(0), ks));
    }
    let ghost n = ov.len();
    while stack.len() > 0
        invariant
            stack@.len() <= n,
            n == ov.len(),
            ks == text::views(keys@),
            alias_views(stack@).reverse() == ov.skip(n - stack@.len()),
            alias_views(aliases@) == without_specs(ov.take(n - stack@.len()), ks),
        decreases stack.len(),
    {
        let ghost sb = stack@;
        let ghost done = n - sb.len();
        let a = stack.pop().unwrap();
        proof {
            assert(sb =~= stack@.push(a));
            assert(alias_views(sb) =~= alias_views(stack@).push(alias_view(a)));
            assert(alias_views(sb).reverse() =~= seq![alias_view(a)] + alias_views(stack@).reverse());
            assert(ov.skip(done)[0] == alias_view(a));
            assert(ov[done] == alias_view(a));
            assert(ov.skip(done).drop_first() =~= ov.skip(done + 1));
            assert((seq![alias_view(a)] + alias_views(stack@).reverse()).drop_first() =~= alias_views(stack@).reverse());
            assert(alias_views(stack@).reverse() =~= ov.skip(done + 1));
            assert(ov.take(done + 1).drop_last() =~= ov.take(done));
            assert(ov.take(done + 1).last() == alias_view(a));
        }
        if !text::contains_string(keys, a.0.as_str()) {
            let ghost ab = aliases@;
            aliases.push(a);
            proof {
                assert(alias_views(aliases@) =~= alias_views(ab).push(alias_view(a)));
            }
        }
    }
    proof {
        assert(ov.take(n as int) =~= ov);
    }
}

/// Applies the `"use client"` stub overrides: every alias of a stubbed
/// module is dropped, then each stubbed module is aliased to its stub, so
/// that the stubs come last and take priority.
pub fn apply_stub_overrides(aliases: &mut Vec<Alias>, stub_aliases: &[(String, String)])
    ensures
        alias_views(final(aliases)@) == without_specs(alias_views(old(aliases)@), stub_keys(stub_aliases@))
            + stub_alias_views(stub_aliases@),
{
    let mut keys: Vec<String> = Vec::new();
    let mut i: usize = 0;
    while i < stub_aliases.len()
        invariant
            i <= stub_aliases@.len(),
            keys@.len() == i,
            text::views(keys@) == stub_keys(stub_aliases@).take(i as int),
        decreases stub_aliases.len() - i,
    {
        let ghost k0 = keys@;
        keys.push(String::from_str(stub_aliases[i].0.as_str()));
        proof {
            assert(keys@ == k0.push(keys@[i as int]));
            assert(text::views(keys@) =~= text::views(k0).push(stub_aliases@[i as int].0@));
            assert(stub_keys(stub_aliases@).take(i + 1) =~= stub_keys(stub_aliases@).take(i as int).push(
                stub_aliases@[i as int].0@,
            ));
        }
        i += 1;
    }
    proof {
        assert(stub_keys(stub_aliases@).take(i as int) =~= stub_keys(stub_aliases@));
    }
    retain_without(aliases, &keys);
    let ghost kept = alias_views(aliases@);
    let mut j: usize = 0;
    while j < stub_aliases.len()
        invariant
            j <= stub_aliases@.len(),
            alias_views(aliases@) == kept + stub_alias_views(stub_aliases@).take(j as int),
        decreases stub_aliases.len() - j,
    {
        push_file_alias(aliases, stub_aliases[j].0.as_str(), String::from_str(stub_aliases[j].1.as_str()));
        proof {
            assert(stub_alias_views(stub_aliases@).take(j + 1) =~= stub_alias_views(stub_aliases@).take(
                j as int,
            ).push(file_alias(stub_aliases@[j as int].0@, stub_aliases@[j as int].1@)));
            assert(alias_views(aliases@) =~= kept + stub_alias_views(stub_aliases@).take(j + 1));
        }
        j += 1;
    }
    proof {
        assert(stub_alias_views(stub_aliases@).take(j as int) =~= stub_alias_views(stub_aliases@));
    }
}

/// The react-dom stub of the flight bundle: `react-dom`,
/// `react-dom/client` and `react-dom/server` resolved to it, when it
/// exists.
pub open spec fn react_dom_stub_aliases(runtime_dir: Seq<char>, stub_exists: bool) -> Seq<
    (Seq<char>, Seq<Option<Seq<char>>>),
> {
    let stub = join_spec(runtime_dir, "react-dom-server-stub.ts"@);
    if stub_exists {
        seq![
            file_alias("react-dom"@, stub),
            file_alias("react-dom/client"@, stub),
            file_alias("react-dom/server"@, stub),
        ]
    } else {
        Seq::empty()
    }
}

/// The base aliases of every RSC server bundle, in order: the server
/// `rex/*` aliases, the Node polyfills, the compiled MDX files, the
/// tsconfig path aliases but `rex`, and the react-dom stub.
pub open spec fn base_aliases(
    server_aliases: Seq<(Seq<char>, Seq<Option<Seq<char>>>)>,
    polyfills: Seq<(Seq<char>, Seq<Option<Seq<char>>>)>,
    mdx_aliases: Seq<(Seq<char>, Seq<Option<Seq<char>>>)>,
    tsconfig_aliases: Seq<(Seq<char>, Seq<Option<Seq<char>>>)>,
    runtime_dir: Seq<char>,
    react_dom_stub_exists: bool,
) -> Seq<(Seq<char>, Seq<Option<Seq<char>>>)> {
    server_aliases + polyfills + mdx_aliases + without_spec(tsconfig_aliases, "rex"@) + react_dom_stub_aliases(
        runtime_dir,
        react_dom_stub_exists,
    )
}

fn append_aliases(aliases: &mut Vec<Alias>, more: Vec<Alias>)
    ensures
        alias_views(final(aliases)@) == alias_views(old(aliases)@) + alias_views(more@),
{
    let mut more = more;
    let ghost a0 = alias_views(aliases@);
    let ghost m0 = alias_views(more@);
    aliases.append(&mut more);
    proof {
        assert(alias_views(aliases@) =~= a0 + m0);
    }
}

/// Builds the base aliases shared by all RSC server bundles (the React
/// aliases, which differ per bundle, and the stub overrides come after).
/// `react_dom_stub_exists` says whether `react-dom-server-stub.ts` is in
/// the runtime directory.
pub fn build_base_aliases(
    server_aliases: Vec<Alias>,
    polyfills: Vec<Alias>,
    mdx_aliases: Vec<Alias>,
    tsconfig_aliases: Vec<Alias>,
    runtime_dir: &str,
    react_dom_stub_exists: bool,
) -> (r: Vec<Alias>)
    ensures
        alias_views(r@) == base_aliases(
            alias_views(server_aliases@),
            alias_views(polyfills@),
            alias_views(mdx_aliases@),
            alias_views(tsconfig_aliases@),
            runtime_dir@,
            react_dom_stub_exists,
        ),
{
    let ghost sv = alias_views(server_aliases@);
    let ghost pv = alias_views(polyfills@);
    let ghost mv = alias_views(mdx_aliases@);
    let ghost tv0 = alias_views(tsconfig_aliases@);
    let mut aliases = server_aliases;
    append_aliases(&mut aliases, polyfills);
    append_aliases(&mut aliases, mdx_aliases);
    let mut ts = tsconfig_aliases;
    let rex = vec![String::from_str("rex")];
    let ghost tv = alias_views(ts@);
    retain_without(&mut ts, &rex);
    proof {
        lemma_without_one(tv, "rex"@);
        assert(text::views(rex@) =~= seq!["rex"@]);
    }
    append_aliases(&mut aliases, ts);
    if react_dom_stub_exists {
        let stub = join(runtime_dir, "react-dom-server-stub.ts");
        push_file_alias(&mut aliases, "react-dom", String::from_str(stub.as_str()));
        push_file_alias(&mut aliases, "react-dom/client", String::from_str(stub.as_str()));
        push_file_alias(&mut aliases, "react-dom/server", stub);
    }
    proof {
        assert(alias_views(aliases@) =~= base_aliases(sv, pv, mv, tv0, runtime_dir@, react_dom_stub_exists));
    }
    aliases
}

/// Dropping the aliases of the one key `spec` is dropping those of `spec`.
proof fn lemma_without_one(aliases: Seq<(Seq<char>, Seq<Option<Seq<char>>>)>, spec: Seq<char>)
    ensures
        without_specs(aliases, seq![spec]) == without_spec(aliases, spec),
    decreases aliases.len(),
{
    if aliases.len() > 0 {
        lemma_without_one(aliases.drop_last(), spec);
        assert(seq![spec].contains(aliases.last().0) <==> aliases.last().0 == spec) by {
            if seq![spec].contains(aliases.last().0) {
                let k = choose|k: int| 0 <= k < 1 && seq![spec][k] == aliases.last().0;
            }
            if aliases.last().0 == spec {
                assert(seq![spec][0] == spec);
            }
        }
    }
}


proof fn lemma_without_specs_drops(aliases: Seq<(Seq<char>, Seq<Option<Seq<char>>>)>, keys: Seq<Seq<char>>)
    ensures
        forall|j: int| 0 <= j < without_specs(aliases, keys).len() ==> !keys.contains(
            #[trigger] without_specs(aliases, keys)[j].0,
        ),
    decreases aliases.len(),
{
    if aliases.len() > 0 {
        lemma_without_specs_drops(aliases.drop_last(), keys);
        let init = without_specs(aliases.drop_last(), keys);
        assert forall|j: int| 0 <= j < without_specs(aliases, keys).len() implies !keys.contains(
            #[trigger] without_specs(aliases, keys)[j].0,
        ) by {
            if j < init.len() {
                assert(without_specs(aliases, keys)[j] == init[j]);
            }
        }
    }
}

/// The stubs take priority: once the overrides are applied, every alias of
/// a stubbed module is one of the stubs appended at the end; none of the
/// earlier aliases of it is left.
pub proof fn lemma_stubs_take_priority(
    aliases: Seq<(Seq<char>, Seq<Option<Seq<char>>>)>,
    stubs: Seq<(String, String)>,
    i: int,
)
    requires
        0 <= i < (without_specs(aliases, stub_keys(stubs)) + stub_alias_views(stubs)).len(),
        stub_keys(stubs).contains((without_specs(aliases, stub_keys(stubs)) + stub_alias_views(stubs))[i].0),
    ensures
        i >= without_specs(aliases, stub_keys(stubs)).len(),
        (without_specs(aliases, stub_keys(stubs)) + stub_alias_views(stubs))[i] == file_alias(
            stubs[i - without_specs(aliases, stub_keys(stubs)).len()].0@,
            stubs[i - without_specs(aliases, stub_keys(stubs)).len()].1@,
        ),
{
    lemma_without_specs_drops(aliases, stub_keys(stubs));
    let kept = without_specs(aliases, stub_keys(stubs));
    if i < kept.len() {
        assert((kept + stub_alias_views(stubs))[i] == kept[i]);
    }
}

} // verus!
