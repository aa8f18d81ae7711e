//! Resolve aliases of Node.js built-ins and framework modules onto the
//! server runtime's polyfill files; tsconfig path aliases; the chunk names
//! of pages.
use vstd::prelude::*;
use crate::text;
use crate::paths;
use crate::string_set::StringSet;
use crate::rsc_build_config::{Alias, alias_view, alias_views};

verus! {

/// Node.js built-ins and their polyfill files; each is aliased both bare
/// and with the `node:` prefix.
pub open spec fn node_builtins() -> Seq<(Seq<char>, Seq<char>)> {
    seq![
        ("process"@, "process.ts"@), ("fs"@, "fs.ts"@), ("fs/promises"@, "fs-promises.ts"@),
        ("path"@, "path.ts"@), ("buffer"@, "buffer.ts"@), ("crypto"@, "crypto.ts"@),
        ("events"@, "events.cjs"@), ("net"@, "net.ts"@), ("tls"@, "tls.ts"@), ("dns"@, "dns.ts"@),
        ("os"@, "os.ts"@), ("stream"@, "stream.ts"@), ("string_decoder"@, "string_decoder.ts"@),
        ("util"@, "util.ts"@), ("url"@, "url-module.ts"@), ("stream/web"@, "stream-web.ts"@),
        ("child_process"@, "child_process.ts"@), ("assert"@, "assert.ts"@), ("module"@, "module.ts"@),
        ("http"@, "http.ts"@), ("https"@, "https.ts"@), ("zlib"@, "zlib.ts"@),
        ("worker_threads"@, "worker_threads.ts"@), ("http2"@, "http2.ts"@), ("tty"@, "tty.ts"@),
        ("readline"@, "readline.ts"@), ("querystring"@, "querystring.ts"@),
    ]
}

/// Other specifiers aliased unconditionally.
pub open spec fn other_polyfills() -> Seq<(Seq<char>, Seq<char>)> {
    seq![
        ("cloudflare:sockets"@, "cloudflare-sockets.ts"@), ("file-type"@, "file-type.ts"@),
        ("file-type/core"@, "file-type.ts"@), ("file-type/core.js"@, "file-type.ts"@), ("sharp"@, "sharp.ts"@),
    ]
}

/// Framework modules aliased when their file exists in the runtime.
pub open spec fn next_mappings() -> Seq<(Seq<char>, Seq<char>)> {
    seq![
        ("next/link"@, "next-link.ts"@), ("next/image"@, "next-image.ts"@), ("next/head"@, "head.ts"@),
        ("next/router"@, "next-router.ts"@), ("next/navigation"@, "next-navigation.ts"@),
        ("next/headers"@, "next-headers.ts"@), ("next/cache"@, "next-cache.ts"@),
        ("next/server"@, "next-server.ts"@), ("next/font/google"@, "next-font.ts"@),
        ("next/font/local"@, "next-font.ts"@), ("next/dynamic"@, "next-dynamic.ts"@),
        ("@vercel/og"@, "empty.ts"@), ("next/og"@, "empty.ts"@),
    ]
}

/// An alias of a specifier onto a file of the runtime directory.
pub open spec fn file_alias(dir: Seq<char>, spec: Seq<char>, file: Seq<char>) -> (Seq<char>, Seq<Option<Seq<char>>>) {
    (spec, seq![Some(paths::join_spec(dir, file))])
}

/// The aliases of the built-ins: bare and `node:` prefixed, in order.
pub open spec fn builtin_aliases(dir: Seq<char>, b: Seq<(Seq<char>, Seq<char>)>) -> Seq<(Seq<char>, Seq<Option<Seq<char>>>)>
    decreases b.len(),
{
    if b.len() == 0 {
        Seq::empty()
    } else {
        builtin_aliases(dir, b.drop_last()).push(file_alias(dir, b.last().0, b.last().1)).push(
            file_alias(dir, "node:"@ + b.last().0, b.last().1),
        )
    }
}

/// The aliases of a table, each kept when `keep` holds of its file.
pub open spec fn table_aliases(
    dir: Seq<char>,
    t: Seq<(Seq<char>, Seq<char>)>,
    entries: Set<Seq<char>>,
    filtered: bool,
) -> Seq<(Seq<char>, Seq<Option<Seq<char>>>)>
    decreases t.len(),
{
    if t.len() == 0 {
        Seq::empty()
    } else {
        let init = table_aliases(dir, t.drop_last(), entries, filtered);
        if !filtered || entries.contains(t.last().1) {
            init.push(file_alias(dir, t.last().0, t.last().1))
        } else {
            init
        }
    }
}

/// The polyfill aliases of server bundles onto a runtime directory whose
/// file names are `entries`.
pub open spec fn polyfill_aliases(dir: Seq<char>, entries: Set<Seq<char>>) -> Seq<(Seq<char>, Seq<Option<Seq<char>>>)> {
    builtin_aliases(dir, node_builtins()) + table_aliases(dir, other_polyfills(), entries, false) + table_aliases(
        dir,
        next_mappings(),
        entries,
        true,
    )
}

pub(crate) fn push_alias(aliases: &mut Vec<Alias>, dir: &str, spec: &str, file: &str)
    ensures
        alias_views(final(aliases)@) == alias_views(old(aliases)@).push(file_alias(dir@, spec@, file@)),
{
    let target = paths::join(dir, file);
    let a: Alias = (String::from_str(spec), vec![Some(target)]);
    let ghost before = aliases@;
    aliases.push(a);
    proof {
        assert(alias_view(a).1 =~= seq![Some(paths::join_spec(dir@, file@))]);
        assert(alias_views(aliases@) =~= alias_views(before).push(alias_view(a)));
    }
}

/// The values of a table of string pairs.
pub open spec fn pairs_view(t: Seq<(&str, &str)>) -> Seq<(Seq<char>, Seq<char>)> {
    t.map_values(|m: (&str, &str)| (m.0@, m.1@))
}

/// Node.js polyfill aliases for server-side bundles, onto the server
/// runtime directory `runtime_dir` whose file names are `runtime_entries`:
/// every built-in bare and `node:` prefixed, the other polyfills, and the
/// framework modules whose file is present.
pub fn node_polyfill_aliases(runtime_dir: &str, runtime_entries: &StringSet) -> (r: Vec<Alias>)
    ensures
        alias_views(r@) == polyfill_aliases(runtime_dir@, runtime_entries@),
{
    let builtins: Vec<(&str, &str)> = vec![
        ("process", "process.ts"), ("fs", "fs.ts"), ("fs/promises", "fs-promises.ts"),
        ("path", "path.ts"), ("buffer", "buffer.ts"), ("crypto", "crypto.ts"),
        ("events", "events.cjs"), ("net", "net.ts"), ("tls", "tls.ts"), ("dns", "dns.ts"),
        ("os", "os.ts"), ("stream", "stream.ts"), ("string_decoder", "string_decoder.ts"),
        ("util", "util.ts"), ("url", "url-module.ts"), ("stream/web", "stream-web.ts"),
        ("child_process", "child_process.ts"), ("assert", "assert.ts"), ("module", "module.ts"),
        ("http", "http.ts"), ("https", "https.ts"), ("zlib", "zlib.ts"),
        ("worker_threads", "worker_threads.ts"), ("http2", "http2.ts"), ("tty", "tty.ts"),
        ("readline", "readline.ts"), ("querystring", "querystring.ts"),
    ];
    let others: Vec<(&str, &str)> = vec![
        ("cloudflare:sockets", "cloudflare-sockets.ts"), ("file-type", "file-type.ts"),
        ("file-type/core", "file-type.ts"), ("file-type/core.js", "file-type.ts"), ("sharp", "sharp.ts"),
    ];
    let next: Vec<(&str, &str)> = vec![
        ("next/link", "next-link.ts"), ("next/image", "next-image.ts"), ("next/head", "head.ts"),
        ("next/router", "next-router.ts"), ("next/navigation", "next-navigation.ts"),
        ("next/headers", "next-headers.ts"), ("next/cache", "next-cache.ts"),
        ("next/server", "next-server.ts"), ("next/font/google", "next-font.ts"),
        ("next/font/local", "next-font.ts"), ("next/dynamic", "next-dynamic.ts"),
        ("@vercel/og", "empty.ts"), ("next/og", "empty.ts"),
    ];
    let ghost bv = pairs_view(builtins@);
    let ghost ov = pairs_view(others@);
    let ghost nv = pairs_view(next@);
    proof {
        assert(bv =~= node_builtins());
        assert(ov =~= other_polyfills());
        assert(nv =~= next_mappings());
    }
    let mut aliases: Vec<Alias> = Vec::new();
    let mut i: usize = 0;
    proof {
        assert(alias_views(aliases@) =~= builtin_aliases(runtime_dir@, bv.take(0)));
    }
    while i < builtins.len()
        invariant
            i <= builtins@.len(),
            bv == pairs_view(builtins@),
            alias_views(aliases@) == builtin_aliases(runtime_dir@, bv.take(i as int)),
        decreases builtins.len() - i,
    {
        proof {
            assert(bv.take(i + 1).drop_last() =~= bv.take(i as int));
            assert(bv.take(i + 1).last() == bv[i as int]);
        }
        let (name, file) = builtins[i];
        push_alias(&mut aliases, runtime_dir, name, file);
        let mut prefixed = String::from_str("node:");
        prefixed.append(name);
        push_alias(&mut aliases, runtime_dir, prefixed.as_str(), file);
        i += 1;
    }
    let ghost head = alias_views(aliases@);
    proof {
        assert(bv.take(i as int) =~= bv);
        assert(head + table_aliases(runtime_dir@, ov.take(0), runtime_entries@, false) =~= head);
    }
    let mut j: usize = 0;
    while j < others.len()
        invariant
            j <= others@.len(),
            ov == pairs_view(others@),
            alias_views(aliases@) == head + table_aliases(runtime_dir@, ov.take(j as int), runtime_entries@, false),
        decreases others.len() - j,
    {
        proof {
            assert(ov.take(j + 1).drop_last() =~= ov.take(j as int));
            assert(ov.take(j + 1).last() == ov[j as int]);
        }
        let (name, file) = others[j];
        push_alias(&mut aliases, runtime_dir, name, file);
        j += 1;
    }
    let ghost mid = alias_views(aliases@);
    proof {
        assert(ov.take(j as int) =~= ov);
        assert(mid + table_aliases(runtime_dir@, nv.take(0), runtime_entries@, true) =~= mid);
    }
    let mut k: usize = 0;
    while k < next.len()
        invariant
            k <= next@.len(),
            nv == pairs_view(next@),
            alias_views(aliases@) == mid + table_aliases(runtime_dir@, nv.take(k as int), runtime_entries@, true),
        decreases next.len() - k,
    {
        proof {
            assert(nv.take(k + 1).drop_last() =~= nv.take(k as int));
            assert(nv.take(k + 1).last() == nv[k as int]);
        }
        let (name, file) = next[k];
        if runtime_entries.contains(file) {
            push_alias(&mut aliases, runtime_dir, name, file);
        }
        k += 1;
    }
    proof {
        assert(nv.take(k as int) =~= nv);
    }
    aliases
}

proof fn lemma_builtin_aliases(dir: Seq<char>, b: Seq<(Seq<char>, Seq<char>)>)
    ensures
        builtin_aliases(dir, b).len() == 2 * b.len(),
        forall|k: int|
            0 <= k < b.len() ==> builtin_aliases(dir, b)[2 * k] == file_alias(dir, (#[trigger] b[k]).0, b[k].1)
                && builtin_aliases(dir, b)[2 * k + 1] == file_alias(dir, "node:"@ + b[k].0, b[k].1),
    decreases b.len(),
{
    if b.len() > 0 {
        let init = b.drop_last();
        lemma_builtin_aliases(dir, init);
        assert forall|k: int| 0 <= k < b.len() implies builtin_aliases(dir, b)[2 * k] == file_alias(
            dir,
            (#[trigger] b[k]).0,
            b[k].1,
        ) && builtin_aliases(dir, b)[2 * k + 1] == file_alias(dir, "node:"@ + b[k].0, b[k].1) by {
            if k < b.len() - 1 {
                assert(init[k] == b[k]);
            }
        }
    }
}

proof fn lemma_unfiltered(dir: Seq<char>, t: Seq<(Seq<char>, Seq<char>)>, entries: Set<Seq<char>>, e2: Set<Seq<char>>)
    ensures
        table_aliases(dir, t, entries, false).len() == t.len(),
        table_aliases(dir, t, entries, false) == table_aliases(dir, t, e2, false),
    decreases t.len(),
{
    if t.len() > 0 {
        lemma_unfiltered(dir, t.drop_last(), entries, e2);
    }
}

proof fn lemma_table_keeps(dir: Seq<char>, t: Seq<(Seq<char>, Seq<char>)>, entries: Set<Seq<char>>, k: int)
    requires
        0 <= k < t.len(),
        entries.contains(t[k].1),
    ensures
        table_aliases(dir, t, entries, true).contains(file_alias(dir, t[k].0, t[k].1)),
    decreases t.len(),
{
    let init = t.drop_last();
    let ti = table_aliases(dir, init, entries, true);
    if k < t.len() - 1 {
        assert(init[k] == t[k]);
        lemma_table_keeps(dir, init, entries, k);
        let j = choose|j: int| 0 <= j < ti.len() && ti[j] == file_alias(dir, t[k].0, t[k].1);
        if entries.contains(t.last().1) {
            assert(ti.push(file_alias(dir, t.last().0, t.last().1))[j] == ti[j]);
        }
    } else {
        assert(ti.push(file_alias(dir, t.last().0, t.last().1))[ti.len() as int] == file_alias(dir, t[k].0, t[k].1));
    }
}

proof fn lemma_table_members(
    dir: Seq<char>,
    t: Seq<(Seq<char>, Seq<char>)>,
    entries: Set<Seq<char>>,
    a: (Seq<char>, Seq<Option<Seq<char>>>),
)
    requires
        table_aliases(dir, t, entries, true).contains(a),
    ensures
        exists|j: int| 0 <= j < t.len() && entries.contains(t[j].1) && a == file_alias(dir, (#[trigger] t[j]).0, t[j].1),
    decreases t.len(),
{
    let init = t.drop_last();
    let ti = table_aliases(dir, init, entries, true);
    let i = choose|i: int| 0 <= i < table_aliases(dir, t, entries, true).len() && table_aliases(dir, t, entries, true)[i] == a;
    if entries.contains(t.last().1) && i == ti.len() {
        assert(t[t.len() - 1] == t.last());
    } else {
        assert(ti[i] == a);
        lemma_table_members(dir, init, entries, a);
        let j = choose|j: int| 0 <= j < init.len() && entries.contains(init[j].1) && a == file_alias(dir, (#[trigger] init[j]).0, init[j].1);
        assert(t[j] == init[j]);
    }
}

proof fn lemma_join_injective(base: Seq<char>, r1: Seq<char>, r2: Seq<char>)
    requires
        r1.len() > 0 && r1[0] != '/',
        r2.len() > 0 && r2[0] != '/',
        paths::join_spec(base, r1) == paths::join_spec(base, r2),
    ensures
        r1 == r2,
{
    if base.len() == 0 {
    } else if base.last() == '/' {
        assert((base + r1).skip(base.len() as int) =~= r1);
        assert((base + r2).skip(base.len() as int) =~= r2);
    } else {
        assert((base + seq!['/'] + r1).skip(base.len() as int + 1) =~= r1);
        assert((base + seq!['/'] + r2).skip(base.len() as int + 1) =~= r2);
    }
}

/// The shape of a built-in or other polyfill specifier: it starts neither
/// with `no` (so not with `node:`) nor with `nex`, nor with `@`.
pub open spec fn fixed_spec_shape(s: Seq<char>) -> bool {
    &&& s.len() >= 2
    &&& s[0] != '@'
    &&& !(s[0] == 'n' && s[1] == 'o')
    &&& !(s.len() >= 3 && s[0] == 'n' && s[1] == 'e' && s[2] == 'x')
}

/// The shape of a framework specifier: `@…` or `nex…`, at least six long.
pub open spec fn framework_spec_shape(s: Seq<char>) -> bool {
    &&& s.len() >= 6
    &&& s[0] == '@' || (s[0] == 'n' && s[1] == 'e' && s[2] == 'x')
}

proof fn lemma_builtin_spec_shape(k: int)
    requires
        0 <= k < node_builtins().len(),
    ensures
        fixed_spec_shape(node_builtins()[k].0),
{
    reveal_strlit("process");
    reveal_strlit("fs");
    reveal_strlit("fs/promises");
    reveal_strlit("path");
    reveal_strlit("buffer");
    reveal_strlit("crypto");
    reveal_strlit("events");
    reveal_strlit("net");
    reveal_strlit("tls");
    reveal_strlit("dns");
    reveal_strlit("os");
    reveal_strlit("stream");
    reveal_strlit("string_decoder");
    reveal_strlit("util");
    reveal_strlit("url");
    reveal_strlit("stream/web");
    reveal_strlit("child_process");
    reveal_strlit("assert");
    reveal_strlit("module");
    reveal_strlit("http");
    reveal_strlit("https");
    reveal_strlit("zlib");
    reveal_strlit("worker_threads");
    reveal_strlit("http2");
    reveal_strlit("tty");
    reveal_strlit("readline");
    reveal_strlit("querystring");
    if k == 0 {
        assert(node_builtins()[k].0 == "process"@);
    } else if k == 1 {
        assert(node_builtins()[k].0 == "fs"@);
    } else if k == 2 {
        assert(node_builtins()[k].0 == "fs/promises"@);
    } else if k == 3 {
        assert(node_builtins()[k].0 == "path"@);
    } else if k == 4 {
        assert(node_builtins()[k].0 == "buffer"@);
    } else if k == 5 {
        assert(node_builtins()[k].0 == "crypto"@);
    } else if k == 6 {
        assert(node_builtins()[k].0 == "events"@);
    } else if k == 7 {
        assert(node_builtins()[k].0 == "net"@);
    } else if k == 8 {
        assert(node_builtins()[k].0 == "tls"@);
    } else if k == 9 {
        assert(node_builtins()[k].0 == "dns"@);
    } else if k == 10 {
        assert(node_builtins()[k].0 == "os"@);
    } else if k == 11 {
        assert(node_builtins()[k].0 == "stream"@);
    } else if k == 12 {
        assert(node_builtins()[k].0 == "string_decoder"@);
    } else if k == 13 {
        assert(node_builtins()[k].0 == "util"@);
    } else if k == 14 {
        assert(node_builtins()[k].0 == "url"@);
    } else if k == 15 {
        assert(node_builtins()[k].0 == "stream/web"@);
    } else if k == 16 {
        assert(node_builtins()[k].0 == "child_process"@);
    } else if k == 17 {
        assert(node_builtins()[k].0 == "assert"@);
    } else if k == 18 {
        assert(node_builtins()[k].0 == "module"@);
    } else if k == 19 {
        assert(node_builtins()[k].0 == "http"@);
    } else if k == 20 {
        assert(node_builtins()[k].0 == "https"@);
    } else if k == 21 {
        assert(node_builtins()[k].0 == "zlib"@);
    } else if k == 22 {
        assert(node_builtins()[k].0 == "worker_threads"@);
    } else if k == 23 {
        assert(node_builtins()[k].0 == "http2"@);
    } else if k == 24 {
        assert(node_builtins()[k].0 == "tty"@);
    } else if k == 25 {
        assert(node_builtins()[k].0 == "readline"@);
    } else if k == 26 {
        assert(node_builtins()[k].0 == "querystring"@);
    }
}

proof fn lemma_other_spec_shape(k: int)
    requires
        0 <= k < other_polyfills().len(),
    ensures
        fixed_spec_shape(other_polyfills()[k].0),
{
    reveal_strlit("cloudflare:sockets");
    reveal_strlit("file-type");
    reveal_strlit("file-type/core");
    reveal_strlit("file-type/core.js");
    reveal_strlit("sharp");
    if k == 0 {
        assert(other_polyfills()[k].0 == "cloudflare:sockets"@);
    } else if k == 1 {
        assert(other_polyfills()[k].0 == "file-type"@);
    } else if k == 2 {
        assert(other_polyfills()[k].0 == "file-type/core"@);
    } else if k == 3 {
        assert(other_polyfills()[k].0 == "file-type/core.js"@);
    } else if k == 4 {
        assert(other_polyfills()[k].0 == "sharp"@);
    }
}

proof fn lemma_framework_spec_shape(k: int)
    requires
        0 <= k < next_mappings().len(),
    ensures
        framework_spec_shape(next_mappings()[k].0),
{
    reveal_strlit("next/link");
    reveal_strlit("next/image");
    reveal_strlit("next/head");
    reveal_strlit("next/router");
    reveal_strlit("next/navigation");
    reveal_strlit("next/headers");
    reveal_strlit("next/cache");
    reveal_strlit("next/server");
    reveal_strlit("next/font/google");
    reveal_strlit("next/font/local");
    reveal_strlit("next/dynamic");
    reveal_strlit("@vercel/og");
    reveal_strlit("next/og");
    if k == 0 {
        assert(next_mappings()[k].0 == "next/link"@);
    } else if k == 1 {
        assert(next_mappings()[k].0 == "next/image"@);
    } else if k == 2 {
        assert(next_mappings()[k].0 == "next/head"@);
    } else if k == 3 {
        assert(next_mappings()[k].0 == "next/router"@);
    } else if k == 4 {
        assert(next_mappings()[k].0 == "next/navigation"@);
    } else if k == 5 {
        assert(next_mappings()[k].0 == "next/headers"@);
    } else if k == 6 {
        assert(next_mappings()[k].0 == "next/cache"@);
    } else if k == 7 {
        assert(next_mappings()[k].0 == "next/server"@);
    } else if k == 8 {
        assert(next_mappings()[k].0 == "next/font/google"@);
    } else if k == 9 {
        assert(next_mappings()[k].0 == "next/font/local"@);
    } else if k == 10 {
        assert(next_mappings()[k].0 == "next/dynamic"@);
    } else if k == 11 {
        assert(next_mappings()[k].0 == "@vercel/og"@);
    } else if k == 12 {
        assert(next_mappings()[k].0 == "next/og"@);
    }
}

proof fn lemma_framework_specs_distinct(j: int, k: int)
    requires
        0 <= j < k < next_mappings().len(),
    ensures
        next_mappings()[j].0 != next_mappings()[k].0,
{
    reveal_strlit("next/link");
    reveal_strlit("next/image");
    reveal_strlit("next/head");
    reveal_strlit("next/router");
    reveal_strlit("next/navigation");
    reveal_strlit("next/headers");
    reveal_strlit("next/cache");
    reveal_strlit("next/server");
    reveal_strlit("next/font/google");
    reveal_strlit("next/font/local");
    reveal_strlit("next/dynamic");
    reveal_strlit("@vercel/og");
    reveal_strlit("next/og");
    let nm = next_mappings();
    if j == 0 {
        assert(nm[j].0 == "next/link"@);
    } else if j == 1 {
        assert(nm[j].0 == "next/image"@);
    } else if j == 2 {
        assert(nm[j].0 == "next/head"@);
    } else if j == 3 {
        assert(nm[j].0 == "next/router"@);
    } else if j == 4 {
        assert(nm[j].0 == "next/navigation"@);
    } else if j == 5 {
        assert(nm[j].0 == "next/headers"@);
    } else if j == 6 {
        assert(nm[j].0 == "next/cache"@);
    } else if j == 7 {
        assert(nm[j].0 == "next/server"@);
    } else if j == 8 {
        assert(nm[j].0 == "next/font/google"@);
    } else if j == 9 {
        assert(nm[j].0 == "next/font/local"@);
    } else if j == 10 {
        assert(nm[j].0 == "next/dynamic"@);
    } else if j == 11 {
        assert(nm[j].0 == "@vercel/og"@);
    } else if j == 12 {
        assert(nm[j].0 == "next/og"@);
    }
    if k == 0 {
        assert(nm[k].0 == "next/link"@);
    } else if k == 1 {
        assert(nm[k].0 == "next/image"@);
    } else if k == 2 {
        assert(nm[k].0 == "next/head"@);
    } else if k == 3 {
        assert(nm[k].0 == "next/router"@);
    } else if k == 4 {
        assert(nm[k].0 == "next/navigation"@);
    } else if k == 5 {
        assert(nm[k].0 == "next/headers"@);
    } else if k == 6 {
        assert(nm[k].0 == "next/cache"@);
    } else if k == 7 {
        assert(nm[k].0 == "next/server"@);
    } else if k == 8 {
        assert(nm[k].0 == "next/font/google"@);
    } else if k == 9 {
        assert(nm[k].0 == "next/font/local"@);
    } else if k == 10 {
        assert(nm[k].0 == "next/dynamic"@);
    } else if k == 11 {
        assert(nm[k].0 == "@vercel/og"@);
    } else if k == 12 {
        assert(nm[k].0 == "next/og"@);
    }
    assert(nm[j].0.len() != nm[k].0.len() || nm[j].0[0] != nm[k].0[0] || nm[j].0[5] != nm[k].0[5]);
}

/// The aliases of the server runtime's polyfills: every built-in is aliased
/// bare and then `node:`-prefixed, both onto the built-in's file; the
/// built-ins and the other polyfills come first and do not depend on which
/// files the runtime has; after them, a framework module is aliased onto
/// its file exactly when that file is present.
pub proof fn lemma_polyfill_aliases(dir: Seq<char>, entries: Set<Seq<char>>, other_entries: Set<Seq<char>>)
    ensures
        ({
            let fixed = (2 * node_builtins().len() + other_polyfills().len()) as int;
            let r = polyfill_aliases(dir, entries);
            &&& r.len() >= fixed
            &&& r.take(fixed) == polyfill_aliases(dir, other_entries).take(fixed)
            &&& forall|k: int|
                0 <= k < node_builtins().len() ==> r[2 * k] == file_alias(dir, (#[trigger] node_builtins()[k]).0, node_builtins()[k].1)
                    && r[2 * k + 1] == file_alias(dir, "node:"@ + node_builtins()[k].0, node_builtins()[k].1)
            &&& forall|k: int|
                0 <= k < next_mappings().len() ==> (r.skip(fixed).contains(
                    file_alias(dir, (#[trigger] next_mappings()[k]).0, next_mappings()[k].1),
                ) <==> entries.contains(next_mappings()[k].1))
        }),
{
    let b = node_builtins();
    let o = other_polyfills();
    let nm = next_mappings();
    let fixed = (2 * b.len() + o.len()) as int;
    lemma_builtin_aliases(dir, b);
    lemma_unfiltered(dir, o, entries, other_entries);
    let ba = builtin_aliases(dir, b);
    let oa = table_aliases(dir, o, entries, false);
    assert(oa == table_aliases(dir, o, other_entries, false));
    let r = polyfill_aliases(dir, entries);
    let na = table_aliases(dir, nm, entries, true);
    assert(r.take(fixed) =~= ba + oa);
    assert(polyfill_aliases(dir, other_entries).take(fixed) =~= ba + oa);
    assert(r.skip(fixed) =~= na);
    assert forall|k: int| 0 <= k < b.len() implies r[2 * k] == file_alias(dir, (#[trigger] b[k]).0, b[k].1)
        && r[2 * k + 1] == file_alias(dir, "node:"@ + b[k].0, b[k].1) by {
        assert(r[2 * k] == ba[2 * k]);
        assert(r[2 * k + 1] == ba[2 * k + 1]);
    }
    reveal_strlit("next-link.ts");
    reveal_strlit("next-image.ts");
    reveal_strlit("head.ts");
    reveal_strlit("next-router.ts");
    reveal_strlit("next-navigation.ts");
    reveal_strlit("next-headers.ts");
    reveal_strlit("next-cache.ts");
    reveal_strlit("next-server.ts");
    reveal_strlit("next-font.ts");
    reveal_strlit("next-dynamic.ts");
    reveal_strlit("empty.ts");
    assert forall|k: int| 0 <= k < nm.len() implies nm[k].1.len() > 0 && (#[trigger] nm[k]).1[0] != '/' by {}
    assert forall|k: int| 0 <= k < nm.len() implies (r.skip(fixed).contains(
        file_alias(dir, (#[trigger] nm[k]).0, nm[k].1),
    ) <==> entries.contains(nm[k].1)) by {
        if entries.contains(nm[k].1) {
            lemma_table_keeps(dir, nm, entries, k);
        }
        if na.contains(file_alias(dir, nm[k].0, nm[k].1)) {
            lemma_table_members(dir, nm, entries, file_alias(dir, nm[k].0, nm[k].1));
            let j = choose|j: int| 0 <= j < nm.len() && entries.contains(nm[j].1) && file_alias(dir, nm[k].0, nm[k].1)
                == file_alias(dir, (#[trigger] nm[j]).0, nm[j].1);
            assert(seq![Some(paths::join_spec(dir, nm[k].1))][0] == seq![Some(paths::join_spec(dir, nm[j].1))][0]);
            lemma_join_injective(dir, nm[k].1, nm[j].1);
        }
    }
}

proof fn lemma_unfiltered_elems(dir: Seq<char>, t: Seq<(Seq<char>, Seq<char>)>, entries: Set<Seq<char>>)
    ensures
        table_aliases(dir, t, entries, false).len() == t.len(),
        forall|j: int| 0 <= j < t.len() ==> #[trigger] table_aliases(dir, t, entries, false)[j] == file_alias(dir, t[j].0, t[j].1),
    decreases t.len(),
{
    if t.len() > 0 {
        let init = t.drop_last();
        lemma_unfiltered_elems(dir, init, entries);
        assert forall|j: int| 0 <= j < t.len() implies #[trigger] table_aliases(dir, t, entries, false)[j] == file_alias(
            dir,
            t[j].0,
            t[j].1,
        ) by {
            if j < t.len() - 1 {
                assert(init[j] == t[j]);
            }
        }
    }
}

proof fn lemma_not_node_prefixed(s: Seq<char>)
    requires
        s.len() >= 2,
        !(s[0] == 'n' && s[1] == 'o'),
    ensures
        !text::starts_with(s, "node:"@),
{
    reveal_strlit("node:");
    if text::starts_with(s, "node:"@) {
        assert(s.subrange(0, 5)[0] == s[0] && s.subrange(0, 5)[1] == s[1]);
    }
}

/// The aliases of the server runtime's polyfills, entry by entry: each has
/// a single target, a file of the runtime directory; each `node:` entry
/// follows the bare entry of the same built-in, with the same target; and
/// a framework module is aliased exactly when its file is among the
/// runtime's files.
pub proof fn lemma_polyfill_alias_entries(dir: Seq<char>, entries: Set<Seq<char>>)
    ensures
        ({
            let r = polyfill_aliases(dir, entries);
            &&& forall|i: int|
                0 <= i < r.len() ==> (#[trigger] r[i]).1.len() == 1 && exists|f: Seq<char>|
                    r[i].1[0] == Some(paths::join_spec(dir, f))
            &&& forall|i: int|
                0 <= i < r.len() && text::starts_with((#[trigger] r[i]).0, "node:"@) ==> i > 0 && r[i - 1].0
                    == r[i].0.skip(5) && r[i - 1].1 == r[i].1
            &&& forall|k: int|
                0 <= k < next_mappings().len() ==> ((exists|i: int| 0 <= i < r.len() && r[i].0 == (
                    #[trigger] next_mappings()[k]).0) <==> entries.contains(next_mappings()[k].1))
        }),
{
    let b = node_builtins();
    let o = other_polyfills();
    let nm = next_mappings();
    let nb = 2 * b.len();
    let fixed = (2 * b.len() + o.len()) as int;
    lemma_builtin_aliases(dir, b);
    lemma_unfiltered_elems(dir, o, entries);
    let ba = builtin_aliases(dir, b);
    let oa = table_aliases(dir, o, entries, false);
    let na = table_aliases(dir, nm, entries, true);
    let r = polyfill_aliases(dir, entries);
    assert(r == ba + oa + na);
    reveal_strlit("node:");
    assert forall|i: int| 0 <= i < r.len() implies (#[trigger] r[i]).1.len() == 1 && exists|f: Seq<char>|
        r[i].1[0] == Some(paths::join_spec(dir, f)) && (text::starts_with(r[i].0, "node:"@) ==> i > 0 && r[i - 1].0
        == r[i].0.skip(5) && r[i - 1].1 == r[i].1) by {
        if i < nb {
            let k = i / 2;
            assert(0 <= k < b.len());
            assert(r[2 * k] == ba[2 * k] && r[2 * k + 1] == ba[2 * k + 1]);
            lemma_builtin_spec_shape(k);
            if i == 2 * k {
                assert(r[i] == file_alias(dir, b[k].0, b[k].1));
                lemma_not_node_prefixed(b[k].0);
            } else {
                assert(i == 2 * k + 1);
                assert(r[i] == file_alias(dir, "node:"@ + b[k].0, b[k].1));
                assert(("node:"@ + b[k].0).skip(5) =~= b[k].0);
            }
        } else if i < fixed {
            let j = i - nb;
            assert(r[i] == oa[j]);
            assert(oa[j] == file_alias(dir, o[j].0, o[j].1));
            lemma_other_spec_shape(j);
            lemma_not_node_prefixed(o[j].0);
        } else {
            let j = i - fixed;
            assert(r[i] == na[j]);
            assert(na.contains(na[j]));
            lemma_table_members(dir, nm, entries, na[j]);
            let m = choose|m: int| 0 <= m < nm.len() && entries.contains(nm[m].1) && na[j] == file_alias(
                dir,
                (#[trigger] nm[m]).0,
                nm[m].1,
            );
            lemma_framework_spec_shape(m);
            lemma_not_node_prefixed(nm[m].0);
        }
    }
    assert forall|k: int| 0 <= k < nm.len() implies ((exists|i: int| 0 <= i < r.len() && r[i].0 == (
        #[trigger] nm[k]).0) <==> entries.contains(nm[k].1)) by {
        lemma_framework_spec_shape(k);
        if entries.contains(nm[k].1) {
            lemma_table_keeps(dir, nm, entries, k);
            let j = choose|j: int| 0 <= j < na.len() && na[j] == file_alias(dir, nm[k].0, nm[k].1);
            assert(r[fixed + j] == na[j]);
        }
        if exists|i: int| 0 <= i < r.len() && r[i].0 == nm[k].0 {
            let i = choose|i: int| 0 <= i < r.len() && r[i].0 == nm[k].0;
            if i < nb {
                let q = i / 2;
                assert(r[2 * q] == ba[2 * q] && r[2 * q + 1] == ba[2 * q + 1]);
                lemma_builtin_spec_shape(q);
                if i == 2 * q {
                    assert(r[i].0 == b[q].0);
                } else {
                    assert(r[i].0 == "node:"@ + b[q].0);
                    assert(r[i].0[1] == 'o');
                }
            } else if i < fixed {
                let j = i - nb;
                assert(r[i] == oa[j]);
                lemma_other_spec_shape(j);
            } else {
                let j = i - fixed;
                assert(r[i] == na[j]);
                assert(na.contains(na[j]));
                lemma_table_members(dir, nm, entries, na[j]);
                let m = choose|m: int| 0 <= m < nm.len() && entries.contains(nm[m].1) && na[j] == file_alias(
                    dir,
                    (#[trigger] nm[m]).0,
                    nm[m].1,
                );
                if m < k {
                    lemma_framework_specs_distinct(m, k);
                } else if k < m {
                    lemma_framework_specs_distinct(k, m);
                }
            }
        }
    }
}

/// The number of `"` in `s`.
pub open spec fn quote_count(s: Seq<char>) -> nat
    decreases s.len(),
{
    if s.len() == 0 {
        0
    } else {
        quote_count(s.drop_last()) + if s.last() == '"' { 1nat } else { 0nat }
    }
}

/// A line without its `//` comment: cut at the first `//` when an even
/// number of `"` stands before it (so it is not inside a string).
pub open spec fn strip_line_comment(line: Seq<char>) -> Seq<char> {
    let idx = text::find(line, "//"@);
    if idx >= 0 && quote_count(line.subrange(0, idx)) % 2 == 0 {
        line.subrange(0, idx)
    } else {
        line
    }
}

/// The lines of `ls` without their comments.
pub open spec fn stripped_lines(ls: Seq<Seq<char>>) -> Seq<Seq<char>> {
    ls.map_values(|l: Seq<char>| strip_line_comment(l))
}

/// A tsconfig text with the single-line comments removed (its lines,
/// stripped, joined with `\n`).
pub open spec fn tsconfig_without_comments(content: Seq<char>) -> Seq<char> {
    text::join(stripped_lines(text::lines(content)), "\n"@)
}

fn strip_line_comment_exec(line: &Vec<char>) -> (r: String)
    ensures
        r@ == strip_line_comment(line@),
{
    let pat = text::chars_of("//");
    match text::find_from_exec(line, &pat, 0) {
        Some(idx) => {
            proof {
                text::lemma_find_from_range(line@, pat@, 0);
            }
            let mut q: usize = 0;
            let mut k: usize = 0;
            while k < idx
                invariant
                    k <= idx,
                    idx <= line@.len(),
                    q == quote_count(line@.subrange(0, k as int)),
                    q <= k,
                decreases idx - k,
            {
                proof {
                    assert(line@.subrange(0, k + 1).drop_last() =~= line@.subrange(0, k as int));
                }
                if line[k] == '"' {
                    q += 1;
                }
                k += 1;
            }
            if q % 2 == 0 {
                let before = text::slice_of(line, 0, idx);
                text::string_of(&before)
            } else {
                text::string_of(line)
            }
        },
        None => text::string_of(line),
    }
}

/// Removes single-line comments from a tsconfig text (tsconfig allows
/// them, JSON does not).
pub fn strip_tsconfig_comments(content: &str) -> (r: String)
    ensures
        r@ == tsconfig_without_comments(content@),
{
    let c = text::chars_of(content);
    let ls = text::split_lines(&c);
    let ghost lv = text::lines(c@);
    let mut parts: Vec<String> = Vec::new();
    let mut i: usize = 0;
    while i < ls.len()
        invariant
            i <= ls@.len(),
            ls@.len() == lv.len(),
            lv == text::lines(content@),
            forall|k: int| 0 <= k < ls@.len() ==> (#[trigger] ls@[k])@ == lv[k],
            parts@.len() == i,
            forall|k: int| 0 <= k < i ==> (#[trigger] parts@[k])@ == strip_line_comment(lv[k]),
        decreases ls.len() - i,
    {
        let p = strip_line_comment_exec(&ls[i]);
        parts.push(p);
        i += 1;
    }
    proof {
        assert(text::views(parts@) =~= stripped_lines(lv));
    }
    text::join_strings(parts.as_slice(), "\n")
}

/// The alias of a tsconfig `paths` entry: a wildcard key and target
/// (`"@/*": ["./src/*"]`) alias the key without `/*` to the target
/// directory; otherwise the key aliases the target file; targets are
/// taken relative to the base directory.
pub open spec fn tsconfig_alias(key: Seq<char>, target: Seq<char>, base_dir: Seq<char>) -> (Seq<char>, Seq<Option<Seq<char>>>) {
    if text::ends_with(key, "/*"@) && text::ends_with(target, "/*"@) {
        (key.subrange(0, key.len() - 2), seq![Some(paths::join_spec(base_dir, target.subrange(0, target.len() - 2)))])
    } else {
        (key, seq![Some(paths::join_spec(base_dir, target))])
    }
}

/// The aliases of `paths` entries (each with its first target when that
/// is a string), in order.
pub open spec fn tsconfig_entry_aliases(entries: Seq<(String, Option<String>)>, base_dir: Seq<char>) -> Seq<(Seq<char>, Seq<Option<Seq<char>>>)>
    decreases entries.len(),
{
    if entries.len() == 0 {
        Seq::empty()
    } else {
        let init = tsconfig_entry_aliases(entries.drop_last(), base_dir);
        match entries.last().1 {
            Some(t) => init.push(tsconfig_alias(entries.last().0@, t@, base_dir)),
            None => init,
        }
    }
}

/// The tsconfig aliases: those of the `paths` entries, then `/public`
/// onto the public directory when it exists.
pub open spec fn tsconfig_aliases_spec(
    entries: Seq<(String, Option<String>)>,
    base_dir: Seq<char>,
    public_dir: Option<Seq<char>>,
) -> Seq<(Seq<char>, Seq<Option<Seq<char>>>)> {
    tsconfig_entry_aliases(entries, base_dir) + match public_dir {
        Some(p) => seq![("/public"@, seq![Some(p)])],
        None => Seq::empty(),
    }
}

/// A wildcard `paths` entry (`"k/*": ["t/*"]`) aliases `k` to the target
/// directory `t` under the base directory: both lose their `/*`.
pub proof fn lemma_tsconfig_wildcard_alias(k: Seq<char>, t: Seq<char>, base_dir: Seq<char>)
    ensures
        tsconfig_alias(k + "/*"@, t + "/*"@, base_dir) == (k, seq![Some(paths::join_spec(base_dir, t))]),
{
    reveal_strlit("/*");
    let key = k + "/*"@;
    let target = t + "/*"@;
    assert(key.subrange(key.len() - 2, key.len() as int) =~= "/*"@);
    assert(target.subrange(target.len() - 2, target.len() as int) =~= "/*"@);
    assert(text::ends_with(key, "/*"@));
    assert(text::ends_with(target, "/*"@));
    assert(key.subrange(0, key.len() - 2) =~= k);
    assert(target.subrange(0, target.len() - 2) =~= t);
}

/// Any other `paths` entry aliases its key, unchanged, to its target under
/// the base directory.
pub proof fn lemma_tsconfig_plain_alias(key: Seq<char>, target: Seq<char>, base_dir: Seq<char>)
    requires
        !(text::ends_with(key, "/*"@) && text::ends_with(target, "/*"@)),
    ensures
        tsconfig_alias(key, target, base_dir) == (key, seq![Some(paths::join_spec(base_dir, target))]),
{
}

/// Every `paths` entry with a target gives one alias, in order: when all
/// entries have one, the `i`-th alias is that of the `i`-th entry.
pub proof fn lemma_tsconfig_one_alias_per_entry(entries: Seq<(String, Option<String>)>, base_dir: Seq<char>)
    requires
        forall|i: int| 0 <= i < entries.len() ==> (#[trigger] entries[i]).1 is Some,
    ensures
        tsconfig_entry_aliases(entries, base_dir).len() == entries.len(),
        forall|i: int|
            0 <= i < entries.len() ==> #[trigger] tsconfig_entry_aliases(entries, base_dir)[i] == tsconfig_alias(
                entries[i].0@,
                entries[i].1->0@,
                base_dir,
            ),
    decreases entries.len(),
{
    if entries.len() > 0 {
        let init = entries.drop_last();
        assert forall|i: int| 0 <= i < init.len() implies (#[trigger] init[i]).1 is Some by {
            assert(init[i] == entries[i]);
        }
        lemma_tsconfig_one_alias_per_entry(init, base_dir);
        assert(entries.last() == entries[entries.len() - 1]);
        assert forall|i: int| 0 <= i < entries.len() implies #[trigger] tsconfig_entry_aliases(entries, base_dir)[i]
            == tsconfig_alias(entries[i].0@, entries[i].1->0@, base_dir) by {
            if i < entries.len() - 1 {
                assert(init[i] == entries[i]);
            }
        }
    }
}

fn ends_with_str(s: &str, suffix: &str) -> (r: bool)
    ensures
        r == text::ends_with(s@, suffix@),
{
    let a = text::chars_of(s);
    let b = text::chars_of(suffix);
    if b.len() > a.len() {
        return false;
    }
    text::occurs_at_exec(&a, a.len() - b.len(), &b)
}

/// Resolve aliases from tsconfig `paths`: `entries` are the keys of
/// `compilerOptions.paths` in order, each with its first target when that
/// is a string; `base_dir` is the project root joined with `baseUrl`;
/// `public_dir` is the project's `public` directory when it exists.
pub fn tsconfig_path_aliases(entries: &[(String, Option<String>)], base_dir: &str, public_dir: Option<&str>) -> (r: Vec<Alias>)
    ensures
        alias_views(r@) == tsconfig_aliases_spec(entries@, base_dir@, text::opt_str_view(public_dir)),
{
    let mut aliases: Vec<Alias> = Vec::new();
    let mut i: usize = 0;
    proof {
        reveal_strlit("/*");
        assert(alias_views(aliases@) =~= tsconfig_entry_aliases(entries@.take(0), base_dir@));
    }
    while i < entries.len()
        invariant
            i <= entries@.len(),
            "/*"@.len() == 2,
            alias_views(aliases@) == tsconfig_entry_aliases(entries@.take(i as int), base_dir@),
        decreases entries.len() - i,
    {
        proof {
            assert(entries@.take(i + 1).drop_last() =~= entries@.take(i as int));
            assert(entries@.take(i + 1).last() == entries@[i as int]);
        }
        let key = entries[i].0.as_str();
        match &entries[i].1 {
            Some(t) => {
                let target = t.as_str();
                if ends_with_str(key, "/*") && ends_with_str(target, "/*") {
                    let kc = text::chars_of(key);
                    let tc = text::chars_of(target);
                    let k2 = text::slice_of(&kc, 0, kc.len() - 2);
                    let t2 = text::slice_of(&tc, 0, tc.len() - 2);
                    let ks = text::string_of(&k2);
                    let ts = text::string_of(&t2);
                    push_alias(&mut aliases, base_dir, ks.as_str(), ts.as_str());
                } else {
                    push_alias(&mut aliases, base_dir, key, target);
                }
            },
            None => {},
        }
        i += 1;
    }
    proof {
        assert(entries@.take(i as int) =~= entries@);
    }
    match public_dir {
        Some(p) => {
            let ghost before = aliases@;
            let a: Alias = (String::from_str("/public"), vec![Some(String::from_str(p))]);
            aliases.push(a);
            proof {
                assert(alias_view(a).1 =~= seq![Some(p@)]);
                assert(alias_views(aliases@) =~= alias_views(before).push(alias_view(a)));
            }
        },
        None => {},
    }
    proof {
        let tail = match text::opt_str_view(public_dir) {
            Some(p) => seq![("/public"@, seq![Some(p)])],
            None => Seq::<(Seq<char>, Seq<Option<Seq<char>>>)>::empty(),
        };
        assert(alias_views(aliases@) =~= tsconfig_entry_aliases(entries@, base_dir@) + tail);
    }
    aliases
}

/// An alias as values.
pub type AliasView = (Seq<char>, Seq<Option<Seq<char>>>);

/// `x` inserted after every alias whose prefix is at least as long (in
/// bytes): one step of a stable sort by descending prefix length.
pub open spec fn insert_by_prefix_len(r: Seq<AliasView>, x: AliasView) -> Seq<AliasView>
    decreases r.len(),
{
    if r.len() == 0 {
        seq![x]
    } else if crate::css_modules::blen(r[0].0) >= crate::css_modules::blen(x.0) {
        seq![r[0]] + insert_by_prefix_len(r.drop_first(), x)
    } else {
        seq![x] + r
    }
}

/// Stable sort by descending prefix length (in bytes).
pub open spec fn sort_by_prefix_len(r: Seq<AliasView>) -> Seq<AliasView>
    decreases r.len(),
{
    if r.len() == 0 {
        r
    } else {
        insert_by_prefix_len(sort_by_prefix_len(r.drop_last()), r.last())
    }
}

proof fn lemma_insert_by_prefix_len(r: Seq<AliasView>, x: AliasView, k: int)
    requires
        0 <= k <= r.len(),
        forall|j: int| 0 <= j < k ==> crate::css_modules::blen(r[j].0) >= crate::css_modules::blen(x.0),
        k == r.len() || crate::css_modules::blen(r[k].0) < crate::css_modules::blen(x.0),
    ensures
        insert_by_prefix_len(r, x) == r.take(k) + seq![x] + r.skip(k),
    decreases r.len(),
{
    if r.len() == 0 {
        assert(r.take(k) + seq![x] + r.skip(k) =~= seq![x]);
    } else if crate::css_modules::blen(r[0].0) >= crate::css_modules::blen(x.0) {
        lemma_insert_by_prefix_len(r.drop_first(), x, k - 1);
        assert(seq![r[0]] + (r.drop_first().take(k - 1) + seq![x] + r.drop_first().skip(k - 1)) =~= r.take(k)
            + seq![x] + r.skip(k));
    } else {
        assert(r.take(0) + seq![x] + r.skip(0) =~= seq![x] + r);
    }
}

/// The candidate paths of a specifier under sorted aliases, in order: for
/// each alias whose prefix starts the specifier and whose first target is
/// a path, that path followed by the rest of the specifier.
pub open spec fn candidates_from(specifier: Seq<char>, sorted: Seq<AliasView>) -> Seq<Seq<char>>
    decreases sorted.len(),
{
    if sorted.len() == 0 {
        Seq::empty()
    } else {
        let init = candidates_from(specifier, sorted.drop_last());
        let a = sorted.last();
        if text::starts_with(specifier, a.0) && a.1.len() > 0 && a.1[0] is Some {
            init.push(a.1[0]->0 + specifier.subrange(a.0.len() as int, specifier.len() as int))
        } else {
            init
        }
    }
}

/// The paths to try, in order, for a specifier through tsconfig aliases:
/// longer prefixes first (so `@payload-config` is tried before `@`).
pub fn tsconfig_alias_candidates(specifier: &str, aliases: &[Alias]) -> (r: Vec<String>)
    ensures
        text::views(r@) == candidates_from(specifier@, sort_by_prefix_len(alias_views(aliases@))),
{
    let ghost av = alias_views(aliases@);
    let mut order: Vec<(usize, usize)> = Vec::new();
    let mut i: usize = 0;
    while i < aliases.len()
        invariant
            i <= aliases@.len(),
            av == alias_views(aliases@),
            order@.map_values(|e: (usize, usize)| av[e.0 as int]) == sort_by_prefix_len(av.take(i as int)),
            forall|j: int| 0 <= j < order@.len() ==> (#[trigger] order@[j]).0 < i && order@[j].1 == crate::css_modules::blen(
                av[order@[j].0 as int].0,
            ),
        decreases aliases.len() - i,
    {
        let kb = aliases[i].0.as_str().as_bytes().len();
        proof {
            assert(av[i as int].0 == aliases@[i as int].0@);
        }
        let mut k: usize = 0;
        while k < order.len() && order[k].1 >= kb
            invariant
                k <= order@.len(),
                kb == crate::css_modules::blen(av[i as int].0),
                forall|j: int| 0 <= j < order@.len() ==> (#[trigger] order@[j]).0 < i && order@[j].1
                    == crate::css_modules::blen(av[order@[j].0 as int].0),
                forall|j: int| 0 <= j < k ==> crate::css_modules::blen(av[order@[j].0 as int].0)
                    >= crate::css_modules::blen(av[i as int].0),
            decreases order.len() - k,
        {
            k += 1;
        }
        let ghost ov = order@.map_values(|e: (usize, usize)| av[e.0 as int]);
        proof {
            lemma_insert_by_prefix_len(ov, av[i as int], k as int);
            assert(av.take(i + 1).drop_last() =~= av.take(i as int));
            assert(av.take(i + 1).last() == av[i as int]);
        }
        let ghost old_order = order@;
        order.insert(k, (i, kb));
        proof {
            assert(order@.map_values(|e: (usize, usize)| av[e.0 as int]) =~= ov.take(k as int) + seq![av[i as int]]
                + ov.skip(k as int));
            assert forall|j: int| 0 <= j < order@.len() implies (#[trigger] order@[j]).0 < i + 1 && order@[j].1
                == crate::css_modules::blen(av[order@[j].0 as int].0) by {
                if j < k {
                    assert(order@[j] == old_order[j]);
                } else if j > k {
                    assert(order@[j] == old_order[j - 1]);
                }
            }
        }
        i += 1;
    }
    proof {
        assert(av.take(i as int) =~= av);
    }
    let ghost sorted = order@.map_values(|e: (usize, usize)| av[e.0 as int]);
    let sc = text::chars_of(specifier);
    let mut r: Vec<String> = Vec::new();
    let mut j: usize = 0;
    while j < order.len()
        invariant
            j <= order@.len(),
            av == alias_views(aliases@),
            sorted == order@.map_values(|e: (usize, usize)| av[e.0 as int]),
            forall|t: int| 0 <= t < order@.len() ==> (#[trigger] order@[t]).0 < aliases@.len(),
            sc@ == specifier@,
            text::views(r@) == candidates_from(specifier@, sorted.take(j as int)),
        decreases order.len() - j,
    {
        proof {
            assert(sorted.take(j + 1).drop_last() =~= sorted.take(j as int));
            assert(sorted.take(j + 1).last() == sorted[j as int]);
        }
        let (ai, _) = order[j];
        let a = &aliases[ai];
        let pc = text::chars_of(a.0.as_str());
        let ghost x = sorted[j as int];
        proof {
            assert(x == alias_view(aliases@[ai as int]));
            assert(x.1.len() == a.1@.len());
        }
        if text::occurs_at_exec(&sc, 0, &pc) && a.1.len() > 0 {
            match &a.1[0] {
                Some(t) => {
                    proof {
                        assert(x.1[0] == text::opt_view(a.1@[0]));
                    }
                    let n = sc.len();
                    let rest = text::slice_of(&sc, pc.len(), n);
                    let mut c = String::from_str(t.as_str());
                    text::push_chars(&mut c, &rest);
                    let ghost before = r@;
                    r.push(c);
                    proof {
                        assert(text::views(r@) =~= text::views(before).push(c@));
                    }
                },
                None => {
                    proof {
                        assert(x.1[0] == text::opt_view(a.1@[0]));
                    }
                },
            }
        }
        j += 1;
    }
    proof {
        assert(sorted.take(j as int) =~= sorted);
    }
    r
}

/// The chunk name of a page: its module name with `/` as `-` and brackets
/// as `_`; `index` for an empty name.
pub open spec fn chunk_name_spec(module_name: Seq<char>) -> Seq<char> {
    let cn = text::replace_char(
        text::replace_char(text::replace_char(module_name, '/', "-"@), '[', "_"@),
        ']',
        "_"@,
    );
    if cn.len() == 0 {
        "index"@
    } else {
        cn
    }
}

/// The chunk name of a page from its module name.
pub fn route_to_chunk_name(module_name: &str) -> (r: String)
    ensures
        r@ == chunk_name_spec(module_name@),
{
    let a = text::replace_char_exec(module_name, '/', "-");
    let b = text::replace_char_exec(a.as_str(), '[', "_");
    let c = text::replace_char_exec(b.as_str(), ']', "_");
    if c.as_str().unicode_len() == 0 {
        String::from_str("index")
    } else {
        c
    }
}

/// The index of the first page whose chunk name is `chunk`.
pub open spec fn chunk_route_spec(chunk: Seq<char>, module_names: Seq<String>, i: int) -> Option<int>
    decreases module_names.len() - i,
{
    if i < 0 || i >= module_names.len() {
        None
    } else if chunk_name_spec(module_names[i]@) == chunk {
        Some(i)
    } else {
        chunk_route_spec(chunk, module_names, i + 1)
    }
}

/// The index of the first page, by module name, whose chunk name is
/// `chunk`.
pub fn find_route_for_chunk(chunk: &str, module_names: &[String]) -> (r: Option<usize>)
    ensures
        match r {
            Some(i) => chunk_route_spec(chunk@, module_names@, 0) == Some(i as int),
            None => chunk_route_spec(chunk@, module_names@, 0) is None,
        },
{
    let mut i: usize = 0;
    while i < module_names.len()
        invariant
            i <= module_names@.len(),
            chunk_route_spec(chunk@, module_names@, 0) == chunk_route_spec(chunk@, module_names@, i as int),
        decreases module_names.len() - i,
    {
        let n = route_to_chunk_name(module_names[i].as_str());
        if text::str_eq(n.as_str(), chunk) {
            return Some(i);
        }
        i += 1;
    }
    None
}

} // verus!
