//! ESM dev mode: the aliases of bare `rex/*` imports to the server runtime.
use vstd::prelude::*;
use crate::paths;
use crate::string_set::StringSet;

verus! {

/// The server runtime file behind each bare specifier of ESM dev mode.
pub open spec fn esm_alias_files() -> Seq<(Seq<char>, Seq<char>)> {
    seq![
        ("rex/head"@, "head.ts"@),
        ("rex/link"@, "link.ts"@),
        ("rex/router"@, "router.ts"@),
        ("rex/document"@, "document.ts"@),
        ("rex/image"@, "image.ts"@),
        ("rex/middleware"@, "middleware.ts"@),
        ("next/document"@, "document.ts"@),
    ]
}

/// The aliases of the `(specifier, file)` pairs whose file is in the
/// runtime directory, in order, each to the file's path.
pub open spec fn esm_aliases(
    dir: Seq<char>,
    files: Seq<(Seq<char>, Seq<char>)>,
    entries: Set<Seq<char>>,
) -> Seq<(Seq<char>, Seq<char>)>
    decreases files.len(),
{
    if files.len() == 0 {
        Seq::empty()
    } else {
        let init = esm_aliases(dir, files.drop_last(), entries);
        if entries.contains(files.last().1) {
            init.push((files.last().0, paths::join_spec(dir, files.last().1)))
        } else {
            init
        }
    }
}

/// The resolve aliases of ESM dev mode: bare specifiers such as `rex/head`
/// mapped to their files in the server runtime directory, for the files
/// that `runtime_entries` (the names in that directory) holds.
pub fn esm_resolve_aliases(runtime_dir: &str, runtime_entries: &StringSet) -> (r: Vec<(String, String)>)
    ensures
        r@.map_values(|a: (String, String)| (a.0@, a.1@)) == esm_aliases(
            runtime_dir@,
            esm_alias_files(),
            runtime_entries@,
        ),
{
    let table: Vec<(&str, &str)> = vec![
        ("rex/head", "head.ts"),
        ("rex/link", "link.ts"),
        ("rex/router", "router.ts"),
        ("rex/document", "document.ts"),
        ("rex/image", "image.ts"),
        ("rex/middleware", "middleware.ts"),
        ("next/document", "document.ts"),
    ];
    let ghost ts = table@.map_values(|m: (&str, &str)| (m.0@, m.1@));
    proof {
        assert(ts =~= esm_alias_files());
    }
    let mut r: Vec<(String, String)> = Vec::new();
    let mut i: usize = 0;
    while i < table.len()
        invariant
            i <= table@.len(),
            ts == table@.map_values(|m: (&str, &str)| (m.0@, m.1@)),
            r@.map_values(|a: (String, String)| (a.0@, a.1@)) == esm_aliases(runtime_dir@, ts.take(i as int), runtime_entries@),
        decreases table.len() - i,
    {
        proof {
            assert(ts.take(i + 1).drop_last() =~= ts.take(i as int));
            assert(ts.take(i + 1).last() == ts[i as int]);
        }
        let (spec, file) = table[i];
        if runtime_entries.contains(file) {
            let ghost r0 = r@;
            r.push((String::from_str(spec), paths::join(runtime_dir, file)));
            proof {
                assert(r@.map_values(|a: (String, String)| (a.0@, a.1@)) =~= r0.map_values(
                    |a: (String, String)| (a.0@, a.1@),
                ).push((spec@, paths::join_spec(runtime_dir@, file@))));
            }
        }
        i += 1;
    }
    proof {
        assert(ts.take(i as int) =~= ts);
    }
    r
}

} // verus!
