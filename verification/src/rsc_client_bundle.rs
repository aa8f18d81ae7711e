//! The outputs of the RSC client build: the order the chunks are loaded in,
//! and the client reference manifest rows of the component chunks.
use vstd::prelude::*;
use crate::text;
use crate::ids;
use crate::rsc_build_config::{chunk_name, sanitize_filename};
use crate::server_action_manifest::row_views;

verus! {

/// One output file of the client build.
pub struct RscOutput {
    /// The file name.
    pub filename: String,
    /// A chunk (rather than an asset).
    pub is_chunk: bool,
    /// An entry chunk.
    pub is_entry: bool,
    /// The chunk's name.
    pub name: String,
}

/// The hydrate or bootstrap entry, which must load first.
pub open spec fn is_bootstrap(o: RscOutput) -> bool {
    o.is_chunk && o.is_entry && (o.name@ == "__rsc_hydrate"@ || o.name@ == "__rsc_bootstrap"@)
}

/// The path an output is listed under.
pub open spec fn output_file(o: RscOutput) -> Seq<char> {
    "rsc/"@ + o.filename@
}

/// The files of the outputs that do (`boot`) or do not (`!boot`) load
/// first, in output order.
pub open spec fn files_where(os: Seq<RscOutput>, boot: bool) -> Seq<Seq<char>>
    decreases os.len(),
{
    if os.len() == 0 {
        Seq::empty()
    } else if is_bootstrap(os.last()) == boot {
        files_where(os.drop_last(), boot).push(output_file(os.last()))
    } else {
        files_where(os.drop_last(), boot)
    }
}

/// The client chunks in load order: the bootstrap entries, then the shared
/// chunks, the component entries and the assets, in output order.
pub open spec fn ordered_files(os: Seq<RscOutput>) -> Seq<Seq<char>> {
    files_where(os, true) + files_where(os, false)
}

/// The client boundary a component entry is named after: the last one
/// whose path, sanitized, is the chunk's name.
pub open spec fn boundary_for(bs: Seq<(String, Vec<String>)>, name: Seq<char>) -> Option<(Seq<char>, Seq<Seq<char>>)>
    decreases bs.len(),
{
    if bs.len() == 0 {
        None
    } else if chunk_name(bs.last().0@) == name {
        Some((bs.last().0@, text::views(bs.last().1@)))
    } else {
        boundary_for(bs.drop_last(), name)
    }
}

/// The manifest rows of one component chunk: each export of its boundary,
/// with its reference id and the chunk's URL.
pub open spec fn entry_rows(rel: Seq<char>, exports: Seq<Seq<char>>, url: Seq<char>, build_id: Seq<char>) -> Seq<
    (Seq<char>, Seq<char>, Seq<char>),
> {
    exports.map_values(|e: Seq<char>| (ids::client_reference_id_spec(rel, e, build_id), url, e))
}

/// The rows an output adds to the client reference manifest.
pub open spec fn output_rows(o: RscOutput, bs: Seq<(String, Vec<String>)>, build_id: Seq<char>) -> Seq<
    (Seq<char>, Seq<char>, Seq<char>),
> {
    if o.is_chunk && o.is_entry && !is_bootstrap(o) {
        match boundary_for(bs, o.name@) {
            Some((rel, ex)) => entry_rows(rel, ex, "/_rex/static/rsc/"@ + o.filename@, build_id),
            None => Seq::empty(),
        }
    } else {
        Seq::empty()
    }
}

/// The client reference manifest rows `(id, chunk URL, export)` of the
/// outputs, in the order they are added.
pub open spec fn manifest_rows(os: Seq<RscOutput>, bs: Seq<(String, Vec<String>)>, build_id: Seq<char>) -> Seq<
    (Seq<char>, Seq<char>, Seq<char>),
>
    decreases os.len(),
{
    if os.len() == 0 {
        Seq::empty()
    } else {
        manifest_rows(os.drop_last(), bs, build_id) + output_rows(os.last(), bs, build_id)
    }
}

fn boundary_for_exec(bs: &[(String, Vec<String>)], name: &str) -> (r: Option<usize>)
    ensures
        match r {
            Some(i) => i < bs@.len() && boundary_for(bs@, name@) == Some(
                (bs@[i as int].0@, text::views(bs@[i as int].1@)),
            ),
            None => boundary_for(bs@, name@) is None,
        },
{
    let mut i: usize = bs.len();
    proof {
        assert(bs@.take(i as int) =~= bs@);
    }
    while i > 0
        invariant
            i <= bs@.len(),
            boundary_for(bs@, name@) == boundary_for(bs@.take(i as int), name@),
        decreases i,
    {
        proof {
            assert(bs@.take(i as int).drop_last() =~= bs@.take(i - 1));
            assert(bs@.take(i as int).last() == bs@[i - 1]);
        }
        let n = sanitize_filename(bs[i - 1].0.as_str());
        if text::str_eq(n.as_str(), name) {
            return Some(i - 1);
        }
        i -= 1;
    }
    None
}

/// Orders the outputs of the client build for loading and lists the
/// client reference manifest rows of its component entries; `boundaries`
/// are the client boundaries as (relative path, exports).
pub fn rsc_client_outputs(outputs: &[RscOutput], boundaries: &[(String, Vec<String>)], build_id: &str) -> (r: (
    Vec<String>,
    Vec<(String, String, String)>,
))
    ensures
        text::views(r.0@) == ordered_files(outputs@),
        row_views(r.1@) == manifest_rows(outputs@, boundaries@, build_id@),
{
    let mut boot: Vec<String> = Vec::new();
    let mut other: Vec<String> = Vec::new();
    let mut rows: Vec<(String, String, String)> = Vec::new();
    let mut i: usize = 0;
    while i < outputs.len()
        invariant
            i <= outputs@.len(),
            text::views(boot@) == files_where(outputs@.take(i as int), true),
            text::views(other@) == files_where(outputs@.take(i as int), false),
            row_views(rows@) == manifest_rows(outputs@.take(i as int), boundaries@, build_id@),
        decreases outputs.len() - i,
    {
        let ghost os = outputs@.take(i + 1);
        proof {
            assert(os.drop_last() =~= outputs@.take(i as int));
            assert(os.last() == outputs@[i as int]);
        }
        let o = &outputs[i];
        let mut file = String::from_str("rsc/");
        file.append(o.filename.as_str());
        let bootstrap = o.is_chunk && o.is_entry && (text::str_eq(o.name.as_str(), "__rsc_hydrate") || text::str_eq(
            o.name.as_str(),
            "__rsc_bootstrap",
        ));
        let ghost b0 = text::views(boot@);
        let ghost o0 = text::views(other@);
        if bootstrap {
            boot.push(file);
            proof {
                assert(text::views(boot@) =~= b0.push(output_file(*o)));
            }
        } else {
            other.push(file);
            proof {
                assert(text::views(other@) =~= o0.push(output_file(*o)));
            }
        }
        let ghost r0 = row_views(rows@);
        if o.is_chunk && o.is_entry && !bootstrap {
            match boundary_for_exec(boundaries, o.name.as_str()) {
                Some(bi) => {
                    let rel = boundaries[bi].0.as_str();
                    let exports = &boundaries[bi].1;
                    let mut url = String::from_str("/_rex/static/rsc/");
                    url.append(o.filename.as_str());
                    let ghost ev = text::views(exports@);
                    let mut k: usize = 0;
                    while k < exports.len()
                        invariant
                            k <= exports@.len(),
                            ev == text::views(exports@),
                            row_views(rows@) == r0 + entry_rows(rel@, ev, url@, build_id@).take(k as int),
                        decreases exports.len() - k,
                    {
                        let id = ids::client_reference_id(rel, exports[k].as_str(), build_id);
                        let ghost before = row_views(rows@);
                        rows.push((id, String::from_str(url.as_str()), String::from_str(exports[k].as_str())));
                        proof {
                            assert(row_views(rows@) =~= before.push(
                                (ids::client_reference_id_spec(rel@, ev[k as int], build_id@), url@, ev[k as int]),
                            ));
                            assert(entry_rows(rel@, ev, url@, build_id@).take(k + 1) =~= entry_rows(
                                rel@,
                                ev,
                                url@,
                                build_id@,
                            ).take(k as int).push(entry_rows(rel@, ev, url@, build_id@)[k as int]));
                        }
                        k += 1;
                    }
                    proof {
                        assert(entry_rows(rel@, ev, url@, build_id@).take(k as int) =~= entry_rows(rel@, ev, url@, build_id@));
                    }
                },
                None => {
                    proof {
                        assert(r0 + Seq::<(Seq<char>, Seq<char>, Seq<char>)>::empty() =~= r0);
                    }
                },
            }
        } else {
            proof {
                assert(r0 + Seq::<(Seq<char>, Seq<char>, Seq<char>)>::empty() =~= r0);
            }
        }
        i += 1;
    }
    proof {
        assert(outputs@.take(i as int) =~= outputs@);
    }
    let mut files = boot;
    let ghost bv = text::views(files@);
    let mut rest = other;
    let ghost ov = text::views(rest@);
    files.append(&mut rest);
    proof {
        assert(text::views(files@) =~= bv + ov);
    }
    (files, rows)
}

} // verus!
