//! Stub modules for RSC boundaries: client reference stubs stand for
//! `"use client"` modules in the server bundle, server action stubs stand
//! for `"use server"` modules in the client bundle.
use vstd::prelude::*;
use crate::ids;
use crate::text;

verus! {

/// The client reference object of one export.
pub open spec fn client_reference_object(rel_path: Seq<char>, export: Seq<char>, build_id: Seq<char>) -> Seq<char> {
    "{ $$typeof: Symbol.for(\"react.client.reference\"), $$id: \""@ + ids::client_reference_id_spec(rel_path, export, build_id)
        + "\", $$name: \""@ + export + "\" }"@
}

/// The stub line of one export: `export default` for `default`, an
/// `export const` of the same name otherwise.
pub open spec fn client_stub_line(rel_path: Seq<char>, export: Seq<char>, build_id: Seq<char>) -> Seq<char> {
    let obj = client_reference_object(rel_path, export, build_id);
    if export == "default"@ {
        "export default "@ + obj + ";\n"@
    } else {
        "export const "@ + export + " = "@ + obj + ";\n"@
    }
}

/// The stub lines of all exports, in order.
pub open spec fn client_stub_lines(rel_path: Seq<char>, exports: Seq<Seq<char>>, build_id: Seq<char>) -> Seq<char>
    decreases exports.len(),
{
    if exports.len() == 0 {
        Seq::empty()
    } else {
        client_stub_lines(rel_path, exports.drop_last(), build_id) + client_stub_line(rel_path, exports.last(), build_id)
    }
}

/// The client reference stub module of a `"use client"` module.
pub open spec fn client_stub(rel_path: Seq<char>, exports: Seq<Seq<char>>, build_id: Seq<char>) -> Seq<char> {
    "// Auto-generated client reference stub\n"@ + client_stub_lines(rel_path, exports, build_id)
}

/// Generates the client reference stub module for a `"use client"` component.
pub fn generate_client_stub(rel_path: &str, exports: &[String], build_id: &str) -> (r: String)
    ensures
        r@ == client_stub(rel_path@, text::views(exports@), build_id@),
{
    let ghost es = text::views(exports@);
    let mut source = String::from_str("// Auto-generated client reference stub\n");
    let ghost head = source@;
    let mut i: usize = 0;
    while i < exports.len()
        invariant
            i <= exports@.len(),
            es == text::views(exports@),
            source@ == head + client_stub_lines(rel_path@, es.take(i as int), build_id@),
        decreases exports.len() - i,
    {
        proof {
            assert(es.take(i + 1).drop_last() =~= es.take(i as int));
            assert(es.take(i + 1).last() == exports@[i as int]@);
        }
        let export = &exports[i];
        let ref_id = ids::client_reference_id(rel_path, export.as_str(), build_id);
        let mut obj = String::from_str("{ $$typeof: Symbol.for(\"react.client.reference\"), $$id: \"");
        obj.append(ref_id.as_str());
        obj.append("\", $$name: \"");
        obj.append(export.as_str());
        obj.append("\" }");
        let ghost before = source@;
        if text::str_eq(export.as_str(), "default") {
            source.append("export default ");
            source.append(obj.as_str());
            source.append(";\n");
        } else {
            source.append("export const ");
            source.append(export.as_str());
            source.append(" = ");
            source.append(obj.as_str());
            source.append(";\n");
        }
        proof {
            assert(source@ =~= before + client_stub_line(rel_path@, exports@[i as int]@, build_id@));
        }
        i += 1;
    }
    proof {
        assert(es.take(i as int) =~= es);
    }
    source
}

/// The stub line of one server action export.
pub open spec fn server_action_stub_line(rel_path: Seq<char>, export: Seq<char>, build_id: Seq<char>) -> Seq<char> {
    let id = ids::server_action_id_spec(rel_path, export, build_id);
    if export == "default"@ {
        "export default createServerReference(\""@ + id + "\", window.__REX_CALL_SERVER);\n"@
    } else {
        "export var "@ + export + " = createServerReference(\""@ + id + "\", window.__REX_CALL_SERVER);\n"@
    }
}

/// The stub lines of all server action exports, in order.
pub open spec fn server_action_stub_lines(rel_path: Seq<char>, exports: Seq<Seq<char>>, build_id: Seq<char>) -> Seq<char>
    decreases exports.len(),
{
    if exports.len() == 0 {
        Seq::empty()
    } else {
        server_action_stub_lines(rel_path, exports.drop_last(), build_id) + server_action_stub_line(rel_path, exports.last(), build_id)
    }
}

/// The header of a server action stub: a comment and the one import.
pub open spec fn server_action_stub_header() -> Seq<char> {
    "// Auto-generated server action stub\n"@ + "import { createServerReference } from 'react-server-dom-webpack/client';\n"@
}

/// The server action stub module of a `"use server"` module.
pub open spec fn server_action_stub(rel_path: Seq<char>, exports: Seq<Seq<char>>, build_id: Seq<char>) -> Seq<char> {
    server_action_stub_header() + server_action_stub_lines(rel_path, exports, build_id)
}

/// Generates the server action stub module for a `"use server"` module in
/// the client bundle.
pub fn generate_server_action_stub(rel_path: &str, exports: &[String], build_id: &str) -> (r: String)
    ensures
        r@ == server_action_stub(rel_path@, text::views(exports@), build_id@),
{
    let ghost es = text::views(exports@);
    let mut source = String::from_str("// Auto-generated server action stub\n");
    source.append("import { createServerReference } from 'react-server-dom-webpack/client';\n");
    let ghost head = source@;
    let mut i: usize = 0;
    while i < exports.len()
        invariant
            i <= exports@.len(),
            es == text::views(exports@),
            head == server_action_stub_header(),
            source@ == head + server_action_stub_lines(rel_path@, es.take(i as int), build_id@),
        decreases exports.len() - i,
    {
        proof {
            assert(es.take(i + 1).drop_last() =~= es.take(i as int));
            assert(es.take(i + 1).last() == exports@[i as int]@);
        }
        let export = &exports[i];
        let action_id = ids::server_action_id(rel_path, export.as_str(), build_id);
        let ghost before = source@;
        if text::str_eq(export.as_str(), "default") {
            source.append("export default createServerReference(\"");
            source.append(action_id.as_str());
            source.append("\", window.__REX_CALL_SERVER);\n");
        } else {
            source.append("export var ");
            source.append(export.as_str());
            source.append(" = createServerReference(\"");
            source.append(action_id.as_str());
            source.append("\", window.__REX_CALL_SERVER);\n");
        }
        proof {
            assert(source@ =~= before + server_action_stub_line(rel_path@, exports@[i as int]@, build_id@));
        }
        i += 1;
    }
    proof {
        assert(es.take(i as int) =~= es);
    }
    source
}

} // verus!
