//! Detection of `"use client"` modules inside `node_modules`, which the
//! RSC server bundle replaces with components that render nothing.
use vstd::prelude::*;
use crate::text;

verus! {

/// Replaces `"use client"` modules found in `node_modules` with no-op
/// component stubs in the RSC server bundle.
pub struct UseClientDetectPlugin;

/// A line that may stand before a directive: empty, or a comment line.
pub open spec fn skippable_line(t: Seq<char>) -> bool {
    t.len() == 0 || text::starts_with(t, "//"@) || text::starts_with(t, "/*"@) || text::starts_with(t, "*"@)
}

/// Whether the first line of `ls` that is not skippable (trimmed) starts
/// with a `"use client"` directive in either quote style.
pub open spec fn directive_first(ls: Seq<Seq<char>>) -> bool
    decreases ls.len(),
{
    if ls.len() == 0 {
        false
    } else {
        let t = text::trim(ls[0]);
        if skippable_line(t) {
            directive_first(ls.drop_first())
        } else {
            text::starts_with(t, "\"use client\""@) || text::starts_with(t, "'use client'"@)
        }
    }
}

/// The stub line of one export.
pub open spec fn noop_line(name: Seq<char>) -> Seq<char> {
    if name == "default"@ {
        "export default __$N;\n"@
    } else {
        "export var "@ + name + " = __$N;\n"@
    }
}

/// The stub lines of all exports, in order.
pub open spec fn noop_lines(names: Seq<Seq<char>>) -> Seq<char>
    decreases names.len(),
{
    if names.len() == 0 {
        Seq::empty()
    } else {
        noop_lines(names.drop_last()) + noop_line(names.last())
    }
}

/// The stub module: every export bound to a component that returns
/// `null`, and a default export in any case.
pub open spec fn noop_stub(names: Seq<Seq<char>>) -> Seq<char> {
    "var __$N = function() { return null; };\n"@ + noop_lines(names) + if names.contains("default"@) {
        Seq::empty()
    } else {
        "export default __$N;\n"@
    }
}

/// Whether a path lies inside a `node_modules` directory.
pub open spec fn in_node_modules(path: Seq<char>) -> bool {
    text::contains(path, "/node_modules/"@) || text::contains(path, "\\node_modules\\"@)
}

impl UseClientDetectPlugin {
    pub fn new() -> (r: UseClientDetectPlugin) {
        UseClientDetectPlugin
    }

    /// Whether a source starts with a `"use client"` directive: the first
    /// line that is neither empty nor a comment starts with it (a minified
    /// file may go on after it on the same line).
    pub fn has_use_client_directive(source: &str) -> (r: bool)
        ensures
            r == directive_first(text::lines(source@)),
    {
        let s = text::chars_of(source);
        let ls = text::split_lines(&s);
        let ghost lv = text::lines(s@);
        let slash2 = text::chars_of("//");
        let slash_star = text::chars_of("/*");
        let star = text::chars_of("*");
        let dq = text::chars_of("\"use client\"");
        let sq = text::chars_of("'use client'");
        let mut i: usize = 0;
        proof {
            assert(lv.skip(0) =~= lv);
        }
        while i < ls.len()
            invariant
                i <= ls@.len(),
                ls@.len() == lv.len(),
                forall|k: int| 0 <= k < ls@.len() ==> (#[trigger] ls@[k])@ == lv[k],
                lv == text::lines(source@),
                directive_first(lv) == directive_first(lv.skip(i as int)),
                slash2@ == "//"@,
                slash_star@ == "/*"@,
                star@ == "*"@,
                dq@ == "\"use client\""@,
                sq@ == "'use client'"@,
            decreases ls.len() - i,
        {
            proof {
                assert(lv.skip(i as int)[0] == lv[i as int]);
                assert(lv.skip(i as int).drop_first() =~= lv.skip(i + 1));
            }
            let t = text::trim_exec(&ls[i]);
            if t.len() == 0 || text::occurs_at_exec(&t, 0, &slash2) || text::occurs_at_exec(&t, 0, &slash_star)
                || text::occurs_at_exec(&t, 0, &star) {
                i += 1;
                continue;
            }
            return text::occurs_at_exec(&t, 0, &dq) || text::occurs_at_exec(&t, 0, &sq);
        }
        false
    }

    /// Whether a path lies inside `node_modules`.
    pub fn is_node_modules(path: &str) -> (r: bool)
        ensures
            r == in_node_modules(path@),
    {
        text::contains_str(path, "/node_modules/") || text::contains_str(path, "\\node_modules\\")
    }

    /// Whether a loaded module is replaced by a no-op stub: it lies in
    /// `node_modules` and starts with a `"use client"` directive.
    pub fn should_stub(path: &str, source: &str) -> (r: bool)
        ensures
            r == (in_node_modules(path@) && directive_first(text::lines(source@))),
    {
        Self::is_node_modules(path) && Self::has_use_client_directive(source)
    }

    /// Generates a stub whose exports are components that render nothing.
    pub fn generate_noop_stub(exports: &[String]) -> (r: String)
        ensures
            r@ == noop_stub(text::views(exports@)),
    {
        let ghost es = text::views(exports@);
        let mut code = String::from_str("var __$N = function() { return null; };\n");
        let ghost head = code@;
        let mut has_default = false;
        let mut i: usize = 0;
        while i < exports.len()
            invariant
                i <= exports@.len(),
                es == text::views(exports@),
                code@ == head + noop_lines(es.take(i as int)),
                has_default == es.take(i as int).contains("default"@),
            decreases exports.len() - i,
        {
            proof {
                assert(es.take(i + 1).drop_last() =~= es.take(i as int));
                assert(es.take(i + 1).last() == exports@[i as int]@);
            }
            let ghost before = code@;
            let is_default = text::str_eq(exports[i].as_str(), "default");
            if is_default {
                code.append("export default __$N;\n");
                has_default = true;
            } else {
                code.append("export var ");
                code.append(exports[i].as_str());
                code.append(" = __$N;\n");
            }
            proof {
                assert(code@ =~= before + noop_line(exports@[i as int]@));
                let t0 = es.take(i as int);
                let t1 = es.take(i + 1);
                assert(t1 =~= t0.push(es[i as int]));
                if is_default {
                    assert(t1[i as int] == "default"@);
                } else {
                    assert forall|x: Seq<char>| t1.contains(x) && x == "default"@ implies t0.contains(x) by {
                        let k = choose|k: int| 0 <= k < t1.len() && t1[k] == x;
                        assert(k < i);
                        assert(t0[k] == x);
                    }
                    if t0.contains("default"@) {
                        let k = choose|k: int| 0 <= k < t0.len() && t0[k] == "default"@;
                        assert(t1[k] == "default"@);
                    }
                }
            }
            i += 1;
        }
        proof {
            assert(es.take(i as int) =~= es);
        }
        if !has_default {
            code.append("export default __$N;\n");
        }
        code
    }
}

} // verus!
