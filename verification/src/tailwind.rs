//! Tailwind detection: whether a stylesheet uses Tailwind, and where the
//! project's Tailwind CLI lives.
use vstd::prelude::*;
use crate::text;
use crate::paths;

verus! {

/// A trimmed line that pulls in Tailwind (v4 `@import` or v3 `@tailwind`).
pub open spec fn tailwind_line(t: Seq<char>) -> bool {
    text::starts_with(t, "@import \"tailwindcss\""@) || text::starts_with(t, "@import 'tailwindcss'"@)
        || text::starts_with(t, "@tailwind "@)
}

/// Some line of the stylesheet, trimmed, pulls in Tailwind.
pub open spec fn uses_tailwind(ls: Seq<Seq<char>>) -> bool {
    exists|k: int| 0 <= k < ls.len() && tailwind_line(text::trim(#[trigger] ls[k]))
}

/// Whether a CSS file contains Tailwind directives (v4 or v3).
pub fn needs_tailwind(content: &str) -> (r: bool)
    ensures
        r == uses_tailwind(text::lines(content@)),
{
    let c = text::chars_of(content);
    let ls = text::split_lines(&c);
    let ghost lv = text::lines(c@);
    let p1 = text::chars_of("@import \"tailwindcss\"");
    let p2 = text::chars_of("@import 'tailwindcss'");
    let p3 = text::chars_of("@tailwind ");
    let mut i: usize = 0;
    while i < ls.len()
        invariant
            i <= ls@.len(),
            ls@.len() == lv.len(),
            lv == text::lines(content@),
            forall|k: int| 0 <= k < ls@.len() ==> (#[trigger] ls@[k])@ == lv[k],
            forall|k: int| 0 <= k < i ==> !tailwind_line(text::trim(#[trigger] lv[k])),
            p1@ == "@import \"tailwindcss\""@,
            p2@ == "@import 'tailwindcss'"@,
            p3@ == "@tailwind "@,
        decreases ls.len() - i,
    {
        let t = text::trim_exec(&ls[i]);
        if text::occurs_at_exec(&t, 0, &p1) || text::occurs_at_exec(&t, 0, &p2) || text::occurs_at_exec(&t, 0, &p3) {
            proof {
                assert(tailwind_line(text::trim(lv[i as int])));
            }
            return true;
        }
        i += 1;
    }
    false
}

/// Where the project's Tailwind CLI would be installed.
pub fn tailwind_bin_path(project_root: &str) -> (r: String)
    ensures
        r@ == paths::join_spec(project_root@, "node_modules/.bin/tailwindcss"@),
{
    paths::join(project_root, "node_modules/.bin/tailwindcss")
}

} // verus!
