//! Global CSS imports: the string literal of an import line, and the
//! plain `.css` files a source file imports.
use vstd::prelude::*;
use crate::text;
use crate::paths;

verus! {

/// The first string literal of a line: from the first quote (single or
/// double, whichever comes first) to the next quote of the same kind.
pub open spec fn string_literal(line: Seq<char>) -> Option<Seq<char>> {
    let s = text::find(line, seq!['\'']);
    let d = text::find(line, seq!['"']);
    if s < 0 && d < 0 {
        None
    } else {
        let q = if s >= 0 && (d < 0 || s < d) { '\'' } else { '"' };
        let st = if s >= 0 && (d < 0 || s < d) { s } else { d };
        let rest = line.subrange(st + 1, line.len() as int);
        let e = text::find(rest, seq![q]);
        if e < 0 {
            None
        } else {
            Some(rest.subrange(0, e))
        }
    }
}

/// Extracts the string literal from an import statement
/// (`import '../styles/globals.css';` gives `../styles/globals.css`).
pub fn extract_string_literal(line: &str) -> (r: Option<String>)
    ensures
        text::opt_view(r) == string_literal(line@),
{
    let l = text::chars_of(line);
    let sq = vec!['\''];
    let dq = vec!['"'];
    proof {
        assert(sq@ =~= seq!['\'']);
        assert(dq@ =~= seq!['"']);
    }
    let s = text::find_from_exec(&l, &sq, 0);
    let d = text::find_from_exec(&l, &dq, 0);
    let (q, st) = match (s, d) {
        (Some(s), Some(d)) => if s < d { ('\'', s) } else { ('"', d) },
        (Some(s), None) => ('\'', s),
        (None, Some(d)) => ('"', d),
        (None, None) => return None,
    };
    proof {
        text::lemma_find_from_range(l@, sq@, 0);
        text::lemma_find_from_range(l@, dq@, 0);
    }
    let n = l.len();
    let rest = text::slice_of(&l, st + 1, n);
    let qv = vec![q];
    proof {
        assert(qv@ =~= seq![q]);
    }
    match text::find_from_exec(&rest, &qv, 0) {
        Some(e) => {
            proof {
                text::lemma_find_from_range(rest@, qv@, 0);
            }
            let lit = text::slice_of(&rest, 0, e);
            Some(text::string_of(&lit))
        },
        None => None,
    }
}

/// A trimmed line that starts an import statement.
pub open spec fn is_import_line(t: Seq<char>) -> bool {
    text::starts_with(t, "import "@) || text::starts_with(t, "import'"@) || text::starts_with(t, "import\""@)
}

/// The global CSS file a line imports: a `.css` literal that is not a CSS
/// module.
pub open spec fn css_import_of(line: Seq<char>) -> Option<Seq<char>> {
    let t = text::trim(line);
    if is_import_line(t) {
        match string_literal(t) {
            Some(p) => if text::ends_with(p, ".css"@) && !text::ends_with(p, ".module.css"@) {
                Some(p)
            } else {
                None
            },
            None => None,
        }
    } else {
        None
    }
}

/// The global CSS imports of a list of lines, in order.
pub open spec fn css_imports_of(ls: Seq<Seq<char>>) -> Seq<Seq<char>>
    decreases ls.len(),
{
    if ls.len() == 0 {
        Seq::empty()
    } else {
        let init = css_imports_of(ls.drop_last());
        match css_import_of(ls.last()) {
            Some(p) => init.push(p),
            None => init,
        }
    }
}

fn ends_with_str(s: &str, suffix: &str) -> (r: bool)
    ensures
        r == text::ends_with(s@, suffix@),
{
    let a = text::chars_of(s);
    let b = text::chars_of(suffix);
    if b.len() > a.len() {
        return false;
    }
    text::occurs_at_exec(&a, a.len() - b.len(), &b)
}

fn starts_with_str(s: &str, prefix: &str) -> (r: bool)
    ensures
        r == text::starts_with(s@, prefix@),
{
    let a = text::chars_of(s);
    let b = text::chars_of(prefix);
    text::occurs_at_exec(&a, 0, &b)
}

/// The global CSS files a source imports, each joined to the directory of
/// the importing file.
pub fn css_imports_in_source(source: &str, parent: &str) -> (r: Vec<String>)
    ensures
        r@.len() == css_imports_of(text::lines(source@)).len(),
        forall|k: int| 0 <= k < r@.len() ==> (#[trigger] r@[k])@ == paths::join_spec(
            parent@,
            css_imports_of(text::lines(source@))[k],
        ),
{
    let s = text::chars_of(source);
    let ls = text::split_lines(&s);
    let ghost lv = text::lines(s@);
    let mut r: Vec<String> = Vec::new();
    let mut i: usize = 0;
    while i < ls.len()
        invariant
            i <= ls@.len(),
            ls@.len() == lv.len(),
            lv == text::lines(source@),
            forall|k: int| 0 <= k < ls@.len() ==> (#[trigger] ls@[k])@ == lv[k],
            r@.len() == css_imports_of(lv.take(i as int)).len(),
            forall|k: int| 0 <= k < r@.len() ==> (#[trigger] r@[k])@ == paths::join_spec(
                parent@,
                css_imports_of(lv.take(i as int))[k],
            ),
        decreases ls.len() - i,
    {
        proof {
            assert(lv.take(i + 1).drop_last() =~= lv.take(i as int));
            assert(lv.take(i + 1).last() == lv[i as int]);
        }
        let t = text::trim_exec(&ls[i]);
        let ts = text::string_of(&t);
        if starts_with_str(ts.as_str(), "import ") || starts_with_str(ts.as_str(), "import'")
            || starts_with_str(ts.as_str(), "import\"") {
            match extract_string_literal(ts.as_str()) {
                Some(p) => {
                    if ends_with_str(p.as_str(), ".css") && !ends_with_str(p.as_str(), ".module.css") {
                        let j = paths::join(parent, p.as_str());
                        r.push(j);
                    }
                },
                None => {},
            }
        }
        i += 1;
    }
    proof {
        assert(lv.take(i as int) =~= lv);
    }
    r
}

} // verus!
