//! Extraction of inline `"use server"` functions from server component
//! sources.
//!
//! React allows inline server actions in JSX, e.g.
//! `<form action={async (fd) => { "use server"; ... }}>`. They are hoisted
//! to module level under generated names (`__rex_action_0`, ...) and the
//! inline function is replaced by a reference to the hoisted one. This is a
//! purely textual transform over the characters of the source.
use vstd::prelude::*;
use crate::text::{self, chars_of, contains_exec, find_from_exec, is_ascii_alnum_exec, is_ws_exec,
    occurs_at_exec, rfind_at_or_before_exec, slice_of, trim_end_index};
use crate::scan::{self, block_end_exec, prev_non_ws_or_zero, scan_until_exec, skip_sp_tab_exec,
    skip_ws_exec};

verus! {

/// Sources the scanners handle: positions, and a few past the end, fit in `usize`.
pub open spec fn small(s: Seq<char>) -> bool {
    s.len() + 8 <= isize::MAX
}

pub open spec fn dq_use_server() -> Seq<char> {
    seq!['"', 'u', 's', 'e', ' ', 's', 'e', 'r', 'v', 'e', 'r', '"']
}

pub open spec fn sq_use_server() -> Seq<char> {
    seq!['\'', 'u', 's', 'e', ' ', 's', 'e', 'r', 'v', 'e', 'r', '\'']
}

pub open spec fn use_sp() -> Seq<char> {
    seq!['u', 's', 'e', ' ']
}

pub open spec fn import_sp() -> Seq<char> {
    seq!['i', 'm', 'p', 'o', 'r', 't', ' ']
}

pub open spec fn import_brace() -> Seq<char> {
    seq!['i', 'm', 'p', 'o', 'r', 't', '{']
}

pub open spec fn import_star() -> Seq<char> {
    seq!['i', 'm', 'p', 'o', 'r', 't', '*']
}

/// A `"use server"` or `'use server'` directive text starts at `i`.
pub open spec fn use_server_at(s: Seq<char>, i: int) -> bool {
    text::occurs_at(s, i, dq_use_server()) || text::occurs_at(s, i, sq_use_server())
}

/// The positions below `n` where a `use server` directive text starts, ascending.
pub open spec fn use_server_positions(s: Seq<char>, n: int) -> Seq<int>
    decreases n,
{
    if n <= 0 {
        Seq::empty()
    } else if use_server_at(s, n - 1) {
        use_server_positions(s, n - 1).push(n - 1)
    } else {
        use_server_positions(s, n - 1)
    }
}

/// End of a string directive statement starting at the quote `s[p]`: past
/// the closing quote, spaces and tabs, and one optional `;`.
pub open spec fn quote_stmt_end(s: Seq<char>, p: int) -> int {
    let q1 = scan::scan_until(s, p + 1, s[p]);
    let q2 = if q1 < s.len() { q1 + 1 } else { q1 };
    let q3 = scan::scan_while(s, q2, scan::sp_tab_pred());
    if q3 < s.len() && s[q3] == ';' { q3 + 1 } else { q3 }
}

/// The import-skipping walk of the module-level scan: stops at `;`, a
/// newline or the end, jumping over `{ ... }` groups.
pub open spec fn import_walk(s: Seq<char>, p: int) -> int
    decreases s.len() + 1 - p,
{
    if 0 <= p < s.len() && s[p] != ';' && s[p] != '\n' {
        if s[p] == '{' {
            let q = scan::scan_until(s, p, '}');
            proof {
                scan::lemma_scan_while(s, p, scan::not_char('}'));
            }
            import_walk(s, q + 1)
        } else {
            import_walk(s, p + 1)
        }
    } else {
        p
    }
}

/// Position after an import statement starting at `p`.
pub open spec fn import_end(s: Seq<char>, p: int) -> int {
    let r = import_walk(s, p);
    if r < s.len() { r + 1 } else { r }
}

pub open spec fn is_quote(c: char) -> bool {
    c == '"' || c == '\''
}

/// The module-level scan from `pos`: the position of the first code that is
/// neither whitespace, a comment, a string directive nor an import.
pub open spec fn first_code_from(s: Seq<char>, pos: int) -> int
    decreases s.len() + 2 - pos,
{
    if pos < 0 || pos >= s.len() {
        s.len() as int
    } else {
        let p = scan::skip_ws(s, pos);
        proof {
            scan::lemma_scan_while(s, pos, scan::ws_pred());
        }
        if p >= s.len() {
            s.len() as int
        } else if p + 1 < s.len() && s[p] == '/' && s[p + 1] == '/' {
            proof {
                scan::lemma_scan_while(s, p, scan::not_char('\n'));
            }
            first_code_from(s, scan::scan_until(s, p, '\n'))
        } else if p + 1 < s.len() && s[p] == '/' && s[p + 1] == '*' {
            proof {
                scan::lemma_block_end(s, p + 2);
            }
            first_code_from(s, scan::block_end(s, p + 2) + 2)
        } else if is_quote(s[p]) {
            let q = quote_stmt_end(s, p);
            proof {
                lemma_quote_stmt_end(s, p);
            }
            if text::contains(s.subrange(p, q), use_sp()) {
                first_code_from(s, q)
            } else {
                p
            }
        } else if text::occurs_at(s, p, import_sp()) || text::occurs_at(s, p, import_brace()) {
            proof {
                lemma_import_walk(s, p);
            }
            first_code_from(s, import_end(s, p))
        } else {
            p
        }
    }
}

pub proof fn lemma_quote_stmt_end(s: Seq<char>, p: int)
    requires
        0 <= p < s.len(),
    ensures
        p < quote_stmt_end(s, p) <= s.len(),
{
    scan::lemma_scan_while(s, p + 1, scan::not_char(s[p]));
    let q1 = scan::scan_until(s, p + 1, s[p]);
    let q2 = if q1 < s.len() { q1 + 1 } else { q1 };
    scan::lemma_scan_while(s, q2, scan::sp_tab_pred());
}

pub proof fn lemma_import_walk(s: Seq<char>, p: int)
    requires
        0 <= p <= s.len(),
    ensures
        p <= import_walk(s, p) <= s.len() + 1,
        (p < s.len() && s[p] != ';' && s[p] != '\n') ==> p < import_walk(s, p),
        import_walk(s, p) < s.len() ==> p <= import_walk(s, p),
    decreases s.len() + 1 - p,
{
    if 0 <= p < s.len() && s[p] != ';' && s[p] != '\n' {
        if s[p] == '{' {
            scan::lemma_scan_while(s, p, scan::not_char('}'));
            let q = scan::scan_until(s, p, '}');
            if q + 1 <= s.len() {
                lemma_import_walk(s, q + 1);
            } else {
                assert(import_walk(s, q + 1) == q + 1);
            }
        } else {
            lemma_import_walk(s, p + 1);
        }
    }
}

/// The statement-walk used when finding where hoisted code goes: stops
/// after a `;`, or after a newline that follows a closing quote.
pub open spec fn import_stmt_end(s: Seq<char>, p: int) -> int
    decreases s.len() - p,
{
    if p < 0 || p >= s.len() {
        p
    } else if s[p] == ';' {
        p + 1
    } else if s[p] == '\n' && p > 0 && is_quote(s[p - 1]) {
        p + 1
    } else {
        import_stmt_end(s, p + 1)
    }
}

/// End of a string directive when finding where hoisted code goes: past the
/// closing quote and any spaces, tabs and `;`.
pub open spec fn directive_end(s: Seq<char>, p: int) -> int {
    let q1 = scan::scan_until(s, p + 1, s[p]);
    let q2 = if q1 < s.len() { q1 + 1 } else { q1 };
    scan::scan_while(s, q2, |x: char| x == ' ' || x == '\t' || x == ';')
}

/// Where hoisted functions are inserted: after the leading run of
/// directives and imports (comments and whitespace skipped). `last` is the
/// end of the last directive or import seen so far.
pub open spec fn insert_pos_from(s: Seq<char>, pos: int, last: int) -> int
    decreases s.len() + 2 - pos,
{
    if pos < 0 || pos >= s.len() {
        last
    } else {
        let p = scan::skip_ws(s, pos);
        proof {
            scan::lemma_scan_while(s, pos, scan::ws_pred());
        }
        if p >= s.len() {
            last
        } else if p + 1 < s.len() && s[p] == '/' && s[p + 1] == '/' {
            proof {
                scan::lemma_scan_while(s, p, scan::not_char('\n'));
            }
            insert_pos_from(s, scan::scan_until(s, p, '\n'), last)
        } else if p + 1 < s.len() && s[p] == '/' && s[p + 1] == '*' {
            proof {
                scan::lemma_block_end(s, p + 2);
            }
            insert_pos_from(s, scan::block_end(s, p + 2) + 2, last)
        } else if is_quote(s[p]) {
            let q = directive_end(s, p);
            proof {
                lemma_directive_end(s, p);
            }
            insert_pos_from(s, q, q)
        } else if text::occurs_at(s, p, import_sp()) || text::occurs_at(s, p, import_brace())
            || text::occurs_at(s, p, import_star()) {
            let q = import_stmt_end(s, p);
            proof {
                lemma_import_stmt_end(s, p);
            }
            insert_pos_from(s, q, q)
        } else {
            last
        }
    }
}

pub proof fn lemma_directive_end(s: Seq<char>, p: int)
    requires
        0 <= p < s.len(),
    ensures
        p < directive_end(s, p) <= s.len(),
{
    scan::lemma_scan_while(s, p + 1, scan::not_char(s[p]));
    let q1 = scan::scan_until(s, p + 1, s[p]);
    let q2 = if q1 < s.len() { q1 + 1 } else { q1 };
    scan::lemma_scan_while(s, q2, |x: char| x == ' ' || x == '\t' || x == ';');
}

pub proof fn lemma_import_stmt_end(s: Seq<char>, p: int)
    requires
        0 <= p < s.len(),
    ensures
        p < import_stmt_end(s, p) <= s.len(),
    decreases s.len() - p,
{
    if s[p] != ';' && !(s[p] == '\n' && p > 0 && is_quote(s[p - 1])) {
        if p + 1 < s.len() {
            lemma_import_stmt_end(s, p + 1);
        } else {
            assert(import_stmt_end(s, p + 1) == p + 1);
        }
    }
}

pub proof fn lemma_insert_pos(s: Seq<char>, pos: int, last: int)
    requires
        0 <= last <= s.len(),
    ensures
        0 <= insert_pos_from(s, pos, last) <= s.len(),
    decreases s.len() + 2 - pos,
{
    if pos < 0 || pos >= s.len() {
    } else {
        let p = scan::skip_ws(s, pos);
        scan::lemma_scan_while(s, pos, scan::ws_pred());
        if p >= s.len() {
        } else if p + 1 < s.len() && s[p] == '/' && s[p + 1] == '/' {
            scan::lemma_scan_while(s, p, scan::not_char('\n'));
            lemma_insert_pos(s, scan::scan_until(s, p, '\n'), last);
        } else if p + 1 < s.len() && s[p] == '/' && s[p + 1] == '*' {
            scan::lemma_block_end(s, p + 2);
            lemma_insert_pos(s, scan::block_end(s, p + 2) + 2, last);
        } else if is_quote(s[p]) {
            lemma_directive_end(s, p);
            lemma_insert_pos(s, directive_end(s, p), directive_end(s, p));
        } else if text::occurs_at(s, p, import_sp()) || text::occurs_at(s, p, import_brace())
            || text::occurs_at(s, p, import_star()) {
            lemma_import_stmt_end(s, p);
            lemma_insert_pos(s, import_stmt_end(s, p), import_stmt_end(s, p));
        }
    }
}

fn pattern(s: &str) -> (v: Vec<char>)
    ensures
        v@ == s@,
{
    chars_of(s)
}

fn dq_use_server_vec() -> (v: Vec<char>)
    ensures
        v@ == dq_use_server(),
{
    let v = vec!['"', 'u', 's', 'e', ' ', 's', 'e', 'r', 'v', 'e', 'r', '"'];
    assert(v@ =~= dq_use_server());
    v
}

fn sq_use_server_vec() -> (v: Vec<char>)
    ensures
        v@ == sq_use_server(),
{
    let v = vec!['\'', 'u', 's', 'e', ' ', 's', 'e', 'r', 'v', 'e', 'r', '\''];
    assert(v@ =~= sq_use_server());
    v
}

fn use_sp_vec() -> (v: Vec<char>)
    ensures
        v@ == use_sp(),
{
    let v = vec!['u', 's', 'e', ' '];
    assert(v@ =~= use_sp());
    v
}

fn import_vec(last: char) -> (v: Vec<char>)
    ensures
        v@ == seq!['i', 'm', 'p', 'o', 'r', 't', last],
{
    let v = vec!['i', 'm', 'p', 'o', 'r', 't', last];
    assert(v@ =~= seq!['i', 'm', 'p', 'o', 'r', 't', last]);
    v
}

/// All positions where `"use server"` or `'use server'` starts, ascending.
fn find_use_server_positions(s: &Vec<char>) -> (r: Vec<usize>)
    ensures
        r@.len() == use_server_positions(s@, s.len() as int).len(),
        forall|k: int| 0 <= k < r@.len() ==> r@[k] as int == use_server_positions(s@, s.len() as int)[k],
{
    let dq = dq_use_server_vec();
    let sq = sq_use_server_vec();
    let mut r: Vec<usize> = Vec::new();
    let mut i: usize = 0;
    while i < s.len()
        invariant
            i <= s.len(),
            dq@ == dq_use_server(),
            sq@ == sq_use_server(),
            r@.len() == use_server_positions(s@, i as int).len(),
            forall|k: int| 0 <= k < r@.len() ==> r@[k] as int == use_server_positions(s@, i as int)[k],
        decreases s.len() - i,
    {
        if occurs_at_exec(s, i, &dq) || occurs_at_exec(s, i, &sq) {
            r.push(i);
        }
        i += 1;
    }
    r
}

fn quote_stmt_end_exec(s: &Vec<char>, p: usize) -> (r: usize)
    requires
        p < s.len(),
        small(s@),
    ensures
        r as int == quote_stmt_end(s@, p as int),
{
    let q1 = scan_until_exec(s, p + 1, s[p]);
    proof {
        scan::lemma_scan_while(s@, p + 1, scan::not_char(s@[p as int]));
    }
    let q2 = if q1 < s.len() { q1 + 1 } else { q1 };
    let q3 = skip_sp_tab_exec(s, q2);
    if q3 < s.len() && s[q3] == ';' { q3 + 1 } else { q3 }
}

fn import_end_exec(s: &Vec<char>, p: usize) -> (r: usize)
    requires
        p <= s.len(),
        small(s@),
    ensures
        r as int == import_end(s@, p as int),
{
    let mut q = p;
    while q < s.len() && s[q] != ';' && s[q] != '\n'
        invariant
            p <= q <= s.len() + 1,
            small(s@),
            import_walk(s@, p as int) == import_walk(s@, q as int),
        decreases s.len() + 1 - q,
    {
        if s[q] == '{' {
            let e = scan_until_exec(s, q, '}');
            proof {
                scan::lemma_scan_while(s@, q as int, scan::not_char('}'));
            }
            q = e + 1;
        } else {
            q += 1;
        }
    }
    if q < s.len() { q + 1 } else { q }
}

/// Position of the first code that is not whitespace, a comment, a string
/// directive (`"use ..."`) or an import. Module-level directives sit before it.
fn find_first_code_position(s: &Vec<char>) -> (r: usize)
    requires
        small(s@),
    ensures
        r as int == first_code_from(s@, 0),
{
    let len = s.len();
    let use_pat = use_sp_vec();
    let imp_sp = import_vec(' ');
    let imp_br = import_vec('{');
    proof {
        assert(imp_sp@ =~= import_sp());
        assert(imp_br@ =~= import_brace());
    }
    let mut pos: usize = 0;
    while pos < len
        invariant
            len == s.len(),
            small(s@),
            pos <= len + 2,
            use_pat@ == use_sp(),
            imp_sp@ == import_sp(),
            imp_br@ == import_brace(),
            first_code_from(s@, 0) == first_code_from(s@, pos as int),
        decreases len + 2 - pos,
    {
        let p = skip_ws_exec(s, pos);
        proof {
            scan::lemma_scan_while(s@, pos as int, scan::ws_pred());
        }
        if p >= len {
            return len;
        }
        if p + 1 < len && s[p] == '/' && s[p + 1] == '/' {
            proof {
                scan::lemma_scan_while(s@, p as int, scan::not_char('\n'));
            }
            pos = scan_until_exec(s, p, '\n');
            continue;
        }
        if p + 1 < len && s[p] == '/' && s[p + 1] == '*' {
            let e = block_end_exec(s, p + 2);
            proof {
                scan::lemma_block_end(s@, p + 2);
            }
            pos = e + 2;
            continue;
        }
        if s[p] == '"' || s[p] == '\'' {
            let q = quote_stmt_end_exec(s, p);
            proof {
                lemma_quote_stmt_end(s@, p as int);
            }
            let content = slice_of(s, p, q);
            if contains_exec(&content, &use_pat) {
                pos = q;
                continue;
            }
            return p;
        }
        if occurs_at_exec(s, p, &imp_sp) || occurs_at_exec(s, p, &imp_br) {
            proof {
                lemma_import_walk(s@, p as int);
            }
            pos = import_end_exec(s, p);
            continue;
        }
        return p;
    }
    len
}

fn import_stmt_end_exec(s: &Vec<char>, p: usize) -> (r: usize)
    requires
        p < s.len(),
    ensures
        r as int == import_stmt_end(s@, p as int),
{
    let mut q = p;
    while q < s.len()
        invariant
            p <= q <= s.len(),
            import_stmt_end(s@, p as int) == import_stmt_end(s@, q as int),
        decreases s.len() - q,
    {
        if s[q] == ';' {
            return q + 1;
        }
        if s[q] == '\n' && q > 0 && (s[q - 1] == '\'' || s[q - 1] == '"') {
            return q + 1;
        }
        q += 1;
    }
    q
}

fn directive_end_exec(s: &Vec<char>, p: usize) -> (r: usize)
    requires
        p < s.len(),
        small(s@),
    ensures
        r as int == directive_end(s@, p as int),
{
    let q1 = scan_until_exec(s, p + 1, s[p]);
    proof {
        scan::lemma_scan_while(s@, p + 1, scan::not_char(s@[p as int]));
    }
    let q2 = if q1 < s.len() { q1 + 1 } else { q1 };
    let mut q = q2;
    while q < s.len() && (s[q] == ' ' || s[q] == '\t' || s[q] == ';')
        invariant
            q2 <= q,
            scan::scan_while(s@, q2 as int, |x: char| x == ' ' || x == '\t' || x == ';')
                == scan::scan_while(s@, q as int, |x: char| x == ' ' || x == '\t' || x == ';'),
        decreases s.len() - q,
    {
        q += 1;
    }
    q
}

/// Position at which hoisted functions are inserted: after the leading
/// directives and imports.
fn find_insert_position(s: &Vec<char>) -> (r: usize)
    requires
        small(s@),
    ensures
        r as int == insert_pos_from(s@, 0, 0),
        r <= s.len(),
{
    let len = s.len();
    let imp_sp = import_vec(' ');
    let imp_br = import_vec('{');
    let imp_st = import_vec('*');
    proof {
        assert(imp_sp@ =~= import_sp());
        assert(imp_br@ =~= import_brace());
        assert(imp_st@ =~= import_star());
        lemma_insert_pos(s@, 0, 0);
    }
    let mut last: usize = 0;
    let mut pos: usize = 0;
    while pos < len
        invariant
            len == s.len(),
            small(s@),
            pos <= len + 2,
            last <= len,
            imp_sp@ == import_sp(),
            imp_br@ == import_brace(),
            imp_st@ == import_star(),
            insert_pos_from(s@, 0, 0) == insert_pos_from(s@, pos as int, last as int),
        decreases len + 2 - pos,
    {
        let p = skip_ws_exec(s, pos);
        proof {
            scan::lemma_scan_while(s@, pos as int, scan::ws_pred());
        }
        if p >= len {
            return last;
        }
        if p + 1 < len && s[p] == '/' && s[p + 1] == '/' {
            proof {
                scan::lemma_scan_while(s@, p as int, scan::not_char('\n'));
            }
            pos = scan_until_exec(s, p, '\n');
            continue;
        }
        if p + 1 < len && s[p] == '/' && s[p + 1] == '*' {
            let e = block_end_exec(s, p + 2);
            proof {
                scan::lemma_block_end(s@, p + 2);
            }
            pos = e + 2;
            continue;
        }
        if s[p] == '"' || s[p] == '\'' {
            let q = directive_end_exec(s, p);
            proof {
                lemma_directive_end(s@, p as int);
            }
            pos = q;
            last = q;
            continue;
        }
        if occurs_at_exec(s, p, &imp_sp) || occurs_at_exec(s, p, &imp_br) || occurs_at_exec(
            s,
            p,
            &imp_st,
        ) {
            let q = import_stmt_end_exec(s, p);
            proof {
                lemma_import_stmt_end(s@, p as int);
            }
            pos = q;
            last = q;
            continue;
        }
        return last;
    }
    last
}


/// The brace matcher from `pos` with `depth` open braces, inside a string
/// quoted by `sc` when `in_str`, inside the text of a template literal when
/// `in_tpl`; `tx` holds, for each template expression (`${`) still open,
/// the depth outside it, innermost last. The index of the `}` that brings
/// the depth back to zero, or -1.
pub open spec fn match_brace_from(
    s: Seq<char>,
    pos: int,
    depth: int,
    in_str: bool,
    sc: char,
    in_tpl: bool,
    tx: Seq<int>,
) -> int
    decreases s.len() + 2 - pos,
{
    if pos < 0 || pos >= s.len() {
        -1
    } else {
        let ch = s[pos];
        let escaped = pos > 0 && s[pos - 1] == '\\';
        if in_str {
            if ch == sc && !escaped {
                match_brace_from(s, pos + 1, depth, false, sc, in_tpl, tx)
            } else {
                match_brace_from(s, pos + 1, depth, true, sc, in_tpl, tx)
            }
        } else if in_tpl {
            if ch == '`' && !escaped {
                match_brace_from(s, pos + 1, depth, in_str, sc, false, tx)
            } else if ch == '$' && pos + 1 < s.len() && s[pos + 1] == '{' {
                match_brace_from(s, pos + 2, depth + 1, in_str, sc, false, tx.push(depth))
            } else {
                match_brace_from(s, pos + 1, depth, in_str, sc, in_tpl, tx)
            }
        } else if ch == '"' || ch == '\'' {
            match_brace_from(s, pos + 1, depth, true, ch, in_tpl, tx)
        } else if ch == '`' {
            match_brace_from(s, pos + 1, depth, in_str, sc, true, tx)
        } else if ch == '{' {
            match_brace_from(s, pos + 1, depth + 1, in_str, sc, in_tpl, tx)
        } else if ch == '}' {
            if tx.len() > 0 && tx.last() == depth - 1 {
                match_brace_from(s, pos + 1, depth - 1, in_str, sc, true, tx.drop_last())
            } else if depth - 1 == 0 {
                pos
            } else {
                match_brace_from(s, pos + 1, depth - 1, in_str, sc, in_tpl, tx)
            }
        } else if ch == '/' && pos + 1 < s.len() && s[pos + 1] == '/' {
            proof {
                scan::lemma_scan_while(s, pos + 2, scan::not_char('\n'));
            }
            match_brace_from(s, scan::scan_until(s, pos + 2, '\n'), depth, in_str, sc, in_tpl, tx)
        } else if ch == '/' && pos + 1 < s.len() && s[pos + 1] == '*' {
            proof {
                scan::lemma_block_end(s, pos + 2);
            }
            match_brace_from(s, scan::block_end(s, pos + 2) + 2, depth, in_str, sc, in_tpl, tx)
        } else {
            match_brace_from(s, pos + 1, depth, in_str, sc, in_tpl, tx)
        }
    }
}

/// Index of the `}` matching the `{` at `open`, skipping strings, the text
/// of template literals (their `${...}` expressions are code) and
/// comments; -1 when there is none.
pub open spec fn matching_brace(s: Seq<char>, open: int) -> int {
    match_brace_from(s, open, 0, false, ' ', false, Seq::empty())
}

pub proof fn lemma_match_brace(
    s: Seq<char>,
    pos: int,
    depth: int,
    in_str: bool,
    sc: char,
    in_tpl: bool,
    tx: Seq<int>,
)
    requires
        0 <= pos,
    ensures
        match_brace_from(s, pos, depth, in_str, sc, in_tpl, tx) == -1 || (pos <= match_brace_from(
            s,
            pos,
            depth,
            in_str,
            sc,
            in_tpl,
            tx,
        ) < s.len() && s[match_brace_from(s, pos, depth, in_str, sc, in_tpl, tx)] == '}'),
    decreases s.len() + 2 - pos,
{
    if pos < 0 || pos >= s.len() {
    } else {
        let ch = s[pos];
        let escaped = pos > 0 && s[pos - 1] == '\\';
        if in_str {
            if ch == sc && !escaped {
                lemma_match_brace(s, pos + 1, depth, false, sc, in_tpl, tx);
            } else {
                lemma_match_brace(s, pos + 1, depth, true, sc, in_tpl, tx);
            }
        } else if in_tpl {
            if ch == '`' && !escaped {
                lemma_match_brace(s, pos + 1, depth, in_str, sc, false, tx);
            } else if ch == '$' && pos + 1 < s.len() && s[pos + 1] == '{' {
                lemma_match_brace(s, pos + 2, depth + 1, in_str, sc, false, tx.push(depth));
            } else {
                lemma_match_brace(s, pos + 1, depth, in_str, sc, in_tpl, tx);
            }
        } else if ch == '"' || ch == '\'' {
            lemma_match_brace(s, pos + 1, depth, true, ch, in_tpl, tx);
        } else if ch == '`' {
            lemma_match_brace(s, pos + 1, depth, in_str, sc, true, tx);
        } else if ch == '{' {
            lemma_match_brace(s, pos + 1, depth + 1, in_str, sc, in_tpl, tx);
        } else if ch == '}' {
            if tx.len() > 0 && tx.last() == depth - 1 {
                lemma_match_brace(s, pos + 1, depth - 1, in_str, sc, true, tx.drop_last());
            } else if depth - 1 != 0 {
                lemma_match_brace(s, pos + 1, depth - 1, in_str, sc, in_tpl, tx);
            }
        } else if ch == '/' && pos + 1 < s.len() && s[pos + 1] == '/' {
            scan::lemma_scan_while(s, pos + 2, scan::not_char('\n'));
            lemma_match_brace(s, scan::scan_until(s, pos + 2, '\n'), depth, in_str, sc, in_tpl, tx);
        } else if ch == '/' && pos + 1 < s.len() && s[pos + 1] == '*' {
            scan::lemma_block_end(s, pos + 2);
            lemma_match_brace(s, scan::block_end(s, pos + 2) + 2, depth, in_str, sc, in_tpl, tx);
        } else {
            lemma_match_brace(s, pos + 1, depth, in_str, sc, in_tpl, tx);
        }
    }
}

/// Index of the `}` closing the `{` at `open_pos`: strings, the text of
/// template literals and comments are skipped; a template expression
/// `${...}` is code, and its `}` closes it.
fn find_matching_brace(s: &Vec<char>, open_pos: usize) -> (r: Option<usize>)
    requires
        small(s@),
    ensures
        match r {
            Some(e) => e as int == matching_brace(s@, open_pos as int) && open_pos <= e < s.len()
                && s@[e as int] == '}',
            None => matching_brace(s@, open_pos as int) == -1,
        },
{
    let len = s.len();
    if open_pos >= len {
        return None;
    }
    let mut depth: isize = 0;
    let mut in_str = false;
    let mut sc = ' ';
    let mut in_tpl = false;
    let mut tx: Vec<isize> = Vec::new();
    let mut pos = open_pos;
    proof {
        lemma_match_brace(s@, open_pos as int, 0, false, ' ', false, Seq::empty());
        assert(tx@.map_values(|d: isize| d as int) =~= Seq::<int>::empty());
    }
    while pos < len
        invariant
            len == s.len(),
            small(s@),
            open_pos <= pos <= len + 2,
            -(pos - open_pos) <= depth <= pos - open_pos,
            matching_brace(s@, open_pos as int) == match_brace_from(
                s@,
                pos as int,
                depth as int,
                in_str,
                sc,
                in_tpl,
                tx@.map_values(|d: isize| d as int),
            ),
        decreases len + 2 - pos,
    {
        let ghost txv = tx@.map_values(|d: isize| d as int);
        let ch = s[pos];
        let escaped = pos > 0 && s[pos - 1] == '\\';
        if in_str {
            if ch == sc && !escaped {
                in_str = false;
            }
            pos += 1;
            continue;
        }
        if in_tpl {
            if ch == '`' && !escaped {
                in_tpl = false;
            } else if ch == '$' && pos + 1 < len && s[pos + 1] == '{' {
                tx.push(depth);
                proof {
                    assert(tx@.map_values(|d: isize| d as int) =~= txv.push(depth as int));
                }
                depth += 1;
                in_tpl = false;
                pos += 2;
                continue;
            }
            pos += 1;
            continue;
        }
        if ch == '"' || ch == '\'' {
            in_str = true;
            sc = ch;
        } else if ch == '`' {
            in_tpl = true;
        } else if ch == '{' {
            depth += 1;
        } else if ch == '}' {
            depth -= 1;
            let closes_expr = tx.len() > 0 && tx[tx.len() - 1] == depth;
            if closes_expr {
                let ghost t0 = tx@;
                tx.pop();
                proof {
                    assert(txv.last() == depth as int);
                    assert(tx@.map_values(|d: isize| d as int) =~= txv.drop_last());
                }
                in_tpl = true;
            } else if depth == 0 {
                return Some(pos);
            }
        } else if ch == '/' && pos + 1 < len && s[pos + 1] == '/' {
            proof {
                scan::lemma_scan_while(s@, pos + 2, scan::not_char('\n'));
            }
            pos = scan_until_exec(s, pos + 2, '\n');
            continue;
        } else if ch == '/' && pos + 1 < len && s[pos + 1] == '*' {
            let e = block_end_exec(s, pos + 2);
            proof {
                scan::lemma_block_end(s@, pos + 2);
            }
            pos = e + 2;
            continue;
        }
        pos += 1;
    }
    None
}


/// Backwards walk over a parenthesised parameter list: from `pos` with
/// `depth` unmatched `)`, to the index of the matching `(`.
pub open spec fn paren_back(s: Seq<char>, pos: int, depth: int) -> int
    decreases pos,
{
    if pos > 0 && depth > 0 {
        let p = pos - 1;
        let d = if s[p] == ')' { depth + 1 } else if s[p] == '(' { depth - 1 } else { depth };
        paren_back(s, p, d)
    } else {
        pos
    }
}

pub open spec fn is_ident_char(c: char) -> bool {
    text::is_ascii_alnum(c) || c == '_' || c == '$'
}

/// Backwards walk over identifier characters ending just before `pos`.
pub open spec fn ident_back(s: Seq<char>, pos: int) -> int
    decreases pos,
{
    if pos > 0 && is_ident_char(s[pos - 1]) {
        ident_back(s, pos - 1)
    } else {
        pos
    }
}

/// Backwards walk over whitespace ending just before `pos`.
pub open spec fn ws_back(s: Seq<char>, pos: int) -> int
    decreases pos,
{
    if pos > 0 && text::is_ws(s[pos - 1]) {
        ws_back(s, pos - 1)
    } else {
        pos
    }
}

pub open spec fn async_word() -> Seq<char> {
    seq!['a', 's', 'y', 'n', 'c']
}

pub open spec fn function_word() -> Seq<char> {
    seq!['f', 'u', 'n', 'c', 't', 'i', 'o', 'n']
}

/// Start of an arrow function whose `=>` begins at `eq`: the parameter list
/// (parenthesised or a single identifier), extended over a preceding
/// standalone `async`.
pub open spec fn arrow_start(s: Seq<char>, eq: int) -> int {
    let pe0 = scan::prev_non_ws(s, eq);
    let pe = if pe0 < 0 { 0 } else { pe0 };
    let ps = if s[pe] == ')' { paren_back(s, pe, 1) } else { ident_back(s, pe) };
    let c = ws_back(s, ps);
    if c >= 5 && s.subrange(c - 5, c) == async_word() && (c < 6 || (!text::is_ascii_alnum(s[c - 6])
        && s[c - 6] != '_')) {
        c - 5
    } else {
        ps
    }
}

/// Start of a `function` expression whose body opens at `b`: the last
/// `function` keyword ending at or before `b`, extended over an `async`
/// that precedes it (whitespace between them allowed).
pub open spec fn function_start(s: Seq<char>, b: int) -> Option<int> {
    let f = text::rfind_at_or_before(s, function_word(), b - 8);
    if f < 0 {
        None
    } else {
        let t = text::trim_end(s.subrange(0, f));
        if text::ends_with(t, async_word()) {
            Some(t.len() - 5)
        } else {
            Some(f)
        }
    }
}

/// The span `[start, end)` of the function whose body starts with the
/// directive at `u`: the directive must directly follow the body's `{`
/// (whitespace aside).
pub open spec fn enclosing_function(s: Seq<char>, u: int) -> Option<(int, int)> {
    let b = scan::prev_non_ws(s, u);
    if b < 0 || s[b] != '{' {
        None
    } else {
        let q0 = scan::prev_non_ws(s, b);
        let q = if q0 < 0 { 0 } else { q0 };
        let is_arrow = q > 0 && s[q] == '>' && s[q - 1] == '=';
        let fs = if is_arrow { Some(arrow_start(s, q - 1)) } else { function_start(s, b) };
        match fs {
            None => None,
            Some(st) => {
                let e = matching_brace(s, b);
                if e < 0 {
                    None
                } else {
                    Some((st, e + 1))
                }
            },
        }
    }
}

pub proof fn lemma_backs(s: Seq<char>, pos: int, depth: int)
    requires
        0 <= pos <= s.len(),
    ensures
        0 <= paren_back(s, pos, depth) <= pos,
        0 <= ident_back(s, pos) <= pos,
        0 <= ws_back(s, pos) <= pos,
    decreases pos,
{
    if pos > 0 {
        let p = pos - 1;
        let d = if s[p] == ')' { depth + 1 } else if s[p] == '(' { depth - 1 } else { depth };
        lemma_backs(s, p, d);
        lemma_backs(s, p, depth);
    }
}

/// Start of an arrow function whose `=>` begins at `eq`.
fn find_arrow_start(s: &Vec<char>, eq: usize) -> (r: usize)
    requires
        eq < s.len(),
        small(s@),
    ensures
        r as int == arrow_start(s@, eq as int),
        r <= eq,
{
    let pe = prev_non_ws_or_zero(s, eq);
    proof {
        scan::lemma_prev_non_ws(s@, eq as int);
    }
    let mut pos = pe;
    if s[pe] == ')' {
        let mut depth: usize = 1;
        while pos > 0 && depth > 0
            invariant
                pos <= pe < s.len(),
                depth <= pe - pos + 1,
                paren_back(s@, pos as int, depth as int) == paren_back(s@, pe as int, 1),
            decreases pos,
        {
            pos -= 1;
            if s[pos] == ')' {
                depth += 1;
            } else if s[pos] == '(' {
                depth -= 1;
            }
        }
    } else {
        while pos > 0 && (is_ascii_alnum_exec(s[pos - 1]) || s[pos - 1] == '_' || s[pos - 1] == '$')
            invariant
                pos <= pe < s.len(),
                ident_back(s@, pos as int) == ident_back(s@, pe as int),
            decreases pos,
        {
            pos -= 1;
        }
    }
    let ps = pos;
    let mut c = ps;
    while c > 0 && is_ws_exec(s[c - 1])
        invariant
            c <= ps < s.len(),
            ws_back(s@, c as int) == ws_back(s@, ps as int),
        decreases c,
    {
        c -= 1;
    }
    if c >= 5 && s[c - 5] == 'a' && s[c - 4] == 's' && s[c - 3] == 'y' && s[c - 2] == 'n' && s[c
        - 1] == 'c' {
        proof {
            assert(s@.subrange(c - 5, c as int) =~= async_word());
        }
        if c < 6 || (!is_ascii_alnum_exec(s[c - 6]) && s[c - 6] != '_') {
            return c - 5;
        }
    } else {
        proof {
            if c >= 5 && s@.subrange(c - 5, c as int) == async_word() {
                assert(s@.subrange(c - 5, c as int)[0] == 'a');
                assert(s@.subrange(c - 5, c as int)[1] == 's');
                assert(s@.subrange(c - 5, c as int)[2] == 'y');
                assert(s@.subrange(c - 5, c as int)[3] == 'n');
                assert(s@.subrange(c - 5, c as int)[4] == 'c');
            }
        }
    }
    ps
}

fn function_word_vec() -> (v: Vec<char>)
    ensures
        v@ == function_word(),
{
    let v = vec!['f', 'u', 'n', 'c', 't', 'i', 'o', 'n'];
    assert(v@ =~= function_word());
    v
}

/// Start of the `function` expression whose body opens at `b`.
fn find_function_start(s: &Vec<char>, b: usize) -> (r: Option<usize>)
    requires
        b <= s.len(),
    ensures
        match r {
            Some(x) => function_start(s@, b as int) == Some(x as int) && x <= b,
            None => function_start(s@, b as int) is None,
        },
{
    if b < 8 {
        assert(text::rfind_at_or_before(s@, function_word(), b - 8) == -1);
        return None;
    }
    let fw = function_word_vec();
    let f = match rfind_at_or_before_exec(s, &fw, b - 8) {
        Some(f) => f,
        None => {
            return None;
        },
    };
    proof {
        lemma_rfind_bounds(s@, function_word(), b - 8);
    }
    let e = trim_end_index(s, f);
    if e >= 5 && s[e - 5] == 'a' && s[e - 4] == 's' && s[e - 3] == 'y' && s[e - 2] == 'n' && s[e
        - 1] == 'c' {
        proof {
            let t = s@.subrange(0, e as int);
            assert(t.subrange(t.len() - 5, t.len() as int) =~= async_word());
        }
        Some(e - 5)
    } else {
        proof {
            let t = s@.subrange(0, e as int);
            if text::ends_with(t, async_word()) {
                let u = t.subrange(t.len() - 5, t.len() as int);
                assert(u[0] == 'a' && u[1] == 's' && u[2] == 'y' && u[3] == 'n' && u[4] == 'c');
            }
        }
        Some(f)
    }
}

pub proof fn lemma_rfind_bounds(s: Seq<char>, p: Seq<char>, j: int)
    requires
        -1 <= j,
    ensures
        -1 <= text::rfind_at_or_before(s, p, j) <= j,
        text::rfind_at_or_before(s, p, j) >= 0 ==> text::occurs_at(
            s,
            text::rfind_at_or_before(s, p, j),
            p,
        ),
    decreases j + 1,
{
    if j >= 0 && !text::occurs_at(s, j, p) {
        lemma_rfind_bounds(s, p, j - 1);
    }
}

/// The span of the function whose body starts with the directive at `u`.
fn find_enclosing_function(s: &Vec<char>, u: usize) -> (r: Option<(usize, usize)>)
    requires
        u <= s.len(),
        small(s@),
    ensures
        match r {
            Some((a, e)) => enclosing_function(s@, u as int) == Some((a as int, e as int)) && a
                <= e <= s.len(),
            None => enclosing_function(s@, u as int) is None,
        },
{
    proof {
        scan::lemma_prev_non_ws(s@, u as int);
    }
    let mut pos = u;
    while pos > 0 && is_ws_exec(s[pos - 1])
        invariant
            pos <= u <= s.len(),
            scan::prev_non_ws(s@, u as int) == scan::prev_non_ws(s@, pos as int),
        decreases pos,
    {
        pos -= 1;
    }
    if pos == 0 || s[pos - 1] != '{' {
        return None;
    }
    let b = pos - 1;
    let q = prev_non_ws_or_zero(s, b);
    proof {
        scan::lemma_prev_non_ws(s@, b as int);
    }
    let is_arrow = q > 0 && s[q] == '>' && s[q - 1] == '=';
    let st = if is_arrow {
        find_arrow_start(s, q - 1)
    } else {
        match find_function_start(s, b) {
            Some(x) => x,
            None => {
                return None;
            },
        }
    };
    let e = match find_matching_brace(s, b) {
        Some(e) => e,
        None => {
            return None;
        },
    };
    Some((st, e + 1))
}


pub open spec fn arrow_word() -> Seq<char> {
    seq!['=', '>']
}

/// Position of the first `=>` in a function text, or 0 when there is none.
pub open spec fn arrow_pos(t: Seq<char>) -> int {
    let a = text::find(t, arrow_word());
    if a < 0 { 0 } else { a }
}

/// Index of the body's `{`: the first `{` at or after the arrow position.
pub open spec fn body_open(t: Seq<char>) -> int {
    let ap = arrow_pos(t);
    let b = text::find(t.subrange(ap, t.len() as int), seq!['{']);
    if b < 0 { -1 } else { b + ap }
}

/// Start of the parameter text: the first `(` of the function text.
pub open spec fn params_start(t: Seq<char>) -> int {
    text::find(t, seq!['('])
}

/// End of the parameter text: the last `)` before the arrow position.
pub open spec fn params_end(t: Seq<char>) -> int {
    text::rfind(t.subrange(0, arrow_pos(t)), seq![')'])
}

/// The parameter list of a hoisted function (`()` when it cannot be found).
pub open spec fn hoist_params(t: Seq<char>) -> Seq<char> {
    let ps = params_start(t);
    let pe = params_end(t);
    if ps >= 0 && pe >= 0 { t.subrange(ps, pe + 1) } else { seq!['(', ')'] }
}

/// The slices taken while hoisting `t` are in range.
pub open spec fn hoist_ok(t: Seq<char>) -> bool {
    let b = body_open(t);
    b < 0 || (b + 1 <= t.len() - 1 && !(params_start(t) >= 0 && params_end(t) >= 0
        && params_start(t) > params_end(t) + 1))
}

/// `t` with the first occurrence of directive `p` removed, together with the
/// spaces, tabs, one `;` and one line ending that follow it.
pub open spec fn remove_directive(t: Seq<char>, p: Seq<char>) -> Seq<char> {
    let i = text::find(t, p);
    if i < 0 {
        t
    } else {
        let e1 = scan::scan_while(t, i + p.len(), scan::sp_tab_pred());
        let e2 = if e1 < t.len() && t[e1] == ';' { e1 + 1 } else { e1 };
        let e3 = if e2 < t.len() && t[e2] == '\n' {
            e2 + 1
        } else if e2 + 1 < t.len() && t[e2] == '\r' && t[e2 + 1] == '\n' {
            e2 + 2
        } else {
            e2
        };
        t.subrange(0, i) + t.subrange(e3, t.len() as int)
    }
}

/// A function body without its `"use server"` and `'use server'` directives.
pub open spec fn remove_use_server(body: Seq<char>) -> Seq<char> {
    remove_directive(remove_directive(body, dq_use_server()), sq_use_server())
}

/// The generated name of the action hoisted from the `idx`-th inline directive.
pub open spec fn action_name(idx: nat) -> Seq<char> {
    "__rex_action_"@ + text::decimal(idx)
}

/// The module-level function hoisted from the inline function text `t`:
/// `export [async ]function NAME(params) {body}` with the directive removed
/// from the body, or `export const NAME = t;` when no body is found.
pub open spec fn hoisted_function(t: Seq<char>, name: Seq<char>) -> Seq<char> {
    let b = body_open(t);
    if b >= 0 {
        let is_async = text::starts_with(text::trim_start(t), async_word());
        let body = t.subrange(b + 1, t.len() - 1);
        "export "@ + (if is_async { "async "@ } else { ""@ }) + "function "@ + name
            + hoist_params(t) + " {"@ + remove_use_server(body) + "}"@
    } else {
        "export const "@ + name + " = "@ + t + ";"@
    }
}

pub proof fn lemma_find_bounds(s: Seq<char>, p: Seq<char>)
    ensures
        text::find(s, p) == -1 || (0 <= text::find(s, p) && text::find(s, p) + p.len() <= s.len()),
{
    text::lemma_find_from_range(s, p, 0);
}

pub proof fn lemma_rfind_full(s: Seq<char>, p: Seq<char>)
    ensures
        text::rfind(s, p) == -1 || (0 <= text::rfind(s, p) && text::rfind(s, p) + p.len() <= s.len()),
{
    if s.len() - p.len() >= -1 {
        lemma_rfind_bounds(s, p, s.len() - p.len());
    } else {
        assert(text::rfind(s, p) == -1);
    }
}

fn one(c: char) -> (v: Vec<char>)
    ensures
        v@ == seq![c],
{
    let v = vec![c];
    assert(v@ =~= seq![c]);
    v
}

fn find_exec(s: &Vec<char>, p: &Vec<char>) -> (r: Option<usize>)
    ensures
        match r {
            Some(j) => j as int == text::find(s@, p@) && j + p@.len() <= s@.len(),
            None => text::find(s@, p@) == -1,
        },
{
    proof {
        lemma_find_bounds(s@, p@);
    }
    find_from_exec(s, p, 0)
}

fn rfind_exec(s: &Vec<char>, p: &Vec<char>) -> (r: Option<usize>)
    ensures
        match r {
            Some(j) => j as int == text::rfind(s@, p@) && j + p@.len() <= s@.len(),
            None => text::rfind(s@, p@) == -1,
        },
{
    proof {
        lemma_rfind_full(s@, p@);
    }
    if p.len() > s.len() {
        proof {
            assert(text::rfind_at_or_before(s@, p@, s@.len() - p@.len()) == -1);
        }
        return None;
    }
    rfind_at_or_before_exec(s, p, s.len() - p.len())
}

/// Removes the first occurrence of the directive `p` (see `remove_directive`).
fn remove_directive_exec(t: &Vec<char>, p: &Vec<char>) -> (r: Vec<char>)
    requires
        t.len() + 4 <= usize::MAX,
    ensures
        r@ == remove_directive(t@, p@),
{
    match find_exec(t, p) {
        None => {
            let r = slice_of(t, 0, t.len());
            proof {
                assert(r@ =~= t@);
            }
            r
        },
        Some(i) => {
            let e1 = skip_sp_tab_exec(t, i + p.len());
            proof {
                scan::lemma_scan_while(t@, i + p.len(), scan::sp_tab_pred());
            }
            let e2 = if e1 < t.len() && t[e1] == ';' { e1 + 1 } else { e1 };
            let e3 = if e2 < t.len() && t[e2] == '\n' {
                e2 + 1
            } else if e2 + 1 < t.len() && t[e2] == '\r' && t[e2 + 1] == '\n' {
                e2 + 2
            } else {
                e2
            };
            let mut r = slice_of(t, 0, i);
            let tail = slice_of(t, e3, t.len());
            let mut k: usize = 0;
            while k < tail.len()
                invariant
                    k <= tail.len(),
                    r@ == t@.subrange(0, i as int) + tail@.take(k as int),
                decreases tail.len() - k,
            {
                r.push(tail[k]);
                k += 1;
                proof {
                    assert(tail@.take(k as int) =~= tail@.take(k - 1).push(tail@[k - 1]));
                }
            }
            proof {
                assert(tail@.take(k as int) =~= tail@);
            }
            r
        },
    }
}

/// Removes the `"use server"` / `'use server'` directive from a function body.
fn remove_use_server_directive(body: &Vec<char>) -> (r: Vec<char>)
    requires
        body.len() + 4 <= usize::MAX,
    ensures
        r@ == remove_use_server(body@),
{
    let dq = dq_use_server_vec();
    let sq = sq_use_server_vec();
    let first = remove_directive_exec(body, &dq);
    proof {
        assert(first@.len() <= body@.len()) by {
            let i = text::find(body@, dq_use_server());
            if i >= 0 {
                lemma_find_bounds(body@, dq_use_server());
                let e1 = scan::scan_while(body@, i + 12, scan::sp_tab_pred());
                scan::lemma_scan_while(body@, i + 12, scan::sp_tab_pred());
            }
        }
    }
    remove_directive_exec(&first, &sq)
}

/// The generated action name for the `idx`-th inline directive.
fn make_action_name(idx: usize) -> (r: String)
    ensures
        r@ == action_name(idx as nat),
{
    let mut r = String::from_str("__rex_action_");
    let d = text::decimal_string(idx);
    r.append(d.as_str());
    r
}

/// Builds the module-level function hoisted from the inline function `t`.
fn build_hoisted_function(t: &Vec<char>, name: &String) -> (r: String)
    requires
        hoist_ok(t@),
        t.len() + 4 <= usize::MAX,
    ensures
        r@ == hoisted_function(t@, name@),
{
    let arrow = vec!['=', '>'];
    proof {
        assert(arrow@ =~= arrow_word());
    }
    let ap = match find_exec(t, &arrow) {
        Some(a) => a,
        None => 0,
    };
    let after = slice_of(t, ap, t.len());
    let brace = one('{');
    match find_exec(&after, &brace) {
        None => {
            let mut r = String::from_str("export const ");
            r.append(name.as_str());
            r.append(" = ");
            text::push_chars(&mut r, t);
            r.append(";");
            r
        },
        Some(bo) => {
            let b = bo + ap;
            let ts = slice_of(t, text::trim_start_index(t), t.len());
            proof {
                assert(ts@ =~= text::trim_start(t@));
            }
            let is_async = ts.len() >= 5 && ts[0] == 'a' && ts[1] == 's' && ts[2] == 'y' && ts[3]
                == 'n' && ts[4] == 'c';
            proof {
                if is_async {
                    assert(ts@.subrange(0, 5) =~= async_word());
                } else if text::starts_with(ts@, async_word()) {
                    let u = ts@.subrange(0, 5);
                    assert(u[0] == 'a' && u[1] == 's' && u[2] == 'y' && u[3] == 'n' && u[4] == 'c');
                }
            }
            let before = slice_of(t, 0, ap);
            let ps = find_exec(t, &one('('));
            let pe = rfind_exec(&before, &one(')'));
            let params = match (ps, pe) {
                (Some(s), Some(e)) => slice_of(t, s, e + 1),
                _ => vec!['(', ')'],
            };
            proof {
                assert(params@ =~= hoist_params(t@));
            }
            let body = slice_of(t, b + 1, t.len() - 1);
            let cleaned = remove_use_server_directive(&body);
            let mut r = String::from_str("export ");
            if is_async {
                r.append("async ");
            } else {
                r.append("");
            }
            r.append("function ");
            r.append(name.as_str());
            text::push_chars(&mut r, &params);
            r.append(" {");
            text::push_chars(&mut r, &cleaned);
            r.append("}");
            r
        },
    }
}


/// An extracted inline server action.
#[derive(Debug)]
pub struct ExtractedAction {
    /// Generated function name (e.g. `__rex_action_0`).
    pub name: String,
    /// The full hoisted function source.
    pub source: String,
}

/// Result of extracting inline server actions from a source file.
#[derive(Debug)]
pub struct ExtractionResult {
    /// The transformed source: inline functions replaced by their names, the
    /// hoisted functions inserted after the leading imports.
    pub source: String,
    /// The extracted actions, in order of their position in the source.
    pub actions: Vec<ExtractedAction>,
}

/// A planned replacement: span start, span end, action name, hoisted source.
pub type Rep = (int, int, Seq<char>, Seq<char>);

/// The directive positions at or after the first code: the inline ones.
pub open spec fn inline_from(ps: Seq<int>, fc: int) -> Seq<int>
    decreases ps.len(),
{
    if ps.len() == 0 {
        Seq::empty()
    } else {
        let r = inline_from(ps.drop_last(), fc);
        if ps.last() >= fc { r.push(ps.last()) } else { r }
    }
}

pub open spec fn inline_positions(s: Seq<char>) -> Seq<int> {
    inline_from(use_server_positions(s, s.len() as int), first_code_from(s, 0))
}

/// The replacements planned for the first `n` inline positions `inl`, in
/// position order; the `idx`-th position names its action `__rex_action_idx`.
pub open spec fn reps_of(s: Seq<char>, inl: Seq<int>, n: int) -> Seq<Rep>
    decreases n,
{
    if n <= 0 {
        Seq::empty()
    } else {
        let r = reps_of(s, inl, n - 1);
        match enclosing_function(s, inl[n - 1]) {
            Some((a, e)) => r.push(
                (
                    a,
                    e,
                    action_name((n - 1) as nat),
                    hoisted_function(s.subrange(a, e), action_name((n - 1) as nat)),
                ),
            ),
            None => r,
        }
    }
}

/// Every function text hoisted for the first `n` inline positions is in range.
pub open spec fn hoists_ok(s: Seq<char>, inl: Seq<int>, n: int) -> bool
    decreases n,
{
    if n <= 0 {
        true
    } else {
        hoists_ok(s, inl, n - 1) && match enclosing_function(s, inl[n - 1]) {
            Some((a, e)) => hoist_ok(s.subrange(a, e)),
            None => true,
        }
    }
}

/// Inserts `x` into `r` just before the first element with a smaller start:
/// one step of a stable sort by descending start.
pub open spec fn insert_desc(r: Seq<Rep>, x: Rep) -> Seq<Rep>
    decreases r.len(),
{
    if r.len() == 0 {
        seq![x]
    } else if r[0].0 >= x.0 {
        seq![r[0]] + insert_desc(r.drop_first(), x)
    } else {
        seq![x] + r
    }
}

/// Stable sort by descending start.
pub open spec fn sort_desc(r: Seq<Rep>) -> Seq<Rep>
    decreases r.len(),
{
    if r.len() == 0 {
        r
    } else {
        insert_desc(sort_desc(r.drop_last()), r.last())
    }
}

/// `t` with the span of `x` replaced by its action name.
pub open spec fn apply_one(t: Seq<char>, x: Rep) -> Seq<char> {
    t.subrange(0, x.0) + x.2 + t.subrange(x.1, t.len() as int)
}

/// The replacements applied one after the other, each with its span in the source.
pub open spec fn apply_reps(t: Seq<char>, r: Seq<Rep>) -> Seq<char>
    decreases r.len(),
{
    if r.len() == 0 {
        t
    } else {
        apply_reps(apply_one(t, r[0]), r.drop_first())
    }
}

/// Each span is in range of the text it is applied to.
pub open spec fn apply_ok(t: Seq<char>, r: Seq<Rep>) -> bool
    decreases r.len(),
{
    if r.len() == 0 {
        true
    } else {
        0 <= r[0].0 <= r[0].1 <= t.len() && small(apply_one(t, r[0])) && apply_ok(
            apply_one(t, r[0]),
            r.drop_first(),
        )
    }
}

/// The block of hoisted functions, first action first, each wrapped in newlines.
pub open spec fn hoisted_block(sorted: Seq<Rep>) -> Seq<char>
    decreases sorted.len(),
{
    if sorted.len() == 0 {
        Seq::empty()
    } else {
        seq!['\n'] + sorted.last().3 + seq!['\n'] + hoisted_block(sorted.drop_last())
    }
}

pub open spec fn planned_reps(s: Seq<char>) -> Seq<Rep> {
    reps_of(s, inline_positions(s), inline_positions(s).len() as int)
}

proof fn lemma_inline_from_none(ps: Seq<int>, fc: int)
    requires
        forall|k: int| 0 <= k < ps.len() ==> ps[k] < fc,
    ensures
        inline_from(ps, fc).len() == 0,
    decreases ps.len(),
{
    if ps.len() > 0 {
        assert(ps.last() == ps[ps.len() - 1]);
        lemma_inline_from_none(ps.drop_last(), fc);
    }
}

/// Directives before the first code of a module are module-level ones:
/// when every quoted `"use server"` of the source starts before its first
/// code, no replacement is planned, so nothing is extracted.
pub proof fn lemma_module_level_directives_only(s: Seq<char>)
    requires
        forall|i: int| 0 <= i < s.len() && use_server_at(s, i) ==> i < first_code_from(s, 0),
    ensures
        planned_reps(s).len() == 0,
{
    lemma_use_server_positions_members(s, s.len() as int);
    lemma_inline_from_none(use_server_positions(s, s.len() as int), first_code_from(s, 0));
}

/// A source whose quoted `"use server"` directives all start before its
/// first code can always be extracted from (it is within the size that
/// extraction handles), and nothing is extracted from it.
pub proof fn lemma_no_inline_directive_extracts(s: Seq<char>)
    requires
        small(s),
        forall|i: int| 0 <= i < s.len() && use_server_at(s, i) ==> i < first_code_from(s, 0),
    ensures
        extraction_ok(s),
        planned_reps(s).len() == 0,
{
    lemma_module_level_directives_only(s);
    lemma_use_server_positions_members(s, s.len() as int);
    lemma_inline_from_none(use_server_positions(s, s.len() as int), first_code_from(s, 0));
    assert(inline_positions(s).len() == 0);
    assert(planned_reps(s) =~= Seq::<Rep>::empty());
    assert(sort_desc(planned_reps(s)) =~= Seq::<Rep>::empty());
}

proof fn lemma_use_server_positions_members(s: Seq<char>, n: int)
    ensures
        forall|k: int|
            0 <= k < use_server_positions(s, n).len() ==> 0 <= #[trigger] use_server_positions(s, n)[k] < n
                && use_server_at(s, use_server_positions(s, n)[k]),
    decreases n,
{
    if n > 0 {
        lemma_use_server_positions_members(s, n - 1);
        let prev = use_server_positions(s, n - 1);
        if use_server_at(s, n - 1) {
            assert forall|k: int| 0 <= k < prev.push(n - 1).len() implies 0 <= #[trigger] prev.push(n - 1)[k] < n
                && use_server_at(s, prev.push(n - 1)[k]) by {
                if k < prev.len() {
                    assert(prev.push(n - 1)[k] == prev[k]);
                }
            }
        }
    }
}

/// The inputs the extraction handles without a slicing fault: every hoisted
/// text and every replacement span is in range, and the texts fit in memory.
pub open spec fn extraction_ok(s: Seq<char>) -> bool {
    &&& small(s)
    &&& hoists_ok(s, inline_positions(s), inline_positions(s).len() as int)
    &&& apply_ok(s, sort_desc(planned_reps(s)))
}

/// The transformed source: replacements applied, hoisted block inserted at
/// the insertion position of the replaced text.
pub open spec fn extracted_source(s: Seq<char>) -> Seq<char> {
    let sorted = sort_desc(planned_reps(s));
    let t = apply_reps(s, sorted);
    let ip = insert_pos_from(t, 0, 0);
    t.subrange(0, ip) + hoisted_block(sorted) + t.subrange(ip, t.len() as int)
}

/// The extracted actions as (name, hoisted source), in reverse of the
/// descending-start order.
pub open spec fn extracted_actions(s: Seq<char>) -> Seq<(Seq<char>, Seq<char>)> {
    sort_desc(planned_reps(s)).reverse().map_values(|x: Rep| (x.2, x.3))
}


/// A planned replacement names its action `__rex_action_{k}` and hoists an
/// exported module-level declaration.
pub open spec fn rep_named(x: Rep) -> bool {
    &&& exists|k: nat| x.2 == #[trigger] action_name(k)
    &&& text::starts_with(x.3, "export "@)
    &&& text::contains(x.3, x.2)
}

proof fn lemma_hoisted_exported(t: Seq<char>, name: Seq<char>)
    ensures
        text::starts_with(hoisted_function(t, name), "export "@),
        text::contains(hoisted_function(t, name), name),
{
    let h = hoisted_function(t, name);
    let p = "export "@;
    text::lemma_contains_self(name);
    if body_open(t) >= 0 {
        let is_async = text::starts_with(text::trim_start(t), async_word());
        let body = t.subrange(body_open(t) + 1, t.len() - 1);
        let rest = (if is_async { "async "@ } else { ""@ }) + "function "@ + name + hoist_params(t) + " {"@
            + remove_use_server(body) + "}"@;
        assert(h =~= p + rest);
        assert((p + rest).subrange(0, p.len() as int) =~= p);
        let pre = p + (if is_async { "async "@ } else { ""@ }) + "function "@;
        let post = hoist_params(t) + " {"@ + remove_use_server(body) + "}"@;
        assert(h =~= pre + name + post);
        text::lemma_contains_mid(pre, name, post, name);
    } else {
        let rest = name + " = "@ + t + ";"@;
        assert(h =~= "export const "@ + rest);
        reveal_strlit("export const ");
        reveal_strlit("export ");
        assert(("export const "@ + rest).subrange(0, p.len() as int) =~= p);
        assert(h =~= "export const "@ + name + (" = "@ + t + ";"@));
        text::lemma_contains_mid("export const "@, name, " = "@ + t + ";"@, name);
    }
}

proof fn lemma_reps_named(s: Seq<char>, inl: Seq<int>, n: int)
    ensures
        forall|i: int| 0 <= i < reps_of(s, inl, n).len() ==> rep_named(#[trigger] reps_of(s, inl, n)[i]),
    decreases n,
{
    if n > 0 {
        lemma_reps_named(s, inl, n - 1);
        let r = reps_of(s, inl, n - 1);
        match enclosing_function(s, inl[n - 1]) {
            Some((a, e)) => {
                let name = action_name((n - 1) as nat);
                let x = (a, e, name, hoisted_function(s.subrange(a, e), name));
                lemma_hoisted_exported(s.subrange(a, e), name);
                assert(rep_named(x));
                assert forall|i: int| 0 <= i < r.push(x).len() implies rep_named(#[trigger] r.push(x)[i]) by {
                    if i < r.len() {
                        assert(r.push(x)[i] == r[i]);
                    }
                }
            },
            None => {},
        }
    }
}

proof fn lemma_insert_desc_named(r: Seq<Rep>, x: Rep)
    requires
        forall|i: int| 0 <= i < r.len() ==> rep_named(#[trigger] r[i]),
        rep_named(x),
    ensures
        forall|i: int| 0 <= i < insert_desc(r, x).len() ==> rep_named(#[trigger] insert_desc(r, x)[i]),
    decreases r.len(),
{
    if r.len() > 0 {
        if r[0].0 >= x.0 {
            let t = r.drop_first();
            assert forall|i: int| 0 <= i < t.len() implies rep_named(#[trigger] t[i]) by {
                assert(t[i] == r[i + 1]);
            }
            lemma_insert_desc_named(t, x);
            let u = insert_desc(t, x);
            assert forall|i: int| 0 <= i < (seq![r[0]] + u).len() implies rep_named(#[trigger] (seq![r[0]] + u)[i]) by {
                if i > 0 {
                    assert((seq![r[0]] + u)[i] == u[i - 1]);
                }
            }
        } else {
            assert forall|i: int| 0 <= i < (seq![x] + r).len() implies rep_named(#[trigger] (seq![x] + r)[i]) by {
                if i > 0 {
                    assert((seq![x] + r)[i] == r[i - 1]);
                }
            }
        }
    }
}

proof fn lemma_sort_desc_named(r: Seq<Rep>)
    requires
        forall|i: int| 0 <= i < r.len() ==> rep_named(#[trigger] r[i]),
    ensures
        forall|i: int| 0 <= i < sort_desc(r).len() ==> rep_named(#[trigger] sort_desc(r)[i]),
    decreases r.len(),
{
    if r.len() > 0 {
        let init = r.drop_last();
        assert forall|i: int| 0 <= i < init.len() implies rep_named(#[trigger] init[i]) by {
            assert(init[i] == r[i]);
        }
        lemma_sort_desc_named(init);
        assert(rep_named(r[r.len() - 1]));
        lemma_insert_desc_named(sort_desc(init), r.last());
    }
}

/// No two replacements name the same action.
pub open spec fn names_distinct(r: Seq<Rep>) -> bool {
    forall|i: int, j: int| 0 <= i < j < r.len() ==> r[i].2 != r[j].2
}

proof fn lemma_action_name_injective(a: nat, b: nat)
    requires
        action_name(a) == action_name(b),
    ensures
        a == b,
{
    let p = "__rex_action_"@;
    assert(action_name(a).skip(p.len() as int) =~= text::decimal(a));
    assert(action_name(b).skip(p.len() as int) =~= text::decimal(b));
    text::lemma_decimal_injective(a, b);
}

/// The action of a replacement is numbered below `n`.
pub open spec fn named_below(x: Rep, n: int) -> bool {
    exists|k: nat| k < n && x.2 == #[trigger] action_name(k)
}

proof fn lemma_reps_distinct(s: Seq<char>, inl: Seq<int>, n: int)
    ensures
        forall|i: int| 0 <= i < reps_of(s, inl, n).len() ==> named_below(#[trigger] reps_of(s, inl, n)[i], n),
        names_distinct(reps_of(s, inl, n)),
    decreases n,
{
    if n > 0 {
        lemma_reps_distinct(s, inl, n - 1);
        let r = reps_of(s, inl, n - 1);
        assert forall|i: int| 0 <= i < r.len() implies named_below(#[trigger] r[i], n) by {
            let k = choose|k: nat| k < n - 1 && r[i].2 == #[trigger] action_name(k);
            assert(k < n && r[i].2 == action_name(k));
        }
        match enclosing_function(s, inl[n - 1]) {
            Some((a, e)) => {
                let name = action_name((n - 1) as nat);
                let x = (a, e, name, hoisted_function(s.subrange(a, e), name));
                let q = r.push(x);
                assert(reps_of(s, inl, n) == q);
                assert forall|i: int| 0 <= i < q.len() implies named_below(#[trigger] q[i], n) by {
                    if i < r.len() {
                        assert(q[i] == r[i]);
                    } else {
                        assert(q[i].2 == action_name((n - 1) as nat));
                    }
                }
                assert forall|i: int, j: int| 0 <= i < j < q.len() implies q[i].2 != q[j].2 by {
                    assert(q[i] == r[i]);
                    if j < r.len() {
                        assert(q[j] == r[j]);
                    } else {
                        assert(named_below(r[i], n - 1));
                        let k = choose|k: nat| k < n - 1 && r[i].2 == #[trigger] action_name(k);
                        if q[i].2 == q[j].2 {
                            lemma_action_name_injective(k, (n - 1) as nat);
                        }
                    }
                }
            },
            None => {
                assert(reps_of(s, inl, n) == r);
            },
        }
    }
}

proof fn lemma_insert_desc_distinct(r: Seq<Rep>, x: Rep)
    requires
        names_distinct(r),
        forall|j: int| 0 <= j < r.len() ==> (#[trigger] r[j]).2 != x.2,
    ensures
        names_distinct(insert_desc(r, x)),
        forall|i: int| 0 <= i < insert_desc(r, x).len() ==> #[trigger] insert_desc(r, x)[i] == x || r.contains(
            insert_desc(r, x)[i],
        ),
    decreases r.len(),
{
    if r.len() > 0 {
        if r[0].0 >= x.0 {
            let t = r.drop_first();
            assert forall|j: int| 0 <= j < t.len() implies (#[trigger] t[j]).2 != x.2 by {
                assert(t[j] == r[j + 1]);
            }
            assert forall|i: int, j: int| 0 <= i < j < t.len() implies t[i].2 != t[j].2 by {
                assert(t[i] == r[i + 1] && t[j] == r[j + 1]);
            }
            lemma_insert_desc_distinct(t, x);
            let u = insert_desc(t, x);
            let q = seq![r[0]] + u;
            assert(insert_desc(r, x) == q);
            assert forall|i: int| 0 <= i < q.len() implies #[trigger] q[i] == x || r.contains(q[i]) by {
                if i == 0 {
                    assert(r[0] == q[0]);
                } else {
                    assert(q[i] == u[i - 1]);
                    if u[i - 1] != x {
                        let m = choose|m: int| 0 <= m < t.len() && t[m] == u[i - 1];
                        assert(r[m + 1] == t[m]);
                    }
                }
            }
            assert forall|i: int, j: int| 0 <= i < j < q.len() implies q[i].2 != q[j].2 by {
                assert(q[j] == u[j - 1]);
                if i == 0 {
                    if u[j - 1] != x {
                        let m = choose|m: int| 0 <= m < t.len() && t[m] == u[j - 1];
                        assert(r[m + 1] == t[m]);
                    }
                } else {
                    assert(q[i] == u[i - 1]);
                }
            }
        } else {
            let q = seq![x] + r;
            assert forall|i: int| 0 <= i < q.len() implies #[trigger] q[i] == x || r.contains(q[i]) by {
                if i > 0 {
                    assert(q[i] == r[i - 1]);
                }
            }
            assert forall|i: int, j: int| 0 <= i < j < q.len() implies q[i].2 != q[j].2 by {
                assert(q[j] == r[j - 1]);
                if i > 0 {
                    assert(q[i] == r[i - 1]);
                }
            }
        }
    } else {
        assert(insert_desc(r, x) =~= seq![x]);
    }
}

proof fn lemma_sort_desc_distinct(r: Seq<Rep>)
    requires
        names_distinct(r),
    ensures
        names_distinct(sort_desc(r)),
        forall|i: int| 0 <= i < sort_desc(r).len() ==> r.contains(#[trigger] sort_desc(r)[i]),
    decreases r.len(),
{
    if r.len() > 0 {
        let init = r.drop_last();
        assert forall|i: int, j: int| 0 <= i < j < init.len() implies init[i].2 != init[j].2 by {
            assert(init[i] == r[i] && init[j] == r[j]);
        }
        lemma_sort_desc_distinct(init);
        let si = sort_desc(init);
        let x = r.last();
        assert forall|j: int| 0 <= j < si.len() implies (#[trigger] si[j]).2 != x.2 by {
            let m = choose|m: int| 0 <= m < init.len() && init[m] == si[j];
            assert(r[m] == init[m]);
            assert(r[r.len() - 1] == x);
        }
        lemma_insert_desc_distinct(si, x);
        let q = insert_desc(si, x);
        assert forall|i: int| 0 <= i < q.len() implies r.contains(#[trigger] q[i]) by {
            if q[i] == x {
                assert(r[r.len() - 1] == x);
            } else {
                let m = choose|m: int| 0 <= m < si.len() && si[m] == q[i];
                let m2 = choose|m2: int| 0 <= m2 < init.len() && init[m2] == si[m];
                assert(r[m2] == init[m2]);
            }
        }
    }
}

proof fn lemma_block_contains(sorted: Seq<Rep>, i: int)
    requires
        0 <= i < sorted.len(),
    ensures
        text::contains(hoisted_block(sorted), sorted[i].3),
    decreases sorted.len(),
{
    let last = sorted.last();
    let rest = hoisted_block(sorted.drop_last());
    assert(hoisted_block(sorted) == seq!['\n'] + last.3 + seq!['\n'] + rest);
    if i == sorted.len() - 1 {
        text::lemma_contains_self(last.3);
        text::lemma_contains_mid(seq!['\n'], last.3, seq!['\n'] + rest, last.3);
        assert(seq!['\n'] + last.3 + (seq!['\n'] + rest) =~= hoisted_block(sorted));
    } else {
        lemma_block_contains(sorted.drop_last(), i);
        assert(sorted.drop_last()[i] == sorted[i]);
        text::lemma_contains_mid(seq!['\n'] + last.3 + seq!['\n'], rest, Seq::empty(), sorted[i].3);
        assert(seq!['\n'] + last.3 + seq!['\n'] + rest + Seq::<char>::empty() =~= hoisted_block(sorted));
    }
}

proof fn lemma_sort_desc_len(r: Seq<Rep>)
    ensures
        sort_desc(r).len() == r.len(),
    decreases r.len(),
{
    if r.len() > 0 {
        lemma_sort_desc_len(r.drop_last());
        lemma_insert_desc_len(sort_desc(r.drop_last()), r.last());
    }
}

proof fn lemma_insert_desc_len(r: Seq<Rep>, x: Rep)
    ensures
        insert_desc(r, x).len() == r.len() + 1,
    decreases r.len(),
{
    if r.len() > 0 && r[0].0 >= x.0 {
        lemma_insert_desc_len(r.drop_first(), x);
    }
}

/// The extraction's output holds every hoisted action, and so every
/// action's name; when a replacement is planned, some action is extracted.
pub proof fn lemma_extracted_actions_in_output(s: Seq<char>)
    ensures
        forall|i: int|
            0 <= i < extracted_actions(s).len() ==> text::contains(extracted_source(s), (#[trigger] extracted_actions(s)[i]).1)
                && text::contains(extracted_source(s), extracted_actions(s)[i].0)
                && text::contains(extracted_actions(s)[i].1, extracted_actions(s)[i].0),
        planned_reps(s).len() > 0 ==> extracted_actions(s).len() > 0,
{
    let inl = inline_positions(s);
    lemma_reps_named(s, inl, inl.len() as int);
    lemma_sort_desc_named(planned_reps(s));
    lemma_sort_desc_len(planned_reps(s));
    let sorted = sort_desc(planned_reps(s));
    let t = apply_reps(s, sorted);
    let ip = insert_pos_from(t, 0, 0);
    lemma_insert_pos(t, 0, 0);
    let block = hoisted_block(sorted);
    assert(extracted_source(s) == t.subrange(0, ip) + block + t.subrange(ip, t.len() as int));
    assert forall|i: int| 0 <= i < extracted_actions(s).len() implies text::contains(
        extracted_source(s),
        (#[trigger] extracted_actions(s)[i]).1,
    ) && text::contains(extracted_source(s), extracted_actions(s)[i].0) && text::contains(
        extracted_actions(s)[i].1,
        extracted_actions(s)[i].0,
    ) by {
        let n = sorted.len();
        let x = sorted[n - 1 - i];
        assert(extracted_actions(s)[i] == (x.2, x.3));
        assert(rep_named(x));
        lemma_block_contains(sorted, n - 1 - i);
        text::lemma_contains_mid(t.subrange(0, ip), block, t.subrange(ip, t.len() as int), x.3);
        text::lemma_contains_trans(extracted_source(s), x.3, x.2);
    }
}

/// Replacements in descending order of their start.
pub open spec fn starts_desc(r: Seq<Rep>) -> bool {
    forall|i: int, j: int| 0 <= i < j < r.len() ==> (#[trigger] r[i]).0 >= (#[trigger] r[j]).0
}

proof fn lemma_insert_desc_sorted(r: Seq<Rep>, x: Rep)
    requires
        starts_desc(r),
    ensures
        starts_desc(insert_desc(r, x)),
        forall|i: int| 0 <= i < insert_desc(r, x).len() ==> #[trigger] insert_desc(r, x)[i] == x || r.contains(
            insert_desc(r, x)[i],
        ),
    decreases r.len(),
{
    if r.len() > 0 {
        if r[0].0 >= x.0 {
            let t = r.drop_first();
            assert forall|i: int, j: int| 0 <= i < j < t.len() implies (#[trigger] t[i]).0 >= (#[trigger] t[j]).0 by {
                assert(t[i] == r[i + 1] && t[j] == r[j + 1]);
            }
            lemma_insert_desc_sorted(t, x);
            let u = insert_desc(t, x);
            let w = seq![r[0]] + u;
            assert(insert_desc(r, x) == w);
            assert forall|i: int| 0 <= i < w.len() implies #[trigger] w[i] == x || r.contains(w[i]) by {
                if i == 0 {
                    assert(r.contains(r[0]));
                } else {
                    assert(w[i] == u[i - 1]);
                    if u[i - 1] != x {
                        assert(t.contains(u[i - 1]));
                        let k = choose|k: int| 0 <= k < t.len() && t[k] == u[i - 1];
                        assert(r[k + 1] == t[k]);
                    }
                }
            }
            assert forall|i: int, j: int| 0 <= i < j < w.len() implies (#[trigger] w[i]).0 >= (#[trigger] w[j]).0 by {
                if i == 0 {
                    assert(w[j] == u[j - 1]);
                    if u[j - 1] == x {
                    } else {
                        let k = choose|k: int| 0 <= k < t.len() && t[k] == u[j - 1];
                        assert(r[k + 1] == t[k]);
                    }
                } else {
                    assert(w[i] == u[i - 1] && w[j] == u[j - 1]);
                }
            }
        } else {
            let w = seq![x] + r;
            assert(insert_desc(r, x) == w);
            assert forall|i: int, j: int| 0 <= i < j < w.len() implies (#[trigger] w[i]).0 >= (#[trigger] w[j]).0 by {
                if i == 0 {
                    assert(w[j] == r[j - 1]);
                    if j - 1 > 0 {
                        assert(r[0].0 >= r[j - 1].0);
                    }
                } else {
                    assert(w[i] == r[i - 1] && w[j] == r[j - 1]);
                }
            }
            assert forall|i: int| 0 <= i < w.len() implies #[trigger] w[i] == x || r.contains(w[i]) by {
                if i > 0 {
                    assert(w[i] == r[i - 1]);
                }
            }
        }
    } else {
        assert(insert_desc(r, x) == seq![x]);
    }
}

proof fn lemma_sort_desc_sorted(r: Seq<Rep>)
    ensures
        starts_desc(sort_desc(r)),
    decreases r.len(),
{
    if r.len() > 0 {
        lemma_sort_desc_sorted(r.drop_last());
        lemma_insert_desc_sorted(sort_desc(r.drop_last()), r.last());
    }
}

/// The extracted actions come in the order in which the functions they
/// were hoisted from start in the source (a function nested in another
/// comes after it, though its directive comes first): they are the planned
/// replacements in ascending order of their start.
pub proof fn lemma_extracted_in_function_order(s: Seq<char>)
    ensures
        ({
            let reps = sort_desc(planned_reps(s)).reverse();
            &&& extracted_actions(s) == reps.map_values(|x: Rep| (x.2, x.3))
            &&& forall|i: int, j: int| 0 <= i < j < reps.len() ==> (#[trigger] reps[i]).0 <= (#[trigger] reps[j]).0
        }),
{
    let d = sort_desc(planned_reps(s));
    lemma_sort_desc_sorted(planned_reps(s));
    let reps = d.reverse();
    assert forall|i: int, j: int| 0 <= i < j < reps.len() implies (#[trigger] reps[i]).0 <= (#[trigger] reps[j]).0 by {
        assert(reps[i] == d[d.len() - 1 - i]);
        assert(reps[j] == d[d.len() - 1 - j]);
    }
}

/// Every extracted action is named `__rex_action_{k}` for some `k`, no two
/// share a name, and each hoisted source is an exported module-level
/// declaration (it begins with `export `).
pub proof fn lemma_extracted_actions_named(s: Seq<char>)
    ensures
        forall|i: int|
            0 <= i < extracted_actions(s).len() ==> (exists|k: nat| (#[trigger] extracted_actions(s)[i]).0
                == action_name(k)) && text::starts_with(extracted_actions(s)[i].1, "export "@),
        forall|i: int, j: int|
            0 <= i < j < extracted_actions(s).len() ==> extracted_actions(s)[i].0 != extracted_actions(s)[j].0,
{
    let inl = inline_positions(s);
    lemma_reps_named(s, inl, inl.len() as int);
    let sorted = sort_desc(planned_reps(s));
    lemma_sort_desc_named(planned_reps(s));
    assert forall|i: int| 0 <= i < extracted_actions(s).len() implies (exists|k: nat| (#[trigger] extracted_actions(
        s,
    )[i]).0 == action_name(k)) && text::starts_with(extracted_actions(s)[i].1, "export "@) by {
        let x = sorted.reverse()[i];
        assert(x == sorted[sorted.len() - 1 - i]);
        assert(rep_named(x));
        assert(extracted_actions(s)[i] == (x.2, x.3));
    }
    lemma_reps_distinct(s, inl, inl.len() as int);
    lemma_sort_desc_distinct(planned_reps(s));
    assert forall|i: int, j: int| 0 <= i < j < extracted_actions(s).len() implies extracted_actions(s)[i].0
        != extracted_actions(s)[j].0 by {
        let n = sorted.len();
        assert(extracted_actions(s)[i] == (sorted[n - 1 - i].2, sorted[n - 1 - i].3));
        assert(extracted_actions(s)[j] == (sorted[n - 1 - j].2, sorted[n - 1 - j].3));
    }
}

struct Replacement {
    start: usize,
    end: usize,
    action_name: String,
    hoisted_source: String,
}

spec fn rep_view(r: Replacement) -> Rep {
    (r.start as int, r.end as int, r.action_name@, r.hoisted_source@)
}

spec fn reps_view(v: Seq<Replacement>) -> Seq<Rep> {
    v.map_values(|r: Replacement| rep_view(r))
}

fn clone_rep(r: &Replacement) -> (c: Replacement)
    ensures
        rep_view(c) == rep_view(*r),
{
    Replacement {
        start: r.start,
        end: r.end,
        action_name: r.action_name.clone(),
        hoisted_source: r.hoisted_source.clone(),
    }
}

proof fn lemma_insert_desc(r: Seq<Rep>, x: Rep, k: int)
    requires
        0 <= k <= r.len(),
        forall|j: int| 0 <= j < k ==> r[j].0 >= x.0,
        k == r.len() || r[k].0 < x.0,
    ensures
        insert_desc(r, x) == r.take(k) + seq![x] + r.skip(k),
    decreases r.len(),
{
    if r.len() == 0 {
        assert(r.take(k) + seq![x] + r.skip(k) =~= seq![x]);
    } else if r[0].0 >= x.0 {
        assert(k > 0);
        lemma_insert_desc(r.drop_first(), x, k - 1);
        assert(seq![r[0]] + (r.drop_first().take(k - 1) + seq![x] + r.drop_first().skip(k - 1))
            =~= r.take(k) + seq![x] + r.skip(k));
    } else {
        assert(k == 0);
        assert(r.take(0) + seq![x] + r.skip(0) =~= seq![x] + r);
    }
}

/// Stable sort of the replacements by descending start.
fn sort_reps(v: Vec<Replacement>) -> (out: Vec<Replacement>)
    ensures
        reps_view(out@) == sort_desc(reps_view(v@)),
{
    let mut out: Vec<Replacement> = Vec::new();
    let mut i: usize = 0;
    while i < v.len()
        invariant
            i <= v.len(),
            reps_view(out@) == sort_desc(reps_view(v@).take(i as int)),
        decreases v.len() - i,
    {
        let x = clone_rep(&v[i]);
        let mut k: usize = 0;
        while k < out.len() && out[k].start >= x.start
            invariant
                k <= out.len(),
                forall|j: int| 0 <= j < k ==> out@[j].start >= x.start,
            decreases out.len() - k,
        {
            k += 1;
        }
        proof {
            let rv = reps_view(out@);
            let xv = rep_view(x);
            assert forall|j: int| 0 <= j < k implies rv[j].0 >= xv.0 by {}
            lemma_insert_desc(rv, xv, k as int);
            assert(reps_view(v@).take(i + 1).drop_last() =~= reps_view(v@).take(i as int));
            assert(reps_view(v@).take(i + 1).last() == xv);
        }
        let ghost old_out = out@;
        out.insert(k, x);
        proof {
            assert(reps_view(out@) =~= reps_view(old_out).take(k as int) + seq![rep_view(x)]
                + reps_view(old_out).skip(k as int));
        }
        i += 1;
    }
    proof {
        assert(reps_view(v@).take(i as int) =~= reps_view(v@));
    }
    out
}

proof fn lemma_hoists_ok_mono(s: Seq<char>, inl: Seq<int>, m: int, n: int)
    requires
        m <= n,
        hoists_ok(s, inl, n),
    ensures
        hoists_ok(s, inl, m),
    decreases n - m,
{
    if m < n {
        lemma_hoists_ok_mono(s, inl, m, n - 1);
    }
}

/// The text with the span of `x` replaced by its name.
fn apply_one_exec(t: &Vec<char>, x: &Replacement) -> (r: Vec<char>)
    requires
        x.start <= x.end <= t.len(),
    ensures
        r@ == apply_one(t@, rep_view(*x)),
{
    let mut r = slice_of(t, 0, x.start);
    let name = chars_of(x.action_name.as_str());
    let tail = slice_of(t, x.end, t.len());
    let ghost r0 = r@;
    let mut k: usize = 0;
    while k < name.len()
        invariant
            k <= name.len(),
            r@ == r0 + name@.take(k as int),
        decreases name.len() - k,
    {
        r.push(name[k]);
        k += 1;
        proof {
            assert(name@.take(k as int) =~= name@.take(k - 1).push(name@[k - 1]));
        }
    }
    proof {
        assert(name@.take(k as int) =~= name@);
    }
    let ghost r1 = r@;
    let mut j: usize = 0;
    while j < tail.len()
        invariant
            j <= tail.len(),
            r@ == r1 + tail@.take(j as int),
        decreases tail.len() - j,
    {
        r.push(tail[j]);
        j += 1;
        proof {
            assert(tail@.take(j as int) =~= tail@.take(j - 1).push(tail@[j - 1]));
        }
    }
    proof {
        assert(tail@.take(j as int) =~= tail@);
    }
    r
}

fn append_vec(r: &mut Vec<char>, v: &Vec<char>)
    ensures
        final(r)@ == old(r)@ + v@,
{
    let mut j: usize = 0;
    while j < v.len()
        invariant
            j <= v.len(),
            r@ == old(r)@ + v@.take(j as int),
        decreases v.len() - j,
    {
        r.push(v[j]);
        j += 1;
        proof {
            assert(v@.take(j as int) =~= v@.take(j - 1).push(v@[j - 1]));
        }
    }
    proof {
        assert(v@.take(j as int) =~= v@);
    }
}

/// Extracts inline `"use server"` functions from `source`.
///
/// Returns `None` when no inline server action is found: no directive past
/// the module-level ones, or none directly opening a function body.
pub fn extract_inline_server_actions(source: &str, _file_path: &str) -> (r: Option<
    ExtractionResult,
>)
    requires
        extraction_ok(source@),
    ensures
        r is None <==> planned_reps(source@).len() == 0,
        (forall|i: int| 0 <= i < source@.len() && use_server_at(source@, i) ==> i < first_code_from(source@, 0))
            ==> r is None,
        r matches Some(res) ==> {
            &&& res.source@ == extracted_source(source@)
            &&& res.actions@.len() == extracted_actions(source@).len()
            &&& forall|k: int|
                0 <= k < res.actions@.len() ==> (#[trigger] res.actions@[k]).name@
                    == extracted_actions(source@)[k].0 && res.actions@[k].source@
                    == extracted_actions(source@)[k].1
        },
{
    proof {
        if forall|i: int| 0 <= i < source@.len() && use_server_at(source@, i) ==> i < first_code_from(source@, 0) {
            lemma_module_level_directives_only(source@);
        }
    }
    let s = chars_of(source);
    let positions = find_use_server_positions(&s);
    let fc = find_first_code_position(&s);
    let ghost ps = use_server_positions(s@, s@.len() as int);
    let mut inline: Vec<usize> = Vec::new();
    let mut k: usize = 0;
    while k < positions.len()
        invariant
            k <= positions.len(),
            positions@.len() == ps.len(),
            forall|j: int| 0 <= j < positions@.len() ==> positions@[j] as int == ps[j],
            fc as int == first_code_from(s@, 0),
            inline@.len() == inline_from(ps.take(k as int), fc as int).len(),
            forall|j: int|
                0 <= j < inline@.len() ==> inline@[j] as int == inline_from(
                    ps.take(k as int),
                    fc as int,
                )[j],
        decreases positions.len() - k,
    {
        proof {
            assert(ps.take(k + 1).drop_last() =~= ps.take(k as int));
            assert(ps.take(k + 1).last() == ps[k as int]);
        }
        if positions[k] >= fc {
            inline.push(positions[k]);
        }
        k += 1;
    }
    let ghost inl = inline_positions(s@);
    proof {
        assert(ps.take(k as int) =~= ps);
        lemma_positions_bound(s@, s@.len() as int);
        lemma_inline_from_members(ps, fc as int, s@.len() as int);
    }
    let mut reps: Vec<Replacement> = Vec::new();
    let mut idx: usize = 0;
    while idx < inline.len()
        invariant
            idx <= inline.len(),
            inline@.len() == inl.len(),
            inl == inline_positions(s@),
            forall|j: int| 0 <= j < inline@.len() ==> inline@[j] as int == inl[j],
            forall|j: int| 0 <= j < inl.len() ==> 0 <= #[trigger] inl[j] < s@.len(),
            extraction_ok(s@),
            s@ == source@,
            reps_view(reps@) == reps_of(s@, inl, idx as int),
        decreases inline.len() - idx,
    {
        proof {
            assert(inline@[idx as int] as int == inl[idx as int]);
        }
        match find_enclosing_function(&s, inline[idx]) {
            Some((a, e)) => {
                let name = make_action_name(idx);
                let text = slice_of(&s, a, e);
                proof {
                    lemma_hoists_ok_mono(s@, inl, idx + 1, inl.len() as int);
                }
                let hoisted = build_hoisted_function(&text, &name);
                let ghost old_reps = reps@;
                reps.push(
                    Replacement { start: a, end: e, action_name: name, hoisted_source: hoisted },
                );
                proof {
                    assert(reps_view(reps@) =~= reps_view(old_reps).push(rep_view(reps@.last())));
                }
            },
            None => {},
        }
        idx += 1;
    }
    if reps.len() == 0 {
        return None;
    }
    let sorted = sort_reps(reps);
    let ghost sv = reps_view(sorted@);
    let mut t = slice_of(&s, 0, s.len());
    proof {
        assert(t@ =~= s@);
        assert(sv.skip(0) =~= sv);
    }
    let mut i: usize = 0;
    while i < sorted.len()
        invariant
            i <= sorted.len(),
            sv == reps_view(sorted@),
            sv == sort_desc(planned_reps(s@)),
            small(t@),
            apply_reps(s@, sv) == apply_reps(t@, sv.skip(i as int)),
            apply_ok(t@, sv.skip(i as int)),
        decreases sorted.len() - i,
    {
        proof {
            assert(sv.skip(i as int)[0] == rep_view(sorted@[i as int]));
            assert(sv.skip(i as int).drop_first() =~= sv.skip(i + 1));
        }
        t = apply_one_exec(&t, &sorted[i]);
        i += 1;
    }
    proof {
        assert(sv.skip(i as int) =~= Seq::<Rep>::empty());
    }
    let ip = find_insert_position(&t);
    let mut out = slice_of(&t, 0, ip);
    let ghost prefix = out@;
    let mut k2: usize = sorted.len();
    proof {
        assert(sv.take(k2 as int) =~= sv);
    }
    while k2 > 0
        invariant
            k2 <= sorted.len(),
            sv == reps_view(sorted@),
            out@ + hoisted_block(sv.take(k2 as int)) == prefix + hoisted_block(sv),
        decreases k2,
    {
        let src = chars_of(sorted[k2 - 1].hoisted_source.as_str());
        let ghost before = out@;
        out.push('\n');
        append_vec(&mut out, &src);
        out.push('\n');
        proof {
            let tk = sv.take(k2 as int);
            assert(tk.drop_last() =~= sv.take(k2 - 1));
            assert(tk.last() == rep_view(sorted@[k2 - 1]));
            assert(out@ =~= before + (seq!['\n'] + tk.last().3 + seq!['\n']));
            assert(hoisted_block(tk) == seq!['\n'] + tk.last().3 + seq!['\n'] + hoisted_block(
                sv.take(k2 - 1),
            ));
            assert(out@ + hoisted_block(sv.take(k2 - 1)) =~= before + hoisted_block(tk));
        }
        k2 -= 1;
    }
    proof {
        assert(sv.take(0) =~= Seq::<Rep>::empty());
        assert(out@ =~= prefix + hoisted_block(sv));
    }
    let tail = slice_of(&t, ip, t.len());
    append_vec(&mut out, &tail);
    let mut actions: Vec<ExtractedAction> = Vec::new();
    let mut k3: usize = sorted.len();
    while k3 > 0
        invariant
            k3 <= sorted.len(),
            sv == reps_view(sorted@),
            actions@.len() == sorted.len() - k3,
            forall|j: int|
                0 <= j < actions@.len() ==> (#[trigger] actions@[j]).name@ == sv[sv.len() - 1 - j].2
                    && actions@[j].source@ == sv[sv.len() - 1 - j].3,
        decreases k3,
    {
        let a = ExtractedAction {
            name: sorted[k3 - 1].action_name.clone(),
            source: sorted[k3 - 1].hoisted_source.clone(),
        };
        actions.push(a);
        k3 -= 1;
    }
    let src_string = text::string_of(&out);
    proof {
        assert(src_string@ =~= extracted_source(source@));
    }
    Some(ExtractionResult { source: src_string, actions })
}


fn hoist_ok_exec(t: &Vec<char>) -> (r: bool)
    ensures
        r == hoist_ok(t@),
{
    let arrow = vec!['=', '>'];
    proof {
        assert(arrow@ =~= arrow_word());
    }
    let ap = match find_exec(t, &arrow) {
        Some(a) => a,
        None => 0,
    };
    let after = slice_of(t, ap, t.len());
    let brace = one('{');
    match find_exec(&after, &brace) {
        None => true,
        Some(bo) => {
            let b = bo + ap;
            if !(b + 1 < t.len()) {
                return false;
            }
            let before = slice_of(t, 0, ap);
            let ps = find_exec(t, &one('('));
            let pe = rfind_exec(&before, &one(')'));
            match (ps, pe) {
                (Some(s), Some(e)) => !(s > e + 1),
                _ => true,
            }
        },
    }
}

/// Whether extraction handles `source` without a slicing fault (the
/// inputs `extract_inline_server_actions` accepts).
pub fn extraction_ok_exec(source: &str) -> (r: bool)
    ensures
        r == extraction_ok(source@),
{
    let s = chars_of(source);
    if s.len() > (isize::MAX as usize) - 8 {
        return false;
    }
    let positions = find_use_server_positions(&s);
    let fc = find_first_code_position(&s);
    let ghost ps = use_server_positions(s@, s@.len() as int);
    let mut inline: Vec<usize> = Vec::new();
    let mut k: usize = 0;
    while k < positions.len()
        invariant
            k <= positions.len(),
            positions@.len() == ps.len(),
            forall|j: int| 0 <= j < positions@.len() ==> positions@[j] as int == ps[j],
            fc as int == first_code_from(s@, 0),
            inline@.len() == inline_from(ps.take(k as int), fc as int).len(),
            forall|j: int|
                0 <= j < inline@.len() ==> inline@[j] as int == inline_from(
                    ps.take(k as int),
                    fc as int,
                )[j],
        decreases positions.len() - k,
    {
        proof {
            assert(ps.take(k + 1).drop_last() =~= ps.take(k as int));
            assert(ps.take(k + 1).last() == ps[k as int]);
        }
        if positions[k] >= fc {
            inline.push(positions[k]);
        }
        k += 1;
    }
    let ghost inl = inline_positions(s@);
    proof {
        assert(ps.take(k as int) =~= ps);
        lemma_positions_bound(s@, s@.len() as int);
        lemma_inline_from_members(ps, fc as int, s@.len() as int);
    }
    let mut reps: Vec<Replacement> = Vec::new();
    let mut idx: usize = 0;
    while idx < inline.len()
        invariant
            idx <= inline.len(),
            inline@.len() == inl.len(),
            inl == inline_positions(s@),
            forall|j: int| 0 <= j < inline@.len() ==> inline@[j] as int == inl[j],
            forall|j: int| 0 <= j < inl.len() ==> 0 <= #[trigger] inl[j] < s@.len(),
            small(s@),
            s@ == source@,
            hoists_ok(s@, inl, idx as int),
            reps_view(reps@) == reps_of(s@, inl, idx as int),
        decreases inline.len() - idx,
    {
        proof {
            assert(inline@[idx as int] as int == inl[idx as int]);
        }
        match find_enclosing_function(&s, inline[idx]) {
            Some((a, e)) => {
                let name = make_action_name(idx);
                let text = slice_of(&s, a, e);
                if !hoist_ok_exec(&text) {
                    proof {
                        if hoists_ok(s@, inl, inl.len() as int) {
                            lemma_hoists_ok_mono(s@, inl, idx + 1, inl.len() as int);
                        }
                    }
                    return false;
                }
                let hoisted = build_hoisted_function(&text, &name);
                let ghost old_reps = reps@;
                reps.push(
                    Replacement { start: a, end: e, action_name: name, hoisted_source: hoisted },
                );
                proof {
                    assert(reps_view(reps@) =~= reps_view(old_reps).push(rep_view(reps@.last())));
                }
            },
            None => {},
        }
        idx += 1;
    }
    let sorted = sort_reps(reps);
    let ghost sv = reps_view(sorted@);
    let mut t = slice_of(&s, 0, s.len());
    proof {
        assert(t@ =~= s@);
        assert(sv.skip(0) =~= sv);
    }
    let mut i: usize = 0;
    while i < sorted.len()
        invariant
            i <= sorted.len(),
            sv == reps_view(sorted@),
            sv == sort_desc(planned_reps(s@)),
            small(t@),
            hoists_ok(s@, inline_positions(s@), inline_positions(s@).len() as int),
            small(s@),
            s@ == source@,
            apply_ok(s@, sv) == apply_ok(t@, sv.skip(i as int)),
        decreases sorted.len() - i,
    {
        proof {
            assert(sv.skip(i as int)[0] == rep_view(sorted@[i as int]));
            assert(sv.skip(i as int).drop_first() =~= sv.skip(i + 1));
        }
        let x = &sorted[i];
        if !(x.start <= x.end && x.end <= t.len()) {
            proof {
                assert(!apply_ok(t@, sv.skip(i as int)));
            }
            return false;
        }
        let nl = x.action_name.as_str().unicode_len();
        let lim = (isize::MAX as usize) - 8;
        if x.start > lim || nl > lim - x.start || t.len() - x.end > lim - x.start - nl {
            proof {
                assert(apply_one(t@, rep_view(*x)).len() == x.start + nl + (t.len() - x.end));
                assert(!small(apply_one(t@, rep_view(*x))));
                assert(!apply_ok(t@, sv.skip(i as int)));
            }
            return false;
        }
        t = apply_one_exec(&t, x);
        i += 1;
    }
    proof {
        assert(sv.skip(i as int) =~= Seq::<Rep>::empty());
    }
    true
}

/// Extracts inline `"use server"` functions from `source`, or reports that
/// the source is one extraction cannot slice (`Err`), where
/// `extract_inline_server_actions` is not to be called.
pub fn try_extract_inline_server_actions(source: &str, file_path: &str) -> (r: Result<Option<ExtractionResult>, ()>)
    ensures
        r is Err <==> !extraction_ok(source@),
        r matches Ok(o) ==> (o is None <==> planned_reps(source@).len() == 0),
        (forall|i: int| 0 <= i < source@.len() && use_server_at(source@, i) ==> i < first_code_from(source@, 0))
            && small(source@) ==> r == Ok::<Option<ExtractionResult>, ()>(None),
        r matches Ok(Some(res)) ==> {
            &&& res.source@ == extracted_source(source@)
            &&& res.actions@.len() == extracted_actions(source@).len()
            &&& forall|k: int|
                0 <= k < res.actions@.len() ==> (#[trigger] res.actions@[k]).name@
                    == extracted_actions(source@)[k].0 && res.actions@[k].source@
                    == extracted_actions(source@)[k].1
        },
{
    proof {
        if small(source@) && forall|i: int|
            0 <= i < source@.len() && use_server_at(source@, i) ==> i < first_code_from(source@, 0) {
            lemma_no_inline_directive_extracts(source@);
        }
    }
    if extraction_ok_exec(source) {
        Ok(extract_inline_server_actions(source, file_path))
    } else {
        Err(())
    }
}


/// The statements that register an action as a server reference, as
/// injected by the load hook right after the hoisted functions.
pub open spec fn plugin_registration(name: Seq<char>, id: Seq<char>) -> Seq<char> {
    name + ".$$typeof = Symbol.for(\"react.server.reference\");"@ + name + ".$$id = \""@ + id + "\";"@ + name
        + ".$$bound = null;\n"@
}

/// The registrations of the extracted actions, in order.
pub open spec fn plugin_registrations(rel_path: Seq<char>, names: Seq<Seq<char>>, build_id: Seq<char>) -> Seq<char>
    decreases names.len(),
{
    if names.len() == 0 {
        Seq::empty()
    } else {
        plugin_registrations(rel_path, names.drop_last(), build_id) + plugin_registration(
            names.last(),
            crate::ids::server_action_id_spec(rel_path, names.last(), build_id),
        )
    }
}

/// The names of the extracted actions.
pub open spec fn action_names(actions: Seq<ExtractedAction>) -> Seq<Seq<char>> {
    actions.map_values(|a: ExtractedAction| a.name@)
}

/// Transforms the modules with inline `"use server"` functions at load
/// time: the actions are hoisted to module level and registered as server
/// references in the same scope.
pub struct InlineServerActionPlugin {
    /// Canonical paths of the modules to transform.
    targets: crate::string_set::StringSet,
    /// Project root, for relative paths.
    project_root: String,
    /// Build id, for action ids.
    build_id: String,
}

impl InlineServerActionPlugin {
    /// The paths of the modules to transform.
    pub closed spec fn target_set(&self) -> Set<Seq<char>> {
        self.targets@
    }

    /// The project root.
    pub closed spec fn root(&self) -> Seq<char> {
        self.project_root@
    }

    /// The build id action ids are computed with.
    pub closed spec fn build(&self) -> Seq<char> {
        self.build_id@
    }

    /// The project root.
    pub fn project_root(&self) -> (r: &str)
        ensures
            r@ == self.root(),
    {
        self.project_root.as_str()
    }

    pub fn new(targets: Vec<String>, project_root: String, build_id: String) -> (r: InlineServerActionPlugin)
        ensures
            r.target_set() == text::views(targets@).to_set(),
            r.root() == project_root@,
            r.build() == build_id@,
    {
        let mut set = crate::string_set::StringSet::new();
        let ghost tv = text::views(targets@);
        let mut i: usize = 0;
        proof {
            assert(tv.take(0).to_set() =~= Set::<Seq<char>>::empty());
        }
        while i < targets.len()
            invariant
                i <= targets@.len(),
                tv == text::views(targets@),
                set.wf(),
                set@ == tv.take(i as int).to_set(),
            decreases targets.len() - i,
        {
            proof {
                assert(tv.take(i + 1) =~= tv.take(i as int).push(tv[i as int]));
                tv.take(i as int).lemma_push_to_set_commute(tv[i as int]);
            }
            set.insert(String::from_str(targets[i].as_str()));
            i += 1;
        }
        proof {
            assert(tv.take(i as int) =~= tv);
        }
        InlineServerActionPlugin { targets: set, project_root, build_id }
    }

    /// Whether a module is one to transform.
    pub fn is_target(&self, id: &str) -> (r: bool)
        ensures
            r == self.target_set().contains(id@),
    {
        self.targets.contains(id)
    }

    /// The registration statements of extracted actions of the module at
    /// `rel_path`.
    pub fn registrations(&self, rel_path: &str, actions: &Vec<ExtractedAction>) -> (r: String)
        ensures
            r@ == plugin_registrations(rel_path@, action_names(actions@), self.build()),
    {
        let ghost ns = action_names(actions@);
        let mut reg = String::new();
        let mut i: usize = 0;
        while i < actions.len()
            invariant
                i <= actions@.len(),
                ns == action_names(actions@),
                reg@ == plugin_registrations(rel_path@, ns.take(i as int), self.build_id@),
            decreases actions.len() - i,
        {
            proof {
                assert(ns.take(i + 1).drop_last() =~= ns.take(i as int));
                assert(ns.take(i + 1).last() == actions@[i as int].name@);
            }
            let n = actions[i].name.as_str();
            let id = crate::ids::server_action_id(rel_path, n, self.build_id.as_str());
            let ghost before = reg@;
            reg.append(n);
            reg.append(".$$typeof = Symbol.for(\"react.server.reference\");");
            reg.append(n);
            reg.append(".$$id = \"");
            reg.append(id.as_str());
            reg.append("\";");
            reg.append(n);
            reg.append(".$$bound = null;\n");
            proof {
                assert(reg@ =~= before + plugin_registration(n@, id@));
            }
            i += 1;
        }
        proof {
            assert(ns.take(i as int) =~= ns);
        }
        reg
    }

    /// The code a module loads as: for a target module with inline actions,
    /// the extracted source followed by the registrations of its actions
    /// (the relative path with `\\` turned into `/`); `Ok(None)` when the
    /// module is not a target or has no inline action; `Err` when the
    /// source is one extraction cannot slice.
    pub fn load_source(&self, id: &str, rel_path: &str, source: &str) -> (r: Result<Option<String>, ()>)
        ensures
            !self.target_set().contains(id@) ==> r == Ok::<Option<String>, ()>(None),
            self.target_set().contains(id@) ==> (r is Err <==> !extraction_ok(source@)),
            self.target_set().contains(id@) && extraction_ok(source@) ==> (r matches Ok(o) && (o is None
                <==> planned_reps(source@).len() == 0)),
            r matches Ok(Some(code)) ==> code@ == extracted_source(source@) + plugin_registrations(
                text::replace_char(rel_path@, '\\', "/"@),
                extracted_actions(source@).map_values(|a: (Seq<char>, Seq<char>)| a.0),
                self.build(),
            ),
    {
        if !self.is_target(id) {
            return Ok(None);
        }
        match try_extract_inline_server_actions(source, id) {
            Err(()) => Err(()),
            Ok(None) => Ok(None),
            Ok(Some(res)) => {
                let rel = text::replace_char_exec(rel_path, '\\', "/");
                let reg = self.registrations(rel.as_str(), &res.actions);
                proof {
                    assert(action_names(res.actions@) =~= extracted_actions(source@).map_values(
                        |a: (Seq<char>, Seq<char>)| a.0,
                    ));
                }
                let mut code = res.source;
                code.append(reg.as_str());
                Ok(Some(code))
            },
        }
    }
}

proof fn lemma_positions_bound(s: Seq<char>, n: int)
    requires
        0 <= n <= s.len(),
    ensures
        forall|j: int|
            0 <= j < use_server_positions(s, n).len() ==> 0 <= #[trigger] use_server_positions(
                s,
                n,
            )[j] < n,
    decreases n,
{
    if n > 0 {
        lemma_positions_bound(s, n - 1);
        let prev = use_server_positions(s, n - 1);
        let cur = use_server_positions(s, n);
        assert forall|j: int| 0 <= j < cur.len() implies 0 <= #[trigger] cur[j] < n by {
            if j < prev.len() {
                assert(cur[j] == prev[j]);
            }
        }
    }
}

proof fn lemma_inline_from_members(ps: Seq<int>, fc: int, bound: int)
    requires
        forall|j: int| 0 <= j < ps.len() ==> 0 <= #[trigger] ps[j] < bound,
    ensures
        forall|j: int|
            0 <= j < inline_from(ps, fc).len() ==> 0 <= #[trigger] inline_from(ps, fc)[j] < bound,
    decreases ps.len(),
{
    if ps.len() > 0 {
        let d = ps.drop_last();
        assert forall|j: int| 0 <= j < d.len() implies 0 <= #[trigger] d[j] < bound by {
            assert(d[j] == ps[j]);
        }
        lemma_inline_from_members(d, fc, bound);
        let prev = inline_from(d, fc);
        let cur = inline_from(ps, fc);
        assert forall|j: int| 0 <= j < cur.len() implies 0 <= #[trigger] cur[j] < bound by {
            if j < prev.len() {
                assert(cur[j] == prev[j]);
            } else {
                assert(cur[j] == ps.last());
            }
        }
    }
}

} // verus!
