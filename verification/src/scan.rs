//! Index-walking primitives shared by the source scanners: runs of
//! characters, comment ends, and backwards walks.
use vstd::prelude::*;
use crate::text::{self, is_ws_exec};

verus! {

/// First index at or after `p` whose character fails `f` (or `p` itself when
/// `p` is past the end): the loop `while p < len && f(s[p]) { p += 1 }`.
pub open spec fn scan_while(s: Seq<char>, p: int, f: spec_fn(char) -> bool) -> int
    decreases s.len() - p,
{
    if 0 <= p < s.len() && f(s[p]) {
        scan_while(s, p + 1, f)
    } else {
        p
    }
}

pub open spec fn not_char(c: char) -> spec_fn(char) -> bool {
    |x: char| x != c
}

pub open spec fn ws_pred() -> spec_fn(char) -> bool {
    |x: char| text::is_ws(x)
}

pub open spec fn sp_tab_pred() -> spec_fn(char) -> bool {
    |x: char| x == ' ' || x == '\t'
}

/// The loop `while p < len && s[p] != c { p += 1 }`.
pub open spec fn scan_until(s: Seq<char>, p: int, c: char) -> int {
    scan_while(s, p, not_char(c))
}

/// The loop `while p < len && text::is_ws(s[p]) { p += 1 }`.
pub open spec fn skip_ws(s: Seq<char>, p: int) -> int {
    scan_while(s, p, ws_pred())
}

/// The loop `while p + 1 < len && !(s[p] == '*' && s[p + 1] == '/') { p += 1 }`:
/// the index of the `*` closing a block comment, or where the search gave up.
pub open spec fn block_end(s: Seq<char>, p: int) -> int
    decreases s.len() - p,
{
    if 0 <= p && p + 1 < s.len() && !(s[p] == '*' && s[p + 1] == '/') {
        block_end(s, p + 1)
    } else {
        p
    }
}

/// Index of the last non-whitespace character before `i`, or -1.
pub open spec fn prev_non_ws(s: Seq<char>, i: int) -> int
    decreases i,
{
    if i <= 0 {
        -1
    } else if !text::is_ws(s[i - 1]) {
        i - 1
    } else {
        prev_non_ws(s, i - 1)
    }
}

pub proof fn lemma_scan_while(s: Seq<char>, p: int, f: spec_fn(char) -> bool)
    requires
        0 <= p,
    ensures
        p <= scan_while(s, p, f),
        p <= s.len() ==> scan_while(s, p, f) <= s.len(),
        p > s.len() ==> scan_while(s, p, f) == p,
        forall|k: int| p <= k < scan_while(s, p, f) ==> f(#[trigger] s[k]),
        scan_while(s, p, f) < s.len() ==> !f(s[scan_while(s, p, f)]),
    decreases s.len() - p,
{
    if 0 <= p < s.len() && f(s[p]) {
        lemma_scan_while(s, p + 1, f);
    }
}

pub proof fn lemma_block_end(s: Seq<char>, p: int)
    requires
        0 <= p,
    ensures
        p <= block_end(s, p),
        p < s.len() ==> block_end(s, p) < s.len(),
        p >= s.len() ==> block_end(s, p) == p,
    decreases s.len() - p,
{
    if 0 <= p && p + 1 < s.len() && !(s[p] == '*' && s[p + 1] == '/') {
        lemma_block_end(s, p + 1);
    }
}

pub proof fn lemma_prev_non_ws(s: Seq<char>, i: int)
    requires
        0 <= i <= s.len(),
    ensures
        -1 <= prev_non_ws(s, i) < i,
        prev_non_ws(s, i) >= 0 ==> !text::is_ws(s[prev_non_ws(s, i)]),
    decreases i,
{
    if i > 0 && text::is_ws(s[i - 1]) {
        lemma_prev_non_ws(s, i - 1);
    }
}

pub fn skip_ws_exec(s: &Vec<char>, p: usize) -> (r: usize)
    ensures
        r as int == skip_ws(s@, p as int),
{
    let mut q = p;
    while q < s.len() && is_ws_exec(s[q])
        invariant
            p <= q,
            skip_ws(s@, p as int) == skip_ws(s@, q as int),
        decreases s.len() - q,
    {
        q += 1;
    }
    q
}

pub fn skip_sp_tab_exec(s: &Vec<char>, p: usize) -> (r: usize)
    ensures
        r as int == scan_while(s@, p as int, sp_tab_pred()),
{
    let mut q = p;
    while q < s.len() && (s[q] == ' ' || s[q] == '\t')
        invariant
            p <= q,
            scan_while(s@, p as int, sp_tab_pred()) == scan_while(s@, q as int, sp_tab_pred()),
        decreases s.len() - q,
    {
        q += 1;
    }
    q
}

pub fn scan_until_exec(s: &Vec<char>, p: usize, c: char) -> (r: usize)
    ensures
        r as int == scan_until(s@, p as int, c),
{
    let mut q = p;
    while q < s.len() && s[q] != c
        invariant
            p <= q,
            scan_until(s@, p as int, c) == scan_until(s@, q as int, c),
        decreases s.len() - q,
    {
        q += 1;
    }
    q
}

pub fn block_end_exec(s: &Vec<char>, p: usize) -> (r: usize)
    ensures
        r as int == block_end(s@, p as int),
{
    let mut q = p;
    while q < s.len() && q + 1 < s.len() && !(s[q] == '*' && s[q + 1] == '/')
        invariant
            p <= q,
            block_end(s@, p as int) == block_end(s@, q as int),
        decreases s.len() - q,
    {
        q += 1;
    }
    q
}

/// `prev_non_ws(s, i)`, clamped to 0 when there is none.
pub fn prev_non_ws_or_zero(s: &Vec<char>, i: usize) -> (r: usize)
    requires
        i <= s.len(),
    ensures
        r as int == (if prev_non_ws(s@, i as int) < 0 { 0 } else { prev_non_ws(s@, i as int) }),
        prev_non_ws(s@, i as int) < 0 ==> r == 0,
{
    let mut q = i;
    while q > 0 && is_ws_exec(s[q - 1])
        invariant
            q <= i <= s.len(),
            prev_non_ws(s@, i as int) == prev_non_ws(s@, q as int),
        decreases q,
    {
        q -= 1;
    }
    if q == 0 {
        0
    } else {
        q - 1
    }
}

} // verus!
