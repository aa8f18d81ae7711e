//! Removal of server-only exports from a page's client copy: which
//! declarations die with `getServerSideProps`, `getStaticProps` and
//! `getStaticPaths`, which statements are removed, and the text that is
//! left. The module is given as what its semantic analysis found: its
//! symbols with their declaring statements and references, and its
//! top-level statements.
use vstd::prelude::*;

verus! {

/// A byte range `[start, end)` of the source.
pub type Span = (u32, u32);

/// A symbol of the module.
pub struct DceSymbol {
    /// The span of the top-level statement that declares it, if found.
    pub decl_stmt: Option<Span>,
    /// The spans of its resolved references.
    pub refs: Vec<Span>,
}

/// A top-level statement, as far as removal reads it; symbols are given by
/// index, `None` where a name has no root binding.
pub enum DceStmt {
    /// An import: its local bindings (none for a side-effect import), and
    /// whether it is type-only.
    Import(Span, Vec<Option<usize>>, bool),
    /// A variable declaration and its bindings (`None` for a pattern).
    Var(Span, Vec<Option<usize>>),
    /// A function declaration and its binding.
    Func(Span, Option<usize>),
    /// An exported variable declaration.
    ExportVar(Span, Vec<Option<usize>>),
    /// An exported function declaration.
    ExportFunc(Span, Option<usize>),
    /// Anything else.
    Other,
}

/// The symbol's declaring statement contains the span `r`.
pub open spec fn decl_contains(sym: DceSymbol, r: Span) -> bool {
    match sym.decl_stmt {
        Some(sp) => sp.0 <= r.0 && r.1 <= sp.1,
        None => false,
    }
}

/// The symbol's declaring statement contains the position `p`.
pub open spec fn decl_contains_pos(sym: DceSymbol, p: u32) -> bool {
    match sym.decl_stmt {
        Some(sp) => sp.0 <= p && p < sp.1,
        None => false,
    }
}

/// Some dead symbol's declaring statement contains the span `r`.
pub open spec fn covered(syms: Seq<DceSymbol>, d: Seq<bool>, r: Span) -> bool {
    exists|s: int| 0 <= s < syms.len() && s < d.len() && d[s] && decl_contains(#[trigger] syms[s], r)
}

/// Some dead symbol's declaring statement contains the position `p`.
pub open spec fn start_covered(syms: Seq<DceSymbol>, d: Seq<bool>, p: u32) -> bool {
    exists|s: int| 0 <= s < syms.len() && s < d.len() && d[s] && decl_contains_pos(#[trigger] syms[s], p)
}

/// Symbol `c` dies in this round: it is referenced from within a dead
/// statement, and every reference to it is within one.
pub open spec fn becomes_dead(syms: Seq<DceSymbol>, d: Seq<bool>, c: int) -> bool {
    &&& !d[c]
    &&& exists|k: int| 0 <= k < syms[c].refs@.len() && start_covered(syms, d, (#[trigger] syms[c].refs@[k]).0)
    &&& forall|k: int| 0 <= k < syms[c].refs@.len() ==> covered(syms, d, #[trigger] syms[c].refs@[k])
}

/// One round: every symbol that becomes dead joins the dead ones.
pub open spec fn step(syms: Seq<DceSymbol>, d: Seq<bool>) -> Seq<bool> {
    Seq::new(d.len(), |c: int| d[c] || becomes_dead(syms, d, c))
}

/// `n` rounds.
pub open spec fn rounds(syms: Seq<DceSymbol>, d: Seq<bool>, n: nat) -> Seq<bool>
    decreases n,
{
    if n == 0 {
        d
    } else {
        rounds(syms, step(syms, d), (n - 1) as nat)
    }
}

/// The server-only exports marked dead.
pub open spec fn initial_dead(n: nat, server: Seq<usize>) -> Seq<bool> {
    Seq::new(n, |c: int| server.contains(c as usize))
}

/// The dead symbols: from the server-only exports, as many rounds as there
/// are symbols (after which nothing changes).
pub open spec fn dead_symbols(syms: Seq<DceSymbol>, server: Seq<usize>) -> Seq<bool> {
    rounds(syms, initial_dead(syms.len(), server), syms.len())
}

/// How many symbols are dead.
pub open spec fn count_dead(d: Seq<bool>) -> nat
    decreases d.len(),
{
    if d.len() == 0 {
        0
    } else {
        count_dead(d.drop_last()) + if d.last() { 1nat } else { 0nat }
    }
}

/// The symbol is one of the dead ones other than the server-only exports.
pub open spec fn is_dead(fin: Seq<bool>, server: Seq<usize>, o: Option<usize>) -> bool {
    o matches Some(s) && (s as int) < fin.len() && fin[s as int] && !server.contains(s)
}

/// Every binding is of a dead symbol.
pub open spec fn all_dead(fin: Seq<bool>, server: Seq<usize>, bs: Seq<Option<usize>>) -> bool {
    forall|k: int| 0 <= k < bs.len() ==> is_dead(fin, server, #[trigger] bs[k])
}

/// The spans of the server-only exports' statements, in order.
pub open spec fn server_spans(syms: Seq<DceSymbol>, server: Seq<usize>) -> Seq<Span>
    decreases server.len(),
{
    if server.len() == 0 {
        Seq::empty()
    } else {
        let prev = server_spans(syms, server.drop_last());
        let s = server.last() as int;
        if 0 <= s < syms.len() && syms[s].decl_stmt is Some {
            prev.push(syms[s].decl_stmt->0)
        } else {
            prev
        }
    }
}

/// The removal spans after the statements, starting from `acc`.
pub open spec fn stmt_spans(stmts: Seq<DceStmt>, fin: Seq<bool>, server: Seq<usize>, acc: Seq<Span>) -> Seq<Span>
    decreases stmts.len(),
{
    if stmts.len() == 0 {
        acc
    } else {
        let prev = stmt_spans(stmts.drop_last(), fin, server, acc);
        match stmts.last() {
            DceStmt::Import(sp, locals, is_type) => if locals@.len() > 0 && !is_type && all_dead(
                fin,
                server,
                locals@,
            ) {
                prev.push(sp)
            } else {
                prev
            },
            DceStmt::Var(sp, bs) => if all_dead(fin, server, bs@) {
                prev.push(sp)
            } else {
                prev
            },
            DceStmt::Func(sp, b) => if is_dead(fin, server, b) {
                prev.push(sp)
            } else {
                prev
            },
            DceStmt::ExportVar(sp, bs) => if all_dead(fin, server, bs@) && !prev.contains(sp) {
                prev.push(sp)
            } else {
                prev
            },
            DceStmt::ExportFunc(sp, b) => if is_dead(fin, server, b) && !prev.contains(sp) {
                prev.push(sp)
            } else {
                prev
            },
            DceStmt::Other => prev,
        }
    }
}

/// Inserts a span after those that start no later (a stable sort step).
pub open spec fn insert_span(r: Seq<Span>, x: Span) -> Seq<Span>
    decreases r.len(),
{
    if r.len() == 0 {
        seq![x]
    } else if r.last().0 <= x.0 {
        r.push(x)
    } else {
        insert_span(r.drop_last(), x).push(r.last())
    }
}

/// The spans sorted by start, equal starts in their order.
pub open spec fn sort_spans(r: Seq<Span>) -> Seq<Span>
    decreases r.len(),
{
    if r.len() == 0 {
        r
    } else {
        insert_span(sort_spans(r.drop_last()), r.last())
    }
}

/// Sorted spans with each one that starts within (or right after) the one
/// kept before it merged into it.
pub open spec fn merge_spans(r: Seq<Span>) -> Seq<Span>
    decreases r.len(),
{
    if r.len() == 0 {
        r
    } else {
        let m = merge_spans(r.drop_last());
        let x = r.last();
        if m.len() > 0 && x.0 <= m.last().1 {
            m.drop_last().push((m.last().0, if m.last().1 >= x.1 { m.last().1 } else { x.1 }))
        } else {
            m.push(x)
        }
    }
}

/// The spans to remove: the server-only exports' statements, then the
/// dead imports and declarations, sorted and merged.
pub open spec fn removal_spans(syms: Seq<DceSymbol>, server: Seq<usize>, stmts: Seq<DceStmt>) -> Seq<Span> {
    if server.len() == 0 {
        Seq::empty()
    } else {
        let fin = dead_symbols(syms, server);
        merge_spans(sort_spans(stmt_spans(stmts, fin, server, server_spans(syms, server))))
    }
}

/// Where removing a statement that ends at `e` stops: past the spaces and
/// tabs after it, and one line break (`\n` or `\r\n`).
pub open spec fn skip_blanks(src: Seq<u8>, e: int) -> int
    decreases src.len() - e,
{
    if 0 <= e < src.len() && (src[e] == 32u8 || src[e] == 9u8) {
        skip_blanks(src, e + 1)
    } else {
        e
    }
}

pub open spec fn removal_end(src: Seq<u8>, e: int) -> int {
    let b = skip_blanks(src, e);
    if 0 <= b < src.len() && src[b] == 10u8 {
        b + 1
    } else if 0 <= b && b + 1 < src.len() && src[b] == 13u8 && src[b + 1] == 10u8 {
        b + 2
    } else {
        b
    }
}

/// The text kept from position `cursor` on, with spans `i..` removed.
pub open spec fn kept_from(src: Seq<u8>, spans: Seq<Span>, i: int, cursor: int) -> Seq<u8>
    decreases spans.len() - i,
{
    if i < 0 || i >= spans.len() {
        if 0 <= cursor < src.len() {
            src.subrange(cursor, src.len() as int)
        } else {
            Seq::empty()
        }
    } else {
        let sp = spans[i];
        (if sp.0 > cursor && cursor >= 0 && sp.0 <= src.len() {
            src.subrange(cursor, sp.0 as int)
        } else {
            Seq::empty()
        }) + kept_from(src, spans, i + 1, removal_end(src, sp.1 as int))
    }
}

/// Every span starts within the source.
pub open spec fn starts_within(r: Seq<Span>, n: int) -> bool {
    forall|i: int| 0 <= i < r.len() ==> (#[trigger] r[i]).0 <= n
}

proof fn lemma_count_le(d: Seq<bool>, e: Seq<bool>)
    requires
        d.len() == e.len(),
        forall|c: int| 0 <= c < d.len() && d[c] ==> e[c],
    ensures
        count_dead(d) <= count_dead(e),
        d != e ==> count_dead(d) < count_dead(e),
        count_dead(e) <= e.len(),
    decreases d.len(),
{
    if d.len() > 0 {
        let dl = d.drop_last();
        let el = e.drop_last();
        assert forall|c: int| 0 <= c < dl.len() && dl[c] implies el[c] by {
            assert(dl[c] == d[c] && el[c] == e[c]);
        }
        lemma_count_le(dl, el);
        assert(d[d.len() - 1] == d.last() && e[e.len() - 1] == e.last());
        if d != e {
            if dl == el {
                assert(d.last() != e.last()) by {
                    if d.last() == e.last() {
                        assert forall|c: int| 0 <= c < d.len() implies d[c] == e[c] by {
                            if c < d.len() - 1 {
                                assert(dl[c] == d[c] && el[c] == e[c]);
                            }
                        }
                        assert(d =~= e);
                    }
                }
            }
        }
    } else {
        assert(d =~= e);
    }
}

proof fn lemma_rounds_fixed(syms: Seq<DceSymbol>, d: Seq<bool>, n: nat)
    requires
        step(syms, d) == d,
    ensures
        rounds(syms, d, n) == d,
    decreases n,
{
    if n > 0 {
        lemma_rounds_fixed(syms, d, (n - 1) as nat);
    }
}

proof fn lemma_rounds_split(syms: Seq<DceSymbol>, d: Seq<bool>, a: nat, b: nat)
    ensures
        rounds(syms, d, a + b) == rounds(syms, rounds(syms, d, a), b),
    decreases a,
{
    if a > 0 {
        lemma_rounds_split(syms, step(syms, d), (a - 1) as nat, b);
        assert((a + b - 1) as nat == (a - 1) as nat + b);
    }
}

proof fn lemma_rounds_len(syms: Seq<DceSymbol>, d: Seq<bool>, n: nat)
    ensures
        rounds(syms, d, n).len() == d.len(),
    decreases n,
{
    if n > 0 {
        lemma_rounds_len(syms, step(syms, d), (n - 1) as nat);
    }
}

fn covered_exec(syms: &[DceSymbol], d: &Vec<bool>, r: Span) -> (b: bool)
    requires
        d@.len() == syms@.len(),
    ensures
        b == covered(syms@, d@, r),
{
    let mut s: usize = 0;
    while s < syms.len()
        invariant
            s <= syms@.len(),
            d@.len() == syms@.len(),
            forall|t: int| 0 <= t < s ==> !(d@[t] && decl_contains(#[trigger] syms@[t], r)),
        decreases syms.len() - s,
    {
        if d[s] {
            match syms[s].decl_stmt {
                Some(sp) => {
                    if sp.0 <= r.0 && r.1 <= sp.1 {
                        return true;
                    }
                },
                None => {},
            }
        }
        s += 1;
    }
    false
}

fn start_covered_exec(syms: &[DceSymbol], d: &Vec<bool>, p: u32) -> (b: bool)
    requires
        d@.len() == syms@.len(),
    ensures
        b == start_covered(syms@, d@, p),
{
    let mut s: usize = 0;
    while s < syms.len()
        invariant
            s <= syms@.len(),
            d@.len() == syms@.len(),
            forall|t: int| 0 <= t < s ==> !(d@[t] && decl_contains_pos(#[trigger] syms@[t], p)),
        decreases syms.len() - s,
    {
        if d[s] {
            match syms[s].decl_stmt {
                Some(sp) => {
                    if sp.0 <= p && p < sp.1 {
                        return true;
                    }
                },
                None => {},
            }
        }
        s += 1;
    }
    false
}

fn becomes_dead_exec(syms: &[DceSymbol], d: &Vec<bool>, c: usize) -> (b: bool)
    requires
        d@.len() == syms@.len(),
        c < syms@.len(),
    ensures
        b == becomes_dead(syms@, d@, c as int),
{
    if d[c] {
        return false;
    }
    let refs = &syms[c].refs;
    let mut any = false;
    let mut k: usize = 0;
    while k < refs.len()
        invariant
            k <= refs@.len(),
            refs@ == syms@[c as int].refs@,
            d@.len() == syms@.len(),
            !d@[c as int],
            any == exists|j: int| 0 <= j < k && start_covered(syms@, d@, (#[trigger] refs@[j]).0),
            forall|j: int| 0 <= j < k ==> covered(syms@, d@, #[trigger] refs@[j]),
        decreases refs.len() - k,
    {
        if !covered_exec(syms, d, refs[k]) {
            return false;
        }
        if start_covered_exec(syms, d, refs[k].0) {
            any = true;
        }
        k += 1;
    }
    any
}

fn step_exec(syms: &[DceSymbol], d: &Vec<bool>) -> (r: (Vec<bool>, bool))
    requires
        d@.len() == syms@.len(),
    ensures
        r.0@ == step(syms@, d@),
        r.1 == (r.0@ != d@),
{
    let mut nd: Vec<bool> = Vec::new();
    let mut changed = false;
    let mut c: usize = 0;
    while c < d.len()
        invariant
            c <= d@.len(),
            d@.len() == syms@.len(),
            nd@ == step(syms@, d@).take(c as int),
            changed == exists|j: int| 0 <= j < c && step(syms@, d@)[j] != d@[j],
        decreases d.len() - c,
    {
        let b = d[c] || becomes_dead_exec(syms, d, c);
        if b != d[c] {
            changed = true;
        }
        nd.push(b);
        proof {
            assert(step(syms@, d@).take(c + 1) =~= step(syms@, d@).take(c as int).push(b));
        }
        c += 1;
    }
    proof {
        assert(step(syms@, d@).take(c as int) =~= step(syms@, d@));
        if !changed {
            assert(nd@ =~= d@);
        }
    }
    (nd, changed)
}

fn dead_exec(syms: &[DceSymbol], server: &[usize]) -> (r: Vec<bool>)
    ensures
        r@ == dead_symbols(syms@, server@),
{
    let ghost d0 = initial_dead(syms@.len(), server@);
    let mut d: Vec<bool> = Vec::new();
    let mut c: usize = 0;
    while c < syms.len()
        invariant
            c <= syms@.len(),
            d@ == d0.take(c as int),
            d0 == initial_dead(syms@.len(), server@),
        decreases syms.len() - c,
    {
        let mut found = false;
        let mut j: usize = 0;
        while j < server.len()
            invariant
                j <= server@.len(),
                found == exists|t: int| 0 <= t < j && server@[t] == c,
            decreases server.len() - j,
        {
            if server[j] == c {
                found = true;
            }
            j += 1;
        }
        proof {
            if server@.contains(c) {
                let t = choose|t: int| 0 <= t < server@.len() && server@[t] == c;
            }
        }
        d.push(found);
        proof {
            assert(d0.take(c + 1) =~= d0.take(c as int).push(found));
        }
        c += 1;
    }
    proof {
        assert(d0.take(c as int) =~= d0);
        lemma_count_le(d0, d0);
    }
    let ghost mut k: nat = 0;
    loop
        invariant
            d@.len() == syms@.len(),
            d@ == rounds(syms@, d0, k),
            k <= count_dead(d@),
            count_dead(d@) <= d@.len(),
            d0 == initial_dead(syms@.len(), server@),
        decreases syms@.len() - count_dead(d@),
    {
        let (nd, changed) = step_exec(syms, &d);
        proof {
            assert forall|c: int| 0 <= c < d@.len() && d@[c] implies nd@[c] by {}
            lemma_count_le(d@, nd@);
            lemma_rounds_split(syms@, d0, k, 1);
            assert(rounds(syms@, step(syms@, d@), 0) == step(syms@, d@));
            assert(rounds(syms@, d@, 1) == step(syms@, d@));
        }
        if !changed {
            proof {
                lemma_rounds_fixed(syms@, d@, (syms@.len() - k) as nat);
                lemma_rounds_split(syms@, d0, k, (syms@.len() - k) as nat);
            }
            return d;
        }
        d = nd;
        proof {
            k = k + 1;
        }
    }
}

fn is_dead_exec(fin: &Vec<bool>, server: &[usize], o: Option<usize>) -> (b: bool)
    ensures
        b == is_dead(fin@, server@, o),
{
    match o {
        Some(sid) => {
            if sid >= fin.len() || !fin[sid] {
                return false;
            }
            let mut j: usize = 0;
            while j < server.len()
                invariant
                    j <= server@.len(),
                    o == Some(sid),
                    (sid as int) < fin@.len() && fin@[sid as int],
                    forall|t: int| 0 <= t < j ==> server@[t] != sid,
                decreases server.len() - j,
            {
                if server[j] == sid {
                    proof {
                        assert(server@[j as int] == sid);
                        assert(server@.contains(sid));
                    }
                    return false;
                }
                j += 1;
            }
            true
        },
        None => false,
    }
}

fn all_dead_exec(fin: &Vec<bool>, server: &[usize], bs: &Vec<Option<usize>>) -> (b: bool)
    ensures
        b == all_dead(fin@, server@, bs@),
{
    let mut k: usize = 0;
    while k < bs.len()
        invariant
            k <= bs@.len(),
            forall|j: int| 0 <= j < k ==> is_dead(fin@, server@, #[trigger] bs@[j]),
        decreases bs.len() - k,
    {
        if !is_dead_exec(fin, server, bs[k]) {
            return false;
        }
        k += 1;
    }
    true
}

fn contains_span(v: &Vec<Span>, sp: Span) -> (b: bool)
    ensures
        b == v@.contains(sp),
{
    let mut k: usize = 0;
    while k < v.len()
        invariant
            k <= v@.len(),
            forall|j: int| 0 <= j < k ==> v@[j] != sp,
        decreases v.len() - k,
    {
        if v[k].0 == sp.0 && v[k].1 == sp.1 {
            return true;
        }
        k += 1;
    }
    false
}

fn server_spans_exec(syms: &[DceSymbol], server: &[usize]) -> (r: Vec<Span>)
    ensures
        r@ == server_spans(syms@, server@),
{
    let mut r: Vec<Span> = Vec::new();
    let mut j: usize = 0;
    while j < server.len()
        invariant
            j <= server@.len(),
            r@ == server_spans(syms@, server@.take(j as int)),
        decreases server.len() - j,
    {
        proof {
            assert(server@.take(j + 1).drop_last() =~= server@.take(j as int));
            assert(server@.take(j + 1).last() == server@[j as int]);
        }
        let sid = server[j];
        if sid < syms.len() {
            match syms[sid].decl_stmt {
                Some(sp) => r.push(sp),
                None => {},
            }
        }
        j += 1;
    }
    proof {
        assert(server@.take(j as int) =~= server@);
    }
    r
}

fn stmt_spans_exec(stmts: &[DceStmt], fin: &Vec<bool>, server: &[usize], acc: Vec<Span>) -> (r: Vec<Span>)
    ensures
        r@ == stmt_spans(stmts@, fin@, server@, acc@),
{
    let ghost a0 = acc@;
    let mut r = acc;
    let mut i: usize = 0;
    while i < stmts.len()
        invariant
            i <= stmts@.len(),
            r@ == stmt_spans(stmts@.take(i as int), fin@, server@, a0),
        decreases stmts.len() - i,
    {
        proof {
            assert(stmts@.take(i + 1).drop_last() =~= stmts@.take(i as int));
            assert(stmts@.take(i + 1).last() == stmts@[i as int]);
        }
        match &stmts[i] {
            DceStmt::Import(sp, locals, is_type) => {
                if locals.len() > 0 && !*is_type && all_dead_exec(fin, server, locals) {
                    r.push(*sp);
                }
            },
            DceStmt::Var(sp, bs) => {
                if all_dead_exec(fin, server, bs) {
                    r.push(*sp);
                }
            },
            DceStmt::Func(sp, b) => {
                if is_dead_exec(fin, server, *b) {
                    r.push(*sp);
                }
            },
            DceStmt::ExportVar(sp, bs) => {
                if all_dead_exec(fin, server, bs) && !contains_span(&r, *sp) {
                    r.push(*sp);
                }
            },
            DceStmt::ExportFunc(sp, b) => {
                if is_dead_exec(fin, server, *b) && !contains_span(&r, *sp) {
                    r.push(*sp);
                }
            },
            DceStmt::Other => {},
        }
        i += 1;
    }
    proof {
        assert(stmts@.take(i as int) =~= stmts@);
    }
    r
}

proof fn lemma_insert_span_at(r: Seq<Span>, x: Span, pos: int)
    requires
        0 <= pos <= r.len(),
        forall|j: int| pos <= j < r.len() ==> r[j].0 > x.0,
        pos == 0 || r[pos - 1].0 <= x.0,
    ensures
        insert_span(r, x) == r.take(pos).push(x) + r.skip(pos),
    decreases r.len(),
{
    if r.len() == 0 {
        assert(r.take(pos).push(x) + r.skip(pos) =~= seq![x]);
    } else if r.last().0 <= x.0 {
        assert(pos == r.len());
        assert(r.take(pos).push(x) + r.skip(pos) =~= r.push(x));
    } else {
        let init = r.drop_last();
        lemma_insert_span_at(init, x, pos);
        assert(init.take(pos).push(x) + init.skip(pos) + seq![r.last()] =~= r.take(pos).push(x) + r.skip(pos));
        assert((init.take(pos).push(x) + init.skip(pos)).push(r.last()) =~= init.take(pos).push(x) + init.skip(pos)
            + seq![r.last()]);
    }
}

fn insert_span_exec(r: &mut Vec<Span>, x: Span)
    ensures
        final(r)@ == insert_span(old(r)@, x),
{
    let mut pos: usize = r.len();
    while pos > 0 && r[pos - 1].0 > x.0
        invariant
            pos <= r@.len(),
            r@ == old(r)@,
            forall|j: int| pos <= j < r@.len() ==> r@[j].0 > x.0,
        decreases pos,
    {
        pos -= 1;
    }
    proof {
        lemma_insert_span_at(r@, x, pos as int);
    }
    r.insert(pos, x);
    proof {
        assert(r@ =~= old(r)@.take(pos as int).push(x) + old(r)@.skip(pos as int));
    }
}

fn sort_spans_exec(v: &Vec<Span>) -> (r: Vec<Span>)
    ensures
        r@ == sort_spans(v@),
{
    let mut r: Vec<Span> = Vec::new();
    let mut i: usize = 0;
    while i < v.len()
        invariant
            i <= v@.len(),
            r@ == sort_spans(v@.take(i as int)),
        decreases v.len() - i,
    {
        proof {
            assert(v@.take(i + 1).drop_last() =~= v@.take(i as int));
            assert(v@.take(i + 1).last() == v@[i as int]);
        }
        insert_span_exec(&mut r, v[i]);
        i += 1;
    }
    proof {
        assert(v@.take(i as int) =~= v@);
    }
    r
}

fn merge_spans_exec(v: &Vec<Span>) -> (r: Vec<Span>)
    ensures
        r@ == merge_spans(v@),
{
    let mut r: Vec<Span> = Vec::new();
    let mut i: usize = 0;
    while i < v.len()
        invariant
            i <= v@.len(),
            r@ == merge_spans(v@.take(i as int)),
        decreases v.len() - i,
    {
        proof {
            assert(v@.take(i + 1).drop_last() =~= v@.take(i as int));
            assert(v@.take(i + 1).last() == v@[i as int]);
        }
        let x = v[i];
        let n = r.len();
        if n > 0 && x.0 <= r[n - 1].1 {
            let last = r[n - 1];
            let end = if last.1 >= x.1 { last.1 } else { x.1 };
            let ghost before = r@;
            r.set(n - 1, (last.0, end));
            proof {
                assert(r@ =~= before.drop_last().push((last.0, end)));
            }
        } else {
            r.push(x);
        }
        i += 1;
    }
    proof {
        assert(v@.take(i as int) =~= v@);
    }
    r
}

fn removal_end_exec(src: &[u8], e: usize) -> (r: usize)
    ensures
        r as int == removal_end(src@, e as int),
{
    let mut b = e;
    while b < src.len() && (src[b] == 32u8 || src[b] == 9u8)
        invariant
            e <= b,
            skip_blanks(src@, e as int) == skip_blanks(src@, b as int),
        decreases src.len() - b,
    {
        b += 1;
    }
    if b < src.len() && src[b] == 10u8 {
        b + 1
    } else if b < src.len() && src.len() - b > 1 && src[b] == 13u8 && src[b + 1] == 10u8 {
        b + 2
    } else {
        b
    }
}

/// The source with the spans removed (each with the blanks and the line
/// break after it).
fn kept_text(src: &[u8], spans: &Vec<Span>) -> (r: Vec<u8>)
    ensures
        r@ == kept_from(src@, spans@, 0, 0),
{
    let mut out: Vec<u8> = Vec::new();
    let mut cursor: usize = 0;
    let mut i: usize = 0;
    while i < spans.len()
        invariant
            i <= spans@.len(),
            out@ + kept_from(src@, spans@, i as int, cursor as int) == kept_from(src@, spans@, 0, 0),
        decreases spans.len() - i,
    {
        let sp = spans[i];
        let start = sp.0 as usize;
        let ghost before = out@;
        if start > cursor && start <= src.len() {
            let mut k = cursor;
            while k < start
                invariant
                    cursor <= k <= start <= src@.len(),
                    out@ == before + src@.subrange(cursor as int, k as int),
                decreases start - k,
            {
                out.push(src[k]);
                proof {
                    assert(src@.subrange(cursor as int, k + 1) =~= src@.subrange(cursor as int, k as int).push(src@[k as int]));
                }
                k += 1;
            }
        }
        let next = removal_end_exec(src, sp.1 as usize);
        proof {
            let piece = if sp.0 > cursor && sp.0 <= src@.len() {
                src@.subrange(cursor as int, sp.0 as int)
            } else {
                Seq::<u8>::empty()
            };
            assert(out@ =~= before + piece);
            assert(kept_from(src@, spans@, i as int, cursor as int) == piece + kept_from(src@, spans@, i + 1, next as int));
            assert(out@ + kept_from(src@, spans@, i + 1, next as int) =~= before + kept_from(src@, spans@, i as int, cursor as int));
        }
        cursor = next;
        i += 1;
    }
    let ghost before = out@;
    if cursor < src.len() {
        let mut k = cursor;
        while k < src.len()
            invariant
                cursor <= k <= src@.len(),
                out@ == before + src@.subrange(cursor as int, k as int),
            decreases src.len() - k,
        {
            out.push(src[k]);
            proof {
                assert(src@.subrange(cursor as int, k + 1) =~= src@.subrange(cursor as int, k as int).push(src@[k as int]));
            }
            k += 1;
        }
    } else {
        proof {
            assert(out@ =~= before + Seq::<u8>::empty());
        }
    }
    out
}

/// Removes the server-only exports of a page (`server`: the symbols of
/// `getServerSideProps`, `getStaticProps` and `getStaticPaths` that the
/// module binds) and everything that dies with them: a symbol dies when it
/// is referenced from a dead statement and every reference to it is in
/// one, until nothing more dies. Removed are the server exports'
/// statements, imports whose bindings are all dead (never side-effect or
/// type-only ones), and declarations, exported or not, whose bindings are
/// all dead; with no server export the source is kept as it is.
pub fn strip_server_exports(source: &[u8], syms: &[DceSymbol], server: &[usize], stmts: &[DceStmt]) -> (r: Vec<u8>)
    ensures
        r@ == kept_from(source@, removal_spans(syms@, server@, stmts@), 0, 0),
{
    let spans = if server.len() == 0 {
        Vec::new()
    } else {
        let fin = dead_exec(syms, server);
        let acc = server_spans_exec(syms, server);
        let all = stmt_spans_exec(stmts, &fin, server, acc);
        let sorted = sort_spans_exec(&all);
        merge_spans_exec(&sorted)
    };
    proof {
        if server@.len() == 0 {
            assert(spans@ =~= removal_spans(syms@, server@, stmts@));
        }
    }
    kept_text(source, &spans)
}

proof fn lemma_rounds_progress(syms: Seq<DceSymbol>, d: Seq<bool>, k: nat)
    ensures
        step(syms, rounds(syms, d, k)) == rounds(syms, d, k) || count_dead(rounds(syms, d, k)) >= k,
        rounds(syms, d, k).len() == d.len(),
    decreases k,
{
    lemma_rounds_len(syms, d, k);
    if k > 0 {
        let j = (k - 1) as nat;
        lemma_rounds_progress(syms, d, j);
        let e = rounds(syms, d, j);
        lemma_rounds_split(syms, d, j, 1);
        assert(rounds(syms, step(syms, e), 0) == step(syms, e));
        assert(rounds(syms, e, 1) == step(syms, e));
        assert forall|c: int| 0 <= c < e.len() && e[c] implies step(syms, e)[c] by {}
        lemma_count_le(e, step(syms, e));
        if step(syms, e) == e {
            assert(rounds(syms, d, k) == e);
        }
    }
}

/// Nothing more dies: the dead symbols are closed under another round.
pub proof fn lemma_dead_symbols_closed(syms: Seq<DceSymbol>, server: Seq<usize>)
    ensures
        step(syms, dead_symbols(syms, server)) == dead_symbols(syms, server),
{
    let d0 = initial_dead(syms.len(), server);
    let fin = dead_symbols(syms, server);
    lemma_rounds_progress(syms, d0, syms.len());
    if step(syms, fin) != fin {
        let f = step(syms, fin);
        assert forall|c: int| 0 <= c < fin.len() && fin[c] implies f[c] by {}
        lemma_count_le(fin, f);
    }
}

/// With no server export the source is kept as it is.
pub proof fn lemma_no_server_exports_unchanged(src: Seq<u8>, syms: Seq<DceSymbol>, stmts: Seq<DceStmt>)
    ensures
        kept_from(src, removal_spans(syms, Seq::empty(), stmts), 0, 0) == src,
{
    if src.len() > 0 {
        assert(src.subrange(0, src.len() as int) =~= src);
    } else {
        assert(src =~= Seq::<u8>::empty());
    }
}

/// Side-effect and type-only imports are never selected for removal.
pub proof fn lemma_side_effect_imports_kept(
    stmts: Seq<DceStmt>,
    fin: Seq<bool>,
    server: Seq<usize>,
    acc: Seq<Span>,
    sp: Span,
    locals: Vec<Option<usize>>,
    is_type: bool,
)
    requires
        locals@.len() == 0 || is_type,
    ensures
        stmt_spans(stmts.push(DceStmt::Import(sp, locals, is_type)), fin, server, acc) == stmt_spans(stmts, fin, server, acc),
{
    assert(stmts.push(DceStmt::Import(sp, locals, is_type)).drop_last() =~= stmts);
}

} // verus!
