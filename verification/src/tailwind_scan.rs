//! Tailwind candidate scanning: splitting source text into utility-class
//! candidates, and reading `@source` directives out of CSS entry files.
use vstd::prelude::*;
use vstd::utf8::encode_utf8;
use crate::text::{self, chars_of, contains_exec, find_from_exec, is_ascii_alpha_exec,
    is_unicode_ws_exec, slice_of, str_eq, string_of, trim_exec};
use crate::paths;
use crate::string_set::StringSet;

verus! {


/// Characters that always end a token: quotes, backtick, whitespace, braces,
/// angle brackets, `=`, `;`, `,`, `+`, `|`, `&`, `?`.
pub open spec fn is_delimiter_spec(c: char) -> bool {
    c == '"' || c == '\'' || c == '`' || c == ' ' || c == '\t' || c == '\n' || c == '\r' || c == '{'
        || c == '}' || c == '<' || c == '>' || c == '=' || c == ';' || c == ',' || c == '+' || c
        == '|' || c == '&' || c == '?'
}

/// Characters that always end a token (parentheses are handled by the
/// scanner: they delimit only outside `[...]`).
pub fn is_delimiter(c: char) -> (r: bool)
    ensures
        r == is_delimiter_spec(c),
{
    c == '"' || c == '\'' || c == '`' || c == ' ' || c == '\t' || c == '\n' || c == '\r' || c
        == '{' || c == '}' || c == '<' || c == '>' || c == '=' || c == ';' || c == ',' || c == '+'
        || c == '|' || c == '&' || c == '?'
}

/// A token may be a utility: 1 to 200 bytes, starting with a letter, `@`,
/// `!` or `-`, and holding no `//`, `/*` or `*/`.
pub open spec fn is_candidate_spec(t: Seq<char>) -> bool {
    &&& t.len() > 0
    &&& encode_utf8(t).len() <= 200
    &&& (text::is_ascii_alpha(t[0]) || t[0] == '@' || t[0] == '!' || t[0] == '-')
    &&& !text::contains(t, seq!['/', '/'])
    &&& !text::contains(t, seq!['/', '*'])
    &&& !text::contains(t, seq!['*', '/'])
}

/// Whether a token could be a Tailwind utility class.
pub fn is_candidate(token: &str) -> (r: bool)
    ensures
        r == is_candidate_spec(token@),
{
    let n = token.as_bytes().len();
    if token.is_empty() || n > 200 {
        return false;
    }
    let v = chars_of(token);
    let first = v[0];
    if !(is_ascii_alpha_exec(first) || first == '@' || first == '!' || first == '-') {
        return false;
    }
    let p1 = vec!['/', '/'];
    let p2 = vec!['/', '*'];
    let p3 = vec!['*', '/'];
    proof {
        assert(p1@ =~= seq!['/', '/']);
        assert(p2@ =~= seq!['/', '*']);
        assert(p3@ =~= seq!['*', '/']);
    }
    !(contains_exec(&v, &p1) || contains_exec(&v, &p2) || contains_exec(&v, &p3))
}

/// The raw tokens of `s` from index `i`, given the start of the token in
/// progress and the `[...]` depth: tokens end at delimiters, and at
/// parentheses outside brackets.
pub open spec fn tokens_from(s: Seq<char>, i: int, start: Option<int>, depth: nat) -> Seq<Seq<char>>
    decreases s.len() - i,
{
    if i < 0 || i >= s.len() {
        match start {
            Some(st) => seq![s.subrange(st, s.len() as int)],
            None => Seq::empty(),
        }
    } else {
        let c = s[i];
        let d: nat = if c == '[' {
            depth + 1
        } else if c == ']' {
            if depth == 0 { 0 } else { (depth - 1) as nat }
        } else {
            depth
        };
        if is_delimiter_spec(c) || (d == 0 && (c == '(' || c == ')')) {
            match start {
                Some(st) => seq![s.subrange(st, i)] + tokens_from(s, i + 1, None, d),
                None => tokens_from(s, i + 1, None, d),
            }
        } else {
            tokens_from(s, i + 1, if start is None { Some(i) } else { start }, d)
        }
    }
}

/// The raw tokens of a source text.
pub open spec fn tokens(s: Seq<char>) -> Seq<Seq<char>> {
    tokens_from(s, 0, None, 0)
}

/// The candidates a list of raw tokens contributes: each token trimmed, kept
/// when it passes `is_candidate_spec`.
pub open spec fn candidates_of(toks: Seq<Seq<char>>) -> Set<Seq<char>> {
    Set::new(|c: Seq<char>| exists|k: int| 0 <= k < toks.len() && c == text::trim(toks[k]) && is_candidate_spec(c))
}

/// Trims a raw token and adds it to the set when it looks like a utility.
pub fn insert_candidate(token: &Vec<char>, candidates: &mut StringSet)
    requires
        old(candidates).wf(),
    ensures
        final(candidates).wf(),
        final(candidates)@ == (if is_candidate_spec(text::trim(token@)) {
            old(candidates)@.insert(text::trim(token@))
        } else {
            old(candidates)@
        }),
{
    let t = trim_exec(token);
    let st = string_of(&t);
    if is_candidate(st.as_str()) {
        candidates.insert(st);
    }
}

/// Splits `source` into candidate class names and adds them to `candidates`.
///
/// Tokens end at delimiters, and at parentheses outside `[...]`, so
/// arbitrary values embedding CSS functions (`w-[calc(100%-2rem)]`) survive
/// while call syntax (`cn("flex")`) splits cleanly.
pub fn scan_source(source: &str, candidates: &mut StringSet)
    requires
        old(candidates).wf(),
    ensures
        final(candidates).wf(),
        final(candidates)@ == old(candidates)@.union(candidates_of(tokens(source@))),
{
    let s = chars_of(source);
    let mut start: Option<usize> = None;
    let mut depth: usize = 0;
    let mut i: usize = 0;
    let ghost mut done: Seq<Seq<char>> = Seq::empty();
    while i < s.len()
        invariant
            i <= s.len(),
            s@ == source@,
            candidates.wf(),
            depth <= i,
            match start {
                Some(st) => st < i,
                None => true,
            },
            done + tokens_from(s@, i as int, match start {
                Some(st) => Some(st as int),
                None => None,
            }, depth as nat) == tokens(s@),
            candidates@ == old(candidates)@.union(candidates_of(done)),
        decreases s.len() - i,
    {
        let c = s[i];
        if c == '[' {
            depth += 1;
        } else if c == ']' {
            if depth > 0 {
                depth -= 1;
            }
        }
        let delimits = is_delimiter(c) || (depth == 0 && (c == '(' || c == ')'));
        if delimits {
            match start {
                Some(st) => {
                    let tok = slice_of(&s, st, i);
                    insert_candidate(&tok, candidates);
                    proof {
                        lemma_candidates_push(done, tok@);
                        done = done.push(tok@);
                        assert(seq![tok@] + tokens_from(s@, i + 1, None, depth as nat) =~= seq![tok@]
                            + tokens_from(s@, i + 1, None, depth as nat));
                        assert(done.drop_last() + (seq![tok@] + tokens_from(s@, i + 1, None, depth as nat))
                            =~= done + tokens_from(s@, i + 1, None, depth as nat));
                    }
                    start = None;
                },
                None => {},
            }
        } else if start.is_none() {
            start = Some(i);
        }
        i += 1;
    }
    match start {
        Some(st) => {
            let tok = slice_of(&s, st, s.len());
            insert_candidate(&tok, candidates);
            proof {
                lemma_candidates_push(done, tok@);
                assert(done + seq![tok@] =~= done.push(tok@));
                assert(candidates_of(tokens(s@)) == candidates_of(done.push(tok@)));
            }
        },
        None => {
            proof {
                assert(done + Seq::<Seq<char>>::empty() =~= done);
            }
        },
    }
}

pub proof fn lemma_candidates_push(done: Seq<Seq<char>>, t: Seq<char>)
    ensures
        candidates_of(done.push(t)) == (if is_candidate_spec(text::trim(t)) {
            candidates_of(done).insert(text::trim(t))
        } else {
            candidates_of(done)
        }),
{
    let a = candidates_of(done.push(t));
    let b = if is_candidate_spec(text::trim(t)) {
        candidates_of(done).insert(text::trim(t))
    } else {
        candidates_of(done)
    };
    assert forall|c: Seq<char>| a.contains(c) <==> b.contains(c) by {
        if a.contains(c) {
            let k = choose|k: int| 0 <= k < done.push(t).len() && c == text::trim(done.push(t)[k])
                && is_candidate_spec(c);
            if k < done.len() {
                assert(done[k] == done.push(t)[k]);
            }
        }
        if candidates_of(done).contains(c) {
            let k = choose|k: int| 0 <= k < done.len() && c == text::trim(done[k]) && is_candidate_spec(c);
            assert(done.push(t)[k] == done[k]);
        }
        if is_candidate_spec(text::trim(t)) && c == text::trim(t) {
            assert(done.push(t)[done.len() as int] == t);
        }
    }
    assert(a =~= b);
}


pub open spec fn at_source() -> Seq<char> {
    seq!['@', 's', 'o', 'u', 'r', 'c', 'e']
}

/// The bodies of the `@source` directives of `css[i..]`: the trimmed text
/// between `@source` (followed by whitespace) and the next `;` or the end;
/// empty bodies are skipped.
pub open spec fn source_directives_from(css: Seq<char>, i: int) -> Seq<Seq<char>>
    decreases css.len() + 1 - i,
{
    let idx = text::find_from(css, at_source(), i);
    if i < 0 || idx < 0 {
        Seq::empty()
    } else {
        proof {
            text::lemma_find_from_range(css, at_source(), i);
        }
        let a = idx + 7;
        if !(a < css.len() && text::is_unicode_ws(css[a])) {
            source_directives_from(css, a)
        } else {
            let e0 = text::find_from(css, seq![';'], a);
            proof {
                text::lemma_find_from_range(css, seq![';'], a);
            }
            let e = if e0 < 0 { css.len() as int } else { e0 };
            let body = text::trim(css.subrange(a, e));
            (if body.len() > 0 { seq![body] } else { Seq::empty() }) + source_directives_from(css, e)
        }
    }
}

/// The bodies of the `@source` directives of a CSS file.
pub fn parse_source_directives(css: &str) -> (r: Vec<String>)
    ensures
        r@.len() == source_directives_from(css@, 0).len(),
        forall|k: int| 0 <= k < r@.len() ==> (#[trigger] r@[k])@ == source_directives_from(css@, 0)[k],
{
    let s = chars_of(css);
    let pat = vec!['@', 's', 'o', 'u', 'r', 'c', 'e'];
    let semi = vec![';'];
    proof {
        assert(pat@ =~= at_source());
        assert(semi@ =~= seq![';']);
    }
    let mut out: Vec<String> = Vec::new();
    let mut i: usize = 0;
    let ghost mut done: Seq<Seq<char>> = Seq::empty();
    loop
        invariant
            s@ == css@,
            pat@ == at_source(),
            semi@ == seq![';'],
            i <= s.len(),
            done + source_directives_from(s@, i as int) == source_directives_from(s@, 0),
            out@.len() == done.len(),
            forall|k: int| 0 <= k < out@.len() ==> (#[trigger] out@[k])@ == done[k],
        decreases s.len() + 1 - i,
    {
        let idx = match find_from_exec(&s, &pat, i) {
            Some(x) => x,
            None => {
                proof {
                    assert(done + Seq::<Seq<char>>::empty() =~= done);
                }
                return out;
            },
        };
        proof {
            text::lemma_find_from_range(s@, at_source(), i as int);
        }
        let a = idx + 7;
        if !(a < s.len() && is_unicode_ws_exec(s[a])) {
            i = a;
            continue;
        }
        let e = match find_from_exec(&s, &semi, a) {
            Some(x) => x,
            None => s.len(),
        };
        proof {
            text::lemma_find_from_range(s@, seq![';'], a as int);
        }
        let body = trim_exec(&slice_of(&s, a, e));
        if body.len() > 0 {
            out.push(string_of(&body));
            proof {
                assert(done + source_directives_from(s@, i as int) =~= done.push(body@)
                    + source_directives_from(s@, e as int));
                done = done.push(body@);
            }
        } else {
            proof {
                assert(done + source_directives_from(s@, i as int) =~= done + source_directives_from(
                    s@,
                    e as int,
                ));
            }
        }
        i = e;
    }
}

/// `s` trimmed, stripped of a leading `"` or `'` and cut at the next same
/// quote; `None` when there is no opening or no closing quote.
pub open spec fn unquote_spec(s: Seq<char>) -> Option<Seq<char>> {
    let t = text::trim(s);
    if t.len() == 0 || !(t[0] == '"' || t[0] == '\'') {
        None
    } else {
        let inner = t.subrange(1, t.len() as int);
        let e = text::find(inner, seq![t[0]]);
        if e < 0 { None } else { Some(inner.subrange(0, e)) }
    }
}

/// Strips a single- or double-quoted wrapper.
pub fn unquote(s: &str) -> (r: Option<String>)
    ensures
        match r {
            Some(x) => unquote_spec(s@) == Some(x@),
            None => unquote_spec(s@) is None,
        },
{
    let v = chars_of(s);
    let t = trim_exec(&v);
    if t.len() == 0 || !(t[0] == '"' || t[0] == '\'') {
        return None;
    }
    let inner = slice_of(&t, 1, t.len());
    let q = vec![t[0]];
    proof {
        assert(q@ =~= seq![t@[0]]);
        text::lemma_find_from_range(inner@, q@, 0);
    }
    match find_from_exec(&inner, &q, 0) {
        Some(e) => Some(string_of(&slice_of(&inner, 0, e))),
        None => None,
    }
}

pub open spec fn is_glob_char(c: char) -> bool {
    c == '*' || c == '?' || c == '[' || c == ']' || c == '{' || c == '}'
}

/// Index of the first glob metacharacter in `p`, or -1.
pub open spec fn first_glob(p: Seq<char>, i: int) -> int
    decreases p.len() - i,
{
    if i < 0 || i >= p.len() {
        -1
    } else if is_glob_char(p[i]) {
        i
    } else {
        first_glob(p, i + 1)
    }
}

/// Index of the last `/` before `k`, or -1.
pub open spec fn last_slash_before(p: Seq<char>, k: int) -> int
    decreases k,
{
    if k <= 0 {
        -1
    } else if p[k - 1] == '/' {
        k - 1
    } else {
        last_slash_before(p, k - 1)
    }
}

/// The non-glob base directory of an `@source` path and whether a glob
/// followed: the segments before the first segment holding a glob
/// metacharacter.
pub open spec fn split_glob_base_spec(p: Seq<char>) -> (Seq<char>, bool) {
    let k = first_glob(p, 0);
    if k < 0 {
        (p, false)
    } else {
        let j = last_slash_before(p, k);
        (if j < 0 { Seq::empty() } else { p.subrange(0, j) }, true)
    }
}

/// Splits an `@source` path into its non-glob base and whether a glob followed.
pub fn split_glob_base(path: &str) -> (r: (String, bool))
    ensures
        (r.0@, r.1) == split_glob_base_spec(path@),
{
    let p = chars_of(path);
    let mut k: usize = 0;
    while k < p.len() && !(p[k] == '*' || p[k] == '?' || p[k] == '[' || p[k] == ']' || p[k] == '{'
        || p[k] == '}')
        invariant
            k <= p.len(),
            first_glob(p@, 0) == first_glob(p@, k as int),
        decreases p.len() - k,
    {
        k += 1;
    }
    if k >= p.len() {
        return (String::from_str(path), false);
    }
    let mut j = k;
    while j > 0 && p[j - 1] != '/'
        invariant
            j <= k < p.len(),
            last_slash_before(p@, k as int) == last_slash_before(p@, j as int),
        decreases j,
    {
        j -= 1;
    }
    if j == 0 {
        let e: Vec<char> = Vec::new();
        proof {
            assert(e@ =~= Seq::<char>::empty());
        }
        (string_of(&e), true)
    } else {
        (string_of(&slice_of(&p, 0, j - 1)), true)
    }
}

/// Where an `@source` directive body points, relative to the CSS file's
/// directory: `None` for `not ...` exclusions, `inline(...)` safelists and
/// unquoted bodies; otherwise the joined base path and whether a glob
/// followed it (a glob means a directory walk).
pub open spec fn source_directive_target_spec(css_dir: Seq<char>, body: Seq<char>) -> Option<(Seq<char>, bool)> {
    let b = text::trim(body);
    if text::starts_with(b, seq!['n', 'o', 't']) || text::starts_with(b, seq!['i', 'n', 'l', 'i', 'n', 'e']) {
        None
    } else {
        match unquote_spec(b) {
            None => None,
            Some(path) => {
                let (base, has_glob) = split_glob_base_spec(path);
                Some((paths::join_spec(css_dir, base), has_glob))
            },
        }
    }
}

/// Resolves an `@source` directive body to the path it names.
pub fn source_directive_target(css_dir: &str, body: &str) -> (r: Option<(String, bool)>)
    ensures
        match r {
            Some((p, g)) => source_directive_target_spec(css_dir@, body@) == Some((p@, g)),
            None => source_directive_target_spec(css_dir@, body@) is None,
        },
{
    let b = trim_exec(&chars_of(body));
    let not_w = vec!['n', 'o', 't'];
    let inline_w = vec!['i', 'n', 'l', 'i', 'n', 'e'];
    proof {
        assert(not_w@ =~= seq!['n', 'o', 't']);
        assert(inline_w@ =~= seq!['i', 'n', 'l', 'i', 'n', 'e']);
    }
    if text::occurs_at_exec(&b, 0, &not_w) || text::occurs_at_exec(&b, 0, &inline_w) {
        return None;
    }
    let bs = string_of(&b);
    proof {
        assert(text::trim(b@) == b@) by {
            lemma_trim_idem(body@);
        }
    }
    match unquote(bs.as_str()) {
        None => None,
        Some(path) => {
            let (base, g) = split_glob_base(path.as_str());
            Some((paths::join(css_dir, base.as_str()), g))
        },
    }
}

proof fn lemma_trim_in(s: Seq<char>)
    ensures
        text::contains(s, text::trim(s)),
{
    lemma_trim_start_in(s);
    lemma_trim_end_in(text::trim_start(s));
    text::lemma_contains_trans(s, text::trim_start(s), text::trim(s));
}

proof fn lemma_trim_start_in(s: Seq<char>)
    ensures
        text::contains(s, text::trim_start(s)),
    decreases s.len(),
{
    if s.len() > 0 && text::is_unicode_ws(s[0]) {
        lemma_trim_start_in(s.drop_first());
        assert(s =~= seq![s[0]] + s.drop_first() + Seq::<char>::empty());
        text::lemma_contains_mid(seq![s[0]], s.drop_first(), Seq::empty(), text::trim_start(s));
    } else {
        text::lemma_contains_self(s);
    }
}

proof fn lemma_trim_end_in(s: Seq<char>)
    ensures
        text::contains(s, text::trim_end(s)),
    decreases s.len(),
{
    if s.len() > 0 && text::is_unicode_ws(s.last()) {
        lemma_trim_end_in(s.drop_last());
        assert(s =~= Seq::<char>::empty() + s.drop_last() + seq![s.last()]);
        text::lemma_contains_mid(Seq::empty(), s.drop_last(), seq![s.last()], text::trim_end(s));
    } else {
        text::lemma_contains_self(s);
    }
}

/// No character of the text is a delimiter.
pub open spec fn no_delimiter(t: Seq<char>) -> bool {
    forall|k: int| 0 <= k < t.len() ==> !is_delimiter_spec(#[trigger] t[k])
}

proof fn lemma_tokens_from(s: Seq<char>, i: int, start: Option<int>, depth: nat)
    requires
        0 <= i,
        start matches Some(st) ==> 0 <= st <= i <= s.len() && no_delimiter(s.subrange(st, i)),
    ensures
        forall|j: int|
            0 <= j < tokens_from(s, i, start, depth).len() ==> text::contains(s, #[trigger] tokens_from(s, i, start, depth)[j])
                && no_delimiter(tokens_from(s, i, start, depth)[j]),
    decreases s.len() - i,
{
    if i < 0 || i >= s.len() {
        match start {
            Some(st) => {
                let t = s.subrange(st, s.len() as int);
                assert(s.subrange(st, i) =~= t);
                assert(text::occurs_at(s, st, t));
                assert(tokens_from(s, i, start, depth) == seq![t]);
                assert(seq![t][0] == t);
            },
            None => {},
        }
    } else {
        let c = s[i];
        let d: nat = if c == '[' {
            depth + 1
        } else if c == ']' {
            if depth == 0 { 0 } else { (depth - 1) as nat }
        } else {
            depth
        };
        if is_delimiter_spec(c) || (d == 0 && (c == '(' || c == ')')) {
            lemma_tokens_from(s, i + 1, None, d);
            match start {
                Some(st) => {
                    let t = s.subrange(st, i);
                    let rest = tokens_from(s, i + 1, None, d);
                    assert(text::occurs_at(s, st, t));
                    assert(tokens_from(s, i, start, depth) == seq![t] + rest);
                    assert forall|j: int| 0 <= j < (seq![t] + rest).len() implies text::contains(s, #[trigger] (seq![t] + rest)[j])
                        && no_delimiter((seq![t] + rest)[j]) by {
                        if j > 0 {
                            assert((seq![t] + rest)[j] == rest[j - 1]);
                        }
                    }
                },
                None => {
                    assert(tokens_from(s, i, start, depth) == tokens_from(s, i + 1, None, d));
                },
            }
        } else {
            let ns = if start is None { i } else { start->0 };
            assert forall|k: int| 0 <= k < s.subrange(ns, i + 1).len() implies !is_delimiter_spec(
                #[trigger] s.subrange(ns, i + 1)[k],
            ) by {
                if ns + k < i {
                    assert(s.subrange(ns, i + 1)[k] == s.subrange(ns, i)[k]);
                }
            }
            lemma_tokens_from(s, i + 1, Some(ns), d);
            assert(tokens_from(s, i, start, depth) == tokens_from(s, i + 1, Some(ns), d));
        }
    }
}

/// Every candidate a source contributes looks like a utility (non-empty,
/// at most 200 bytes, starting with a letter, `@`, `!` or `-`, without
/// `//`, `/*` or `*/`), holds no delimiter, and stands in the source.
pub proof fn lemma_scan_candidates(s: Seq<char>)
    ensures
        forall|c: Seq<char>|
            #[trigger] candidates_of(tokens(s)).contains(c) ==> is_candidate_spec(c) && text::contains(s, c)
                && no_delimiter(c),
{
    let toks = tokens(s);
    lemma_tokens_from(s, 0, None, 0);
    assert forall|c: Seq<char>| #[trigger] candidates_of(toks).contains(c) implies is_candidate_spec(c) && text::contains(
        s,
        c,
    ) && no_delimiter(c) by {
        let k = choose|k: int| 0 <= k < toks.len() && c == text::trim(toks[k]) && is_candidate_spec(c);
        let t = toks[k];
        lemma_trim_in(t);
        text::lemma_contains_trans(s, t, c);
        let o = choose|o: int| text::occurs_at(t, o, c);
        assert forall|m: int| 0 <= m < c.len() implies !is_delimiter_spec(#[trigger] c[m]) by {
            assert(c[m] == t.subrange(o, o + c.len())[m]);
            assert(c[m] == t[o + m]);
        }
    }
}

pub proof fn lemma_trim_start_idem(s: Seq<char>)
    ensures
        text::trim_start(text::trim_start(s)) == text::trim_start(s),
        text::trim_start(s).len() > 0 ==> !text::is_unicode_ws(text::trim_start(s)[0]),
    decreases s.len(),
{
    if s.len() > 0 && text::is_unicode_ws(s[0]) {
        lemma_trim_start_idem(s.drop_first());
    }
}

pub proof fn lemma_trim_end_facts(s: Seq<char>)
    ensures
        text::trim_end(text::trim_end(s)) == text::trim_end(s),
        text::trim_end(s).len() > 0 ==> !text::is_unicode_ws(text::trim_end(s).last()),
        text::trim_end(s).len() <= s.len(),
        text::trim_end(s) == s.subrange(0, text::trim_end(s).len() as int),
    decreases s.len(),
{
    if s.len() > 0 && text::is_unicode_ws(s.last()) {
        lemma_trim_end_facts(s.drop_last());
    } else {
        assert(s.subrange(0, s.len() as int) =~= s);
    }
}

pub proof fn lemma_trim_idem(s: Seq<char>)
    ensures
        text::trim(text::trim(s)) == text::trim(s),
{
    let a = text::trim_start(s);
    let b = text::trim_end(a);
    lemma_trim_start_idem(s);
    lemma_trim_end_facts(a);
    if b.len() > 0 {
        assert(b[0] == a[0]);
        assert(text::trim_start(b) == b);
    } else {
        assert(text::trim_start(b) == b);
    }
}

/// Source files worth scanning for candidates, by extension: tsx, ts, jsx,
/// js, html, mdx, md.
pub open spec fn is_scannable_spec(path: Seq<char>) -> bool {
    match paths::extension_spec(path) {
        Some(e) => e == "tsx"@ || e == "ts"@ || e == "jsx"@ || e == "js"@ || e == "html"@ || e
            == "mdx"@ || e == "md"@,
        None => false,
    }
}

/// A file whose extension is one of `tsx`, `ts`, `jsx`, `js`, `html`,
/// `mdx` and `md` is scanned, and no other file is.
pub proof fn lemma_scannable_extensions(path: Seq<char>, e: Seq<char>)
    ensures
        paths::extension_spec(path) == Some(e) && (e == "tsx"@ || e == "ts"@ || e == "jsx"@ || e == "js"@ || e
            == "html"@ || e == "mdx"@ || e == "md"@) ==> is_scannable_spec(path),
        paths::extension_spec(path) == Some(e) && is_scannable_spec(path) ==> (e == "tsx"@ || e == "ts"@ || e
            == "jsx"@ || e == "js"@ || e == "html"@ || e == "mdx"@ || e == "md"@),
        paths::extension_spec(path) is None ==> !is_scannable_spec(path),
{
}

/// Whether a file is worth scanning for Tailwind candidates.
pub fn is_scannable(path: &str) -> (r: bool)
    ensures
        r == is_scannable_spec(path@),
{
    match paths::extension(path) {
        Some(e) => {
            let x = e.as_str();
            str_eq(x, "tsx") || str_eq(x, "ts") || str_eq(x, "jsx") || str_eq(x, "js") || str_eq(
                x,
                "html",
            ) || str_eq(x, "mdx") || str_eq(x, "md")
        },
        None => false,
    }
}

} // verus!
