//! Slash-separated path strings: joining, and the file name, stem and
//! extension of the last component.
use vstd::prelude::*;
use crate::text::{self, chars_of, slice_of, string_of};

verus! {

/// `rel` appended to `base` (`Path::join`): an absolute `rel` replaces
/// `base`; otherwise one `/` separates them.
pub open spec fn join_spec(base: Seq<char>, rel: Seq<char>) -> Seq<char> {
    if rel.len() > 0 && rel[0] == '/' {
        rel
    } else if base.len() == 0 {
        rel
    } else if base.last() == '/' {
        base + rel
    } else {
        base + seq!['/'] + rel
    }
}

/// Joins two path strings.
pub fn join(base: &str, rel: &str) -> (r: String)
    ensures
        r@ == join_spec(base@, rel@),
{
    let b = chars_of(base);
    let rv = chars_of(rel);
    if rv.len() > 0 && rv[0] == '/' {
        return String::from_str(rel);
    }
    if b.len() == 0 {
        return String::from_str(rel);
    }
    let mut r = String::from_str(base);
    if b[b.len() - 1] != '/' {
        r.append("/");
        proof {
            assert("/"@ =~= seq!['/']) by {
                reveal_strlit("/");
            }
        }
    }
    r.append(rel);
    r
}

/// End of the component that starts at `i`: the next `/` at or after `i`,
/// or the end of the path.
pub open spec fn comp_end(p: Seq<char>, i: int) -> int {
    let f = text::find_from(p, seq!['/'], i);
    if f < 0 {
        p.len() as int
    } else {
        f
    }
}

/// The components of `p[i..]`, leaving out empty and `.` components.
pub open spec fn comps_from(p: Seq<char>, i: int) -> Seq<Seq<char>>
    decreases p.len() + 1 - i,
{
    if i < 0 || i >= p.len() {
        Seq::empty()
    } else {
        proof {
            text::lemma_find_from_range(p, seq!['/'], i);
        }
        let f = text::find_from(p, seq!['/'], i);
        let e = if f < 0 {
            p.len() as int
        } else {
            f
        };
        let c = p.subrange(i, e);
        if c.len() == 0 || c == seq!['.'] {
            comps_from(p, e + 1)
        } else {
            seq![c] + comps_from(p, e + 1)
        }
    }
}

/// The key a path is compared by, as `PathBuf` equality compares paths
/// (component by component): `/` for an absolute path, or `./` for a path
/// whose first component is `.`, then the remaining components joined by
/// `/`; empty and other `.` components are left out.
pub open spec fn path_key_spec(p: Seq<char>) -> Seq<char> {
    let body = text::join(comps_from(p, 0), seq!['/']);
    if p.len() > 0 && p[0] == '/' {
        seq!['/'] + body
    } else if starts_with_cur_dir(p) {
        seq!['.', '/'] + body
    } else {
        body
    }
}

/// The components of a path, leaving out empty and `.` components.
fn comps_exec(p: &str) -> (r: Vec<String>)
    ensures
        text::views(r@) == comps_from(p@, 0),
{
    let s = chars_of(p);
    let slash = vec!['/'];
    proof {
        assert(slash@ =~= seq!['/']);
    }
    let mut parts: Vec<String> = Vec::new();
    let mut i: usize = 0;
    proof {
        assert(text::views(parts@) + comps_from(s@, 0) =~= comps_from(s@, 0));
    }
    while i < s.len()
        invariant
            i <= s@.len(),
            s@ == p@,
            slash@ == seq!['/'],
            text::views(parts@) + comps_from(s@, i as int) == comps_from(s@, 0),
        decreases s.len() - i,
    {
        proof {
            text::lemma_find_from_range(s@, seq!['/'], i as int);
        }
        let e = match text::find_from_exec(&s, &slash, i) {
            Some(f) => f,
            None => s.len(),
        };
        let c = slice_of(&s, i, e);
        let ghost before = text::views(parts@);
        let ghost rest = comps_from(s@, e + 1);
        let skip = c.len() == 0 || (c.len() == 1 && c[0] == '.');
        proof {
            if c@.len() == 1 && c@[0] == '.' {
                assert(c@ =~= seq!['.']);
            }
            assert(skip <==> (c@.len() == 0 || c@ == seq!['.']));
        }
        if !skip {
            parts.push(string_of(&c));
            proof {
                assert(text::views(parts@) =~= before.push(c@));
                assert(before.push(c@) + rest =~= before + (seq![c@] + rest));
            }
        }
        if e < s.len() {
            i = e + 1;
        } else {
            proof {
                assert(comps_from(s@, e + 1) =~= comps_from(s@, s@.len() as int));
            }
            i = s.len();
        }
    }
    proof {
        assert(comps_from(s@, i as int) =~= Seq::<Seq<char>>::empty());
        assert(text::views(parts@) =~= comps_from(s@, 0));
    }
    parts
}

/// The path's first component is `.`.
pub open spec fn starts_with_cur_dir(p: Seq<char>) -> bool {
    p.len() > 0 && p.subrange(0, comp_end(p, 0)) == seq!['.']
}

fn starts_with_cur_dir_exec(p: &str) -> (b: bool)
    ensures
        b == starts_with_cur_dir(p@),
{
    let s = chars_of(p);
    if s.len() == 0 {
        return false;
    }
    let slash = vec!['/'];
    proof {
        assert(slash@ =~= seq!['/']);
        text::lemma_find_from_range(s@, seq!['/'], 0);
    }
    let e0 = match text::find_from_exec(&s, &slash, 0) {
        Some(f) => f,
        None => s.len(),
    };
    proof {
        assert(e0 as int == comp_end(s@, 0));
        if e0 == 1 && s@[0] == '.' {
            assert(s@.subrange(0, 1) =~= seq!['.']);
        }
        if s@.subrange(0, e0 as int) == seq!['.'] {
            assert(s@.subrange(0, e0 as int).len() == e0);
            assert(s@.subrange(0, e0 as int)[0] == s@[0]);
        }
    }
    e0 == 1 && s[0] == '.'
}

/// The comparison key of a path (see `path_key_spec`).
pub fn path_key(p: &str) -> (r: String)
    ensures
        r@ == path_key_spec(p@),
{
    let parts = comps_exec(p);
    let body = text::join_strings(parts.as_slice(), "/");
    proof {
        reveal_strlit("/");
        assert("/"@ =~= seq!['/']);
        assert(body@ == text::join(comps_from(p@, 0), seq!['/']));
    }
    let s = chars_of(p);
    if s.len() > 0 && s[0] == '/' {
        let mut r = String::from_str("/");
        r.append(body.as_str());
        proof {
            assert(r@ =~= seq!['/'] + body@);
        }
        r
    } else if starts_with_cur_dir_exec(p) {
        let mut r = String::from_str("./");
        r.append(body.as_str());
        proof {
            reveal_strlit("./");
            assert(r@ =~= seq!['.', '/'] + body@);
        }
        r
    } else {
        body
    }
}

/// A component for ordering, as `Path` orders them: `(1, "")` for the
/// root, `(2, "")` for a leading `.`, `(3, "")` for `..`, `(4, name)` for a
/// name.
pub open spec fn comp_of(c: Seq<char>) -> (int, Seq<char>) {
    if c == seq!['.', '.'] {
        (3, Seq::empty())
    } else {
        (4, c)
    }
}

/// The components of a path, as `Path::components` gives them.
pub closed spec fn components(p: Seq<char>) -> Seq<(int, Seq<char>)> {
    let body = comps_from(p, 0).map_values(|c: Seq<char>| comp_of(c));
    if p.len() > 0 && p[0] == '/' {
        seq![(1int, Seq::<char>::empty())] + body
    } else if starts_with_cur_dir(p) {
        seq![(2int, Seq::<char>::empty())] + body
    } else {
        body
    }
}

/// One component sorts before another: by kind, then names by their text.
pub open spec fn comp_lt(a: (int, Seq<char>), b: (int, Seq<char>)) -> bool {
    a.0 < b.0 || (a.0 == b.0 && text::lex_lt(a.1, b.1))
}

/// Components compared in order, a proper prefix first.
pub open spec fn comps_lt(a: Seq<(int, Seq<char>)>, b: Seq<(int, Seq<char>)>) -> bool
    decreases a.len(),
{
    if a.len() == 0 {
        b.len() > 0
    } else if b.len() == 0 {
        false
    } else if a[0] != b[0] {
        comp_lt(a[0], b[0])
    } else {
        comps_lt(a.drop_first(), b.drop_first())
    }
}

/// `p` sorts before `q` as `Path`s do: by their components.
pub closed spec fn path_lt(p: Seq<char>, q: Seq<char>) -> bool {
    comps_lt(components(p), components(q))
}

proof fn lemma_comp_lt_irrefl(a: (int, Seq<char>))
    ensures
        !comp_lt(a, a),
{
    text::lemma_lex_irrefl(a.1);
}

proof fn lemma_comp_lt_trans(a: (int, Seq<char>), b: (int, Seq<char>), c: (int, Seq<char>))
    requires
        comp_lt(a, b),
        comp_lt(b, c),
    ensures
        comp_lt(a, c),
{
    if a.0 == b.0 && b.0 == c.0 {
        text::lemma_lex_trans(a.1, b.1, c.1);
    }
}

proof fn lemma_comp_lt_total(a: (int, Seq<char>), b: (int, Seq<char>))
    requires
        a != b,
    ensures
        comp_lt(a, b) || comp_lt(b, a),
{
    if a.0 == b.0 {
        text::lemma_lex_total(a.1, b.1);
    }
}

proof fn lemma_comps_lt_irrefl(a: Seq<(int, Seq<char>)>)
    ensures
        !comps_lt(a, a),
    decreases a.len(),
{
    if a.len() > 0 {
        lemma_comps_lt_irrefl(a.drop_first());
    }
}

proof fn lemma_comps_lt_trans(a: Seq<(int, Seq<char>)>, b: Seq<(int, Seq<char>)>, c: Seq<(int, Seq<char>)>)
    requires
        comps_lt(a, b),
        comps_lt(b, c),
    ensures
        comps_lt(a, c),
    decreases a.len(),
{
    if a.len() > 0 {
        if a[0] != b[0] {
            if b[0] != c[0] {
                lemma_comp_lt_trans(a[0], b[0], c[0]);
            }
            lemma_comp_lt_irrefl(c[0]);
        } else if b[0] != c[0] {
        } else {
            lemma_comps_lt_trans(a.drop_first(), b.drop_first(), c.drop_first());
        }
    }
}

proof fn lemma_comps_lt_total(a: Seq<(int, Seq<char>)>, b: Seq<(int, Seq<char>)>)
    requires
        a != b,
    ensures
        comps_lt(a, b) || comps_lt(b, a),
    decreases a.len(),
{
    if a.len() == 0 && b.len() == 0 {
        assert(a =~= b);
    }
    if a.len() > 0 && b.len() > 0 {
        if a[0] != b[0] {
            lemma_comp_lt_total(a[0], b[0]);
        } else {
            if a.drop_first() == b.drop_first() {
                assert(a =~= seq![a[0]] + a.drop_first());
                assert(b =~= seq![b[0]] + b.drop_first());
            }
            lemma_comps_lt_total(a.drop_first(), b.drop_first());
        }
    }
}

/// No path sorts before itself, nor before a path of the same components.
pub proof fn lemma_path_lt_irrefl(p: Seq<char>, q: Seq<char>)
    requires
        components(p) == components(q),
    ensures
        !path_lt(p, q),
{
    lemma_comps_lt_irrefl(components(p));
}

/// The order of paths is transitive.
pub proof fn lemma_path_lt_trans(p: Seq<char>, q: Seq<char>, r: Seq<char>)
    requires
        path_lt(p, q),
        path_lt(q, r),
    ensures
        path_lt(p, r),
{
    lemma_comps_lt_trans(components(p), components(q), components(r));
}

/// Two paths of different components are ordered one way or the other.
pub proof fn lemma_path_lt_total(p: Seq<char>, q: Seq<char>)
    requires
        components(p) != components(q),
    ensures
        path_lt(p, q) || path_lt(q, p),
{
    lemma_comps_lt_total(components(p), components(q));
}

/// The character views of exec components.
pub open spec fn comp_views(v: Seq<(u8, Vec<char>)>) -> Seq<(int, Seq<char>)> {
    v.map_values(|c: (u8, Vec<char>)| (c.0 as int, c.1@))
}

fn components_exec(p: &str) -> (r: Vec<(u8, Vec<char>)>)
    ensures
        comp_views(r@) == components(p@),
{
    let parts = comps_exec(p);
    let mut r: Vec<(u8, Vec<char>)> = Vec::new();
    let s = chars_of(p);
    let ghost head: Seq<(int, Seq<char>)>;
    if s.len() > 0 && s[0] == '/' {
        r.push((1u8, Vec::new()));
        proof {
            head = seq![(1int, Seq::<char>::empty())];
        }
    } else if starts_with_cur_dir_exec(p) {
        r.push((2u8, Vec::new()));
        proof {
            head = seq![(2int, Seq::<char>::empty())];
        }
    } else {
        proof {
            head = Seq::empty();
        }
    }
    proof {
        assert(comp_views(r@) =~= head);
    }
    let ghost pv = text::views(parts@);
    let ghost body = pv.map_values(|c: Seq<char>| comp_of(c));
    let mut i: usize = 0;
    while i < parts.len()
        invariant
            i <= parts@.len(),
            pv == text::views(parts@),
            body == pv.map_values(|c: Seq<char>| comp_of(c)),
            comp_views(r@) == head + body.take(i as int),
        decreases parts.len() - i,
    {
        let c = chars_of(parts[i].as_str());
        let dd = c.len() == 2 && c[0] == '.' && c[1] == '.';
        proof {
            if c@.len() == 2 && c@[0] == '.' && c@[1] == '.' {
                assert(c@ =~= seq!['.', '.']);
            }
            assert(dd == (pv[i as int] == seq!['.', '.']));
        }
        let ghost before = comp_views(r@);
        if dd {
            r.push((3u8, Vec::new()));
        } else {
            r.push((4u8, c));
        }
        proof {
            assert(comp_views(r@) =~= before.push(body[i as int]));
            assert(body.take(i + 1) =~= body.take(i as int).push(body[i as int]));
        }
        i += 1;
    }
    proof {
        assert(body.take(i as int) =~= body);
        assert(pv == comps_from(p@, 0));
    }
    r
}

fn comp_eq_exec(a: &(u8, Vec<char>), b: &(u8, Vec<char>)) -> (r: bool)
    ensures
        r == ((a.0 as int, a.1@) == (b.0 as int, b.1@)),
{
    a.0 == b.0 && text::chars_eq(&a.1, &b.1)
}

fn comps_lt_exec(a: &Vec<(u8, Vec<char>)>, b: &Vec<(u8, Vec<char>)>) -> (r: bool)
    ensures
        r == comps_lt(comp_views(a@), comp_views(b@)),
{
    let ghost av = comp_views(a@);
    let ghost bv = comp_views(b@);
    let mut i: usize = 0;
    proof {
        assert(av.skip(0) =~= av);
        assert(bv.skip(0) =~= bv);
    }
    while i < a.len() && i < b.len()
        invariant
            i <= a@.len(),
            i <= b@.len(),
            av == comp_views(a@),
            bv == comp_views(b@),
            comps_lt(av, bv) == comps_lt(av.skip(i as int), bv.skip(i as int)),
        decreases a.len() - i,
    {
        proof {
            assert(av.skip(i as int)[0] == av[i as int]);
            assert(bv.skip(i as int)[0] == bv[i as int]);
            assert(av.skip(i as int).drop_first() =~= av.skip(i + 1));
            assert(bv.skip(i as int).drop_first() =~= bv.skip(i + 1));
        }
        if !comp_eq_exec(&a[i], &b[i]) {
            return a[i].0 < b[i].0 || (a[i].0 == b[i].0 && text::lex_lt_exec(&a[i].1, &b[i].1));
        }
        i += 1;
    }
    i == a.len() && i < b.len()
}

/// Whether `p` sorts before `q` as `Path`s do.
pub fn path_lt_exec(p: &str, q: &str) -> (r: bool)
    ensures
        r == path_lt(p@, q@),
{
    let a = components_exec(p);
    let b = components_exec(q);
    comps_lt_exec(&a, &b)
}

/// Whether two paths are equal as `Path`s are: component by component.
pub fn path_eq_exec(p: &str, q: &str) -> (r: bool)
    ensures
        r == (components(p@) == components(q@)),
{
    let a = components_exec(p);
    let b = components_exec(q);
    let ghost av = comp_views(a@);
    let ghost bv = comp_views(b@);
    if a.len() != b.len() {
        proof {
            assert(av.len() == a@.len() && bv.len() == b@.len());
            assert(av.len() != bv.len());
        }
        return false;
    }
    let mut i: usize = 0;
    while i < a.len()
        invariant
            i <= a@.len(),
            a@.len() == b@.len(),
            av == comp_views(a@),
            bv == comp_views(b@),
            av == components(p@),
            bv == components(q@),
            forall|k: int| 0 <= k < i ==> av[k] == bv[k],
        decreases a.len() - i,
    {
        if !comp_eq_exec(&a[i], &b[i]) {
            proof {
                assert(av[i as int] == (a@[i as int].0 as int, a@[i as int].1@));
                assert(bv[i as int] == (b@[i as int].0 as int, b@[i as int].1@));
                assert(av[i as int] != bv[i as int]);
                assert(av != bv);
            }
            return false;
        }
        i += 1;
    }
    proof {
        assert(av.len() == bv.len());
        assert(av =~= bv);
    }
    true
}

/// Start of the last component of `p[..e]`: just past the last `/` before `e`.
pub open spec fn comp_start(p: Seq<char>, e: int) -> int
    decreases e,
{
    if e <= 0 {
        0
    } else if p[e - 1] == '/' {
        e
    } else {
        comp_start(p, e - 1)
    }
}

/// The last component of `p[..e]` that is neither empty nor `.`.
pub open spec fn last_component(p: Seq<char>, e: int) -> Option<Seq<char>>
    decreases e,
{
    if e <= 0 {
        None
    } else {
        let s = comp_start(p, e - 1);
        proof {
            lemma_comp_start(p, e - 1);
        }
        let c = p.subrange(s, e);
        if p[e - 1] == '/' {
            last_component(p, e - 1)
        } else if c == seq!['.'] {
            last_component(p, s)
        } else {
            Some(c)
        }
    }
}

/// The file name of a path (`Path::file_name`): its last component, unless
/// that is `..`.
pub open spec fn file_name_spec(p: Seq<char>) -> Option<Seq<char>> {
    match last_component(p, p.len() as int) {
        Some(c) => if c == seq!['.', '.'] { None } else { Some(c) },
        None => None,
    }
}

/// Index of the last `.` in `n`, or -1.
pub open spec fn last_dot(n: Seq<char>) -> int {
    text::rfind(n, seq!['.'])
}

/// The extension of a path (`Path::extension`): what follows the last `.`
/// of the file name, when that dot is not its first character.
pub open spec fn extension_spec(p: Seq<char>) -> Option<Seq<char>> {
    match file_name_spec(p) {
        Some(n) => if last_dot(n) > 0 { Some(n.subrange(last_dot(n) + 1, n.len() as int)) } else { None },
        None => None,
    }
}

/// The file stem of a path (`Path::file_stem`): the file name up to its
/// last `.`, when that dot is not its first character.
pub open spec fn file_stem_spec(p: Seq<char>) -> Option<Seq<char>> {
    match file_name_spec(p) {
        Some(n) => if last_dot(n) > 0 { Some(n.subrange(0, last_dot(n))) } else { Some(n) },
        None => None,
    }
}

pub proof fn lemma_comp_start(p: Seq<char>, e: int)
    requires
        0 <= e,
    ensures
        0 <= comp_start(p, e) <= e,
    decreases e,
{
    if e > 0 && p[e - 1] != '/' {
        lemma_comp_start(p, e - 1);
    }
}

fn comp_start_exec(p: &Vec<char>, e: usize) -> (r: usize)
    requires
        e <= p.len(),
    ensures
        r as int == comp_start(p@, e as int),
        r <= e,
{
    let mut k = e;
    while k > 0 && p[k - 1] != '/'
        invariant
            k <= e <= p.len(),
            comp_start(p@, e as int) == comp_start(p@, k as int),
        decreases k,
    {
        k -= 1;
    }
    k
}

fn last_component_exec(p: &Vec<char>) -> (r: Option<Vec<char>>)
    ensures
        match r {
            Some(c) => last_component(p@, p.len() as int) == Some(c@),
            None => last_component(p@, p.len() as int) is None,
        },
{
    let mut e = p.len();
    while e > 0
        invariant
            e <= p.len(),
            last_component(p@, p.len() as int) == last_component(p@, e as int),
        decreases e,
    {
        let s = comp_start_exec(p, e - 1);
        if p[e - 1] == '/' {
            e -= 1;
        } else {
            let c = slice_of(p, s, e);
            if c.len() == 1 && c[0] == '.' {
                proof {
                    assert(c@ =~= seq!['.']);
                }
                e = s;
            } else {
                proof {
                    if c@ == seq!['.'] {
                        assert(c@.len() == 1);
                    }
                }
                return Some(c);
            }
        }
    }
    None
}

/// The file name of a path.
pub fn file_name(p: &str) -> (r: Option<String>)
    ensures
        match r {
            Some(n) => file_name_spec(p@) == Some(n@),
            None => file_name_spec(p@) is None,
        },
{
    let v = chars_of(p);
    match last_component_exec(&v) {
        Some(c) => {
            if c.len() == 2 && c[0] == '.' && c[1] == '.' {
                proof {
                    assert(c@ =~= seq!['.', '.']);
                }
                None
            } else {
                proof {
                    if c@ == seq!['.', '.'] {
                        assert(c@.len() == 2);
                    }
                }
                Some(string_of(&c))
            }
        },
        None => None,
    }
}

fn last_dot_exec(n: &Vec<char>) -> (r: Option<usize>)
    ensures
        match r {
            Some(d) => d as int == last_dot(n@) && d < n.len(),
            None => last_dot(n@) == -1,
        },
{
    let mut k = n.len();
    while k > 0
        invariant
            k <= n.len(),
            forall|j: int| k <= j < n.len() ==> n@[j] != '.',
        decreases k,
    {
        if n[k - 1] == '.' {
            proof {
                lemma_last_dot(n@, (k - 1) as int);
            }
            return Some(k - 1);
        }
        k -= 1;
    }
    proof {
        lemma_last_dot_none(n@);
    }
    None
}

proof fn lemma_last_dot(n: Seq<char>, d: int)
    requires
        0 <= d < n.len(),
        n[d] == '.',
        forall|j: int| d < j < n.len() ==> n[j] != '.',
    ensures
        last_dot(n) == d,
{
    lemma_rfind_single(n, '.', n.len() - 1, d);
}

proof fn lemma_rfind_single(n: Seq<char>, c: char, j: int, d: int)
    requires
        0 <= d <= j < n.len(),
        n[d] == c,
        forall|k: int| d < k <= j ==> n[k] != c,
    ensures
        text::rfind_at_or_before(n, seq![c], j) == d,
    decreases j - d,
{
    if j == d {
        assert(n.subrange(d, d + 1) =~= seq![c]);
    } else {
        assert(!text::occurs_at(n, j, seq![c])) by {
            if text::occurs_at(n, j, seq![c]) {
                assert(n.subrange(j, j + 1)[0] == n[j]);
            }
        }
        lemma_rfind_single(n, c, j - 1, d);
    }
}

proof fn lemma_last_dot_none(n: Seq<char>)
    requires
        forall|j: int| 0 <= j < n.len() ==> n[j] != '.',
    ensures
        last_dot(n) == -1,
{
    lemma_rfind_none(n, '.', n.len() - 1);
}

proof fn lemma_rfind_none(n: Seq<char>, c: char, j: int)
    requires
        j < n.len(),
        forall|k: int| 0 <= k < n.len() ==> n[k] != c,
    ensures
        text::rfind_at_or_before(n, seq![c], j) == -1,
    decreases j + 1,
{
    if j >= 0 {
        assert(!text::occurs_at(n, j, seq![c])) by {
            if text::occurs_at(n, j, seq![c]) {
                assert(n.subrange(j, j + 1)[0] == n[j]);
            }
        }
        lemma_rfind_none(n, c, j - 1);
    }
}

/// The extension of a path.
pub fn extension(p: &str) -> (r: Option<String>)
    ensures
        match r {
            Some(x) => extension_spec(p@) == Some(x@),
            None => extension_spec(p@) is None,
        },
{
    match file_name(p) {
        Some(n) => {
            let nv = chars_of(n.as_str());
            match last_dot_exec(&nv) {
                Some(d) => {
                    if d > 0 {
                        Some(string_of(&slice_of(&nv, d + 1, nv.len())))
                    } else {
                        None
                    }
                },
                None => None,
            }
        },
        None => None,
    }
}

/// The file stem of a path.
pub fn file_stem(p: &str) -> (r: Option<String>)
    ensures
        match r {
            Some(x) => file_stem_spec(p@) == Some(x@),
            None => file_stem_spec(p@) is None,
        },
{
    match file_name(p) {
        Some(n) => {
            let nv = chars_of(n.as_str());
            match last_dot_exec(&nv) {
                Some(d) => {
                    if d > 0 {
                        Some(string_of(&slice_of(&nv, 0, d)))
                    } else {
                        Some(n)
                    }
                },
                None => Some(n),
            }
        },
        None => None,
    }
}


/// What `Path::strip_prefix` leaves of `path` once the components of `base`
/// are taken off its front, or `None` where `base` is not a prefix of it.
pub uninterp spec fn path_strip_prefix(path: Seq<char>, base: Seq<char>) -> Option<Seq<char>>;

/// `Path::new(path).strip_prefix(base)`: the rest of `path` after the
/// components of `base`, or `None` when `base` is not a component prefix of
/// `path`. The rest is a `&str` slice of a path built from a `&str`, so
/// `to_string_lossy` loses nothing. How `Path` splits components is not
/// stated here; the result is named `path_strip_prefix`.
#[verifier::external_body]
pub(crate) fn strip_prefix(path: &str, base: &str) -> (r: Option<String>)
    ensures
        text::opt_view(r) == path_strip_prefix(path@, base@),
{
    match std::path::Path::new(path).strip_prefix(base) {
        Ok(rest) => Some(rest.to_string_lossy().to_string()),
        Err(_) => None,
    }
}


/// What `Path::parent` gives of a path: the path without its final
/// component, or `None` for a root, a prefix or the empty path.
pub uninterp spec fn path_parent(path: Seq<char>) -> Option<Seq<char>>;

/// `Path::new(path).parent()`: the path without its final component, or
/// `None` where the path ends in a root or prefix or is empty. How `Path`
/// splits components is not stated here; the result is named
/// `path_parent`.
#[verifier::external_body]
pub(crate) fn parent(path: &str) -> (r: Option<String>)
    ensures
        text::opt_view(r) == path_parent(path@),
{
    match std::path::Path::new(path).parent() {
        Some(p) => Some(p.to_string_lossy().to_string()),
        None => None,
    }
}

} // verus!
