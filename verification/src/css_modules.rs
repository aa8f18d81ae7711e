//! CSS modules: class names of a stylesheet, scoped rewriting, and the JS
//! proxy exporting the class name mapping.
use vstd::prelude::*;
use crate::text::{self, chars_of, find_from_exec, is_ascii_alnum_exec, is_ascii_alpha_exec,
    occurs_at_exec, slice_of, string_of};
use crate::{ids, paths};

verus! {

pub open spec fn is_class_char(c: char) -> bool {
    text::is_ascii_alnum(c) || c == '_' || c == '-'
}

/// End of the run of class-name characters starting at `i`.
pub open spec fn class_end(s: Seq<char>, i: int) -> int
    decreases s.len() - i,
{
    if 0 <= i < s.len() && is_class_char(s[i]) {
        class_end(s, i + 1)
    } else {
        i
    }
}

pub open spec fn comment_close() -> Seq<char> {
    seq!['*', '/']
}

/// Every class selector of `s[i..]`, in order, repeats included: a `.`
/// followed by a letter or `_` starts a name of letters, digits, `_` and
/// `-`; closed comments are skipped.
pub open spec fn class_occurrences(s: Seq<char>, i: int) -> Seq<Seq<char>>
    decreases s.len() - i,
{
    if i < 0 || i >= s.len() {
        Seq::empty()
    } else if i + 1 < s.len() && s[i] == '/' && s[i + 1] == '*' && text::find_from(s, comment_close(), i + 2) >= 0 {
        proof {
            text::lemma_find_from_range(s, comment_close(), i + 2);
        }
        class_occurrences(s, text::find_from(s, comment_close(), i + 2) + 2)
    } else if s[i] == '.' && i + 1 < s.len() && (text::is_ascii_alpha(s[i + 1]) || s[i + 1] == '_') {
        proof {
            lemma_class_end(s, i + 1);
        }
        seq![s.subrange(i + 1, class_end(s, i + 1))] + class_occurrences(s, class_end(s, i + 1))
    } else {
        class_occurrences(s, i + 1)
    }
}

/// `q` with later repeats removed, first occurrences kept in order.
pub open spec fn dedup(q: Seq<Seq<char>>) -> Seq<Seq<char>>
    decreases q.len(),
{
    if q.len() == 0 {
        q
    } else {
        let r = dedup(q.drop_last());
        if r.contains(q.last()) { r } else { r.push(q.last()) }
    }
}

pub proof fn lemma_class_end(s: Seq<char>, i: int)
    requires
        0 <= i,
    ensures
        i <= class_end(s, i),
        i <= s.len() ==> class_end(s, i) <= s.len(),
    decreases s.len() - i,
{
    if 0 <= i < s.len() && is_class_char(s[i]) {
        lemma_class_end(s, i + 1);
    }
}

pub proof fn lemma_contains_push(q: Seq<Seq<char>>)
    requires
        q.len() > 0,
    ensures
        forall|x: Seq<char>| q.contains(x) <==> (q.drop_last().contains(x) || x == q.last()),
{
    assert forall|x: Seq<char>| q.contains(x) <==> (q.drop_last().contains(x) || x == q.last()) by {
        if q.contains(x) {
            let k = choose|k: int| 0 <= k < q.len() && q[k] == x;
            if k < q.len() - 1 {
                assert(q.drop_last()[k] == x);
            }
        }
        if q.drop_last().contains(x) {
            let k = choose|k: int| 0 <= k < q.drop_last().len() && q.drop_last()[k] == x;
            assert(q[k] == x);
        }
        if x == q.last() {
            assert(q[q.len() - 1] == x);
        }
    }
}

pub proof fn lemma_dedup_unique(q: Seq<Seq<char>>)
    ensures
        forall|i: int, j: int| 0 <= i < j < dedup(q).len() ==> dedup(q)[i] != dedup(q)[j],
        forall|x: Seq<char>| dedup(q).contains(x) <==> q.contains(x),
    decreases q.len(),
{
    if q.len() > 0 {
        lemma_dedup_unique(q.drop_last());
        lemma_contains_push(q);
        let r = dedup(q.drop_last());
        if !r.contains(q.last()) {
            let d = r.push(q.last());
            assert(d.drop_last() =~= r);
            lemma_contains_push(d);
            assert forall|i: int, j: int| 0 <= i < j < d.len() implies d[i] != d[j] by {
                if j == d.len() - 1 {
                    assert(d[i] == r[i]);
                    assert(r.contains(r[i]));
                }
            }
        }
    }
}

/// A class name: non-empty, starting with a letter or `_`, of letters,
/// digits, `_` and `-`.
pub open spec fn is_class_name(c: Seq<char>) -> bool {
    &&& c.len() > 0
    &&& text::is_ascii_alpha(c[0]) || c[0] == '_'
    &&& forall|k: int| 0 <= k < c.len() ==> is_class_char(#[trigger] c[k])
}

proof fn lemma_class_end_chars(s: Seq<char>, i: int)
    requires
        0 <= i,
    ensures
        forall|k: int| i <= k < class_end(s, i) ==> 0 <= k < s.len() && is_class_char(#[trigger] s[k]),
    decreases s.len() - i,
{
    if 0 <= i < s.len() && is_class_char(s[i]) {
        lemma_class_end_chars(s, i + 1);
        lemma_class_end(s, i + 1);
        assert forall|k: int| i <= k < class_end(s, i) implies 0 <= k < s.len() && is_class_char(#[trigger] s[k]) by {
            if k > i {
                assert(i + 1 <= k < class_end(s, i + 1));
            }
        }
    }
}

proof fn lemma_concat_contains(a: Seq<Seq<char>>, b: Seq<Seq<char>>, x: Seq<char>)
    requires
        (a + b).contains(x),
    ensures
        a.contains(x) || b.contains(x),
{
    let k = choose|k: int| 0 <= k < (a + b).len() && (a + b)[k] == x;
    if k < a.len() {
        assert(a[k] == x);
    } else {
        assert(b[k - a.len()] == x);
    }
}

proof fn lemma_occurrences_are_classes(s: Seq<char>, i: int)
    requires
        0 <= i,
    ensures
        forall|x: Seq<char>|
            #[trigger] class_occurrences(s, i).contains(x) ==> is_class_name(x) && text::contains(s, seq!['.'] + x),
    decreases s.len() - i,
{
    if i < 0 || i >= s.len() {
    } else if i + 1 < s.len() && s[i] == '/' && s[i + 1] == '*' && text::find_from(s, comment_close(), i + 2) >= 0 {
        text::lemma_find_from_range(s, comment_close(), i + 2);
        let j = text::find_from(s, comment_close(), i + 2) + 2;
        lemma_occurrences_are_classes(s, j);
        assert(class_occurrences(s, i) == class_occurrences(s, j));
    } else if s[i] == '.' && i + 1 < s.len() && (text::is_ascii_alpha(s[i + 1]) || s[i + 1] == '_') {
        let e = class_end(s, i + 1);
        lemma_class_end(s, i + 1);
        lemma_class_end_chars(s, i + 1);
        assert(is_class_char(s[i + 1]));
        assert(e == class_end(s, i + 2));
        lemma_class_end(s, i + 2);
        let name = s.subrange(i + 1, e);
        lemma_occurrences_are_classes(s, e);
        assert(class_occurrences(s, i) == seq![name] + class_occurrences(s, e));
        assert forall|x: Seq<char>| #[trigger] class_occurrences(s, i).contains(x) implies is_class_name(x)
            && text::contains(s, seq!['.'] + x) by {
            lemma_concat_contains(seq![name], class_occurrences(s, e), x);
            if seq![name].contains(x) {
                let k = choose|k: int| 0 <= k < seq![name].len() && seq![name][k] == x;
                assert(x == name);
                assert forall|k: int| 0 <= k < x.len() implies is_class_char(#[trigger] x[k]) by {
                    assert(x[k] == s[i + 1 + k]);
                }
                assert(s.subrange(i, e) =~= seq!['.'] + x);
                assert(text::occurs_at(s, i, seq!['.'] + x));
            }
        }
    } else {
        lemma_occurrences_are_classes(s, i + 1);
        assert(class_occurrences(s, i) == class_occurrences(s, i + 1));
    }
}

/// Every class `parse_css_classes` finds is a class name that the
/// stylesheet has as a selector (a `.` followed by the name), and none is
/// found twice.
pub proof fn lemma_css_classes(css: Seq<char>)
    ensures
        forall|x: Seq<char>|
            #[trigger] css_classes(css).contains(x) ==> is_class_name(x) && text::contains(css, seq!['.'] + x),
        forall|i: int, j: int| 0 <= i < j < css_classes(css).len() ==> css_classes(css)[i] != css_classes(css)[j],
{
    let q = class_occurrences(css, 0);
    lemma_dedup_unique(q);
    lemma_occurrences_are_classes(css, 0);
    assert forall|x: Seq<char>| #[trigger] css_classes(css).contains(x) implies is_class_name(x) && text::contains(
        css,
        seq!['.'] + x,
    ) by {
        assert(dedup(q).contains(x));
        assert(q.contains(x));
    }
}

/// `x` occurs in `q` before index `m`.
pub open spec fn seen_before(q: Seq<Seq<char>>, x: Seq<char>, m: int) -> bool {
    exists|l: int| 0 <= l < m && q[l] == x
}

proof fn lemma_dedup_first_order(q: Seq<Seq<char>>)
    ensures
        forall|i: int, j: int, m: int|
            #![trigger dedup(q)[i], dedup(q)[j], q[m]]
            0 <= i < j < dedup(q).len() && 0 <= m < q.len() && q[m] == dedup(q)[j] ==> seen_before(q, dedup(q)[i], m),
    decreases q.len(),
{
    if q.len() > 0 {
        let init = q.drop_last();
        lemma_dedup_first_order(init);
        lemma_dedup_unique(init);
        lemma_dedup_unique(q);
        let d = dedup(init);
        let x = q.last();
        assert forall|i: int, j: int, m: int|
            #![trigger dedup(q)[i], dedup(q)[j], q[m]]
            0 <= i < j < dedup(q).len() && 0 <= m < q.len() && q[m] == dedup(q)[j] implies seen_before(
                q,
                dedup(q)[i],
                m,
            ) by {
            if d.contains(x) {
                assert(dedup(q) == d);
                if m < q.len() - 1 {
                    assert(init[m] == q[m]);
                    assert(seen_before(init, d[i], m));
                    let l = choose|l: int| 0 <= l < m && init[l] == d[i];
                    assert(q[l] == init[l]);
                } else {
                    assert(init.contains(x));
                    let m2 = choose|m2: int| 0 <= m2 < init.len() && init[m2] == x;
                    assert(init[m2] == d[j]);
                    assert(seen_before(init, d[i], m2));
                    let l = choose|l: int| 0 <= l < m2 && init[l] == d[i];
                    assert(q[l] == init[l]);
                }
            } else {
                assert(dedup(q) == d.push(x));
                assert(dedup(q)[i] == d[i]);
                if j < d.len() {
                    assert(dedup(q)[j] == d[j]);
                    assert(d.contains(d[j]));
                    if m == q.len() - 1 {
                        assert(d[j] == x);
                    }
                    assert(init[m] == q[m]);
                    assert(seen_before(init, d[i], m));
                    let l = choose|l: int| 0 <= l < m && init[l] == d[i];
                    assert(q[l] == init[l]);
                } else {
                    assert(dedup(q)[j] == x);
                    if m < q.len() - 1 {
                        assert(init[m] == x);
                        assert(init.contains(x));
                    }
                    assert(d.contains(d[i]));
                    assert(init.contains(d[i]));
                    let l = choose|l: int| 0 <= l < init.len() && init[l] == d[i];
                    assert(q[l] == init[l]);
                }
            }
        }
    }
}

/// The classes come in the order of their first selectors: a class listed
/// before another has a selector before every selector of the other.
pub proof fn lemma_css_classes_in_first_order(css: Seq<char>)
    ensures
        forall|i: int, j: int, m: int|
            #![trigger css_classes(css)[i], css_classes(css)[j], class_occurrences(css, 0)[m]]
            0 <= i < j < css_classes(css).len() && 0 <= m < class_occurrences(css, 0).len()
                && class_occurrences(css, 0)[m] == css_classes(css)[j] ==> seen_before(
                class_occurrences(css, 0),
                css_classes(css)[i],
                m,
            ),
{
    lemma_dedup_first_order(class_occurrences(css, 0));
}

proof fn lemma_class_end_shift(a: Seq<char>, b: Seq<char>, i: int)
    requires
        0 <= i,
    ensures
        class_end(a + b, a.len() + i) == a.len() + class_end(b, i),
    decreases b.len() - i,
{
    if i < b.len() {
        assert((a + b)[a.len() + i] == b[i]);
        if is_class_char(b[i]) {
            lemma_class_end_shift(a, b, i + 1);
        }
    }
}

proof fn lemma_find_shift(a: Seq<char>, b: Seq<char>, p: Seq<char>, i: int)
    requires
        0 <= i,
    ensures
        text::find_from(b, p, i) >= 0 ==> text::find_from(a + b, p, a.len() + i) == a.len() + text::find_from(b, p, i),
        text::find_from(b, p, i) < 0 ==> text::find_from(a + b, p, a.len() + i) < 0,
    decreases b.len() + 1 - i,
{
    if i + p.len() > b.len() {
    } else {
        assert((a + b).subrange(a.len() + i, a.len() + i + p.len()) =~= b.subrange(i, i + p.len()));
        if !text::occurs_at(b, i, p) {
            lemma_find_shift(a, b, p, i + 1);
        }
    }
}

proof fn lemma_occurrences_shift(a: Seq<char>, b: Seq<char>, i: int)
    requires
        0 <= i,
    ensures
        class_occurrences(a + b, a.len() + i) == class_occurrences(b, i),
    decreases b.len() - i,
{
    let s = a + b;
    let j = a.len() + i;
    if i >= b.len() {
    } else {
        assert(s[j] == b[i]);
        if i + 1 < b.len() {
            assert(s[j + 1] == b[i + 1]);
        }
        lemma_find_shift(a, b, comment_close(), i + 2);
        if i + 1 < b.len() && b[i] == '/' && b[i + 1] == '*' && text::find_from(b, comment_close(), i + 2) >= 0 {
            text::lemma_find_from_range(b, comment_close(), i + 2);
            lemma_occurrences_shift(a, b, text::find_from(b, comment_close(), i + 2) + 2);
        } else if b[i] == '.' && i + 1 < b.len() && (text::is_ascii_alpha(b[i + 1]) || b[i + 1] == '_') {
            lemma_class_end_shift(a, b, i + 1);
            lemma_class_end(b, i + 1);
            assert(s.subrange(j + 1, class_end(s, j + 1)) =~= b.subrange(i + 1, class_end(b, i + 1)));
            lemma_occurrences_shift(a, b, class_end(b, i + 1));
        } else {
            lemma_occurrences_shift(a, b, i + 1);
        }
    }
}

proof fn lemma_find_first_at(s: Seq<char>, p: Seq<char>, i: int, j: int)
    requires
        0 <= i <= j,
        text::occurs_at(s, j, p),
        forall|k: int| i <= k < j ==> !text::occurs_at(s, k, p),
    ensures
        text::find_from(s, p, i) == j,
    decreases j - i,
{
    if i < j {
        lemma_find_first_at(s, p, i + 1, j);
    }
}

/// A comment: `/*`, its body, `*/`.
pub open spec fn closed_comment(body: Seq<char>) -> Seq<char> {
    seq!['/', '*'] + body + comment_close()
}

/// A closed comment contributes no class: a stylesheet that begins with a
/// comment (`/*`, a body in which no `*/` starts, `*/`) has exactly the
/// classes of what follows it, so a class whose selectors all stand in the
/// comment is absent.
pub proof fn lemma_comment_has_no_classes(body: Seq<char>, rest: Seq<char>)
    requires
        forall|k: int| 0 <= k < body.len() ==> !text::occurs_at(body + comment_close(), k, comment_close()),
    ensures
        css_classes(closed_comment(body) + rest) == css_classes(rest),
        forall|x: Seq<char>|
            #[trigger] css_classes(closed_comment(body) + rest).contains(x) ==> text::contains(rest, seq!['.'] + x),
{
    let c = closed_comment(body);
    let s = c + rest;
    let j = 2 + body.len() as int;
    assert forall|k: int| 2 <= k < j implies !text::occurs_at(s, k, comment_close()) by {
        if text::occurs_at(s, k, comment_close()) {
            assert(s.subrange(k, k + 2) =~= (body + comment_close()).subrange(k - 2, k));
            assert(text::occurs_at(body + comment_close(), k - 2, comment_close()));
        }
    }
    assert(s.subrange(j, j + 2) =~= comment_close());
    lemma_find_first_at(s, comment_close(), 2, j);
    assert(s[0] == '/' && s[1] == '*');
    assert(class_occurrences(s, 0) == class_occurrences(s, j + 2));
    assert(c.len() == j + 2);
    lemma_occurrences_shift(c, rest, 0);
    lemma_css_classes(rest);
}

/// The scan of class selectors that starts at `i` stands at `j` at one of
/// its steps (it skips closed comments and class names whole, other
/// characters one at a time).
pub open spec fn scan_reaches(s: Seq<char>, i: int, j: int) -> bool
    decreases s.len() - i,
{
    if i == j {
        true
    } else if i < 0 || i >= s.len() || i > j {
        false
    } else if i + 1 < s.len() && s[i] == '/' && s[i + 1] == '*' && text::find_from(s, comment_close(), i + 2) >= 0 {
        proof {
            text::lemma_find_from_range(s, comment_close(), i + 2);
        }
        scan_reaches(s, text::find_from(s, comment_close(), i + 2) + 2, j)
    } else if s[i] == '.' && i + 1 < s.len() && (text::is_ascii_alpha(s[i + 1]) || s[i + 1] == '_') {
        proof {
            lemma_class_end(s, i + 1);
        }
        scan_reaches(s, class_end(s, i + 1), j)
    } else {
        scan_reaches(s, i + 1, j)
    }
}

proof fn lemma_scan_split(s: Seq<char>, i: int, j: int)
    requires
        0 <= i,
        scan_reaches(s, i, j),
    ensures
        i <= j,
        forall|x: Seq<char>|
            #[trigger] class_occurrences(s, i).contains(x) ==> (exists|k: int|
                i <= k && k + 1 + x.len() <= j && text::occurs_at(s, k, seq!['.'] + x)) || class_occurrences(s, j).contains(x),
    decreases s.len() - i,
{
    if i == j {
    } else if i + 1 < s.len() && s[i] == '/' && s[i + 1] == '*' && text::find_from(s, comment_close(), i + 2) >= 0 {
        text::lemma_find_from_range(s, comment_close(), i + 2);
        let f = text::find_from(s, comment_close(), i + 2) + 2;
        lemma_scan_split(s, f, j);
        assert forall|x: Seq<char>| #[trigger] class_occurrences(s, i).contains(x) implies (exists|k: int|
            i <= k && k + 1 + x.len() <= j && text::occurs_at(s, k, seq!['.'] + x)) || class_occurrences(s, j).contains(x) by {
            assert(class_occurrences(s, f).contains(x));
            if !class_occurrences(s, j).contains(x) {
                let k = choose|k: int| f <= k && k + 1 + x.len() <= j && text::occurs_at(s, k, seq!['.'] + x);
            }
        }
    } else if s[i] == '.' && i + 1 < s.len() && (text::is_ascii_alpha(s[i + 1]) || s[i + 1] == '_') {
        lemma_class_end(s, i + 1);
        let e = class_end(s, i + 1);
        let name = s.subrange(i + 1, e);
        lemma_scan_split(s, e, j);
        assert(class_occurrences(s, i) == seq![name] + class_occurrences(s, e));
        assert forall|x: Seq<char>| #[trigger] class_occurrences(s, i).contains(x) implies (exists|k: int|
            i <= k && k + 1 + x.len() <= j && text::occurs_at(s, k, seq!['.'] + x)) || class_occurrences(s, j).contains(x) by {
            lemma_concat_contains(seq![name], class_occurrences(s, e), x);
            if seq![name].contains(x) {
                let k0 = choose|k0: int| 0 <= k0 < seq![name].len() && seq![name][k0] == x;
                assert(x == name);
                assert(s.subrange(i, e) =~= seq!['.'] + x);
                assert(text::occurs_at(s, i, seq!['.'] + x));
            } else {
                assert(class_occurrences(s, e).contains(x));
                if !class_occurrences(s, j).contains(x) {
                    let k = choose|k: int| e <= k && k + 1 + x.len() <= j && text::occurs_at(s, k, seq!['.'] + x);
                }
            }
        }
    } else {
        lemma_scan_split(s, i + 1, j);
        assert(class_occurrences(s, i) == class_occurrences(s, i + 1));
        assert forall|x: Seq<char>| #[trigger] class_occurrences(s, i).contains(x) implies (exists|k: int|
            i <= k && k + 1 + x.len() <= j && text::occurs_at(s, k, seq!['.'] + x)) || class_occurrences(s, j).contains(x) by {
            if !class_occurrences(s, j).contains(x) {
                let k = choose|k: int| i + 1 <= k && k + 1 + x.len() <= j && text::occurs_at(s, k, seq!['.'] + x);
            }
        }
    }
}

/// A closed comment contributes no class wherever the scan of selectors
/// reaches it: in a stylesheet `pre`, comment (`/*`, a body in which no
/// `*/` starts, `*/`), `rest`, every class found has a selector (`.` and
/// the name) in `pre` or in `rest`, so a class whose selectors all stand in
/// the comment is absent.
pub proof fn lemma_classes_outside_comment(pre: Seq<char>, body: Seq<char>, rest: Seq<char>)
    requires
        scan_reaches(pre + closed_comment(body) + rest, 0, pre.len() as int),
        forall|k: int| 0 <= k < body.len() ==> !text::occurs_at(body + comment_close(), k, comment_close()),
    ensures
        forall|x: Seq<char>|
            #[trigger] css_classes(pre + closed_comment(body) + rest).contains(x) ==> text::contains(pre, seq!['.'] + x)
                || text::contains(rest, seq!['.'] + x),
{
    let c = closed_comment(body);
    let s = pre + c + rest;
    let p = pre.len() as int;
    lemma_scan_split(s, 0, p);
    assert(s =~= pre + (c + rest));
    lemma_occurrences_shift(pre, c + rest, 0);
    lemma_comment_has_no_classes(body, rest);
    lemma_dedup_unique(class_occurrences(s, 0));
    lemma_dedup_unique(class_occurrences(c + rest, 0));
    assert forall|x: Seq<char>| #[trigger] css_classes(s).contains(x) implies text::contains(pre, seq!['.'] + x)
        || text::contains(rest, seq!['.'] + x) by {
        assert(class_occurrences(s, 0).contains(x));
        if class_occurrences(s, p).contains(x) {
            assert(class_occurrences(c + rest, 0).contains(x));
            assert(css_classes(c + rest).contains(x));
        } else {
            let k = choose|k: int| 0 <= k && k + 1 + x.len() <= p && text::occurs_at(s, k, seq!['.'] + x);
            assert(s.subrange(k, k + 1 + x.len()) =~= pre.subrange(k, k + 1 + x.len()));
            assert(text::occurs_at(pre, k, seq!['.'] + x));
        }
    }
}

/// The class names of a stylesheet, each once, in order of first appearance.
pub fn parse_css_classes(css: &str) -> (r: Vec<String>)
    ensures
        r@.len() == dedup(class_occurrences(css@, 0)).len(),
        forall|k: int| 0 <= k < r@.len() ==> (#[trigger] r@[k])@ == dedup(class_occurrences(css@, 0))[k],
{
    let s = chars_of(css);
    let close = vec!['*', '/'];
    proof {
        assert(close@ =~= comment_close());
    }
    let mut classes: Vec<String> = Vec::new();
    let ghost mut occ: Seq<Seq<char>> = Seq::empty();
    let mut i: usize = 0;
    while i < s.len()
        invariant
            i <= s.len(),
            s@ == css@,
            close@ == comment_close(),
            occ + class_occurrences(s@, i as int) == class_occurrences(s@, 0),
            classes@.len() == dedup(occ).len(),
            forall|k: int| 0 <= k < classes@.len() ==> (#[trigger] classes@[k])@ == dedup(occ)[k],
        decreases s.len() - i,
    {
        if i + 1 < s.len() && s[i] == '/' && s[i + 1] == '*' {
            match find_from_exec(&s, &close, i + 2) {
                Some(e) => {
                    proof {
                        text::lemma_find_from_range(s@, comment_close(), i + 2);
                    }
                    i = e + 2;
                    continue;
                },
                None => {},
            }
        }
        if s[i] == '.' && i + 1 < s.len() && (is_ascii_alpha_exec(s[i + 1]) || s[i + 1] == '_') {
            let mut e = i + 1;
            while e < s.len() && (is_ascii_alnum_exec(s[e]) || s[e] == '_' || s[e] == '-')
                invariant
                    i + 1 <= e <= s.len(),
                    class_end(s@, i + 1) == class_end(s@, e as int),
                decreases s.len() - e,
            {
                e += 1;
            }
            let class = slice_of(&s, i + 1, e);
            let cs = string_of(&class);
            let mut found = false;
            let mut k: usize = 0;
            while k < classes.len()
                invariant
                    k <= classes@.len(),
                    !found ==> forall|j: int| 0 <= j < k ==> classes@[j]@ != cs@,
                    found ==> exists|j: int| 0 <= j < classes@.len() && classes@[j]@ == cs@,
                decreases classes.len() - k,
            {
                if classes[k] == cs {
                    found = true;
                }
                k += 1;
            }
            proof {
                let d = dedup(occ);
                assert(d.contains(cs@) == found) by {
                    if found {
                        let j = choose|j: int| 0 <= j < classes@.len() && classes@[j]@ == cs@;
                        assert(d[j] == cs@);
                    }
                    if d.contains(cs@) {
                        let j = choose|j: int| 0 <= j < d.len() && d[j] == cs@;
                        assert(classes@[j]@ == cs@);
                    }
                }
                assert(occ.push(cs@).drop_last() =~= occ);
                assert(occ + class_occurrences(s@, i as int) =~= occ.push(cs@) + class_occurrences(
                    s@,
                    e as int,
                ));
                occ = occ.push(cs@);
            }
            if !found {
                classes.push(cs);
            }
            i = e;
            continue;
        }
        i += 1;
    }
    proof {
        assert(occ + Seq::<Seq<char>>::empty() =~= occ);
    }
    classes
}

/// `s[i..]` with every non-overlapping occurrence of `p` (scanned left to
/// right) replaced by `r` (`str::replace`, for a non-empty `p`).
pub open spec fn replace_all_from(s: Seq<char>, p: Seq<char>, r: Seq<char>, i: int) -> Seq<char>
    decreases s.len() - i,
{
    if i < 0 || i >= s.len() {
        Seq::empty()
    } else if p.len() > 0 && text::occurs_at(s, i, p) {
        r + replace_all_from(s, p, r, i + p.len())
    } else {
        seq![s[i]] + replace_all_from(s, p, r, i + 1)
    }
}

pub open spec fn replace_all(s: Seq<char>, p: Seq<char>, r: Seq<char>) -> Seq<char> {
    replace_all_from(s, p, r, 0)
}

/// Replaces every occurrence of the non-empty `p` in `s` by `r`.
pub fn replace_all_exec(s: &Vec<char>, p: &Vec<char>, r: &Vec<char>) -> (out: Vec<char>)
    requires
        p.len() > 0,
    ensures
        out@ == replace_all(s@, p@, r@),
{
    let mut out: Vec<char> = Vec::new();
    let mut i: usize = 0;
    while i < s.len()
        invariant
            i <= s.len(),
            p@.len() > 0,
            out@ + replace_all_from(s@, p@, r@, i as int) == replace_all(s@, p@, r@),
        decreases s.len() - i,
    {
        if occurs_at_exec(s, i, p) {
            let ghost before = out@;
            let mut k: usize = 0;
            while k < r.len()
                invariant
                    k <= r.len(),
                    out@ == before + r@.take(k as int),
                decreases r.len() - k,
            {
                out.push(r[k]);
                k += 1;
                proof {
                    assert(r@.take(k as int) =~= r@.take(k - 1).push(r@[k - 1]));
                }
            }
            proof {
                assert(r@.take(k as int) =~= r@);
                assert(before + (r@ + replace_all_from(s@, p@, r@, i + p@.len())) =~= out@
                    + replace_all_from(s@, p@, r@, i + p@.len()));
            }
            i = i + p.len();
        } else {
            let ghost before = out@;
            out.push(s[i]);
            proof {
                assert(before + (seq![s@[i as int]] + replace_all_from(s@, p@, r@, i + 1)) =~= out@
                    + replace_all_from(s@, p@, r@, i + 1));
            }
            i += 1;
        }
    }
    proof {
        assert(out@ + Seq::<char>::empty() =~= out@);
    }
    out
}

/// A class name mapping: (class, scoped class) pairs.
pub type ClassMap = Vec<(String, String)>;

pub open spec fn map_view(m: Seq<(String, String)>) -> Seq<(Seq<char>, Seq<char>)> {
    m.map_values(|e: (String, String)| (e.0@, e.1@))
}

/// Inserts `x` before the first entry with a shorter key: one step of a
/// stable sort by descending key length.
pub open spec fn insert_by_len(r: Seq<(Seq<char>, Seq<char>)>, x: (Seq<char>, Seq<char>)) -> Seq<
    (Seq<char>, Seq<char>),
>
    decreases r.len(),
{
    if r.len() == 0 {
        seq![x]
    } else if blen(r[0].0) >= blen(x.0) {
        seq![r[0]] + insert_by_len(r.drop_first(), x)
    } else {
        seq![x] + r
    }
}

/// The length of a string in UTF-8 bytes (`str::len`).
pub open spec fn blen(s: Seq<char>) -> nat {
    vstd::utf8::encode_utf8(s).len()
}

/// Stable sort by descending key length (in bytes).
pub open spec fn sort_by_len(r: Seq<(Seq<char>, Seq<char>)>) -> Seq<(Seq<char>, Seq<char>)>
    decreases r.len(),
{
    if r.len() == 0 {
        r
    } else {
        insert_by_len(sort_by_len(r.drop_last()), r.last())
    }
}

/// The stylesheet with `.class` rewritten to `.scoped` for every entry,
/// longest classes first.
pub open spec fn scope_with(css: Seq<char>, entries: Seq<(Seq<char>, Seq<char>)>) -> Seq<char>
    decreases entries.len(),
{
    if entries.len() == 0 {
        css
    } else {
        scope_with(
            replace_all(css, seq!['.'] + entries[0].0, seq!['.'] + entries[0].1),
            entries.drop_first(),
        )
    }
}

proof fn lemma_insert_by_len(r: Seq<(Seq<char>, Seq<char>)>, x: (Seq<char>, Seq<char>), k: int)
    requires
        0 <= k <= r.len(),
        forall|j: int| 0 <= j < k ==> blen(r[j].0) >= blen(x.0),
        k == r.len() || blen(r[k].0) < blen(x.0),
    ensures
        insert_by_len(r, x) == r.take(k) + seq![x] + r.skip(k),
    decreases r.len(),
{
    if r.len() == 0 {
        assert(r.take(k) + seq![x] + r.skip(k) =~= seq![x]);
    } else if blen(r[0].0) >= blen(x.0) {
        lemma_insert_by_len(r.drop_first(), x, k - 1);
        assert(seq![r[0]] + (r.drop_first().take(k - 1) + seq![x] + r.drop_first().skip(k - 1))
            =~= r.take(k) + seq![x] + r.skip(k));
    } else {
        assert(r.take(0) + seq![x] + r.skip(0) =~= seq![x] + r);
    }
}

/// Rewrites the stylesheet with the scoped class names.
pub fn scope_css(css: &str, class_map: &ClassMap) -> (r: String)
    ensures
        r@ == scope_with(css@, sort_by_len(map_view(class_map@))),
{
    let mut sorted: Vec<(Vec<char>, Vec<char>, usize)> = Vec::new();
    let mut i: usize = 0;
    let ghost mv = map_view(class_map@);
    while i < class_map.len()
        invariant
            i <= class_map@.len(),
            mv == map_view(class_map@),
            sorted@.map_values(|e: (Vec<char>, Vec<char>, usize)| (e.0@, e.1@)) == sort_by_len(mv.take(i as int)),
            forall|j: int| 0 <= j < sorted@.len() ==> sorted@[j].2 == blen(#[trigger] sorted@[j].0@),
        decreases class_map.len() - i,
    {
        let key = chars_of(class_map[i].0.as_str());
        let val = chars_of(class_map[i].1.as_str());
        let kb = class_map[i].0.as_str().as_bytes().len();
        let mut k: usize = 0;
        while k < sorted.len() && sorted[k].2 >= kb
            invariant
                k <= sorted@.len(),
                forall|j: int| 0 <= j < sorted@.len() ==> sorted@[j].2 == blen(#[trigger] sorted@[j].0@),
                kb == blen(key@),
                forall|j: int| 0 <= j < k ==> blen(sorted@[j].0@) >= blen(key@),
            decreases sorted.len() - k,
        {
            k += 1;
        }
        let ghost sv = sorted@.map_values(|e: (Vec<char>, Vec<char>, usize)| (e.0@, e.1@));
        proof {
            lemma_insert_by_len(sv, (key@, val@), k as int);
            assert(mv.take(i + 1).drop_last() =~= mv.take(i as int));
            assert(mv.take(i + 1).last() == (key@, val@));
        }
        let ghost old_sorted = sorted@;
        sorted.insert(k, (key, val, kb));
        proof {
            assert(sorted@.map_values(|e: (Vec<char>, Vec<char>, usize)| (e.0@, e.1@)) =~= sv.take(k as int)
                + seq![(key@, val@)] + sv.skip(k as int));
            assert forall|j: int| 0 <= j < sorted@.len() implies sorted@[j].2 == blen(#[trigger] sorted@[j].0@) by {
                if j < k {
                    assert(sorted@[j] == old_sorted[j]);
                } else if j > k {
                    assert(sorted@[j] == old_sorted[j - 1]);
                }
            }
        }
        i += 1;
    }
    proof {
        assert(mv.take(i as int) =~= mv);
    }
    let ghost entries = sorted@.map_values(|e: (Vec<char>, Vec<char>, usize)| (e.0@, e.1@));
    let mut result = chars_of(css);
    let mut j: usize = 0;
    proof {
        assert(entries.skip(0) =~= entries);
    }
    while j < sorted.len()
        invariant
            j <= sorted@.len(),
            entries == sorted@.map_values(|e: (Vec<char>, Vec<char>, usize)| (e.0@, e.1@)),
            scope_with(css@, entries) == scope_with(result@, entries.skip(j as int)),
        decreases sorted.len() - j,
    {
        let mut from = vec!['.'];
        let mut to = vec!['.'];
        let mut a: usize = 0;
        let kv = &sorted[j].0;
        let vv = &sorted[j].1;
        while a < kv.len()
            invariant
                a <= kv@.len(),
                from@ == seq!['.'] + kv@.take(a as int),
            decreases kv.len() - a,
        {
            from.push(kv[a]);
            a += 1;
            proof {
                assert(seq!['.'] + kv@.take(a as int) =~= (seq!['.'] + kv@.take(a - 1)).push(kv@[a - 1]));
            }
        }
        let mut b: usize = 0;
        while b < vv.len()
            invariant
                b <= vv@.len(),
                to@ == seq!['.'] + vv@.take(b as int),
            decreases vv.len() - b,
        {
            to.push(vv[b]);
            b += 1;
            proof {
                assert(seq!['.'] + vv@.take(b as int) =~= (seq!['.'] + vv@.take(b - 1)).push(vv@[b - 1]));
            }
        }
        proof {
            assert(kv@.take(a as int) =~= kv@);
            assert(vv@.take(b as int) =~= vv@);
            assert(entries.skip(j as int)[0] == (kv@, vv@));
            assert(entries.skip(j as int).drop_first() =~= entries.skip(j + 1));
        }
        result = replace_all_exec(&result, &from, &to);
        j += 1;
    }
    proof {
        assert(entries.skip(j as int) =~= Seq::<(Seq<char>, Seq<char>)>::empty());
    }
    string_of(&result)
}

/// The stem of a CSS module file name: the file stem (or `module`) with
/// trailing `.module` suffixes removed.
pub open spec fn css_module_stem_spec(path: Seq<char>) -> Seq<char> {
    let stem = match paths::file_stem_spec(path) {
        Some(s) => s,
        None => "module"@,
    };
    strip_module_suffixes(stem)
}

pub open spec fn module_suffix() -> Seq<char> {
    seq!['.', 'm', 'o', 'd', 'u', 'l', 'e']
}

/// `s` with `.module` removed from its end as long as it ends with it.
pub open spec fn strip_module_suffixes(s: Seq<char>) -> Seq<char>
    decreases s.len(),
{
    if text::ends_with(s, module_suffix()) {
        strip_module_suffixes(s.subrange(0, s.len() - 7))
    } else {
        s
    }
}

/// The stem of a CSS module file (`Button.module.css` gives `Button`).
pub fn css_module_stem(file_path: &str) -> (r: String)
    ensures
        r@ == css_module_stem_spec(file_path@),
{
    let stem = match paths::file_stem(file_path) {
        Some(s) => s,
        None => String::from_str("module"),
    };
    let v = chars_of(stem.as_str());
    let suf = vec!['.', 'm', 'o', 'd', 'u', 'l', 'e'];
    proof {
        assert(suf@ =~= module_suffix());
    }
    let mut e = v.len();
    proof {
        assert(v@.subrange(0, v@.len() as int) =~= v@);
    }
    while e >= 7 && occurs_at_exec(&v, e - 7, &suf)
        invariant
            e <= v.len(),
            suf@ == module_suffix(),
            strip_module_suffixes(v@) == strip_module_suffixes(v@.subrange(0, e as int)),
        decreases e,
    {
        proof {
            let t = v@.subrange(0, e as int);
            assert(text::ends_with(t, module_suffix())) by {
                assert(t.subrange(e - 7, e as int) =~= v@.subrange(e - 7, e as int));
            }
            assert(t.subrange(0, t.len() - 7) =~= v@.subrange(0, e - 7));
        }
        e -= 7;
    }
    proof {
        let t = v@.subrange(0, e as int);
        if text::ends_with(t, module_suffix()) {
            assert(t.subrange(e - 7, e as int) =~= v@.subrange(e - 7, e as int));
        }
        assert(v@.subrange(0, v@.len() as int) =~= v@);
    }
    string_of(&slice_of(&v, 0, e))
}

/// The scoping hash of a CSS module file: short hash of its path.
pub fn css_module_hash(file_path: &str) -> (r: String)
    ensures
        r@ == ids::short_hash_spec(vstd::utf8::encode_utf8(file_path@)),
{
    ids::short_hash_str(file_path)
}


/// Inserts `x` before the first entry whose key sorts after its key: one
/// step of a stable sort by key.
pub open spec fn insert_by_key(r: Seq<(Seq<char>, Seq<char>)>, x: (Seq<char>, Seq<char>)) -> Seq<
    (Seq<char>, Seq<char>),
>
    decreases r.len(),
{
    if r.len() == 0 {
        seq![x]
    } else if !text::lex_lt(x.0, r[0].0) {
        seq![r[0]] + insert_by_key(r.drop_first(), x)
    } else {
        seq![x] + r
    }
}

/// Stable sort by key.
pub open spec fn sort_by_key(r: Seq<(Seq<char>, Seq<char>)>) -> Seq<(Seq<char>, Seq<char>)>
    decreases r.len(),
{
    if r.len() == 0 {
        r
    } else {
        insert_by_key(sort_by_key(r.drop_last()), r.last())
    }
}

/// One line of the proxy object: `  "class": "scoped"`.
pub open spec fn proxy_pair(e: (Seq<char>, Seq<char>)) -> Seq<char> {
    "  \""@ + e.0 + "\": \""@ + e.1 + "\""@
}

/// The JS proxy module of a CSS module: an object literal mapping each class
/// to its scoped name, keys in order, exported as default.
pub open spec fn css_module_proxy_spec(entries: Seq<(Seq<char>, Seq<char>)>) -> Seq<char> {
    "var __css_module = {\n"@ + text::join(sort_by_key(entries).map_values(|e: (Seq<char>, Seq<char>)| proxy_pair(e)), ",\n"@)
        + "\n};\nexport default __css_module;\n"@
}

proof fn lemma_insert_by_key(r: Seq<(Seq<char>, Seq<char>)>, x: (Seq<char>, Seq<char>), k: int)
    requires
        0 <= k <= r.len(),
        forall|j: int| 0 <= j < k ==> !text::lex_lt(x.0, r[j].0),
        k == r.len() || text::lex_lt(x.0, r[k].0),
    ensures
        insert_by_key(r, x) == r.take(k) + seq![x] + r.skip(k),
    decreases r.len(),
{
    if r.len() == 0 {
        assert(r.take(k) + seq![x] + r.skip(k) =~= seq![x]);
    } else if !text::lex_lt(x.0, r[0].0) {
        lemma_insert_by_key(r.drop_first(), x, k - 1);
        assert(seq![r[0]] + (r.drop_first().take(k - 1) + seq![x] + r.drop_first().skip(k - 1))
            =~= r.take(k) + seq![x] + r.skip(k));
    } else {
        assert(r.take(0) + seq![x] + r.skip(0) =~= seq![x] + r);
    }
}

/// Generates the JS proxy module exporting the class name mapping.
pub fn generate_css_module_proxy(class_map: &ClassMap) -> (r: String)
    ensures
        r@ == css_module_proxy_spec(map_view(class_map@)),
{
    let ghost mv = map_view(class_map@);
    let mut sorted: Vec<(String, String)> = Vec::new();
    let mut i: usize = 0;
    while i < class_map.len()
        invariant
            i <= class_map@.len(),
            mv == map_view(class_map@),
            map_view(sorted@) == sort_by_key(mv.take(i as int)),
        decreases class_map.len() - i,
    {
        let key = chars_of(class_map[i].0.as_str());
        let mut k: usize = 0;
        while k < sorted.len() && !text::lex_lt_exec(&key, &chars_of(sorted[k].0.as_str()))
            invariant
                k <= sorted@.len(),
                key@ == class_map@[i as int].0@,
                forall|j: int| 0 <= j < k ==> !text::lex_lt(key@, sorted@[j].0@),
            decreases sorted.len() - k,
        {
            k += 1;
        }
        let ghost sv = map_view(sorted@);
        proof {
            lemma_insert_by_key(sv, mv[i as int], k as int);
            assert(mv.take(i + 1).drop_last() =~= mv.take(i as int));
            assert(mv.take(i + 1).last() == mv[i as int]);
        }
        let entry = (class_map[i].0.clone(), class_map[i].1.clone());
        sorted.insert(k, entry);
        proof {
            assert(map_view(sorted@) =~= sv.take(k as int) + seq![mv[i as int]] + sv.skip(k as int));
        }
        i += 1;
    }
    proof {
        assert(mv.take(i as int) =~= mv);
    }
    let mut pairs: Vec<String> = Vec::new();
    let mut j: usize = 0;
    while j < sorted.len()
        invariant
            j <= sorted@.len(),
            pairs@.len() == j,
            forall|q: int| 0 <= q < j ==> (#[trigger] pairs@[q])@ == proxy_pair(map_view(sorted@)[q]),
        decreases sorted.len() - j,
    {
        let mut p = String::from_str("  \"");
        p.append(sorted[j].0.as_str());
        p.append("\": \"");
        p.append(sorted[j].1.as_str());
        p.append("\"");
        pairs.push(p);
        j += 1;
    }
    let joined = text::join_strings(&pairs, ",\n");
    proof {
        assert(pairs@.map_values(|s: String| s@) =~= sort_by_key(mv).map_values(
            |e: (Seq<char>, Seq<char>)| proxy_pair(e),
        ));
    }
    let mut r = String::from_str("var __css_module = {\n");
    r.append(joined.as_str());
    r.append("\n};\nexport default __css_module;\n");
    r
}


/// The scoped name of a class of a CSS module: `{stem}_{class}_{hash}`.
pub open spec fn scoped_class(stem: Seq<char>, class: Seq<char>, hash: Seq<char>) -> Seq<char> {
    stem + "_"@ + class + "_"@ + hash
}

/// The class map of a CSS module: each class with its scoped name.
pub open spec fn class_map_spec(classes: Seq<Seq<char>>, stem: Seq<char>, hash: Seq<char>) -> Seq<(Seq<char>, Seq<char>)> {
    classes.map_values(|c: Seq<char>| (c, scoped_class(stem, c, hash)))
}

/// Maps each class to `{stem}_{class}_{hash}`.
pub fn build_class_map(classes: &[String], stem: &str, file_hash: &str) -> (r: ClassMap)
    ensures
        map_view(r@) == class_map_spec(text::views(classes@), stem@, file_hash@),
{
    let mut r: ClassMap = Vec::new();
    let mut i: usize = 0;
    while i < classes.len()
        invariant
            i <= classes@.len(),
            r@.len() == i,
            map_view(r@) == class_map_spec(text::views(classes@), stem@, file_hash@).take(i as int),
        decreases classes.len() - i,
    {
        let mut scoped = String::from_str(stem);
        scoped.append("_");
        scoped.append(classes[i].as_str());
        scoped.append("_");
        scoped.append(file_hash);
        let ghost r0 = r@;
        r.push((String::from_str(classes[i].as_str()), scoped));
        proof {
            assert(map_view(r@) =~= map_view(r0).push((classes@[i as int]@, scoped_class(stem@, classes@[i as int]@, file_hash@))));
            assert(class_map_spec(text::views(classes@), stem@, file_hash@).take(i + 1) =~= class_map_spec(
                text::views(classes@),
                stem@,
                file_hash@,
            ).take(i as int).push((classes@[i as int]@, scoped_class(stem@, classes@[i as int]@, file_hash@))));
        }
        i += 1;
    }
    proof {
        assert(class_map_spec(text::views(classes@), stem@, file_hash@).take(i as int) =~= class_map_spec(
            text::views(classes@),
            stem@,
            file_hash@,
        ));
    }
    r
}

/// The file the scoped stylesheet of a CSS module is written to:
/// `{stem}.module-{hash_prefix}.css`.
pub open spec fn scoped_css_file_name_spec(stem: Seq<char>, hash_prefix: Seq<char>) -> Seq<char> {
    stem + ".module-"@ + hash_prefix + ".css"@
}

/// A CSS module file scoped: its output file name, its class map and its
/// scoped stylesheet.
pub struct ScopedCssModule {
    pub css_filename: String,
    pub class_map: ClassMap,
    pub scoped_css: String,
}

/// The classes of a stylesheet, as `parse_css_classes` finds them.
pub open spec fn css_classes(css: Seq<char>) -> Seq<Seq<char>> {
    dedup(class_occurrences(css, 0))
}

/// Scopes one CSS module file read from `css_abs_path`: every class gets
/// the scoped name `{stem}_{class}_{hash}`, where the hash is the short
/// hash of the file's path, the stylesheet is rewritten with them, and the
/// output file is named after the stem and the build's hash prefix.
pub fn scope_css_module(css_abs_path: &str, css_content: &str, hash_prefix: &str) -> (r: ScopedCssModule)
    ensures
        map_view(r.class_map@) == class_map_spec(
            css_classes(css_content@),
            css_module_stem_spec(css_abs_path@),
            ids::short_hash_spec(vstd::utf8::encode_utf8(css_abs_path@)),
        ),
        r.scoped_css@ == scope_with(css_content@, sort_by_len(map_view(r.class_map@))),
        r.css_filename@ == scoped_css_file_name_spec(css_module_stem_spec(css_abs_path@), hash_prefix@),
        forall|i: int, j: int| 0 <= i < j < r.class_map@.len() ==> r.class_map@[i].0@ != r.class_map@[j].0@,
{
    let classes = parse_css_classes(css_content);
    proof {
        assert(text::views(classes@) =~= css_classes(css_content@));
    }
    let file_hash = css_module_hash(css_abs_path);
    let stem = css_module_stem(css_abs_path);
    let class_map = build_class_map(classes.as_slice(), stem.as_str(), file_hash.as_str());
    let scoped_css = scope_css(css_content, &class_map);
    let mut css_filename = String::from_str(stem.as_str());
    css_filename.append(".module-");
    css_filename.append(hash_prefix);
    css_filename.append(".css");
    proof {
        lemma_dedup_unique(class_occurrences(css_content@, 0));
        assert forall|i: int, j: int| 0 <= i < j < class_map@.len() implies class_map@[i].0@ != class_map@[j].0@ by {
            assert(map_view(class_map@)[i].0 == class_map@[i].0@);
            assert(map_view(class_map@)[j].0 == class_map@[j].0@);
        }
    }
    ScopedCssModule { css_filename, class_map, scoped_css }
}

/// The name of the proxy module of a CSS module file: its file name with
/// `.js` appended.
pub open spec fn proxy_module_name_spec(css_abs_path: Seq<char>) -> Seq<char> {
    let n = match paths::file_name_spec(css_abs_path) {
        Some(n) => n,
        None => Seq::empty(),
    };
    n + ".js"@
}

/// The name of the proxy module of a CSS module file.
pub fn proxy_module_name(css_abs_path: &str) -> (r: String)
    ensures
        r@ == proxy_module_name_spec(css_abs_path@),
{
    let mut r = match paths::file_name(css_abs_path) {
        Some(n) => n,
        None => String::new(),
    };
    r.append(".js");
    r
}

/// The name a page rewritten for CSS modules is written under: the hash of
/// its path, `_`, and its file name, so that pages of different
/// directories do not collide.
pub open spec fn rewritten_page_name_spec(page_path: Seq<char>) -> Seq<char> {
    let n = match paths::file_name_spec(page_path) {
        Some(n) => n,
        None => Seq::empty(),
    };
    ids::short_hash_spec(vstd::utf8::encode_utf8(page_path)) + "_"@ + n
}

/// The name a page rewritten for CSS modules is written under.
pub fn rewritten_page_name(page_path: &str) -> (r: String)
    ensures
        r@ == rewritten_page_name_spec(page_path@),
{
    let mut r = css_module_hash(page_path);
    r.append("_");
    match paths::file_name(page_path) {
        Some(n) => r.append(n.as_str()),
        None => {},
    }
    proof {
        let n = match paths::file_name_spec(page_path@) {
            Some(n) => n,
            None => Seq::<char>::empty(),
        };
        assert(r@ =~= ids::short_hash_spec(vstd::utf8::encode_utf8(page_path@)) + "_"@ + n);
    }
    r
}

/// `str::replace` with an empty pattern: `r` before every character of `s`
/// and at its end.
pub open spec fn replace_empty(s: Seq<char>, r: Seq<char>) -> Seq<char>
    decreases s.len(),
{
    if s.len() == 0 {
        r
    } else {
        replace_empty(s.drop_last(), r) + seq![s.last()] + r
    }
}

/// The page source with a CSS module import specifier replaced by the
/// absolute path of its proxy module (every occurrence, as `str::replace`;
/// an empty specifier matches before every character and at the end).
pub fn rewrite_css_module_import(source: &str, specifier: &str, proxy_abs: &str) -> (r: String)
    ensures
        specifier@.len() > 0 ==> r@ == replace_all(source@, specifier@, proxy_abs@),
        specifier@.len() == 0 ==> r@ == replace_empty(source@, proxy_abs@),
{
    let s = chars_of(source);
    let p = chars_of(specifier);
    let q = chars_of(proxy_abs);
    if p.len() > 0 {
        return string_of(&replace_all_exec(&s, &p, &q));
    }
    let mut out = String::from_str(proxy_abs);
    let mut i: usize = 0;
    while i < s.len()
        invariant
            i <= s@.len(),
            q@ == proxy_abs@,
            out@ == replace_empty(s@.take(i as int), proxy_abs@),
        decreases s.len() - i,
    {
        proof {
            assert(s@.take(i + 1).drop_last() =~= s@.take(i as int));
            assert(s@.take(i + 1).last() == s@[i as int]);
        }
        text::push_char(&mut out, s[i]);
        out.append(proxy_abs);
        i += 1;
    }
    proof {
        assert(s@.take(i as int) =~= s@);
    }
    out
}

} // verus!
