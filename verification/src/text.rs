//! Character-sequence helpers shared by the scanners.
//!
//! Sources are handled as sequences of `char`: a `&str` is turned into a
//! `Vec<char>` once, scanned by index, and results are turned back into a
//! `String`.
use vstd::prelude::*;

verus! {

/// Whitespace as the hand-written scanners understand it: space, tab,
/// newline, carriage return.
pub open spec fn is_ws(c: char) -> bool {
    c == ' ' || c == '\t' || c == '\n' || c == '\r'
}

/// Unicode `White_Space`, the set `char::is_whitespace` and `str::trim` use.
pub open spec fn is_unicode_ws(c: char) -> bool {
    let u = c as u32;
    ||| 0x9 <= u <= 0xD
    ||| u == 0x20
    ||| u == 0x85
    ||| u == 0xA0
    ||| u == 0x1680
    ||| 0x2000 <= u <= 0x200A
    ||| u == 0x2028
    ||| u == 0x2029
    ||| u == 0x202F
    ||| u == 0x205F
    ||| u == 0x3000
}

pub open spec fn is_ascii_alpha(c: char) -> bool {
    ('a' <= c && c <= 'z') || ('A' <= c && c <= 'Z')
}

pub open spec fn is_ascii_digit(c: char) -> bool {
    '0' <= c && c <= '9'
}

pub open spec fn is_ascii_alnum(c: char) -> bool {
    is_ascii_alpha(c) || is_ascii_digit(c)
}

/// `p` occurs in `s` at index `i`.
pub open spec fn occurs_at(s: Seq<char>, i: int, p: Seq<char>) -> bool {
    0 <= i && i + p.len() <= s.len() && s.subrange(i, i + p.len()) == p
}

/// `s` begins with `p`.
pub open spec fn starts_with(s: Seq<char>, p: Seq<char>) -> bool {
    occurs_at(s, 0, p)
}

/// `s` ends with `p`.
pub open spec fn ends_with(s: Seq<char>, p: Seq<char>) -> bool {
    p.len() <= s.len() && occurs_at(s, s.len() - p.len(), p)
}

/// `p` occurs somewhere in `s`.
pub open spec fn contains(s: Seq<char>, p: Seq<char>) -> bool {
    exists|i: int| occurs_at(s, i, p)
}

/// Index of the first occurrence of `p` in `s` at or after `i`, or -1.
pub open spec fn find_from(s: Seq<char>, p: Seq<char>, i: int) -> int
    decreases s.len() + 1 - i,
{
    if i < 0 || i + p.len() > s.len() {
        -1
    } else if occurs_at(s, i, p) {
        i
    } else {
        find_from(s, p, i + 1)
    }
}

/// The number of non-overlapping occurrences of `p` in `s` at or after
/// `i`, taken left to right (`str::matches(..).count()` for a non-empty `p`).
pub open spec fn count_matches_from(s: Seq<char>, p: Seq<char>, i: int) -> nat
    decreases s.len() + 1 - i,
{
    if p.len() == 0 || i < 0 || i + p.len() > s.len() {
        0
    } else if occurs_at(s, i, p) {
        1 + count_matches_from(s, p, i + p.len())
    } else {
        count_matches_from(s, p, i + 1)
    }
}

/// Index of the first occurrence of `p` in `s`, or -1 (`str::find`).
pub open spec fn find(s: Seq<char>, p: Seq<char>) -> int {
    find_from(s, p, 0)
}

/// Index of the last occurrence of `p` in `s` starting at or before `j`, or -1.
pub open spec fn rfind_at_or_before(s: Seq<char>, p: Seq<char>, j: int) -> int
    decreases j + 1,
{
    if j < 0 {
        -1
    } else if occurs_at(s, j, p) {
        j
    } else {
        rfind_at_or_before(s, p, j - 1)
    }
}

/// Index of the last occurrence of `p` in `s` (`str::rfind`), or -1.
pub open spec fn rfind(s: Seq<char>, p: Seq<char>) -> int {
    rfind_at_or_before(s, p, s.len() - p.len())
}

/// `s` without its leading Unicode whitespace (`str::trim_start`).
pub open spec fn trim_start(s: Seq<char>) -> Seq<char>
    decreases s.len(),
{
    if s.len() > 0 && is_unicode_ws(s[0]) {
        trim_start(s.drop_first())
    } else {
        s
    }
}

/// `s` without its trailing Unicode whitespace (`str::trim_end`).
pub open spec fn trim_end(s: Seq<char>) -> Seq<char>
    decreases s.len(),
{
    if s.len() > 0 && is_unicode_ws(s.last()) {
        trim_end(s.drop_last())
    } else {
        s
    }
}

/// `s` without leading and trailing Unicode whitespace (`str::trim`).
pub open spec fn trim(s: Seq<char>) -> Seq<char> {
    trim_end(trim_start(s))
}

/// `s` with every occurrence of `from` replaced by `to`.
pub open spec fn replace_char(s: Seq<char>, from: char, to: Seq<char>) -> Seq<char>
    decreases s.len(),
{
    if s.len() == 0 {
        s
    } else {
        let head = if s[0] == from { to } else { seq![s[0]] };
        head + replace_char(s.drop_first(), from, to)
    }
}

/// The decimal digit character for `d < 10`.
pub open spec fn digit_char(d: nat) -> char {
    if d == 0 { '0' }
    else if d == 1 { '1' }
    else if d == 2 { '2' }
    else if d == 3 { '3' }
    else if d == 4 { '4' }
    else if d == 5 { '5' }
    else if d == 6 { '6' }
    else if d == 7 { '7' }
    else if d == 8 { '8' }
    else { '9' }
}

/// Decimal rendering of `n` (`format!("{n}")`).
pub open spec fn decimal(n: nat) -> Seq<char>
    decreases n,
{
    if n < 10 {
        seq![digit_char(n)]
    } else {
        decimal(n / 10).push(digit_char(n % 10))
    }
}

proof fn lemma_decimal_len(n: nat)
    ensures
        decimal(n).len() >= 1,
        n >= 10 ==> decimal(n).len() >= 2,
    decreases n,
{
    if n >= 10 {
        lemma_decimal_len(n / 10);
    }
}

/// Different numbers have different decimal renderings.
pub proof fn lemma_decimal_injective(a: nat, b: nat)
    requires
        decimal(a) == decimal(b),
    ensures
        a == b,
    decreases a,
{
    lemma_decimal_len(a);
    lemma_decimal_len(b);
    let da = decimal(a);
    if a < 10 && b < 10 {
        assert(da[0] == digit_char(a) && decimal(b)[0] == digit_char(b));
    } else if a >= 10 && b >= 10 {
        lemma_decimal_len(a / 10);
        assert(da.last() == digit_char(a % 10));
        assert(decimal(b).last() == digit_char(b % 10));
        assert(da.drop_last() =~= decimal(a / 10));
        assert(decimal(b).drop_last() =~= decimal(b / 10));
        lemma_decimal_injective(a / 10, b / 10);
        assert(a % 10 == b % 10);
    } else {
        assert(da.len() != decimal(b).len());
    }
}

/// Lowercase hex digit for `d < 16`.
pub open spec fn hex_digit(d: nat) -> char {
    if d < 10 { digit_char(d) }
    else if d == 10 { 'a' }
    else if d == 11 { 'b' }
    else if d == 12 { 'c' }
    else if d == 13 { 'd' }
    else if d == 14 { 'e' }
    else { 'f' }
}

/// Lowercase hex encoding of bytes, two digits per byte (`hex::encode`).
pub open spec fn hex_encode(b: Seq<u8>) -> Seq<char>
    decreases b.len(),
{
    if b.len() == 0 {
        Seq::empty()
    } else {
        hex_encode(b.drop_last()) + seq![hex_digit((b.last() / 16) as nat), hex_digit((b.last() % 16) as nat)]
    }
}

pub fn is_ws_exec(c: char) -> (r: bool)
    ensures
        r == is_ws(c),
{
    c == ' ' || c == '\t' || c == '\n' || c == '\r'
}

pub fn is_unicode_ws_exec(c: char) -> (r: bool)
    ensures
        r == is_unicode_ws(c),
{
    let u = c as u32;
    (0x9 <= u && u <= 0xD) || u == 0x20 || u == 0x85 || u == 0xA0 || u == 0x1680 || (0x2000 <= u
        && u <= 0x200A) || u == 0x2028 || u == 0x2029 || u == 0x202F || u == 0x205F || u == 0x3000
}

pub fn is_ascii_alpha_exec(c: char) -> (r: bool)
    ensures
        r == is_ascii_alpha(c),
{
    ('a' <= c && c <= 'z') || ('A' <= c && c <= 'Z')
}

pub fn is_ascii_alnum_exec(c: char) -> (r: bool)
    ensures
        r == is_ascii_alnum(c),
{
    ('a' <= c && c <= 'z') || ('A' <= c && c <= 'Z') || ('0' <= c && c <= '9')
}

/// `String::push`: appends the character at the end of the string.
#[verifier::external_body]
pub(crate) fn push_char(s: &mut String, c: char)
    ensures
        final(s)@ == old(s)@.push(c),
{
    s.push(c);
}

/// The characters of a string slice, in order.
pub fn chars_of(s: &str) -> (v: Vec<char>)
    ensures
        v@ == s@,
{
    let mut v: Vec<char> = Vec::new();
    for c in it: s.chars()
        invariant
            v@ == it.seq().take(it.index() as int),
    {
        v.push(c);
    }
    proof {
        assert(v@ =~= s@);
    }
    v
}

/// Appends the characters `v` to `s`.
pub fn push_chars(s: &mut String, v: &Vec<char>)
    ensures
        final(s)@ == old(s)@ + v@,
{
    let mut i: usize = 0;
    while i < v.len()
        invariant
            i <= v.len(),
            s@ == old(s)@ + v@.take(i as int),
        decreases v.len() - i,
    {
        push_char(s, v[i]);
        i += 1;
        proof {
            assert(v@.take(i as int) =~= v@.take(i - 1 as int).push(v@[i - 1]));
        }
    }
    proof {
        assert(v@.take(i as int) =~= v@);
    }
}

/// The string made of the characters `v`.
pub fn string_of(v: &Vec<char>) -> (s: String)
    ensures
        s@ == v@,
{
    let mut s = String::new();
    push_chars(&mut s, v);
    s
}

/// The characters `s[a..b]`.
pub fn slice_of(s: &Vec<char>, a: usize, b: usize) -> (r: Vec<char>)
    requires
        a <= b <= s.len(),
    ensures
        r@ == s@.subrange(a as int, b as int),
{
    let mut r: Vec<char> = Vec::new();
    let mut i = a;
    while i < b
        invariant
            a <= i <= b <= s.len(),
            r@ == s@.subrange(a as int, i as int),
        decreases b - i,
    {
        r.push(s[i]);
        i += 1;
        proof {
            assert(r@ =~= s@.subrange(a as int, i as int));
        }
    }
    r
}

/// Whether `p` occurs in `s` at index `i`.
pub fn occurs_at_exec(s: &Vec<char>, i: usize, p: &Vec<char>) -> (r: bool)
    ensures
        r == occurs_at(s@, i as int, p@),
{
    if i > s.len() || p.len() > s.len() - i {
        return false;
    }
    let mut k: usize = 0;
    while k < p.len()
        invariant
            i + p.len() <= s.len(),
            k <= p.len(),
            forall|j: int| 0 <= j < k ==> s@[i + j] == p@[j],
        decreases p.len() - k,
    {
        if s[i + k] != p[k] {
            proof {
                assert(s@.subrange(i as int, i + p.len())[k as int] != p@[k as int]);
            }
            return false;
        }
        k += 1;
    }
    proof {
        assert(s@.subrange(i as int, i + p.len()) =~= p@);
    }
    true
}

/// The number of non-overlapping occurrences of `p` in `s`.
pub fn count_matches(s: &Vec<char>, p: &Vec<char>) -> (r: usize)
    ensures
        r == count_matches_from(s@, p@, 0),
{
    if p.len() == 0 {
        return 0;
    }
    let mut i: usize = 0;
    let mut n: usize = 0;
    while p.len() <= s.len() - i
        invariant
            p@.len() > 0,
            i <= s@.len(),
            n <= i,
            n + count_matches_from(s@, p@, i as int) == count_matches_from(s@, p@, 0),
        decreases s.len() + 1 - i,
    {
        if occurs_at_exec(s, i, p) {
            n += 1;
            i += p.len();
        } else {
            i += 1;
        }
    }
    n
}

pub proof fn lemma_find_from_range(s: Seq<char>, p: Seq<char>, i: int)
    requires
        0 <= i,
    ensures
        find_from(s, p, i) == -1 || (i <= find_from(s, p, i) && occurs_at(s, find_from(s, p, i), p)),
        find_from(s, p, i) != -1 ==> forall|j: int| i <= j < find_from(s, p, i) ==> !occurs_at(s, j, p),
        find_from(s, p, i) == -1 ==> forall|j: int| i <= j ==> !#[trigger] occurs_at(s, j, p),
    decreases s.len() + 1 - i,
{
    if i < 0 || i + p.len() > s.len() {
    } else if occurs_at(s, i, p) {
    } else {
        assert(p.len() > 0) by {
            if p.len() == 0 {
                assert(s.subrange(i, i) =~= p);
            }
        }
        lemma_find_from_range(s, p, i + 1);
    }
}

/// First occurrence of `p` in `s` at or after `i` (`find_from`).
pub fn find_from_exec(s: &Vec<char>, p: &Vec<char>, i: usize) -> (r: Option<usize>)
    ensures
        match r {
            Some(j) => j as int == find_from(s@, p@, i as int),
            None => find_from(s@, p@, i as int) == -1,
        },
{
    if p.len() > s.len() || i > s.len() - p.len() {
        return None;
    }
    let last = s.len() - p.len();
    let mut j = i;
    while j <= last
        invariant
            i <= j,
            last == s.len() - p.len(),
            find_from(s@, p@, i as int) == find_from(s@, p@, j as int),
        decreases last + 1 - j,
    {
        if occurs_at_exec(s, j, p) {
            return Some(j);
        }
        if j == last {
            assert(find_from(s@, p@, j + 1) == -1);
            return None;
        }
        j += 1;
    }
    None
}

/// Last occurrence of `p` in `s` starting at or before `j`.
pub fn rfind_at_or_before_exec(s: &Vec<char>, p: &Vec<char>, j: usize) -> (r: Option<usize>)
    ensures
        match r {
            Some(k) => k as int == rfind_at_or_before(s@, p@, j as int),
            None => rfind_at_or_before(s@, p@, j as int) == -1,
        },
{
    let mut k: usize = j;
    loop
        invariant
            k <= j,
            rfind_at_or_before(s@, p@, j as int) == rfind_at_or_before(s@, p@, k as int),
        decreases k,
    {
        if occurs_at_exec(s, k, p) {
            return Some(k);
        }
        if k == 0 {
            assert(rfind_at_or_before(s@, p@, -1) == -1);
            return None;
        }
        k -= 1;
    }
}

/// Whether `s` contains `p`, with the index-based characterisation.
pub fn contains_exec(s: &Vec<char>, p: &Vec<char>) -> (r: bool)
    ensures
        r == contains(s@, p@),
        r == (find(s@, p@) != -1),
{
    let f = find_from_exec(s, p, 0);
    proof {
        lemma_find_from_range(s@, p@, 0);
        if find(s@, p@) == -1 {
            assert forall|j: int| !occurs_at(s@, j, p@) by {
                if j < 0 {
                }
            }
        }
    }
    f.is_some()
}

/// Index of the first character of `s` that is not Unicode whitespace.
pub fn trim_start_index(s: &Vec<char>) -> (a: usize)
    ensures
        a <= s.len(),
        trim_start(s@) == s@.subrange(a as int, s.len() as int),
{
    let mut a: usize = 0;
    proof {
        assert(s@.subrange(0, s.len() as int) =~= s@);
    }
    while a < s.len() && is_unicode_ws_exec(s[a])
        invariant
            a <= s.len(),
            trim_start(s@) == trim_start(s@.subrange(a as int, s.len() as int)),
        decreases s.len() - a,
    {
        proof {
            assert(s@.subrange(a as int, s.len() as int).drop_first() =~= s@.subrange(a + 1, s.len() as int));
        }
        a += 1;
    }
    a
}

/// Index just past the last character of `s[..b]` that is not Unicode whitespace.
pub fn trim_end_index(s: &Vec<char>, b: usize) -> (e: usize)
    requires
        b <= s.len(),
    ensures
        e <= b,
        trim_end(s@.subrange(0, b as int)) == s@.subrange(0, e as int),
{
    let mut e = b;
    while e > 0 && is_unicode_ws_exec(s[e - 1])
        invariant
            e <= b <= s.len(),
            trim_end(s@.subrange(0, b as int)) == trim_end(s@.subrange(0, e as int)),
        decreases e,
    {
        proof {
            assert(s@.subrange(0, e as int).drop_last() =~= s@.subrange(0, e - 1));
        }
        e -= 1;
    }
    e
}

/// `y` in `x` is in any text that holds `x`.
pub proof fn lemma_contains_mid(a: Seq<char>, x: Seq<char>, b: Seq<char>, y: Seq<char>)
    requires
        contains(x, y),
    ensures
        contains(a + x + b, y),
{
    let k = choose|k: int| occurs_at(x, k, y);
    assert((a + x + b).subrange(a.len() + k, a.len() + k + y.len()) =~= x.subrange(k, k + y.len()));
    assert(occurs_at(a + x + b, a.len() + k, y));
}

/// A text holds itself.
pub proof fn lemma_contains_self(x: Seq<char>)
    ensures
        contains(x, x),
{
    assert(x.subrange(0, x.len() as int) =~= x);
    assert(occurs_at(x, 0, x));
}

/// What a part of a text holds, the text holds.
pub proof fn lemma_contains_trans(z: Seq<char>, x: Seq<char>, y: Seq<char>)
    requires
        contains(z, x),
        contains(x, y),
    ensures
        contains(z, y),
{
    let k = choose|k: int| occurs_at(z, k, x);
    assert(z =~= z.subrange(0, k) + x + z.subrange(k + x.len(), z.len() as int));
    lemma_contains_mid(z.subrange(0, k), x, z.subrange(k + x.len(), z.len() as int), y);
}

pub proof fn lemma_trim_start_sub(s: Seq<char>, a: int, b: int)
    requires
        0 <= a <= b <= s.len(),
        forall|k: int| a <= k < b ==> is_unicode_ws(s[k]),
    ensures
        trim_start(s.subrange(a, s.len() as int)) == trim_start(s.subrange(b, s.len() as int)),
    decreases b - a,
{
    if a < b {
        assert(s.subrange(a, s.len() as int).drop_first() =~= s.subrange(a + 1, s.len() as int));
        lemma_trim_start_sub(s, a + 1, b);
    }
}

/// `trim(s)` as a fresh vector.
pub fn trim_exec(s: &Vec<char>) -> (r: Vec<char>)
    ensures
        r@ == trim(s@),
{
    let a = trim_start_index(s);
    let t = slice_of(s, a, s.len());
    let e = trim_end_index(&t, t.len());
    proof {
        assert(t@.subrange(0, t.len() as int) =~= t@);
    }
    slice_of(&t, 0, e)
}

/// Decimal rendering of `n`.
pub fn decimal_string(n: usize) -> (s: String)
    ensures
        s@ == decimal(n as nat),
    decreases n,
{
    let d = n % 10;
    let c = if d == 0 { '0' } else if d == 1 { '1' } else if d == 2 { '2' } else if d == 3 { '3' }
        else if d == 4 { '4' } else if d == 5 { '5' } else if d == 6 { '6' } else if d == 7 { '7' }
        else if d == 8 { '8' } else { '9' };
    if n < 10 {
        let mut s = String::new();
        push_char(&mut s, c);
        proof {
            assert(s@ =~= seq![digit_char(n as nat)]);
        }
        s
    } else {
        let mut s = decimal_string(n / 10);
        push_char(&mut s, c);
        s
    }
}

/// Decimal rendering of a 128-bit `n`.
pub fn decimal_string_u128(n: u128) -> (s: String)
    ensures
        s@ == decimal(n as nat),
    decreases n,
{
    let d = n % 10;
    let c = if d == 0 { '0' } else if d == 1 { '1' } else if d == 2 { '2' } else if d == 3 { '3' }
        else if d == 4 { '4' } else if d == 5 { '5' } else if d == 6 { '6' } else if d == 7 { '7' }
        else if d == 8 { '8' } else { '9' };
    if n < 10 {
        let mut s = String::new();
        push_char(&mut s, c);
        proof {
            assert(s@ =~= seq![digit_char(n as nat)]);
        }
        s
    } else {
        let mut s = decimal_string_u128(n / 10);
        push_char(&mut s, c);
        s
    }
}

pub fn hex_digit_exec(d: u8) -> (c: char)
    requires
        d < 16,
    ensures
        c == hex_digit(d as nat),
{
    if d == 0 { '0' } else if d == 1 { '1' } else if d == 2 { '2' } else if d == 3 { '3' }
    else if d == 4 { '4' } else if d == 5 { '5' } else if d == 6 { '6' } else if d == 7 { '7' }
    else if d == 8 { '8' } else if d == 9 { '9' } else if d == 10 { 'a' } else if d == 11 { 'b' }
    else if d == 12 { 'c' } else if d == 13 { 'd' } else if d == 14 { 'e' } else { 'f' }
}

/// Lowercase hex encoding of `b`, two digits per byte.
pub fn hex_string(b: &[u8]) -> (s: String)
    ensures
        s@ == hex_encode(b@),
        s@.len() == 2 * b@.len(),
{
    let mut s = String::new();
    let mut i: usize = 0;
    while i < b.len()
        invariant
            i <= b.len(),
            s@ == hex_encode(b@.take(i as int)),
            s@.len() == 2 * i,
        decreases b.len() - i,
    {
        let x = b[i];
        push_char(&mut s, hex_digit_exec(x / 16));
        push_char(&mut s, hex_digit_exec(x % 16));
        proof {
            assert(b@.take(i + 1).drop_last() =~= b@.take(i as int));
            assert(b@.take(i + 1).last() == x);
        }
        i += 1;
    }
    proof {
        assert(b@.take(i as int) =~= b@);
    }
    s
}


/// Index of the first `\n` at or after `i`, or the length.
pub open spec fn newline_from(s: Seq<char>, i: int) -> int
    decreases s.len() - i,
{
    if 0 <= i < s.len() && s[i] != '\n' {
        newline_from(s, i + 1)
    } else {
        i
    }
}

/// A line without the `\r` of a `\r\n` ending.
pub open spec fn strip_cr(seg: Seq<char>) -> Seq<char> {
    if seg.len() > 0 && seg.last() == '\r' { seg.drop_last() } else { seg }
}

/// The lines of `s[i..]` (`str::lines`): split at `\n` (a `\r` before it is
/// dropped); a final line ending does not start an empty line.
pub open spec fn lines_from(s: Seq<char>, i: int) -> Seq<Seq<char>>
    decreases s.len() - i,
{
    if i < 0 || i >= s.len() {
        Seq::empty()
    } else {
        let j = newline_from(s, i);
        proof {
            lemma_newline_from(s, i);
        }
        if j >= s.len() {
            seq![s.subrange(i, s.len() as int)]
        } else {
            seq![strip_cr(s.subrange(i, j))] + lines_from(s, j + 1)
        }
    }
}

pub open spec fn lines(s: Seq<char>) -> Seq<Seq<char>> {
    lines_from(s, 0)
}

pub proof fn lemma_newline_from(s: Seq<char>, i: int)
    requires
        0 <= i,
    ensures
        i <= newline_from(s, i),
        i <= s.len() ==> newline_from(s, i) <= s.len(),
        newline_from(s, i) < s.len() ==> s[newline_from(s, i)] == '\n',
    decreases s.len() - i,
{
    if 0 <= i < s.len() && s[i] != '\n' {
        lemma_newline_from(s, i + 1);
    }
}

/// The lines of `s` (see `lines`).
pub fn split_lines(s: &Vec<char>) -> (r: Vec<Vec<char>>)
    ensures
        r@.len() == lines(s@).len(),
        forall|k: int| 0 <= k < r@.len() ==> (#[trigger] r@[k])@ == lines(s@)[k],
{
    let mut r: Vec<Vec<char>> = Vec::new();
    let mut i: usize = 0;
    let ghost mut done: Seq<Seq<char>> = Seq::empty();
    while i < s.len()
        invariant
            i <= s.len(),
            done + lines_from(s@, i as int) == lines(s@),
            r@.len() == done.len(),
            forall|k: int| 0 <= k < r@.len() ==> (#[trigger] r@[k])@ == done[k],
        decreases s.len() - i,
    {
        let mut j = i;
        while j < s.len() && s[j] != '\n'
            invariant
                i <= j <= s.len(),
                newline_from(s@, i as int) == newline_from(s@, j as int),
            decreases s.len() - j,
        {
            j += 1;
        }
        proof {
            lemma_newline_from(s@, i as int);
        }
        if j >= s.len() {
            let seg = slice_of(s, i, s.len());
            proof {
                done = done.push(seg@);
                assert(done =~= lines(s@));
            }
            r.push(seg);
            proof {
                assert(lines_from(s@, s.len() as int) =~= Seq::<Seq<char>>::empty());
                assert(done + lines_from(s@, s.len() as int) =~= done);
            }
            i = s.len();
        } else {
            let mut e = j;
            if e > i && s[e - 1] == '\r' {
                e -= 1;
            }
            let seg = slice_of(s, i, e);
            proof {
                assert(seg@ == strip_cr(s@.subrange(i as int, j as int))) by {
                    if j > i && s@[j - 1] == '\r' {
                        assert(s@.subrange(i as int, j as int).drop_last() =~= s@.subrange(i as int, j - 1));
                    }
                }
                assert(done + lines_from(s@, i as int) =~= done.push(seg@) + lines_from(s@, j + 1));
                done = done.push(seg@);
            }
            r.push(seg);
            i = j + 1;
        }
    }
    proof {
        assert(done + lines_from(s@, i as int) =~= done);
    }
    r
}


/// Whether two string slices hold the same characters.
pub fn str_eq(a: &str, b: &str) -> (r: bool)
    ensures
        r == (a@ == b@),
{
    let x = String::from_str(a);
    let y = String::from_str(b);
    x == y
}


/// The pieces joined with `sep` between them (`[T]::join`).
pub open spec fn join(parts: Seq<Seq<char>>, sep: Seq<char>) -> Seq<char>
    decreases parts.len(),
{
    if parts.len() == 0 {
        Seq::empty()
    } else if parts.len() == 1 {
        parts[0]
    } else {
        join(parts.drop_last(), sep) + sep + parts.last()
    }
}

/// The character sequences of a list of strings.
pub open spec fn views(v: Seq<String>) -> Seq<Seq<char>> {
    v.map_values(|s: String| s@)
}

/// Joins the strings with `sep` between them.
pub fn join_strings(parts: &[String], sep: &str) -> (r: String)
    ensures
        r@ == join(views(parts@), sep@),
{
    let ghost pv = parts@.map_values(|s: String| s@);
    let mut r = String::new();
    let mut i: usize = 0;
    while i < parts.len()
        invariant
            i <= parts@.len(),
            pv == parts@.map_values(|s: String| s@),
            r@ == join(pv.take(i as int), sep@),
        decreases parts.len() - i,
    {
        proof {
            assert(pv.take(i + 1).drop_last() =~= pv.take(i as int));
            assert(pv.take(i + 1).last() == parts@[i as int]@);
        }
        if i == 0 {
            r.append(parts[i].as_str());
            proof {
                assert(r@ =~= pv.take(1)[0]);
            }
        } else {
            r.append(sep);
            r.append(parts[i].as_str());
        }
        i += 1;
    }
    proof {
        assert(pv.take(i as int) =~= pv);
    }
    r
}

/// Strict lexicographic order of character sequences (the order of `String`).
pub open spec fn lex_lt(a: Seq<char>, b: Seq<char>) -> bool
    decreases a.len(),
{
    if a.len() == 0 {
        b.len() > 0
    } else if b.len() == 0 {
        false
    } else if a[0] != b[0] {
        a[0] < b[0]
    } else {
        lex_lt(a.drop_first(), b.drop_first())
    }
}

/// Whether `a` sorts strictly before `b`.
pub fn lex_lt_exec(a: &Vec<char>, b: &Vec<char>) -> (r: bool)
    ensures
        r == lex_lt(a@, b@),
{
    let mut i: usize = 0;
    proof {
        assert(a@.skip(0) =~= a@);
        assert(b@.skip(0) =~= b@);
    }
    while i < a.len() && i < b.len() && a[i] == b[i]
        invariant
            i <= a.len(),
            i <= b.len(),
            lex_lt(a@, b@) == lex_lt(a@.skip(i as int), b@.skip(i as int)),
        decreases a.len() - i,
    {
        proof {
            assert(a@.skip(i as int).drop_first() =~= a@.skip(i + 1));
            assert(b@.skip(i as int).drop_first() =~= b@.skip(i + 1));
        }
        i += 1;
    }
    if i == a.len() {
        i < b.len()
    } else if i == b.len() {
        false
    } else {
        a[i] < b[i]
    }
}

/// `s` with every `from` replaced by `to` (`str::replace` with a `char` pattern).
pub fn replace_char_exec(s: &str, from: char, to: &str) -> (r: String)
    ensures
        r@ == replace_char(s@, from, to@),
{
    let v = chars_of(s);
    let mut r = String::new();
    let ghost sv = v@;
    let mut k: usize = 0;
    proof {
        assert(sv.subrange(0, sv.len() as int) =~= sv);
        assert(r@ + replace_char(sv, from, to@) =~= replace_char(sv, from, to@));
    }
    while k < v.len()
        invariant
            k <= v.len(),
            sv == v@,
            r@ + replace_char(sv.subrange(k as int, sv.len() as int), from, to@) == replace_char(sv, from, to@),
        decreases v.len() - k,
    {
        let ghost t = sv.subrange(k as int, sv.len() as int);
        let ghost r0 = r@;
        proof {
            assert(t.drop_first() =~= sv.subrange(k + 1, sv.len() as int));
        }
        if v[k] == from {
            r.append(to);
        } else {
            push_char(&mut r, v[k]);
        }
        proof {
            let head = if t[0] == from { to@ } else { seq![t[0]] };
            assert(r@ =~= r0 + head);
            assert(r0 + replace_char(t, from, to@) =~= r@ + replace_char(t.drop_first(), from, to@));
        }
        k += 1;
    }
    proof {
        assert(sv.subrange(k as int, sv.len() as int) =~= Seq::<char>::empty());
        assert(r@ + Seq::<char>::empty() =~= r@);
    }
    r
}

/// Lowercase mapping of a string, as `str::to_lowercase` defines it.
pub uninterp spec fn lowercase(s: Seq<char>) -> Seq<char>;

/// The ASCII lowercase of a character: `A`–`Z` become `a`–`z`, every other
/// character is kept.
pub open spec fn ascii_lower_char(c: char) -> char {
    if 'A' <= c && c <= 'Z' {
        ((c as u32) + 32) as char
    } else {
        c
    }
}

/// Every character of `s` is ASCII.
pub open spec fn is_ascii_seq(s: Seq<char>) -> bool {
    forall|k: int| 0 <= k < s.len() ==> (#[trigger] s[k] as u32) < 128
}

/// `str::to_lowercase`: its result is the Unicode lowercase mapping of `s`,
/// named by `lowercase`. On ASCII input that mapping lowercases `A`–`Z` and
/// keeps every other character; beyond ASCII (Unicode's tables) it is not
/// stated here.
#[verifier::external_body]
pub(crate) fn to_lowercase(s: &str) -> (r: String)
    ensures
        r@ == lowercase(s@),
        is_ascii_seq(s@) ==> r@ == s@.map_values(|c: char| ascii_lower_char(c)),
{
    s.to_lowercase()
}

/// The character view of an optional string.
pub open spec fn opt_view(o: Option<String>) -> Option<Seq<char>> {
    match o {
        Some(s) => Some(s@),
        None => None,
    }
}

/// The character view of an optional string slice.
pub open spec fn opt_str_view(o: Option<&str>) -> Option<Seq<char>> {
    match o {
        Some(s) => Some(s@),
        None => None,
    }
}

/// Whether two character vectors are equal.
pub fn chars_eq(a: &Vec<char>, b: &Vec<char>) -> (r: bool)
    ensures
        r == (a@ == b@),
{
    if a.len() != b.len() {
        return false;
    }
    let r = occurs_at_exec(a, 0, b);
    proof {
        assert(a@.subrange(0, a@.len() as int) =~= a@);
        if r {
            assert(a@.subrange(0, b@.len() as int) == b@);
        }
    }
    r
}

/// Whether `p` occurs in `s`.
pub fn contains_str(s: &str, p: &str) -> (r: bool)
    ensures
        r == contains(s@, p@),
{
    let a = chars_of(s);
    let b = chars_of(p);
    contains_exec(&a, &b)
}


/// Inserts `x` before the first element whose key sorts after its key: one
/// step of a stable sort by key.
pub open spec fn insert_by_key_of<T>(r: Seq<T>, x: T, key: spec_fn(T) -> Seq<char>) -> Seq<T>
    decreases r.len(),
{
    if r.len() == 0 {
        seq![x]
    } else if !lex_lt(key(x), key(r[0])) {
        seq![r[0]] + insert_by_key_of(r.drop_first(), x, key)
    } else {
        seq![x] + r
    }
}

/// The elements stably sorted by key: elements with equal keys keep their
/// relative order.
pub open spec fn sort_by_key_of<T>(r: Seq<T>, key: spec_fn(T) -> Seq<char>) -> Seq<T>
    decreases r.len(),
{
    if r.len() == 0 {
        r
    } else {
        insert_by_key_of(sort_by_key_of(r.drop_last(), key), r.last(), key)
    }
}

/// Inserting at the first position whose key sorts after the new key is
/// one step of the stable sort.
pub proof fn lemma_insert_by_key_of<T>(r: Seq<T>, x: T, key: spec_fn(T) -> Seq<char>, k: int)
    requires
        0 <= k <= r.len(),
        forall|j: int| 0 <= j < k ==> !lex_lt(key(x), #[trigger] key(r[j])),
        k == r.len() || lex_lt(key(x), key(r[k])),
    ensures
        insert_by_key_of(r, x, key) == r.take(k) + seq![x] + r.skip(k),
    decreases r.len(),
{
    if r.len() == 0 {
        assert(r.take(k) + seq![x] + r.skip(k) =~= seq![x]);
    } else if !lex_lt(key(x), key(r[0])) {
        assert forall|j: int| 0 <= j < k - 1 implies !lex_lt(key(x), #[trigger] key(r.drop_first()[j])) by {
            assert(r.drop_first()[j] == r[j + 1]);
        }
        if k > 0 {
            if k - 1 < r.drop_first().len() {
                assert(r.drop_first()[k - 1] == r[k]);
            }
            lemma_insert_by_key_of(r.drop_first(), x, key, k - 1);
            assert(seq![r[0]] + (r.drop_first().take(k - 1) + seq![x] + r.drop_first().skip(k - 1))
                =~= r.take(k) + seq![x] + r.skip(k));
        }
    } else {
        if k > 0 {
            assert(!lex_lt(key(x), key(r[0])));
        }
        assert(r.take(0) + seq![x] + r.skip(0) =~= seq![x] + r);
    }
}


/// A copy of a list of strings.
pub fn copy_strings(v: &Vec<String>) -> (r: Vec<String>)
    ensures
        views(r@) == views(v@),
{
    let mut r: Vec<String> = Vec::new();
    let mut i: usize = 0;
    while i < v.len()
        invariant
            i <= v@.len(),
            r@.len() == i,
            forall|k: int| 0 <= k < i ==> r@[k]@ == v@[k]@,
        decreases v.len() - i,
    {
        r.push(String::from_str(v[i].as_str()));
        i += 1;
    }
    proof {
        assert(views(r@) =~= views(v@));
    }
    r
}

/// Whether `s` is one of the strings of `v`.
pub fn contains_string(v: &Vec<String>, s: &str) -> (r: bool)
    ensures
        r == views(v@).contains(s@),
{
    let mut i: usize = 0;
    while i < v.len()
        invariant
            i <= v@.len(),
            forall|k: int| 0 <= k < i ==> v@[k]@ != s@,
        decreases v.len() - i,
    {
        if str_eq(v[i].as_str(), s) {
            proof {
                assert(views(v@)[i as int] == s@);
            }
            return true;
        }
        i += 1;
    }
    proof {
        if views(v@).contains(s@) {
            let k = choose|k: int| 0 <= k < views(v@).len() && views(v@)[k] == s@;
            assert(v@[k]@ == s@);
        }
    }
    false
}


/// No sequence sorts before itself.
pub proof fn lemma_lex_irrefl(a: Seq<char>)
    ensures
        !lex_lt(a, a),
    decreases a.len(),
{
    if a.len() > 0 {
        lemma_lex_irrefl(a.drop_first());
    }
}

/// The order is transitive.
pub proof fn lemma_lex_trans(a: Seq<char>, b: Seq<char>, c: Seq<char>)
    requires
        lex_lt(a, b),
        lex_lt(b, c),
    ensures
        lex_lt(a, c),
    decreases a.len(),
{
    if a.len() > 0 && a[0] == b[0] && b[0] == c[0] {
        lemma_lex_trans(a.drop_first(), b.drop_first(), c.drop_first());
    }
}

/// Two different sequences are ordered one way or the other.
pub proof fn lemma_lex_total(a: Seq<char>, b: Seq<char>)
    requires
        a != b,
    ensures
        lex_lt(a, b) || lex_lt(b, a),
    decreases a.len(),
{
    if a.len() == 0 && b.len() == 0 {
        assert(a =~= b);
    }
    if a.len() > 0 && b.len() > 0 && a[0] == b[0] {
        if a.drop_first() == b.drop_first() {
            assert(a =~= seq![a[0]] + a.drop_first());
            assert(b =~= seq![b[0]] + b.drop_first());
        }
        lemma_lex_total(a.drop_first(), b.drop_first());
    }
}

/// The elements are in non-decreasing order of key.
pub open spec fn sorted_by_key_of<T>(r: Seq<T>, key: spec_fn(T) -> Seq<char>) -> bool {
    forall|i: int, j: int| 0 <= i < j < r.len() ==> !lex_lt(#[trigger] key(r[j]), #[trigger] key(r[i]))
}

proof fn lemma_insert_by_key_of_elems<T>(r: Seq<T>, x: T, key: spec_fn(T) -> Seq<char>)
    ensures
        insert_by_key_of(r, x, key).len() == r.len() + 1,
        forall|i: int| 0 <= i < insert_by_key_of(r, x, key).len() ==> #[trigger] insert_by_key_of(r, x, key)[i] == x
            || r.contains(insert_by_key_of(r, x, key)[i]),
    decreases r.len(),
{
    if r.len() > 0 && !lex_lt(key(x), key(r[0])) {
        lemma_insert_by_key_of_elems(r.drop_first(), x, key);
        let rest = insert_by_key_of(r.drop_first(), x, key);
        assert forall|i: int| 0 <= i < insert_by_key_of(r, x, key).len() implies #[trigger] insert_by_key_of(
            r,
            x,
            key,
        )[i] == x || r.contains(insert_by_key_of(r, x, key)[i]) by {
            if i == 0 {
                assert(r.contains(r[0]));
            } else {
                assert(insert_by_key_of(r, x, key)[i] == rest[i - 1]);
                if rest[i - 1] != x {
                    let j = choose|j: int| 0 <= j < r.drop_first().len() && r.drop_first()[j] == rest[i - 1];
                    assert(r[j + 1] == rest[i - 1]);
                }
            }
        }
    } else if r.len() > 0 {
        assert forall|i: int| 0 <= i < insert_by_key_of(r, x, key).len() implies #[trigger] insert_by_key_of(
            r,
            x,
            key,
        )[i] == x || r.contains(insert_by_key_of(r, x, key)[i]) by {
            if i > 0 {
                assert(insert_by_key_of(r, x, key)[i] == r[i - 1]);
            }
        }
    }
}

proof fn lemma_insert_by_key_of_sorted<T>(r: Seq<T>, x: T, key: spec_fn(T) -> Seq<char>)
    requires
        sorted_by_key_of(r, key),
    ensures
        sorted_by_key_of(insert_by_key_of(r, x, key), key),
    decreases r.len(),
{
    let res = insert_by_key_of(r, x, key);
    if r.len() == 0 {
    } else if !lex_lt(key(x), key(r[0])) {
        let rest = r.drop_first();
        assert(sorted_by_key_of(rest, key)) by {
            assert forall|i: int, j: int| 0 <= i < j < rest.len() implies !lex_lt(
                #[trigger] key(rest[j]),
                #[trigger] key(rest[i]),
            ) by {
                assert(rest[i] == r[i + 1] && rest[j] == r[j + 1]);
            }
        }
        lemma_insert_by_key_of_sorted(rest, x, key);
        lemma_insert_by_key_of_elems(rest, x, key);
        let ins = insert_by_key_of(rest, x, key);
        assert forall|i: int, j: int| 0 <= i < j < res.len() implies !lex_lt(
            #[trigger] key(res[j]),
            #[trigger] key(res[i]),
        ) by {
            assert(res[j] == ins[j - 1]);
            if i == 0 {
                assert(res[0] == r[0]);
                if ins[j - 1] != x {
                    assert(rest.contains(ins[j - 1]));
                    let q = choose|q: int| 0 <= q < rest.len() && rest[q] == ins[j - 1];
                    assert(r[q + 1] == ins[j - 1]);
                    assert(!lex_lt(key(r[q + 1]), key(r[0])));
                }
            } else {
                assert(res[i] == ins[i - 1]);
            }
        }
    } else {
        assert forall|i: int, j: int| 0 <= i < j < res.len() implies !lex_lt(
            #[trigger] key(res[j]),
            #[trigger] key(res[i]),
        ) by {
            assert(res[j] == r[j - 1]);
            if i == 0 {
                assert(res[0] == x);
                if lex_lt(key(r[j - 1]), key(x)) {
                    if j - 1 > 0 {
                        assert(!lex_lt(key(r[j - 1]), key(r[0])));
                    }
                    lemma_lex_trans(key(r[j - 1]), key(x), key(r[0]));
                    if j - 1 == 0 {
                        lemma_lex_irrefl(key(r[0]));
                    }
                }
            } else {
                assert(res[i] == r[i - 1]);
            }
        }
    }
}

/// A stable sort by key leaves the elements in non-decreasing key order.
pub proof fn lemma_sort_by_key_of_sorted<T>(r: Seq<T>, key: spec_fn(T) -> Seq<char>)
    ensures
        sorted_by_key_of(sort_by_key_of(r, key), key),
    decreases r.len(),
{
    if r.len() > 0 {
        lemma_sort_by_key_of_sorted(r.drop_last(), key);
        lemma_insert_by_key_of_sorted(sort_by_key_of(r.drop_last(), key), r.last(), key);
    }
}


/// The strings of `xs` that are neither in `v` nor earlier in `xs`, in
/// order: what a walk that has visited `v` queues from `xs`.
pub open spec fn fresh(v: Set<Seq<char>>, xs: Seq<Seq<char>>) -> Seq<Seq<char>>
    decreases xs.len(),
{
    if xs.len() == 0 {
        Seq::empty()
    } else {
        let init = fresh(v, xs.drop_last());
        if v.contains(xs.last()) || xs.drop_last().contains(xs.last()) {
            init
        } else {
            init.push(xs.last())
        }
    }
}

/// One step of `fresh`: `x` after `xs` is queued iff it is neither in `v`
/// nor in `xs`.
pub proof fn lemma_fresh_push(v: Set<Seq<char>>, xs: Seq<Seq<char>>, x: Seq<char>)
    ensures
        fresh(v, xs.push(x)) == if (v + xs.to_set()).contains(x) {
            fresh(v, xs)
        } else {
            fresh(v, xs).push(x)
        },
{
    assert(xs.push(x).drop_last() =~= xs);
    assert(xs.push(x).last() == x);
}

} // verus!
