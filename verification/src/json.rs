//! JSON string literals, as `serde_json` writes them, and the compact
//! object text built from them.
use vstd::prelude::*;
use crate::text;

verus! {

/// How `serde_json` writes one character inside a string literal: `"` and
/// `\` are escaped with a backslash, the control characters below U+0020
/// get their short escape (`\b`, `\t`, `\n`, `\f`, `\r`) or `\u00XX` with
/// lowercase hex digits, and every other character stands as it is.
pub open spec fn escaped_char(c: char) -> Seq<char> {
    if c == '"' {
        seq!['\\', '"']
    } else if c == '\\' {
        seq!['\\', '\\']
    } else if c == '\u{8}' {
        seq!['\\', 'b']
    } else if c == '\t' {
        seq!['\\', 't']
    } else if c == '\n' {
        seq!['\\', 'n']
    } else if c == '\u{c}' {
        seq!['\\', 'f']
    } else if c == '\r' {
        seq!['\\', 'r']
    } else if (c as nat) < 0x20 {
        seq!['\\', 'u', '0', '0', text::hex_digit((c as nat) / 16), text::hex_digit((c as nat) % 16)]
    } else {
        seq![c]
    }
}

/// The characters of `s`, each escaped.
pub open spec fn escaped(s: Seq<char>) -> Seq<char>
    decreases s.len(),
{
    if s.len() == 0 {
        Seq::empty()
    } else {
        escaped(s.drop_last()) + escaped_char(s.last())
    }
}

/// `s` as a JSON string literal: quoted and escaped.
pub open spec fn quoted(s: Seq<char>) -> Seq<char> {
    seq!['"'] + escaped(s) + seq!['"']
}

/// `serde_json::to_string` on a `&str`: the string as a JSON literal, in
/// quotes, with the escapes of `escaped_char` (serde_json's `ESCAPE` table
/// and `write_char_escape`). Writing into a `Vec` never fails, so the error
/// arm is never taken.
#[verifier::external_body]
pub(crate) fn string_literal(s: &str) -> (r: String)
    ensures
        r@ == quoted(s@),
{
    match serde_json::to_string(s) {
        Ok(j) => j,
        Err(_) => String::new(),
    }
}

} // verus!
