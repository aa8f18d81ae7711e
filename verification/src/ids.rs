//! Stable identifiers: SHA-256 based reference and action ids, short
//! content hashes.
use vstd::prelude::*;
use vstd::utf8::encode_utf8;
use crate::text;

verus! {

/// The SHA-256 digest of a byte sequence.
pub uninterp spec fn sha256_digest(data: Seq<u8>) -> Seq<u8>;

/// SHA-256 of `data` (`sha2::Sha256::digest`): the digest named by
/// `sha256_digest`, 32 bytes long as the output size of SHA-256 is.
#[verifier::external_body]
fn sha256(data: &[u8]) -> (r: Vec<u8>)
    ensures
        r@ == sha256_digest(data@),
        r@.len() == 32,
{
    <sha2::Sha256 as sha2::Digest>::digest(data).to_vec()
}

/// Lowercase hex of the first `n` bytes of a digest.
pub fn hex_prefix(digest: &[u8], n: usize) -> (r: String)
    requires
        n <= digest@.len(),
    ensures
        r@ == text::hex_encode(digest@.take(n as int)),
        r@.len() == 2 * n,
{
    let mut b: Vec<u8> = Vec::new();
    let mut i: usize = 0;
    while i < n
        invariant
            i <= n <= digest@.len(),
            b@ == digest@.take(i as int),
        decreases n - i,
    {
        b.push(digest[i]);
        i += 1;
        proof {
            assert(b@ =~= digest@.take(i as int));
        }
    }
    text::hex_string(b.as_slice())
}

/// Appends the UTF-8 bytes of `s` to `v`.
fn push_utf8(v: &mut Vec<u8>, s: &str)
    ensures
        final(v)@ == old(v)@ + encode_utf8(s@),
{
    let b = s.as_bytes();
    let mut i: usize = 0;
    while i < b.len()
        invariant
            i <= b@.len(),
            b@ == encode_utf8(s@),
            v@ == old(v)@ + b@.take(i as int),
        decreases b.len() - i,
    {
        v.push(b[i]);
        i += 1;
        proof {
            assert(b@.take(i as int) =~= b@.take(i - 1).push(b@[i - 1]));
        }
    }
    proof {
        assert(b@.take(i as int) =~= b@);
    }
}

/// The bytes hashed for a client reference id: path, export and build id,
/// NUL separated.
pub open spec fn reference_message(rel_path: Seq<char>, export: Seq<char>, build_id: Seq<char>) -> Seq<u8> {
    encode_utf8(rel_path) + seq![0u8] + encode_utf8(export) + seq![0u8] + encode_utf8(build_id)
}

/// The prefix that keeps server action ids apart from client reference ids.
pub open spec fn server_action_prefix() -> Seq<u8> {
    seq![115u8, 101, 114, 118, 101, 114, 95, 97, 99, 116, 105, 111, 110, 0]
}

/// The id of a client component export: hex of the first 7 bytes of the
/// SHA-256 of `reference_message`.
pub open spec fn client_reference_id_spec(rel_path: Seq<char>, export: Seq<char>, build_id: Seq<char>) -> Seq<char> {
    text::hex_encode(sha256_digest(reference_message(rel_path, export, build_id)).take(7))
}

/// The id of a server action export: as a client reference id, over the
/// message prefixed with `server_action\0`.
pub open spec fn server_action_id_spec(rel_path: Seq<char>, export: Seq<char>, build_id: Seq<char>) -> Seq<char> {
    text::hex_encode(sha256_digest(server_action_prefix() + reference_message(rel_path, export, build_id)).take(7))
}

fn push_reference_message(v: &mut Vec<u8>, rel_path: &str, export_name: &str, build_id: &str)
    ensures
        final(v)@ == old(v)@ + reference_message(rel_path@, export_name@, build_id@),
{
    push_utf8(v, rel_path);
    v.push(0u8);
    push_utf8(v, export_name);
    v.push(0u8);
    push_utf8(v, build_id);
    proof {
        assert(final(v)@ =~= old(v)@ + reference_message(rel_path@, export_name@, build_id@));
    }
}

/// Stable reference id for a client component export (14 hex chars).
pub fn client_reference_id(rel_path: &str, export_name: &str, build_id: &str) -> (r: String)
    ensures
        r@ == client_reference_id_spec(rel_path@, export_name@, build_id@),
        r@.len() == 14,
{
    let mut msg: Vec<u8> = Vec::new();
    push_reference_message(&mut msg, rel_path, export_name, build_id);
    proof {
        assert(msg@ =~= reference_message(rel_path@, export_name@, build_id@));
    }
    let d = sha256(msg.as_slice());
    hex_prefix(d.as_slice(), 7)
}

/// Stable id for a server action export (14 hex chars); differs in its
/// hashed message from the client reference id of the same export.
pub fn server_action_id(rel_path: &str, export_name: &str, build_id: &str) -> (r: String)
    ensures
        r@ == server_action_id_spec(rel_path@, export_name@, build_id@),
        r@.len() == 14,
{
    let mut msg: Vec<u8> = vec![115u8, 101, 114, 118, 101, 114, 95, 97, 99, 116, 105, 111, 110, 0];
    proof {
        assert(msg@ =~= server_action_prefix());
    }
    push_reference_message(&mut msg, rel_path, export_name, build_id);
    let d = sha256(msg.as_slice());
    hex_prefix(d.as_slice(), 7)
}

/// Short hash of arbitrary bytes: hex of the first 4 bytes of the SHA-256.
pub open spec fn short_hash_spec(input: Seq<u8>) -> Seq<char> {
    text::hex_encode(sha256_digest(input).take(4))
}

/// Short hex hash (8 hex chars) of `input`.
pub fn short_hash(input: &[u8]) -> (r: String)
    ensures
        r@ == short_hash_spec(input@),
        r@.len() == 8,
{
    let d = sha256(input);
    hex_prefix(d.as_slice(), 4)
}

/// Short hash of the UTF-8 bytes of a string.
pub fn short_hash_str(input: &str) -> (r: String)
    ensures
        r@ == short_hash_spec(encode_utf8(input@)),
        r@.len() == 8,
{
    let mut v: Vec<u8> = Vec::new();
    push_utf8(&mut v, input);
    proof {
        assert(v@ =~= encode_utf8(input@));
    }
    short_hash(v.as_slice())
}

/// The build id of a build started at `millis` (milliseconds since the
/// epoch): hex of the first 8 bytes of the SHA-256 of its decimal text.
pub open spec fn build_id_spec(millis: nat) -> Seq<char> {
    text::hex_encode(sha256_digest(encode_utf8(text::decimal(millis))).take(8))
}

/// The build id of a build started at `millis` (16 hex chars).
pub fn build_id_from_millis(millis: u128) -> (r: String)
    ensures
        r@ == build_id_spec(millis as nat),
        r@.len() == 16,
{
    let dec = text::decimal_string_u128(millis);
    let mut v: Vec<u8> = Vec::new();
    push_utf8(&mut v, dec.as_str());
    proof {
        assert(v@ =~= encode_utf8(dec@));
    }
    let d = sha256(v.as_slice());
    hex_prefix(d.as_slice(), 8)
}

} // verus!
