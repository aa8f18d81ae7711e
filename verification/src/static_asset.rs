//! Static asset imports (`import bg from './bg.png'`): which files are
//! handled, the content hash and output name of a copied asset, and the
//! module that stands for it.
use vstd::prelude::*;
use crate::text;
use crate::paths;

verus! {

/// Handles image imports by copying the file into the asset directory
/// and exporting its URL.
pub struct StaticAssetPlugin {
    /// Directory the assets are copied into.
    pub asset_dir: String,
}

/// ASCII lowercase of one character.
pub open spec fn ascii_lower(c: char) -> char {
    if 'A' <= c && c <= 'Z' {
        ((c as u32) + 32) as char
    } else {
        c
    }
}

/// ASCII lowercase of a string (`str::to_ascii_lowercase`).
pub open spec fn ascii_lowercase(s: Seq<char>) -> Seq<char> {
    s.map_values(|c: char| ascii_lower(c))
}

/// Whether a lowercased path ends with one of the image extensions.
pub open spec fn has_image_suffix(lower: Seq<char>) -> bool {
    ||| text::ends_with(lower, ".png"@) ||| text::ends_with(lower, ".jpg"@) ||| text::ends_with(lower, ".jpeg"@)
    ||| text::ends_with(lower, ".gif"@) ||| text::ends_with(lower, ".webp"@) ||| text::ends_with(lower, ".ico"@)
    ||| text::ends_with(lower, ".avif"@) ||| text::ends_with(lower, ".bmp"@) ||| text::ends_with(lower, ".tiff"@)
    ||| text::ends_with(lower, ".svg"@)
}

/// The FNV-1a hash (64 bit) of a byte sequence.
pub open spec fn fnv1a(data: Seq<u8>) -> u64
    decreases data.len(),
{
    if data.len() == 0 {
        0xcbf29ce484222325u64
    } else {
        (fnv1a(data.drop_last()) ^ (data.last() as u64)).wrapping_mul(0x00000100000001B3u64)
    }
}

/// The last `k` lowercase hex digits of `n`, zero padded.
pub open spec fn hex_pad(n: nat, k: nat) -> Seq<char>
    decreases k,
{
    if k == 0 {
        Seq::empty()
    } else {
        hex_pad(n / 16, (k - 1) as nat).push(text::hex_digit(n % 16))
    }
}

fn hex_pad_exec(n: u64, k: usize) -> (r: String)
    ensures
        r@ == hex_pad(n as nat, k as nat),
    decreases k,
{
    if k == 0 {
        String::new()
    } else {
        let mut r = hex_pad_exec(n / 16, k - 1);
        let d = (n % 16) as u8;
        text::push_char(&mut r, text::hex_digit_exec(d));
        r
    }
}

fn ends_with_exec(s: &Vec<char>, suffix: &str) -> (r: bool)
    ensures
        r == text::ends_with(s@, suffix@),
{
    let b = text::chars_of(suffix);
    if b.len() > s.len() {
        return false;
    }
    text::occurs_at_exec(s, s.len() - b.len(), &b)
}

/// The module that stands for an asset copied under `out_name`:
/// a default export of its URL in the shape of a Next.js image import.
pub open spec fn asset_module(out_name: Seq<char>) -> Seq<char> {
    "export default { src: \""@ + "/_rex/static/assets/"@ + out_name + "\", height: 0, width: 0 };\n"@
}

/// The name an asset is copied under: `{stem}-{first 8 hash digits}.{ext}`.
pub open spec fn asset_name(path: Seq<char>, data: Seq<u8>) -> Option<Seq<char>> {
    match (paths::file_stem_spec(path), paths::extension_spec(path)) {
        (Some(stem), Some(ext)) => Some(stem + "-"@ + hex_pad(fnv1a(data) as nat, 16).take(8) + "."@ + ext),
        _ => None,
    }
}

impl StaticAssetPlugin {
    pub fn new(asset_dir: String) -> (r: StaticAssetPlugin)
        ensures
            r.asset_dir@ == asset_dir@,
    {
        StaticAssetPlugin { asset_dir }
    }

    /// Whether a path names an image (by its extension, in any case).
    pub fn is_image_file(path: &str) -> (r: bool)
        ensures
            r == has_image_suffix(ascii_lowercase(path@)),
    {
        let p = text::chars_of(path);
        let mut lower: Vec<char> = Vec::new();
        let mut i: usize = 0;
        while i < p.len()
            invariant
                i <= p@.len(),
                lower@ == ascii_lowercase(p@.take(i as int)),
            decreases p.len() - i,
        {
            let c = p[i];
            let l = if 'A' <= c && c <= 'Z' {
                let b = (c as u8) + 32;
                b as char
            } else {
                c
            };
            proof {
                assert(l == ascii_lower(c));
            }
            lower.push(l);
            i += 1;
            proof {
                assert(lower@ =~= ascii_lowercase(p@.take(i as int)));
            }
        }
        proof {
            assert(p@.take(i as int) =~= p@);
        }
        ends_with_exec(&lower, ".png") || ends_with_exec(&lower, ".jpg") || ends_with_exec(&lower, ".jpeg")
            || ends_with_exec(&lower, ".gif") || ends_with_exec(&lower, ".webp") || ends_with_exec(&lower, ".ico")
            || ends_with_exec(&lower, ".avif") || ends_with_exec(&lower, ".bmp") || ends_with_exec(&lower, ".tiff")
            || ends_with_exec(&lower, ".svg")
    }

    /// A short hex hash of file contents: FNV-1a (64 bit) as 16 hex digits.
    pub fn content_hash(data: &[u8]) -> (r: String)
        ensures
            r@ == hex_pad(fnv1a(data@) as nat, 16),
    {
        let mut h: u64 = 0xcbf29ce484222325;
        let mut i: usize = 0;
        while i < data.len()
            invariant
                i <= data@.len(),
                h == fnv1a(data@.take(i as int)),
            decreases data.len() - i,
        {
            proof {
                assert(data@.take(i + 1).drop_last() =~= data@.take(i as int));
                assert(data@.take(i + 1).last() == data@[i as int]);
            }
            h = h ^ (data[i] as u64);
            h = h.wrapping_mul(0x00000100000001B3);
            i += 1;
        }
        proof {
            assert(data@.take(i as int) =~= data@);
        }
        hex_pad_exec(h, 16)
    }

    /// The name an asset file is copied under, or `None` when its path has
    /// no stem or no extension.
    pub fn asset_file_name(path: &str, data: &[u8]) -> (r: Option<String>)
        ensures
            text::opt_view(r) == asset_name(path@, data@),
    {
        let stem = paths::file_stem(path);
        let ext = paths::extension(path);
        match (stem, ext) {
            (Some(stem), Some(ext)) => {
                let h = Self::content_hash(data);
                let hv = text::chars_of(h.as_str());
                proof {
                    lemma_hex_pad_len(fnv1a(data@) as nat, 16);
                }
                let short = text::slice_of(&hv, 0, 8);
                proof {
                    assert(short@ =~= hex_pad(fnv1a(data@) as nat, 16).take(8));
                }
                let mut name = stem;
                name.append("-");
                text::push_chars(&mut name, &short);
                name.append(".");
                name.append(ext.as_str());
                Some(name)
            },
            _ => None,
        }
    }

    /// The module that stands for an asset copied under `out_name`.
    pub fn asset_module_code(out_name: &str) -> (r: String)
        ensures
            r@ == asset_module(out_name@),
    {
        let mut code = String::from_str("export default { src: \"");
        code.append("/_rex/static/assets/");
        code.append(out_name);
        code.append("\", height: 0, width: 0 };\n");
        code
    }
}

proof fn lemma_hex_pad_len(n: nat, k: nat)
    ensures
        hex_pad(n, k).len() == k,
    decreases k,
{
    if k > 0 {
        lemma_hex_pad_len(n / 16, (k - 1) as nat);
    }
}

} // verus!
