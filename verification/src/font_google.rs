//! Google Fonts: the CSS2 API request, the `@font-face` rules it answers
//! with, and the CSS and JS objects emitted for a font.
//!
//! Downloading is done by the caller; everything here is computed from the
//! font configuration and the text that came back.
use vstd::prelude::*;
use vstd::hash_map::StringHashMap;
use crate::text;
use crate::ids;

verus! {

/// The Google Fonts CSS2 endpoint.
pub open spec fn css_api_url() -> Seq<char> {
    "https://fonts.googleapis.com/css2"@
}

/// The `family` parameter of a CSS2 request: spaces become `+`, the single
/// weight `variable` asks for the whole 100..900 axis.
pub open spec fn google_fonts_param(family: Seq<char>, weights: Seq<Seq<char>>) -> Seq<char> {
    let f = text::replace_char(family, ' ', "+"@);
    if weights.len() == 1 && weights[0] == "variable"@ {
        f + ":wght@100..900"@
    } else {
        f + ":wght@"@ + text::join(weights, ";"@)
    }
}

/// Builds the `family` parameter for the Google Fonts CSS2 API.
pub fn build_google_fonts_param(family: &str, weights: &[String]) -> (r: String)
    ensures
        r@ == google_fonts_param(family@, text::views(weights@)),
{
    let mut r = text::replace_char_exec(family, ' ', "+");
    if weights.len() == 1 && text::str_eq(weights[0].as_str(), "variable") {
        r.append(":wght@100..900");
    } else {
        r.append(":wght@");
        let j = text::join_strings(weights, ";");
        r.append(j.as_str());
    }
    r
}

/// The CSS2 request URL for a font.
pub open spec fn css_request_url(family: Seq<char>, weights: Seq<Seq<char>>, display: Seq<char>) -> Seq<char> {
    css_api_url() + "?family="@ + google_fonts_param(family, weights) + "&display="@ + display
}

/// The CSS2 request URL for a font.
pub fn google_fonts_css_url(family: &str, weights: &[String], display: &str) -> (r: String)
    ensures
        r@ == css_request_url(family@, text::views(weights@), display@),
{
    let mut r = String::from_str("https://fonts.googleapis.com/css2");
    r.append("?family=");
    let p = build_google_fonts_param(family, weights);
    r.append(p.as_str());
    r.append("&display=");
    r.append(display);
    r
}

/// The generic family that stands behind a font, from its lowercased name.
pub open spec fn fallback_for(lower: Seq<char>) -> Seq<char> {
    if text::contains(lower, "serif"@) && !text::contains(lower, "sans"@) {
        "serif"@
    } else if text::contains(lower, "mono"@) || text::contains(lower, "code"@) {
        "monospace"@
    } else {
        "sans-serif"@
    }
}

/// The generic fallback family for an already lowercased font name.
pub fn fallback_for_lowercase(lower: &str) -> (r: String)
    ensures
        r@ == fallback_for(lower@),
{
    if text::contains_str(lower, "serif") && !text::contains_str(lower, "sans") {
        String::from_str("serif")
    } else if text::contains_str(lower, "mono") || text::contains_str(lower, "code") {
        String::from_str("monospace")
    } else {
        String::from_str("sans-serif")
    }
}

/// The default fallback font stack for a font family.
pub fn default_fallback(family: &str) -> (r: String)
    ensures
        r@ == fallback_for(text::lowercase(family@)),
        text::is_ascii_seq(family@) ==> r@ == fallback_for(family@.map_values(|c: char| text::ascii_lower_char(c))),
{
    let lower = text::to_lowercase(family);
    fallback_for_lowercase(lower.as_str())
}

/// The fallback stack of a font: the configured families joined with
/// `sep`, or the default generic family when none is configured.
pub open spec fn fallback_stack(family: Seq<char>, fallback: Seq<Seq<char>>, sep: Seq<char>) -> Seq<char> {
    if fallback.len() == 0 {
        fallback_for(text::lowercase(family))
    } else {
        text::join(fallback, sep)
    }
}

fn fallback_stack_exec(family: &str, fallback: &[String], sep: &str) -> (r: String)
    ensures
        r@ == fallback_stack(family@, text::views(fallback@), sep@),
{
    if fallback.len() == 0 {
        default_fallback(family)
    } else {
        text::join_strings(fallback, sep)
    }
}

/// The JS object literal that stands for a font in a page module.
pub open spec fn font_object(
    family: Seq<char>,
    fallback: Seq<Seq<char>>,
    variable: Option<Seq<char>>,
    scoped_family: Seq<char>,
) -> Seq<char> {
    "{ className: \""@ + scoped_family + "\", style: { fontFamily: \"'"@ + scoped_family + "', "@
        + fallback_stack(family, fallback, "', '"@) + "\" }"@ + match variable {
        Some(v) => ", variable: \""@ + v + "\""@,
        None => Seq::empty(),
    } + " }"@
}

/// Builds the JS object literal for a font from its configuration and
/// scoped name.
pub fn build_font_object(family: &str, fallback: &[String], variable: Option<&str>, scoped_family: &str) -> (r: String)
    ensures
        r@ == font_object(family@, text::views(fallback@), text::opt_str_view(variable), scoped_family@),
{
    let stack = fallback_stack_exec(family, fallback, "', '");
    let mut obj = String::from_str("{ className: \"");
    obj.append(scoped_family);
    obj.append("\", style: { fontFamily: \"'");
    obj.append(scoped_family);
    obj.append("', ");
    obj.append(stack.as_str());
    obj.append("\" }");
    let ghost before = obj@;
    match variable {
        Some(v) => {
            obj.append(", variable: \"");
            obj.append(v);
            obj.append("\"");
        },
        None => {},
    }
    obj.append(" }");
    proof {
        let tail = match text::opt_str_view(variable) {
            Some(v) => ", variable: \""@ + v + "\""@,
            None => Seq::<char>::empty(),
        };
        assert(obj@ =~= before + tail + " }"@);
    }
    obj
}

/// A `@font-face` rule that loads a weight from the locally installed font.
pub open spec fn local_face_rule(scoped: Seq<char>, family: Seq<char>, weight: Seq<char>, display: Seq<char>) -> Seq<char> {
    "@font-face {\n"@ + "  font-family: '"@ + scoped + "';\n"@ + "  src: local('"@ + family + "');\n"@
        + "  font-weight: "@ + weight + ";\n"@ + "  font-display: "@ + display + ";\n"@ + "}\n"@
}

/// One `local_face_rule` per weight, in order.
pub open spec fn local_face_rules(scoped: Seq<char>, family: Seq<char>, weights: Seq<Seq<char>>, display: Seq<char>) -> Seq<char>
    decreases weights.len(),
{
    if weights.len() == 0 {
        Seq::empty()
    } else {
        local_face_rules(scoped, family, weights.drop_last(), display) + local_face_rule(scoped, family, weights.last(), display)
    }
}

/// The CSS used when a font could not be downloaded: an `@import` of the
/// Google Fonts stylesheet and a local `@font-face` per weight.
pub open spec fn cdn_fallback_css(family: Seq<char>, weights: Seq<Seq<char>>, display: Seq<char>, scoped: Seq<char>) -> Seq<char> {
    "@import url('"@ + css_request_url(family, weights, display) + "');\n"@ + local_face_rules(scoped, family, weights, display)
}

/// Generates the fallback CSS that points at the Google Fonts CDN.
pub fn generate_cdn_fallback_css(family: &str, weights: &[String], display: &str, scoped_family: &str) -> (r: String)
    ensures
        r@ == cdn_fallback_css(family@, text::views(weights@), display@, scoped_family@),
{
    let ghost ws = text::views(weights@);
    let url = google_fonts_css_url(family, weights, display);
    let mut css = String::from_str("@import url('");
    css.append(url.as_str());
    css.append("');\n");
    let ghost head = css@;
    let mut i: usize = 0;
    while i < weights.len()
        invariant
            i <= weights@.len(),
            ws == text::views(weights@),
            css@ == head + local_face_rules(scoped_family@, family@, ws.take(i as int), display@),
        decreases weights.len() - i,
    {
        proof {
            assert(ws.take(i + 1).drop_last() =~= ws.take(i as int));
            assert(ws.take(i + 1).last() == weights@[i as int]@);
        }
        let ghost before = css@;
        css.append("@font-face {\n");
        css.append("  font-family: '");
        css.append(scoped_family);
        css.append("';\n");
        css.append("  src: local('");
        css.append(family);
        css.append("');\n");
        css.append("  font-weight: ");
        css.append(weights[i].as_str());
        css.append(";\n");
        css.append("  font-display: ");
        css.append(display);
        css.append(";\n");
        css.append("}\n");
        proof {
            assert(css@ =~= before + local_face_rule(scoped_family@, family@, weights@[i as int]@, display@));
        }
        i += 1;
    }
    proof {
        assert(ws.take(i as int) =~= ws);
    }
    css
}

/// A quote character, as stripped around a `url(..)` value.
pub open spec fn is_quote(c: char) -> bool {
    c == '\'' || c == '"'
}

/// `s` without its leading quotes.
pub open spec fn strip_quotes_start(s: Seq<char>) -> Seq<char>
    decreases s.len(),
{
    if s.len() > 0 && is_quote(s[0]) {
        strip_quotes_start(s.drop_first())
    } else {
        s
    }
}

/// `s` without its trailing quotes.
pub open spec fn strip_quotes_end(s: Seq<char>) -> Seq<char>
    decreases s.len(),
{
    if s.len() > 0 && is_quote(s.last()) {
        strip_quotes_end(s.drop_last())
    } else {
        s
    }
}

/// `s` without quotes at either end (`str::trim_matches` on quotes).
pub open spec fn trim_quotes(s: Seq<char>) -> Seq<char> {
    strip_quotes_end(strip_quotes_start(s))
}

fn trim_quotes_exec(s: &Vec<char>) -> (r: Vec<char>)
    ensures
        r@ == trim_quotes(s@),
{
    let mut a: usize = 0;
    proof {
        assert(s@.subrange(0, s@.len() as int) =~= s@);
    }
    while a < s.len() && (s[a] == '\'' || s[a] == '"')
        invariant
            a <= s.len(),
            strip_quotes_start(s@) == strip_quotes_start(s@.subrange(a as int, s@.len() as int)),
        decreases s.len() - a,
    {
        proof {
            assert(s@.subrange(a as int, s@.len() as int).drop_first() =~= s@.subrange(a + 1, s@.len() as int));
        }
        a += 1;
    }
    let t = text::slice_of(s, a, s.len());
    let mut e: usize = t.len();
    proof {
        assert(t@.subrange(0, t@.len() as int) =~= t@);
    }
    while e > 0 && (t[e - 1] == '\'' || t[e - 1] == '"')
        invariant
            e <= t.len(),
            strip_quotes_end(t@) == strip_quotes_end(t@.subrange(0, e as int)),
        decreases e,
    {
        proof {
            assert(t@.subrange(0, e as int).drop_last() =~= t@.subrange(0, e - 1));
        }
        e -= 1;
    }
    text::slice_of(&t, 0, e)
}

/// The URL of the `src:` declaration of a `@font-face` block: what stands
/// inside the first `url(..)` after `src:`, trimmed and unquoted.
pub open spec fn css_url(block: Seq<char>) -> Option<Seq<char>> {
    let s = text::find(block, "src:"@);
    if s < 0 {
        None
    } else {
        let after = block.subrange(s + "src:"@.len(), block.len() as int);
        let u = text::find(after, "url("@);
        if u < 0 {
            None
        } else {
            let cs = u + "url("@.len();
            let e = text::find_from(after, ")"@, cs);
            if e < 0 {
                None
            } else {
                Some(trim_quotes(text::trim(after.subrange(cs, e))))
            }
        }
    }
}

fn css_url_chars(block: &Vec<char>) -> (r: Option<Vec<char>>)
    ensures
        match r {
            Some(u) => css_url(block@) == Some(u@),
            None => css_url(block@) is None,
        },
{
    let src = text::chars_of("src:");
    let s = match text::find_from_exec(block, &src, 0) {
        Some(s) => s,
        None => return None,
    };
    proof {
        text::lemma_find_from_range(block@, src@, 0);
    }
    let n = block.len();
    let after = text::slice_of(block, s + src.len(), n);
    let url = text::chars_of("url(");
    let u = match text::find_from_exec(&after, &url, 0) {
        Some(u) => u,
        None => return None,
    };
    proof {
        text::lemma_find_from_range(after@, url@, 0);
        assert(text::occurs_at(after@, u as int, url@));
    }
    let cs = u + url.len();
    let close = text::chars_of(")");
    let e = match text::find_from_exec(&after, &close, cs) {
        Some(e) => e,
        None => return None,
    };
    proof {
        text::lemma_find_from_range(after@, close@, cs as int);
    }
    let inner = text::slice_of(&after, cs, e);
    let t = text::trim_exec(&inner);
    Some(trim_quotes_exec(&t))
}

/// Extracts the URL from the `src:` declaration of a CSS block.
pub fn extract_css_url(block: &str) -> (r: Option<String>)
    ensures
        text::opt_view(r) == css_url(block@),
{
    let b = text::chars_of(block);
    match css_url_chars(&b) {
        Some(u) => Some(text::string_of(&u)),
        None => None,
    }
}

/// The value of the first `property:` declaration of a block, up to the
/// next `;` (or the end), trimmed.
pub open spec fn css_property(block: Seq<char>, property: Seq<char>) -> Option<Seq<char>> {
    let pat = property + ":"@;
    let st = text::find(block, pat);
    if st < 0 {
        None
    } else {
        let after = block.subrange(st + pat.len(), block.len() as int);
        let e = text::find(after, ";"@);
        let end = if e < 0 { after.len() as int } else { e };
        Some(text::trim(after.subrange(0, end)))
    }
}

fn css_property_chars(block: &Vec<char>, property: &str) -> (r: Option<Vec<char>>)
    ensures
        match r {
            Some(u) => css_property(block@, property@) == Some(u@),
            None => css_property(block@, property@) is None,
        },
{
    let mut ps = String::from_str(property);
    ps.append(":");
    let pat = text::chars_of(ps.as_str());
    let st = match text::find_from_exec(block, &pat, 0) {
        Some(st) => st,
        None => return None,
    };
    proof {
        text::lemma_find_from_range(block@, pat@, 0);
    }
    let n = block.len();
    let after = text::slice_of(block, st + pat.len(), n);
    let semi = text::chars_of(";");
    let end = match text::find_from_exec(&after, &semi, 0) {
        Some(e) => e,
        None => after.len(),
    };
    proof {
        text::lemma_find_from_range(after@, semi@, 0);
    }
    let v = text::slice_of(&after, 0, end);
    Some(text::trim_exec(&v))
}

/// Extracts the value of a CSS property from a declaration block.
pub fn extract_css_property(block: &str, property: &str) -> (r: Option<String>)
    ensures
        text::opt_view(r) == css_property(block@, property@),
{
    let b = text::chars_of(block);
    match css_property_chars(&b, property) {
        Some(u) => Some(text::string_of(&u)),
        None => None,
    }
}

/// A `@font-face` rule of a Google Fonts stylesheet.
pub struct GoogleFontFace {
    pub src_url: String,
    pub weight: String,
    pub style: String,
    pub unicode_range: String,
    /// The rule follows a `/* latin */` subset comment.
    pub is_latin: bool,
}

/// The fields of a `GoogleFontFace` as character sequences.
pub struct FontFaceView {
    pub src_url: Seq<char>,
    pub weight: Seq<char>,
    pub style: Seq<char>,
    pub unicode_range: Seq<char>,
    pub is_latin: bool,
}

impl View for GoogleFontFace {
    type V = FontFaceView;

    open spec fn view(&self) -> FontFaceView {
        FontFaceView {
            src_url: self.src_url@,
            weight: self.weight@,
            style: self.style@,
            unicode_range: self.unicode_range@,
            is_latin: self.is_latin,
        }
    }
}

/// The face described by a declaration block, if it has a source URL;
/// weight and style default to `400` and `normal`.
pub open spec fn block_face(block: Seq<char>, latin: bool) -> Option<FontFaceView> {
    let src = match css_url(block) {
        Some(u) => u,
        None => Seq::empty(),
    };
    if src.len() == 0 {
        None
    } else {
        Some(FontFaceView {
            src_url: src,
            weight: match css_property(block, "font-weight"@) {
                Some(w) => w,
                None => "400"@,
            },
            style: match css_property(block, "font-style"@) {
                Some(w) => w,
                None => "normal"@,
            },
            unicode_range: match css_property(block, "unicode-range"@) {
                Some(w) => w,
                None => Seq::empty(),
            },
            is_latin: latin,
        })
    }
}

/// The faces of `css[i..]`, where `subset` is the text of the last
/// `/* .. */` comment seen: a comment sets the subset, a `@font-face`
/// followed by a `{ .. }` block gives a face when the block has a source.
pub open spec fn faces_from(css: Seq<char>, i: int, subset: Seq<char>) -> Seq<FontFaceView>
    decreases css.len() + 3 - i,
{
    if i < 0 || i >= css.len() {
        Seq::empty()
    } else {
        let ce = text::find_from(css, "*/"@, i + 2);
        let ob = text::find_from(css, "{"@, i);
        let cb = text::find_from(css, "}"@, ob + 1);
        proof {
            text::lemma_find_from_range(css, "*/"@, i + 2);
            text::lemma_find_from_range(css, "{"@, i);
            text::lemma_find_from_range(css, "}"@, ob + 1);
        }
        if text::occurs_at(css, i, "/*"@) && ce >= 0 {
            faces_from(css, ce + 2, text::trim(css.subrange(i + 2, ce)))
        } else if text::occurs_at(css, i, "@font-face"@) && ob >= 0 && cb >= 0 {
            let rest = faces_from(css, cb + 1, subset);
            match block_face(css.subrange(ob + 1, cb), subset == "latin"@) {
                Some(f) => seq![f] + rest,
                None => rest,
            }
        } else {
            faces_from(css, i + 1, subset)
        }
    }
}

/// The faces of a Google Fonts stylesheet, in order.
pub open spec fn font_faces(css: Seq<char>) -> Seq<FontFaceView> {
    faces_from(css, 0, Seq::empty())
}

/// The views of a list of faces.
pub open spec fn face_views(v: Seq<GoogleFontFace>) -> Seq<FontFaceView> {
    v.map_values(|f: GoogleFontFace| f@)
}

fn block_face_exec(block: &Vec<char>, latin: bool) -> (r: Option<GoogleFontFace>)
    ensures
        match r {
            Some(f) => block_face(block@, latin) == Some(f@),
            None => block_face(block@, latin) is None,
        },
{
    let src = match css_url_chars(block) {
        Some(u) => u,
        None => Vec::new(),
    };
    if src.len() == 0 {
        return None;
    }
    let weight = match css_property_chars(block, "font-weight") {
        Some(w) => text::string_of(&w),
        None => String::from_str("400"),
    };
    let style = match css_property_chars(block, "font-style") {
        Some(w) => text::string_of(&w),
        None => String::from_str("normal"),
    };
    let unicode_range = match css_property_chars(block, "unicode-range") {
        Some(w) => text::string_of(&w),
        None => String::new(),
    };
    let f = GoogleFontFace { src_url: text::string_of(&src), weight, style, unicode_range, is_latin: latin };
    proof {
        assert(f@ == block_face(block@, latin)->0);
    }
    Some(f)
}

/// Parses a Google Fonts stylesheet into its `@font-face` rules.
pub fn parse_google_font_css(css: &str) -> (r: Vec<GoogleFontFace>)
    ensures
        face_views(r@) == font_faces(css@),
{
    let c = text::chars_of(css);
    let open_comment = text::chars_of("/*");
    let close_comment = text::chars_of("*/");
    let at_rule = text::chars_of("@font-face");
    let open_brace = text::chars_of("{");
    let close_brace = text::chars_of("}");
    let latin = text::chars_of("latin");
    let mut faces: Vec<GoogleFontFace> = Vec::new();
    let mut subset: Vec<char> = Vec::new();
    let mut i: usize = 0;
    proof {
        reveal_strlit("/*");
        reveal_strlit("*/");
        reveal_strlit("{");
        reveal_strlit("}");
        assert(face_views(faces@) + faces_from(c@, 0, subset@) =~= font_faces(css@));
    }
    while i < c.len()
        invariant
            i <= c.len(),
            c@ == css@,
            open_comment@ == "/*"@,
            close_comment@ == "*/"@,
            "*/"@.len() == 2,
            "/*"@.len() == 2,
            "{"@.len() == 1,
            "}"@.len() == 1,
            at_rule@ == "@font-face"@,
            open_brace@ == "{"@,
            close_brace@ == "}"@,
            latin@ == "latin"@,
            face_views(faces@) + faces_from(c@, i as int, subset@) == font_faces(css@),
        decreases c.len() - i,
    {
        let ghost prev = face_views(faces@);
        let ghost ce = text::find_from(c@, "*/"@, i + 2);
        let ghost ob = text::find_from(c@, "{"@, i as int);
        let ghost cb = text::find_from(c@, "}"@, ob + 1);
        proof {
            text::lemma_find_from_range(c@, "*/"@, i + 2);
            text::lemma_find_from_range(c@, "{"@, i as int);
            text::lemma_find_from_range(c@, "}"@, ob + 1);
        }
        if text::occurs_at_exec(&c, i, &open_comment) {
            if let Some(end) = text::find_from_exec(&c, &close_comment, i + 2) {
                proof {
                    assert(text::occurs_at(c@, end as int, close_comment@));
                }
                let comment = text::slice_of(&c, i + 2, end);
                subset = text::trim_exec(&comment);
                i = end + 2;
                continue;
            }
        }
        if text::occurs_at_exec(&c, i, &at_rule) {
            if let Some(o) = text::find_from_exec(&c, &open_brace, i) {
                proof {
                    assert(text::occurs_at(c@, o as int, open_brace@));
                }
                if let Some(e) = text::find_from_exec(&c, &close_brace, o + 1) {
                    proof {
                        assert(text::occurs_at(c@, e as int, close_brace@));
                    }
                    let block = text::slice_of(&c, o + 1, e);
                    let is_latin = text::chars_eq(&subset, &latin);
                    let face = block_face_exec(&block, is_latin);
                    match face {
                        Some(f) => {
                            faces.push(f);
                            proof {
                                assert(face_views(faces@) =~= prev.push(block_face(block@, is_latin)->0));
                                assert(face_views(faces@) + faces_from(c@, e + 1, subset@) =~= prev + (seq![
                                    block_face(block@, is_latin)->0] + faces_from(c@, e + 1, subset@)));
                            }
                        },
                        None => {},
                    }
                    i = e + 1;
                    continue;
                }
            }
        }
        i += 1;
    }
    proof {
        assert(face_views(faces@) + faces_from(c@, i as int, subset@) =~= face_views(faces@));
    }
    faces
}

/// A `@font-face` rule that serves a downloaded font file.
pub open spec fn font_face_rule(
    scoped: Seq<char>,
    filename: Seq<char>,
    face: FontFaceView,
    display: Seq<char>,
) -> Seq<char> {
    "@font-face {\n"@ + "  font-family: '"@ + scoped + "';\n"@ + "  src: url('/_rex/static/"@ + filename
        + "') format('woff2');\n"@ + "  font-weight: "@ + face.weight + ";\n"@ + "  font-style: "@ + face.style
        + ";\n"@ + "  font-display: "@ + display + ";\n"@ + if face.unicode_range.len() == 0 {
        Seq::empty()
    } else {
        "  unicode-range: "@ + face.unicode_range + ";\n"@
    } + "}\n"@
}

/// The `@font-face` rule for a face whose file was saved as `filename`.
pub fn local_font_face_css(scoped_family: &str, filename: &str, face: &GoogleFontFace, display: &str) -> (r: String)
    ensures
        r@ == font_face_rule(scoped_family@, filename@, face@, display@),
{
    let mut css = String::from_str("@font-face {\n");
    css.append("  font-family: '");
    css.append(scoped_family);
    css.append("';\n");
    css.append("  src: url('/_rex/static/");
    css.append(filename);
    css.append("') format('woff2');\n");
    css.append("  font-weight: ");
    css.append(face.weight.as_str());
    css.append(";\n");
    css.append("  font-style: ");
    css.append(face.style.as_str());
    css.append(";\n");
    css.append("  font-display: ");
    css.append(display);
    css.append(";\n");
    let ghost before = css@;
    if face.unicode_range.as_str().unicode_len() != 0 {
        css.append("  unicode-range: ");
        css.append(face.unicode_range.as_str());
        css.append(";\n");
    }
    css.append("}\n");
    proof {
        let mid = if face@.unicode_range.len() == 0 {
            Seq::<char>::empty()
        } else {
            "  unicode-range: "@ + face@.unicode_range + ";\n"@
        };
        assert(css@ =~= before + mid + "}\n"@);
    }
    css
}

/// The name a downloaded font file is saved under:
/// `{family}-{weight}-{style}-{url hash}-{build hash}.woff2`, the family
/// lowercased with spaces turned into `-`.
pub open spec fn font_file_name_spec(
    url: Seq<char>,
    family: Seq<char>,
    weight: Seq<char>,
    style: Seq<char>,
    hash: Seq<char>,
) -> Seq<char> {
    text::replace_char(text::lowercase(family), ' ', "-"@) + "-"@ + weight + "-"@ + style + "-"@
        + ids::short_hash_spec(vstd::utf8::encode_utf8(url)) + "-"@ + hash + ".woff2"@
}

/// The file name a downloaded font is saved under.
pub fn font_file_name(url: &str, family: &str, weight: &str, style: &str, hash: &str) -> (r: String)
    ensures
        r@ == font_file_name_spec(url@, family@, weight@, style@, hash@),
{
    let url_hash = ids::short_hash_str(url);
    let lower = text::to_lowercase(family);
    let mut r = text::replace_char_exec(lower.as_str(), ' ', "-");
    r.append("-");
    r.append(weight);
    r.append("-");
    r.append(style);
    r.append("-");
    r.append(url_hash.as_str());
    r.append("-");
    r.append(hash);
    r.append(".woff2");
    r
}

/// The key a processed font is cached under: family and weights.
pub open spec fn font_cache_key_spec(family: Seq<char>, weights: Seq<Seq<char>>) -> Seq<char> {
    family + "-"@ + text::join(weights, ","@)
}

/// The key a processed font is cached under.
pub fn font_cache_key(family: &str, weights: &[String]) -> (r: String)
    ensures
        r@ == font_cache_key_spec(family@, text::views(weights@)),
{
    let mut r = String::from_str(family);
    r.append("-");
    let j = text::join_strings(weights, ",");
    r.append(j.as_str());
    r
}

/// The family name a font is served under:
/// `__font_{family}_{hash of the cache key}`, spaces turned into `_`.
pub open spec fn scoped_family_spec(family: Seq<char>, weights: Seq<Seq<char>>) -> Seq<char> {
    "__font_"@ + text::replace_char(family, ' ', "_"@) + "_"@
        + ids::short_hash_spec(vstd::utf8::encode_utf8(font_cache_key_spec(family, weights)))
}

/// The family name a font is served under.
pub fn scoped_family_name(family: &str, weights: &[String]) -> (r: String)
    ensures
        r@ == scoped_family_spec(family@, text::views(weights@)),
{
    let key = font_cache_key(family, weights);
    let h = ids::short_hash_str(key.as_str());
    let mut r = String::from_str("__font_");
    let f = text::replace_char_exec(family, ' ', "_");
    r.append(f.as_str());
    r.append("_");
    r.append(h.as_str());
    r
}

/// The CSS of a processed font: its `@font-face` rules, a utility class
/// named after the scoped family, and the CSS variable when one is asked.
pub open spec fn font_css(
    face_css: Seq<char>,
    family: Seq<char>,
    fallback: Seq<Seq<char>>,
    variable: Option<Seq<char>>,
    scoped: Seq<char>,
) -> Seq<char> {
    let stack = fallback_stack(family, fallback, ", "@);
    face_css + "."@ + scoped + " { font-family: '"@ + scoped + "', "@ + stack + "; }\n"@ + match variable {
        Some(v) => ":root { "@ + v + ": '"@ + scoped + "', "@ + stack + "; }\n"@,
        None => Seq::empty(),
    }
}

/// A font that has been processed: its scoped family, its CSS and the
/// files to preload.
pub struct ProcessedFont {
    pub scoped_family: String,
    pub css: String,
    pub preload_files: Vec<String>,
}

/// Completes a font from its `@font-face` CSS (downloaded or CDN fallback)
/// and the files to preload.
pub fn finish_font(
    family: &str,
    fallback: &[String],
    variable: Option<&str>,
    scoped_family: String,
    face_css: String,
    preload_files: Vec<String>,
) -> (r: ProcessedFont)
    ensures
        r.scoped_family@ == scoped_family@,
        r.css@ == font_css(face_css@, family@, text::views(fallback@), text::opt_str_view(variable), scoped_family@),
        r.preload_files@ == preload_files@,
{
    let stack = fallback_stack_exec(family, fallback, ", ");
    let mut css = face_css;
    css.append(".");
    css.append(scoped_family.as_str());
    css.append(" { font-family: '");
    css.append(scoped_family.as_str());
    css.append("', ");
    css.append(stack.as_str());
    css.append("; }\n");
    let ghost before = css@;
    match variable {
        Some(v) => {
            css.append(":root { ");
            css.append(v);
            css.append(": '");
            css.append(scoped_family.as_str());
            css.append("', ");
            css.append(stack.as_str());
            css.append("; }\n");
        },
        None => {},
    }
    proof {
        let tail = match text::opt_str_view(variable) {
            Some(v) => ":root { "@ + v + ": '"@ + scoped_family@ + "', "@ + stack@ + "; }\n"@,
            None => Seq::<char>::empty(),
        };
        assert(css@ =~= before + tail);
    }
    ProcessedFont { scoped_family, css, preload_files }
}

/// The source URLs of the faces, each once, in order of first use: the
/// files to download.
pub open spec fn distinct_urls(faces: Seq<FontFaceView>) -> Seq<Seq<char>>
    decreases faces.len(),
{
    if faces.len() == 0 {
        Seq::empty()
    } else {
        let r = distinct_urls(faces.drop_last());
        if r.contains(faces.last().src_url) {
            r
        } else {
            r.push(faces.last().src_url)
        }
    }
}

/// The files to download for the faces of a stylesheet: every source URL
/// once, in order of first use.
pub fn font_downloads(faces: &[GoogleFontFace]) -> (r: Vec<String>)
    ensures
        text::views(r@) == distinct_urls(face_views(faces@)),
{
    let ghost fv = face_views(faces@);
    let mut r: Vec<String> = Vec::new();
    let mut i: usize = 0;
    while i < faces.len()
        invariant
            i <= faces@.len(),
            fv == face_views(faces@),
            text::views(r@) == distinct_urls(fv.take(i as int)),
        decreases faces.len() - i,
    {
        proof {
            assert(fv.take(i + 1).drop_last() =~= fv.take(i as int));
            assert(fv.take(i + 1).last() == fv[i as int]);
            assert(fv[i as int] == faces@[i as int]@);
        }
        let url = faces[i].src_url.as_str();
        if !text::contains_string(&r, url) {
            let ghost before = r@;
            r.push(String::from_str(url));
            proof {
                assert(text::views(r@) =~= text::views(before).push(url@));
            }
        }
        i += 1;
    }
    proof {
        assert(fv.take(i as int) =~= fv);
    }
    r
}

/// The file a source URL was saved as: the first entry for it.
pub open spec fn file_for(files: Seq<(String, String)>, url: Seq<char>) -> Option<Seq<char>>
    decreases files.len(),
{
    if files.len() == 0 {
        None
    } else if files[0].0@ == url {
        Some(files[0].1@)
    } else {
        file_for(files.drop_first(), url)
    }
}

/// Every face's source URL was saved as a file.
pub open spec fn all_saved(faces: Seq<FontFaceView>, files: Seq<(String, String)>) -> bool {
    forall|k: int| 0 <= k < faces.len() ==> file_for(files, (#[trigger] faces[k]).src_url) is Some
}

/// The `@font-face` rules of the faces, each serving the file its source
/// URL was saved as.
pub open spec fn local_faces_css(
    scoped: Seq<char>,
    faces: Seq<FontFaceView>,
    files: Seq<(String, String)>,
    display: Seq<char>,
) -> Seq<char>
    decreases faces.len(),
{
    if faces.len() == 0 {
        Seq::empty()
    } else {
        local_faces_css(scoped, faces.drop_last(), files, display) + font_face_rule(
            scoped,
            file_for(files, faces.last().src_url).unwrap(),
            faces.last(),
            display,
        )
    }
}

/// The files of the latin faces, in face order: the ones to preload.
pub open spec fn latin_preloads(faces: Seq<FontFaceView>, files: Seq<(String, String)>) -> Seq<Seq<char>>
    decreases faces.len(),
{
    if faces.len() == 0 {
        Seq::empty()
    } else {
        let r = latin_preloads(faces.drop_last(), files);
        if faces.last().is_latin {
            r.push(file_for(files, faces.last().src_url).unwrap())
        } else {
            r
        }
    }
}

fn file_for_exec(files: &[(String, String)], url: &str) -> (r: Option<String>)
    ensures
        text::opt_view(r) == file_for(files@, url@),
{
    let mut i: usize = 0;
    proof {
        assert(files@.skip(0) =~= files@);
    }
    while i < files.len()
        invariant
            i <= files@.len(),
            file_for(files@, url@) == file_for(files@.skip(i as int), url@),
        decreases files.len() - i,
    {
        proof {
            assert(files@.skip(i as int).drop_first() =~= files@.skip(i + 1));
            assert(files@.skip(i as int)[0] == files@[i as int]);
        }
        if text::str_eq(files[i].0.as_str(), url) {
            return Some(String::from_str(files[i].1.as_str()));
        }
        i += 1;
    }
    None
}

/// The `@font-face` rules serving the downloaded files, and the latin
/// files to preload; `files` maps each downloaded source URL to the file
/// it was saved as. `None` when a face's file is missing.
pub fn assemble_local_faces(
    scoped_family: &str,
    faces: &[GoogleFontFace],
    files: &[(String, String)],
    display: &str,
) -> (r: Option<(String, Vec<String>)>)
    ensures
        r is Some <==> all_saved(face_views(faces@), files@),
        r matches Some((css, pre)) ==> css@ == local_faces_css(scoped_family@, face_views(faces@), files@, display@)
            && text::views(pre@) == latin_preloads(face_views(faces@), files@),
{
    let ghost fv = face_views(faces@);
    let mut css = String::new();
    let mut pre: Vec<String> = Vec::new();
    let mut i: usize = 0;
    while i < faces.len()
        invariant
            i <= faces@.len(),
            fv == face_views(faces@),
            all_saved(fv.take(i as int), files@),
            css@ == local_faces_css(scoped_family@, fv.take(i as int), files@, display@),
            text::views(pre@) == latin_preloads(fv.take(i as int), files@),
        decreases faces.len() - i,
    {
        proof {
            assert(fv.take(i + 1).drop_last() =~= fv.take(i as int));
            assert(fv.take(i + 1).last() == fv[i as int]);
            assert(fv[i as int] == faces@[i as int]@);
        }
        let face = &faces[i];
        match file_for_exec(files, face.src_url.as_str()) {
            Some(file) => {
                let rule = local_font_face_css(scoped_family, file.as_str(), face, display);
                css.append(rule.as_str());
                if face.is_latin {
                    let ghost before = pre@;
                    pre.push(file);
                    proof {
                        assert(text::views(pre@) =~= text::views(before).push(file@));
                    }
                }
                proof {
                    assert forall|k: int| 0 <= k < fv.take(i + 1).len() implies file_for(
                        files@,
                        (#[trigger] fv.take(i + 1)[k]).src_url,
                    ) is Some by {
                        if k < i {
                            assert(fv.take(i + 1)[k] == fv.take(i as int)[k]);
                        }
                    }
                }
            },
            None => {
                proof {
                    assert(fv[i as int] == fv.take(i + 1).last());
                    assert(fv.take(faces@.len() as int)[i as int] == fv[i as int]);
                    assert(fv.take(faces@.len() as int) =~= fv);
                }
                return None;
            },
        }
        i += 1;
    }
    proof {
        assert(fv.take(i as int) =~= fv);
    }
    Some((css, pre))
}

/// Completes a font missing from the cache and records it there: its
/// `@font-face` CSS is the downloaded one, or the Google Fonts CDN
/// stylesheet when the download failed (then nothing is preloaded).
pub fn complete_font(
    cache: &mut FontCache,
    family: &str,
    weights: &[String],
    display: &str,
    variable: Option<&str>,
    fallback: &[String],
    downloaded: Option<(String, Vec<String>)>,
) -> (r: ProcessedFont)
    ensures
        r.scoped_family@ == scoped_family_spec(family@, text::views(weights@)),
        r.css@ == font_css(
            match downloaded {
                Some((css, _)) => css@,
                None => cdn_fallback_css(
                    family@,
                    text::views(weights@),
                    display@,
                    scoped_family_spec(family@, text::views(weights@)),
                ),
            },
            family@,
            text::views(fallback@),
            text::opt_str_view(variable),
            r.scoped_family@,
        ),
        text::views(r.preload_files@) == match downloaded {
            Some((_, pre)) => text::views(pre@),
            None => Seq::empty(),
        },
        ({
            let key = font_cache_key_spec(family@, text::views(weights@));
            &&& final(cache).fonts@ == old(cache).fonts@.insert(key, final(cache).fonts@[key])
            &&& final(cache).fonts@[key].scoped_family@ == r.scoped_family@
            &&& final(cache).fonts@[key].css@ == r.css@
            &&& text::views(final(cache).fonts@[key].preload_files@) == text::views(r.preload_files@)
        }),
{
    let scoped = scoped_family_name(family, weights);
    let (face_css, preloads) = match downloaded {
        Some((css, pre)) => (css, pre),
        None => {
            let none: Vec<String> = Vec::new();
            proof {
                assert(text::views(none@) =~= Seq::<Seq<char>>::empty());
            }
            (generate_cdn_fallback_css(family, weights, display, scoped.as_str()), none)
        },
    };
    let font = finish_font(family, fallback, variable, scoped, face_css, preloads);
    let copy = ProcessedFont {
        scoped_family: String::from_str(font.scoped_family.as_str()),
        css: String::from_str(font.css.as_str()),
        preload_files: text::copy_strings(&font.preload_files),
    };
    cache.store(family, weights, copy);
    font
}

/// The fonts processed so far in a build, by cache key.
pub struct FontCache {
    pub fonts: StringHashMap<ProcessedFont>,
}

impl FontCache {
    /// An empty cache.
    pub fn new() -> (r: FontCache)
        ensures
            r.fonts@ == Map::<Seq<char>, ProcessedFont>::empty(),
    {
        FontCache { fonts: StringHashMap::new() }
    }

    /// The font already processed for this family and these weights.
    pub fn lookup(&self, family: &str, weights: &[String]) -> (r: Option<&ProcessedFont>)
        ensures
            match r {
                Some(f) => self.fonts@.contains_key(font_cache_key_spec(family@, text::views(weights@)))
                    && *f == self.fonts@[font_cache_key_spec(family@, text::views(weights@))],
                None => !self.fonts@.contains_key(font_cache_key_spec(family@, text::views(weights@))),
            },
    {
        let key = font_cache_key(family, weights);
        self.fonts.get(key.as_str())
    }

    /// A copy of the font already processed for this family and these
    /// weights: a cache hit gives back exactly what was stored, and the
    /// cache is left as it is.
    pub fn cached(&self, family: &str, weights: &[String]) -> (r: Option<ProcessedFont>)
        ensures
            r is Some <==> self.fonts@.contains_key(font_cache_key_spec(family@, text::views(weights@))),
            r matches Some(f) ==> {
                let stored = self.fonts@[font_cache_key_spec(family@, text::views(weights@))];
                &&& f.scoped_family@ == stored.scoped_family@
                &&& f.css@ == stored.css@
                &&& text::views(f.preload_files@) == text::views(stored.preload_files@)
            },
    {
        match self.lookup(family, weights) {
            Some(f) => Some(
                ProcessedFont {
                    scoped_family: String::from_str(f.scoped_family.as_str()),
                    css: String::from_str(f.css.as_str()),
                    preload_files: text::copy_strings(&f.preload_files),
                },
            ),
            None => None,
        }
    }

    /// Records the font processed for this family and these weights.
    pub fn store(&mut self, family: &str, weights: &[String], font: ProcessedFont)
        ensures
            final(self).fonts@ == old(self).fonts@.insert(font_cache_key_spec(family@, text::views(weights@)), font),
    {
        let key = font_cache_key(family, weights);
        self.fonts.insert(key, font);
    }
}

/// What is stored for a font can be looked up again under the same family
/// and weights, and leaves every other entry as it was.
pub proof fn lemma_font_cache_store_lookup(
    before: Map<Seq<char>, ProcessedFont>,
    family: Seq<char>,
    weights: Seq<Seq<char>>,
    font: ProcessedFont,
    other: Seq<char>,
)
    ensures
        before.insert(font_cache_key_spec(family, weights), font).contains_key(font_cache_key_spec(family, weights)),
        before.insert(font_cache_key_spec(family, weights), font)[font_cache_key_spec(family, weights)] == font,
        other != font_cache_key_spec(family, weights) ==> before.insert(font_cache_key_spec(family, weights), font).contains_key(other) == before.contains_key(other),
{
}

} // verus!
