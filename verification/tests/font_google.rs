use rex_build::font_google::{
    build_font_object, build_google_fonts_param, default_fallback, extract_css_property, extract_css_url,
    fallback_for_lowercase, finish_font, font_cache_key, font_file_name, generate_cdn_fallback_css,
    google_fonts_css_url, local_font_face_css, parse_google_font_css, scoped_family_name, FontCache,
    assemble_local_faces, complete_font, font_downloads, GoogleFontFace,
};
use rex_build::ids::short_hash;

#[test]
fn test_build_google_fonts_param_single_weight() {
    assert_eq!(build_google_fonts_param("Inter", &["400".to_string()]), "Inter:wght@400");
}

#[test]
fn test_build_google_fonts_param_multiple_weights() {
    assert_eq!(
        build_google_fonts_param("Roboto", &["400".to_string(), "700".to_string()]),
        "Roboto:wght@400;700"
    );
}

#[test]
fn test_build_google_fonts_param_variable() {
    assert_eq!(build_google_fonts_param("Inter", &["variable".to_string()]), "Inter:wght@100..900");
}

#[test]
fn test_build_google_fonts_param_spaces() {
    assert_eq!(build_google_fonts_param("Open Sans", &["400".to_string()]), "Open+Sans:wght@400");
}

#[test]
fn test_parse_google_font_css() {
    let css = r#"/* latin-ext */
@font-face {
  font-family: 'Inter';
  font-style: normal;
  font-weight: 400;
  font-display: swap;
  src: url(https://fonts.gstatic.com/s/inter/v18/abc.woff2) format('woff2');
  unicode-range: U+0100-02BA;
}
/* latin */
@font-face {
  font-family: 'Inter';
  font-style: normal;
  font-weight: 400;
  font-display: swap;
  src: url(https://fonts.gstatic.com/s/inter/v18/def.woff2) format('woff2');
  unicode-range: U+0000-00FF;
}
"#;
    let faces = parse_google_font_css(css);
    assert_eq!(faces.len(), 2);
    assert_eq!(faces[0].src_url, "https://fonts.gstatic.com/s/inter/v18/abc.woff2");
    assert!(!faces[0].is_latin);
    assert!(faces[1].is_latin);
    assert_eq!(faces[0].weight, "400");
    assert_eq!(faces[0].style, "normal");
}

#[test]
fn test_extract_css_url() {
    let block = "  src: url(https://example.com/font.woff2) format('woff2');";
    assert_eq!(extract_css_url(block), Some("https://example.com/font.woff2".to_string()));
}

#[test]
fn test_extract_css_property() {
    let block = "  font-weight: 700;\n  font-style: italic;\n  font-display: swap;\n";
    assert_eq!(extract_css_property(block, "font-weight"), Some("700".to_string()));
    assert_eq!(extract_css_property(block, "font-style"), Some("italic".to_string()));
}

#[test]
fn test_short_hash_deterministic() {
    assert_eq!(short_hash(b"hello"), short_hash(b"hello"));
}

#[test]
fn test_short_hash_differs() {
    assert_ne!(short_hash(b"hello"), short_hash(b"world"));
}

#[test]
fn test_default_fallback() {
    assert_eq!(default_fallback("Inter"), "sans-serif");
    assert_eq!(default_fallback("Roboto Mono"), "monospace");
    assert_eq!(default_fallback("Source Code Pro"), "monospace");
    assert_eq!(default_fallback("Noto Serif"), "serif");
}

#[test]
fn test_build_font_object_basic() {
    let result = build_font_object("Inter", &[], None, "__font_Inter_abc123");
    assert!(result.contains("className: \"__font_Inter_abc123\""));
    assert!(result.contains("fontFamily:"));
    assert!(result.contains("sans-serif"));
    assert!(!result.contains("variable"));
}

#[test]
fn test_build_font_object_with_variable() {
    let result = build_font_object("Roboto", &["system-ui".to_string()], Some("--font-roboto"), "__font_Roboto_def456");
    assert!(result.contains("className: \"__font_Roboto_def456\""));
    assert!(result.contains("variable: \"--font-roboto\""));
}

#[test]
fn test_generate_cdn_fallback_css_single_weight() {
    let css = generate_cdn_fallback_css("Inter", &["400".to_string()], "swap", "__font_Inter");
    assert!(css.contains("@import url('"));
    assert!(css.contains("Inter:wght@400"));
    assert!(css.contains("font-family: '__font_Inter'"));
    assert!(css.contains("font-weight: 400"));
    assert!(css.contains("font-display: swap"));
    assert!(css.contains("src: local('Inter')"));
}

#[test]
fn test_generate_cdn_fallback_css_multiple_weights() {
    let css = generate_cdn_fallback_css("Roboto", &["400".to_string(), "700".to_string()], "block", "__font_Roboto");
    assert_eq!(css.matches("@import").count(), 1);
    assert_eq!(css.matches("@font-face").count(), 2);
    assert!(css.contains("font-weight: 400"));
    assert!(css.contains("font-weight: 700"));
    assert!(css.contains("font-display: block"));
}

#[test]
fn test_parse_google_font_css_no_faces() {
    let faces = parse_google_font_css("/* nothing here */\nbody { color: red; }");
    assert!(faces.is_empty());
}

#[test]
fn test_parse_google_font_css_missing_url() {
    let css = "@font-face { font-weight: 400; font-style: normal; }";
    let faces = parse_google_font_css(css);
    assert!(faces.is_empty());
}

#[test]
fn test_parse_google_font_css_defaults() {
    let css = r#"/* latin */
@font-face {
  src: url(https://example.com/f.woff2) format('woff2');
}
"#;
    let faces = parse_google_font_css(css);
    assert_eq!(faces.len(), 1);
    assert_eq!(faces[0].weight, "400");
    assert_eq!(faces[0].style, "normal");
    assert!(faces[0].unicode_range.is_empty());
    assert!(faces[0].is_latin);
}

#[test]
fn test_extract_css_url_quoted() {
    let block = "  src: url('https://example.com/font.woff2') format('woff2');";
    assert_eq!(extract_css_url(block), Some("https://example.com/font.woff2".to_string()));
}

#[test]
fn test_extract_css_url_none() {
    assert_eq!(extract_css_url("font-weight: 400;"), None);
}

#[test]
fn test_extract_css_property_missing() {
    let block = "font-weight: 400;";
    assert_eq!(extract_css_property(block, "font-style"), None);
}

#[test]
fn fallback_for_lowercased_names() {
    assert_eq!(fallback_for_lowercase("noto serif"), "serif");
    assert_eq!(fallback_for_lowercase("noto sans serif"), "sans-serif");
    assert_eq!(fallback_for_lowercase("fira code"), "monospace");
    assert_eq!(fallback_for_lowercase("inter"), "sans-serif");
}

#[test]
fn css_request_url_exact() {
    assert_eq!(
        google_fonts_css_url("Open Sans", &["400".to_string(), "700".to_string()], "swap"),
        "https://fonts.googleapis.com/css2?family=Open+Sans:wght@400;700&display=swap"
    );
}

#[test]
fn build_font_object_exact() {
    assert_eq!(
        build_font_object("Roboto", &["a".to_string(), "b".to_string()], Some("--v"), "__f"),
        "{ className: \"__f\", style: { fontFamily: \"'__f', a', 'b\" }, variable: \"--v\" }"
    );
}

#[test]
fn cdn_fallback_exact() {
    assert_eq!(
        generate_cdn_fallback_css("Inter", &["400".to_string()], "swap", "__s"),
        "@import url('https://fonts.googleapis.com/css2?family=Inter:wght@400&display=swap');\n\
         @font-face {\n  font-family: '__s';\n  src: local('Inter');\n  font-weight: 400;\n  font-display: swap;\n}\n"
    );
}

#[test]
fn font_face_rule_and_file_name() {
    let faces = parse_google_font_css(
        "/* latin */\n@font-face { font-weight: 700; font-style: italic; src: url(\"https://x/y.woff2\"); unicode-range: U+0000-00FF; }",
    );
    assert_eq!(faces.len(), 1);
    assert_eq!(faces[0].src_url, "https://x/y.woff2");
    let rule = local_font_face_css("__s", "f.woff2", &faces[0], "swap");
    assert_eq!(
        rule,
        "@font-face {\n  font-family: '__s';\n  src: url('/_rex/static/f.woff2') format('woff2');\n  font-weight: 700;\n  font-style: italic;\n  font-display: swap;\n  unicode-range: U+0000-00FF;\n}\n"
    );
    let name = font_file_name("https://x/y.woff2", "Open Sans", "700", "italic", "abcd1234");
    let h = short_hash(b"https://x/y.woff2");
    assert_eq!(name, format!("open-sans-700-italic-{h}-abcd1234.woff2"));
}

#[test]
fn scoped_family_and_cache_key() {
    let weights = vec!["400".to_string(), "700".to_string()];
    assert_eq!(font_cache_key("Open Sans", &weights), "Open Sans-400,700");
    let h = short_hash(b"Open Sans-400,700");
    assert_eq!(scoped_family_name("Open Sans", &weights), format!("__font_Open_Sans_{h}"));
}

#[test]
fn finished_font_css_and_cache_roundtrip() {
    let font = finish_font(
        "Inter",
        &["system-ui".to_string(), "Arial".to_string()],
        Some("--font-inter"),
        "__s".to_string(),
        "@font-face {}\n".to_string(),
        vec!["a.woff2".to_string()],
    );
    assert_eq!(
        font.css,
        "@font-face {}\n.__s { font-family: '__s', system-ui, Arial; }\n:root { --font-inter: '__s', system-ui, Arial; }\n"
    );
    let mut cache = FontCache::new();
    let weights = vec!["400".to_string()];
    assert!(cache.lookup("Inter", &weights).is_none());
    cache.store("Inter", &weights, font);
    let hit = cache.lookup("Inter", &weights).unwrap();
    assert_eq!(hit.scoped_family, "__s");
    assert_eq!(hit.preload_files, vec!["a.woff2".to_string()]);
    assert!(cache.lookup("Inter", &["700".to_string()]).is_none());
}

fn face(url: &str, weight: &str, latin: bool) -> GoogleFontFace {
    GoogleFontFace {
        src_url: url.to_string(),
        weight: weight.to_string(),
        style: "normal".to_string(),
        unicode_range: String::new(),
        is_latin: latin,
    }
}

#[test]
fn each_font_file_is_downloaded_once() {
    let faces = vec![face("https://f/a.woff2", "400", false), face("https://f/b.woff2", "400", true), face("https://f/a.woff2", "700", true)];
    assert_eq!(font_downloads(&faces), vec!["https://f/a.woff2".to_string(), "https://f/b.woff2".to_string()]);
    assert!(font_downloads(&[]).is_empty());
}

#[test]
fn local_faces_serve_saved_files_and_preload_latin_ones() {
    let faces = vec![face("https://f/a.woff2", "400", false), face("https://f/b.woff2", "700", true)];
    let files = vec![
        ("https://f/a.woff2".to_string(), "inter-400-normal-abc.woff2".to_string()),
        ("https://f/b.woff2".to_string(), "inter-700-normal-abc.woff2".to_string()),
    ];
    let (css, pre) = assemble_local_faces("__font_Inter", &faces, &files, "swap").unwrap();
    let expected = format!(
        "{}{}",
        local_font_face_css("__font_Inter", "inter-400-normal-abc.woff2", &faces[0], "swap"),
        local_font_face_css("__font_Inter", "inter-700-normal-abc.woff2", &faces[1], "swap")
    );
    assert_eq!(css, expected);
    assert_eq!(pre, vec!["inter-700-normal-abc.woff2".to_string()]);
    assert!(assemble_local_faces("__font_Inter", &faces, &files[..1], "swap").is_none());
}

#[test]
fn failed_download_falls_back_to_cdn_and_is_cached() {
    let mut cache = FontCache::new();
    let weights = vec!["400".to_string()];
    let font = complete_font(&mut cache, "Inter", &weights, "swap", None, &[], None);
    let scoped = scoped_family_name("Inter", &weights);
    assert_eq!(font.scoped_family, scoped);
    assert!(font.css.starts_with(&generate_cdn_fallback_css("Inter", &weights, "swap", &scoped)));
    assert!(font.preload_files.is_empty());
    let cached = cache.lookup("Inter", &weights).unwrap();
    assert_eq!(cached.css, font.css);

    let got = complete_font(
        &mut cache,
        "Roboto",
        &weights,
        "swap",
        Some("--font-r"),
        &[],
        Some(("@font-face{}\n".to_string(), vec!["r.woff2".to_string()])),
    );
    assert!(got.css.starts_with("@font-face{}\n."));
    assert!(got.css.contains(":root { --font-r: "));
    assert_eq!(got.preload_files, vec!["r.woff2".to_string()]);
    assert_eq!(cache.lookup("Roboto", &weights).unwrap().preload_files, vec!["r.woff2".to_string()]);
}

#[test]
fn cached_font_is_given_back_unchanged() {
    let mut cache = FontCache::new();
    let weights = vec!["400".to_string()];
    assert!(cache.cached("Inter", &weights).is_none());
    cache.store(
        "Inter",
        &weights,
        rex_build::font_google::ProcessedFont {
            scoped_family: "__font_Inter_cached".to_string(),
            css: ".cached {}".to_string(),
            preload_files: vec!["cached.woff2".to_string()],
        },
    );
    let hit = cache.cached("Inter", &weights).unwrap();
    assert_eq!(hit.scoped_family, "__font_Inter_cached");
    assert_eq!(hit.css, ".cached {}");
    assert_eq!(hit.preload_files, vec!["cached.woff2".to_string()]);
    assert!(cache.cached("Inter", &["700".to_string()]).is_none());
    assert_eq!(cache.lookup("Inter", &weights).unwrap().css, ".cached {}");
}
