use rex_build::string_set::StringSet;
use rex_build::tailwind_scan::{is_candidate, parse_source_directives, scan_source, split_glob_base, unquote};

#[test]
fn test_scan_simple_classname() {
    let mut candidates = StringSet::new();
    scan_source(r#"className="bg-red-500 p-4 text-white""#, &mut candidates);
    assert!(candidates.contains("bg-red-500"));
    assert!(candidates.contains("p-4"));
    assert!(candidates.contains("text-white"));
}

#[test]
fn test_scan_template_literal() {
    let mut candidates = StringSet::new();
    scan_source(r#"className={`bg-blue-500 ${foo} mt-2`}"#, &mut candidates);
    assert!(candidates.contains("bg-blue-500"));
    assert!(candidates.contains("mt-2"));
}

#[test]
fn test_scan_clsx() {
    let mut candidates = StringSet::new();
    scan_source(r#"cn("flex items-center", active && "bg-gray-100")"#, &mut candidates);
    assert!(candidates.contains("flex"));
    assert!(candidates.contains("items-center"));
    assert!(candidates.contains("bg-gray-100"));
}

#[test]
fn test_scan_deduplication() {
    let mut candidates = StringSet::new();
    scan_source(r#"className="p-4 p-4 p-4""#, &mut candidates);
    assert_eq!(candidates.to_vec().iter().filter(|c| *c == "p-4").count(), 1);
}

#[test]
fn test_scan_negative_utilities() {
    let mut candidates = StringSet::new();
    scan_source(r#"className="-mx-4 -translate-x-1/2""#, &mut candidates);
    assert!(candidates.contains("-mx-4"));
    assert!(candidates.contains("-translate-x-1/2"));
}

#[test]
fn test_scan_variant_prefixes() {
    let mut candidates = StringSet::new();
    scan_source(r#"className="hover:bg-blue-500 sm:text-lg dark:text-white""#, &mut candidates);
    assert!(candidates.contains("hover:bg-blue-500"));
    assert!(candidates.contains("sm:text-lg"));
    assert!(candidates.contains("dark:text-white"));
}

#[test]
fn test_scan_arbitrary_values() {
    let mut candidates = StringSet::new();
    scan_source(r#"className="w-[200px] bg-[#ff0000]""#, &mut candidates);
    assert!(candidates.contains("w-[200px]"));
    assert!(candidates.contains("bg-[#ff0000]"));
}

#[test]
fn test_scan_arbitrary_values_with_parentheses() {
    let mut candidates = StringSet::new();
    scan_source(
        r#"className="text-[var(--color-accent)] w-[calc(100%-2rem)] bg-[image:theme(colors.red)]""#,
        &mut candidates,
    );
    assert!(
        candidates.contains("text-[var(--color-accent)]"),
        "var() arbitrary value must survive, got: {:?}",
        candidates.to_vec()
    );
    assert!(
        candidates.contains("w-[calc(100%-2rem)]"),
        "calc() arbitrary value must survive, got: {:?}",
        candidates.to_vec()
    );
    assert!(
        candidates.contains("bg-[image:theme(colors.red)]"),
        "theme() arbitrary value must survive, got: {:?}",
        candidates.to_vec()
    );
}

#[test]
fn test_scan_variant_arbitrary_value_with_parens() {
    let mut candidates = StringSet::new();
    scan_source(r#"<a className="hover:text-[var(--color-accent)]">link</a>"#, &mut candidates);
    assert!(
        candidates.contains("hover:text-[var(--color-accent)]"),
        "variant + parenthesized arbitrary value must survive, got: {:?}",
        candidates.to_vec()
    );
}

#[test]
fn test_scan_clsx_with_conditional_and_parens() {
    let mut candidates = StringSet::new();
    scan_source(r#"cn("flex", x && "p-4")"#, &mut candidates);
    assert!(candidates.contains("flex"));
    assert!(candidates.contains("p-4"));
    assert!(!candidates.contains("cn("));
}

#[test]
fn test_scan_filters_short_tokens() {
    let mut candidates = StringSet::new();
    scan_source(r#"a = b + c"#, &mut candidates);
    assert!(!candidates.contains(""));
}

#[test]
fn test_is_candidate_valid() {
    assert!(is_candidate("bg-red-500"));
    assert!(is_candidate("p-4"));
    assert!(is_candidate("-mx-4"));
    assert!(is_candidate("hover:bg-blue-500"));
    assert!(is_candidate("!important"));
    assert!(is_candidate("@container"));
}

#[test]
fn test_is_candidate_invalid() {
    assert!(!is_candidate(""));
    assert!(!is_candidate("123abc"));
    assert!(!is_candidate("//comment"));
}

#[test]
fn test_parse_source_directives() {
    let css = "@import \"tailwindcss\";\n\
               @source \"../shared\";\n\
               @source inline(\"foo bar\");\n\
               @source not \"../excluded\";\n";
    assert_eq!(
        parse_source_directives(css),
        vec![
            "\"../shared\"".to_string(),
            "inline(\"foo bar\")".to_string(),
            "not \"../excluded\"".to_string(),
        ]
    );
}

#[test]
fn test_parse_source_directives_ignores_non_directive_token() {
    let css = "@sources nothing;\n@source \"./real\";\n";
    assert_eq!(parse_source_directives(css), vec!["\"./real\"".to_string()]);
}

#[test]
fn test_unquote() {
    assert_eq!(unquote("\"abc\"").as_deref(), Some("abc"));
    assert_eq!(unquote("'abc'").as_deref(), Some("abc"));
    assert_eq!(unquote("  \"abc\"  ").as_deref(), Some("abc"));
    assert_eq!(unquote("abc"), None);
    assert_eq!(unquote("\"unterminated"), None);
}

#[test]
fn test_split_glob_base() {
    assert_eq!(
        split_glob_base("../shared/src/components"),
        ("../shared/src/components".to_string(), false)
    );
    assert_eq!(
        split_glob_base("../shared/src/**/*.{ts,tsx}"),
        ("../shared/src".to_string(), true)
    );
    assert_eq!(split_glob_base("../shared/*.tsx"), ("../shared".to_string(), true));
}

#[test]
fn scanned_candidates_all_pass_the_candidate_filter() {
    let mut candidates = StringSet::new();
    scan_source("<div className=\"p-4 1bad //x ok\">{`m-2`}</div>", &mut candidates);
    for c in candidates.to_vec() {
        assert!(is_candidate(&c), "{c} should be a candidate");
    }
    assert!(!candidates.contains("1bad"));
}
