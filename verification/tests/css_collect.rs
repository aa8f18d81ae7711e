use rex_build::css_collect::{css_imports_in_source, extract_string_literal};

#[test]
fn test_extract_string_literal_single_quotes() {
    assert_eq!(extract_string_literal("import './foo.css';").as_deref(), Some("./foo.css"));
}

#[test]
fn test_extract_string_literal_double_quotes() {
    assert_eq!(extract_string_literal(r#"import "./foo.css";"#).as_deref(), Some("./foo.css"));
}

#[test]
fn test_extract_string_literal_from_syntax() {
    assert_eq!(extract_string_literal("import x from './foo';").as_deref(), Some("./foo"));
}

#[test]
fn test_extract_string_literal_no_quotes() {
    assert_eq!(extract_string_literal("import foo"), None);
}

#[test]
fn string_literal_uses_first_quote_kind() {
    assert_eq!(extract_string_literal("a \"b'c\" d").as_deref(), Some("b'c"));
    assert_eq!(extract_string_literal("a 'unterminated"), None);
}

#[test]
fn css_imports_skip_modules_and_non_imports() {
    let src = "import '../styles/globals.css';\nimport s from './a.module.css';\nconst x = 'b.css';\n  import \"./c.css\";\n";
    assert_eq!(
        css_imports_in_source(src, "/p/pages"),
        vec!["/p/pages/../styles/globals.css".to_string(), "/p/pages/./c.css".to_string()]
    );
}
