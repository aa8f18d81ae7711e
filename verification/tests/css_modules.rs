use rex_build::css_modules::{
    build_class_map, css_module_hash, css_module_stem, generate_css_module_proxy, parse_css_classes,
    proxy_module_name, rewrite_css_module_import, rewritten_page_name, scope_css, scope_css_module,
};

#[test]
fn test_css_module_hash_deterministic() {
    let path = "/app/Button.module.css";
    assert_eq!(css_module_hash(path), css_module_hash(path));
}

#[test]
fn test_css_module_hash_differs() {
    let a = css_module_hash("/app/Button.module.css");
    let b = css_module_hash("/app/Card.module.css");
    assert_ne!(a, b);
}

#[test]
fn test_css_module_stem_basic() {
    assert_eq!(css_module_stem("Button.module.css"), "Button");
}

#[test]
fn test_css_module_stem_fallback() {
    assert_eq!(css_module_stem(""), "module");
}

#[test]
fn test_parse_css_classes_from_selectors() {
    let css = r#"
.container { padding: 20px; }
.title { font-size: 24px; }
.btn-primary { background: blue; }
.btn-primary:hover { background: darkblue; }
/* .commented { display: none; } */
"#;
    let classes = parse_css_classes(css);
    assert!(classes.contains(&"container".to_string()));
    assert!(classes.contains(&"title".to_string()));
    assert!(classes.contains(&"btn-primary".to_string()));
}

#[test]
fn test_scope_css_rewrites_classes() {
    let css = ".container { padding: 20px; }\n.title { font-size: 24px; }\n";
    let class_map = vec![
        ("container".to_string(), "Home_container_abc".to_string()),
        ("title".to_string(), "Home_title_abc".to_string()),
    ];
    let scoped = scope_css(css, &class_map);
    assert!(scoped.contains(".Home_container_abc"));
    assert!(scoped.contains(".Home_title_abc"));
    assert!(!scoped.contains(".container"));
    assert!(!scoped.contains(".title"));
}

#[test]
fn test_generate_css_module_proxy_content() {
    let class_map = vec![
        ("container".to_string(), "Home_container_abc".to_string()),
        ("title".to_string(), "Home_title_abc".to_string()),
    ];
    let proxy = generate_css_module_proxy(&class_map);
    assert!(proxy.contains("\"container\": \"Home_container_abc\""));
    assert!(proxy.contains("\"title\": \"Home_title_abc\""));
    assert!(proxy.contains("export default"));
}

#[test]
fn parsed_classes_are_unique_and_skip_comments() {
    let classes = parse_css_classes(".a { }\n.a:hover { }\n/* .b { } */\n.c.d { }\n");
    assert_eq!(classes.iter().filter(|c| *c == "a").count(), 1);
    assert!(!classes.contains(&"b".to_string()));
    assert!(classes.contains(&"c".to_string()));
    assert!(classes.contains(&"d".to_string()));
}

#[test]
fn css_module_hash_is_eight_hex_digits() {
    let h = css_module_hash("/app/Button.module.css");
    assert_eq!(h.len(), 8);
    assert!(h.chars().all(|c| c.is_ascii_hexdigit() && !c.is_ascii_uppercase()));
}

#[test]
fn class_map_scopes_with_stem_and_hash() {
    let classes = vec!["btn".to_string(), "btn-primary".to_string()];
    let map = build_class_map(&classes, "Button", "1a2b3c4d");
    assert_eq!(
        map,
        vec![
            ("btn".to_string(), "Button_btn_1a2b3c4d".to_string()),
            ("btn-primary".to_string(), "Button_btn-primary_1a2b3c4d".to_string()),
        ]
    );
}

#[test]
fn scope_css_module_end_to_end() {
    let path = "/app/components/Button.module.css";
    let css = ".btn { color: red; }\n.btn-primary { color: blue; }\n";
    let scoped = scope_css_module(path, css, "abcdef12");
    let hash = css_module_hash(path);
    assert_eq!(scoped.css_filename, "Button.module-abcdef12.css");
    assert_eq!(
        scoped.class_map,
        vec![
            ("btn".to_string(), format!("Button_btn_{hash}")),
            ("btn-primary".to_string(), format!("Button_btn-primary_{hash}")),
        ]
    );
    assert_eq!(
        scoped.scoped_css,
        format!(".Button_btn_{hash} {{ color: red; }}\n.Button_btn-primary_{hash} {{ color: blue; }}\n")
    );
}

#[test]
fn proxy_and_page_names() {
    assert_eq!(proxy_module_name("/app/components/Button.module.css"), "Button.module.css.js");
    let page = "/app/pages/index.tsx";
    assert_eq!(rewritten_page_name(page), format!("{}_index.tsx", css_module_hash(page)));
}

#[test]
fn css_module_import_rewritten_everywhere() {
    let src = "import styles from './Button.module.css';\n// './Button.module.css'\n";
    let out = rewrite_css_module_import(src, "./Button.module.css", "/tmp/_css_modules/Button.module.css.js");
    assert_eq!(
        out,
        "import styles from '/tmp/_css_modules/Button.module.css.js';\n// '/tmp/_css_modules/Button.module.css.js'\n"
    );
}

#[test]
fn css_module_import_with_empty_specifier_matches_everywhere() {
    assert_eq!(rewrite_css_module_import("ab", "", "X"), "XaXbX");
    assert_eq!(rewrite_css_module_import("", "", "X"), "X");
}

#[test]
fn parsed_classes_are_selectors_of_the_stylesheet() {
    let css = ".a-1 { } ._b:hover { } .a-1 .c { } /* .hidden */ .9x { } .x.y { }";
    let classes = parse_css_classes(css);
    assert_eq!(classes, vec!["a-1", "_b", "c", "x", "y"]);
    for (i, c) in classes.iter().enumerate() {
        let first = c.as_bytes()[0];
        assert!(first.is_ascii_alphabetic() || first == b'_');
        assert!(c.bytes().all(|b| b.is_ascii_alphanumeric() || b == b'_' || b == b'-'));
        assert!(css.contains(&format!(".{c}")));
        assert!(!classes[i + 1..].contains(c));
    }
}

#[test]
fn a_comment_between_rules_hides_its_classes() {
    let css = ".a { color: red; }\n/* .hidden { x: 1 } .a2 {} */\n.b:hover { color: blue; }\n";
    assert_eq!(parse_css_classes(css), vec!["a".to_string(), "b".to_string()]);
}
