use rex_build::paths::path_key;
use rex_build::transform::{is_css_import, strip_css_imports, TransformCache};
use std::cell::Cell;

#[test]
fn css_import_lines() {
    assert!(is_css_import("import \"./foo.css\";"));
    assert!(is_css_import("import styles from './foo.module.scss';"));
    assert!(!is_css_import("import x from './foo';"));
    assert!(!is_css_import("export './a.css';"));
}

#[test]
fn stripping_keeps_line_numbers() {
    let code = "import './a.css';\nconst x = 1;\nimport s from \"./b.less\";\n";
    assert_eq!(strip_css_imports(code), "\nconst x = 1;\n\n");
}

#[test]
fn cache_hits_until_source_changes_or_invalidation() {
    let calls = Cell::new(0);
    let mut cache = TransformCache::new();
    let compile = |src: &str, name: &str| -> Result<String, String> {
        calls.set(calls.get() + 1);
        Ok(format!("{name}:{src}"))
    };
    assert_eq!(cache.transform("/p/a.tsx", "one", &compile), Ok("a.tsx:one\n".to_string()));
    assert_eq!(cache.transform("/p/a.tsx", "one", &compile), Ok("a.tsx:one\n".to_string()));
    assert_eq!(calls.get(), 1);
    assert_eq!(cache.get_cached("/p/a.tsx"), Some("a.tsx:one\n".to_string()));
    assert_eq!(cache.transform("/p/a.tsx", "two", &compile), Ok("a.tsx:two\n".to_string()));
    assert_eq!(calls.get(), 2);
    cache.invalidate("/p/a.tsx");
    assert_eq!(cache.get_cached("/p/a.tsx"), None);
    assert_eq!(cache.transform("/p/a.tsx", "two", &compile), Ok("a.tsx:two\n".to_string()));
    assert_eq!(calls.get(), 3);
}

#[test]
fn failed_transform_is_not_cached() {
    let mut cache = TransformCache::default();
    let fail = |_: &str, _: &str| -> Result<String, String> { Err("bad".to_string()) };
    assert_eq!(cache.transform("/p/b.tsx", "x", fail), Err("Failed to transform /p/b.tsx: bad".to_string()));
    assert_eq!(cache.get_cached("/p/b.tsx"), None);
}

#[test]
fn paths_equal_by_components_share_an_entry() {
    let mut cache = TransformCache::new();
    let compile = |src: &str, name: &str| -> Result<String, String> { Ok(format!("{name}:{src}")) };
    assert_eq!(cache.transform("src/./a.tsx", "one", compile), Ok("a.tsx:one\n".to_string()));
    assert_eq!(cache.get_cached("src/a.tsx"), Some("a.tsx:one\n".to_string()));
    assert_eq!(cache.get_cached("src//a.tsx/"), Some("a.tsx:one\n".to_string()));
    assert_eq!(cache.get_cached("./src/a.tsx"), None);
    cache.invalidate("src/a.tsx");
    assert_eq!(cache.get_cached("src/./a.tsx"), None);
}

#[test]
fn path_keys_follow_components() {
    assert_eq!(path_key("/p/./a//b/"), "/p/a/b");
    assert_eq!(path_key("./a/./b"), "./a/b");
    assert_eq!(path_key("."), "./");
    assert_eq!(path_key("a/../b"), "a/../b");
    assert_eq!(path_key(""), "");
}

#[test]
fn transformed_output_drops_css_imports() {
    let mut cache = TransformCache::new();
    let compile = |src: &str, _: &str| -> Result<String, String> { Ok(format!("import './x.css';\n{src}")) };
    assert_eq!(cache.transform("/p/c.tsx", "const a = 1;", compile), Ok("\nconst a = 1;\n".to_string()));
    assert_eq!(cache.get_cached("/p/c.tsx"), Some("\nconst a = 1;\n".to_string()));
}
