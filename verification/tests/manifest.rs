use rex_build::manifest::{css_output_name, AssetManifest, DataStrategy};

#[test]
fn new_manifest_is_empty() {
    let m = AssetManifest::new("abc123".to_string());
    assert_eq!(m.build_id, "abc123");
    assert!(m.pages.is_empty());
    assert!(m.app_script.is_none());
    assert!(m.global_css.is_empty());
    assert!(m.middleware_matchers.is_none());
    assert!(m.server_actions.is_empty());
}

#[test]
fn add_page_records_chunk_and_strategy() {
    let mut m = AssetManifest::new("b".to_string());
    m.add_page("/about", "about-abcd1234.js", DataStrategy::GetStaticProps);
    let p = m.page("/about").unwrap();
    assert_eq!(p.js, "about-abcd1234.js");
    assert!(p.css.is_empty());
    assert_eq!(p.data_strategy, DataStrategy::GetStaticProps);
}

#[test]
fn add_page_with_css_replaces_and_keeps_others() {
    let mut m = AssetManifest::new("b".to_string());
    m.add_page("/", "index-1.js", DataStrategy::NoData);
    m.add_page("/blog", "blog-1.js", DataStrategy::NoData);
    m.add_page_with_css(
        "/",
        "index-2.js",
        &["home-abcd1234.css".to_string(), "extra-abcd1234.css".to_string()],
        DataStrategy::GetServerSideProps,
    );
    assert_eq!(m.pages.len(), 2);
    assert_eq!(m.pages[0].0, "/");
    let home = m.page("/").unwrap();
    assert_eq!(home.js, "index-2.js");
    assert_eq!(home.css, vec!["home-abcd1234.css".to_string(), "extra-abcd1234.css".to_string()]);
    assert_eq!(home.data_strategy, DataStrategy::GetServerSideProps);
    assert_eq!(m.page("/blog").unwrap().js, "blog-1.js");
}

#[test]
fn css_output_name_uses_stem_and_hash() {
    assert_eq!(css_output_name("/app/styles/globals.css", "abcd1234"), "globals-abcd1234.css");
    assert_eq!(css_output_name("/", "abcd1234"), "-abcd1234.css");
}
