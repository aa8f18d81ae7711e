use rex_build::manifest::DataStrategy;
use rex_build::page_exports::{data_strategy_from_exports, has_static_paths_from_exports};

fn names(v: &[&str]) -> Vec<String> {
    v.iter().map(|s| s.to_string()).collect()
}

#[test]
fn data_strategy_follows_exported_data_function() {
    assert_eq!(data_strategy_from_exports(&names(&["default", "getServerSideProps"])), Ok(DataStrategy::GetServerSideProps));
    assert_eq!(data_strategy_from_exports(&names(&["getStaticProps", "default"])), Ok(DataStrategy::GetStaticProps));
    assert_eq!(data_strategy_from_exports(&names(&["default"])), Ok(DataStrategy::NoData));
    assert_eq!(data_strategy_from_exports(&names(&[])), Ok(DataStrategy::NoData));
}

#[test]
fn both_data_functions_are_an_error() {
    assert_eq!(
        data_strategy_from_exports(&names(&["getStaticProps", "getServerSideProps"])),
        Err("Page exports both getStaticProps and getServerSideProps".to_string())
    );
}

#[test]
fn static_paths_detected_by_name() {
    assert!(has_static_paths_from_exports(&names(&["default", "getStaticPaths"])));
    assert!(!has_static_paths_from_exports(&names(&["default", "getStaticProps"])));
}
