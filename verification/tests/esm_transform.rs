use rex_build::esm_transform::{
    dep_specifiers, extract_server_actions_if_needed, is_asset_file, is_image_asset, is_mdx_file,
    register_extracted_actions,
};
use rex_build::server_action_manifest::server_action_id;

#[test]
fn dep_specifiers_pages_only() {
    let specs = dep_specifiers(false, &[]);
    assert!(specs.contains("react"));
    assert!(specs.contains("react/jsx-runtime"));
    assert!(!specs.contains("react-server-dom-webpack/server"));
}

#[test]
fn dep_specifiers_with_app() {
    let specs = dep_specifiers(true, &[]);
    assert!(specs.contains("react"));
    assert!(specs.contains("react-server-dom-webpack/server"));
}

#[test]
fn dep_specifiers_include_polyfill_aliases() {
    let aliases = vec![("fs".to_string(), vec![Some("/rt/fs.ts".to_string())])];
    let specs = dep_specifiers(false, &aliases);
    assert!(specs.contains("fs"));
    assert_eq!(specs.len(), 5);
}

#[test]
fn asset_kinds() {
    assert!(is_asset_file("/a/b.PNG"));
    assert!(is_asset_file("x.json"));
    assert!(!is_asset_file("x.tsx"));
    assert!(is_image_asset("y.Svg"));
    assert!(!is_image_asset("y.css"));
    assert!(is_mdx_file("p/page.mdx"));
    assert!(!is_mdx_file("p/page.MDX"));
}

#[test]
fn registrations_record_ids() {
    let mut extracted = Vec::new();
    let suffix = register_extracted_actions("app/p.tsx", &["__rex_action_0".to_string()], "b", &mut extracted);
    let id = server_action_id("app/p.tsx", "__rex_action_0", "b");
    assert_eq!(
        suffix,
        format!(
            "\n__rex_action_0.$$typeof = Symbol.for(\"react.server.reference\");\n__rex_action_0.$$id = \"{id}\";\n__rex_action_0.$$bound = null;\n"
        )
    );
    assert_eq!(extracted.len(), 1);
    assert_eq!(extracted[0].action_id, id);
}

#[test]
fn extraction_needed_only_with_build_id_and_directive() {
    let mut src = "export const x = 1;\n".to_string();
    let mut extracted = Vec::new();
    assert_eq!(extract_server_actions_if_needed(&mut src, "a.ts", Some("b"), &mut extracted), Ok(String::new()));
    let inline = "export default function F() {\n  return <form action={async () => {\n    \"use server\"\n    go()\n  }} />\n}\n";
    let mut src = inline.to_string();
    assert_eq!(extract_server_actions_if_needed(&mut src, "a.tsx", None, &mut extracted), Ok(String::new()));
    assert_eq!(src, inline);
    let suffix = extract_server_actions_if_needed(&mut src, "a.tsx", Some("b"), &mut extracted).unwrap();
    assert!(src.contains("action={__rex_action_0}"));
    assert!(suffix.contains("__rex_action_0.$$bound = null;"));
    assert_eq!(extracted.len(), 1);
}
