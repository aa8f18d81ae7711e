use rex_build::static_asset::StaticAssetPlugin;

#[test]
fn image_files_by_extension_in_any_case() {
    let _p = StaticAssetPlugin::new("/out/assets".to_string());
    assert!(StaticAssetPlugin::is_image_file("/a/b.PNG"));
    assert!(StaticAssetPlugin::is_image_file("x.jpeg"));
    assert!(!StaticAssetPlugin::is_image_file("x.png.ts"));
}

#[test]
fn content_hash_is_fnv1a() {
    assert_eq!(StaticAssetPlugin::content_hash(b""), "cbf29ce484222325");
    assert_eq!(StaticAssetPlugin::content_hash(b"a"), "af63dc4c8601ec8c");
}

#[test]
fn asset_names_and_module() {
    let name = StaticAssetPlugin::asset_file_name("/img/bg.png", b"").unwrap();
    assert_eq!(name, "bg-cbf29ce4.png");
    assert!(StaticAssetPlugin::asset_file_name("/img/noext", b"").is_none());
    assert_eq!(
        StaticAssetPlugin::asset_module_code(&name),
        "export default { src: \"/_rex/static/assets/bg-cbf29ce4.png\", height: 0, width: 0 };\n"
    );
}
