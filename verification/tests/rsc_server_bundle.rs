use rex_build::rsc_server_bundle::{
    add_react_core_aliases, add_react_group_aliases, apply_stub_overrides, build_base_aliases,
    client_asset_dir_from, client_assets_dir, react_core_alias_files,
};

fn alias(spec: &str, target: &str) -> (String, Vec<Option<String>>) {
    (spec.to_string(), vec![Some(target.to_string())])
}

#[test]
fn client_asset_dir_from_server_rsc_dir() {
    assert_eq!(client_asset_dir_from("/out/build/server/rsc"), "/out/build/client/assets");
}

#[test]
fn client_asset_dir_from_short_path_falls_back_to_itself() {
    assert_eq!(client_asset_dir_from("/"), "/client/assets");
}

#[test]
fn client_assets_dir_joins_client_assets() {
    assert_eq!(client_assets_dir("/b"), "/b/client/assets");
    assert_eq!(client_assets_dir("/b/"), "/b/client/assets");
}

#[test]
fn group_aliases_point_at_shims() {
    let mut aliases = vec![alias("x", "/x.ts")];
    add_react_group_aliases(&mut aliases, "/rt");
    assert_eq!(
        aliases,
        vec![
            alias("x", "/x.ts"),
            alias("react", "/rt/react-group-shim.ts"),
            alias("react/jsx-runtime", "/rt/react-jsx-group-shim.ts"),
            alias("react/jsx-dev-runtime", "/rt/react-jsx-dev-group-shim.ts"),
        ]
    );
}

#[test]
fn core_alias_files_by_mode() {
    let (bridge, dev) = react_core_alias_files("/rt", "/proj", true);
    assert_eq!(bridge, "/rt/react-server-bridge.ts");
    assert_eq!(dev, "/proj/node_modules/react/cjs/react.react-server.development.js");
    let (_, prod) = react_core_alias_files("/rt", "/proj", false);
    assert_eq!(prod, "/proj/node_modules/react/cjs/react.react-server.production.js");
}

#[test]
fn core_aliases_only_when_files_exist() {
    let mut aliases = Vec::new();
    add_react_core_aliases(&mut aliases, "/rt", "/proj", false, false);
    assert!(aliases.is_empty());
    add_react_core_aliases(&mut aliases, "/rt", "/proj", false, true);
    assert_eq!(
        aliases,
        vec![
            alias("react", "/rt/react-server-bridge.ts"),
            alias(
                "react-server-cjs-internal",
                "/proj/node_modules/react/cjs/react.react-server.production.js"
            ),
        ]
    );
}

#[test]
fn stub_overrides_replace_and_come_last() {
    let mut aliases = vec![
        alias("/p/components/Counter.tsx", "/elsewhere.ts"),
        alias("react", "/rt/bridge.ts"),
        alias("/p/components/Counter.tsx", "/again.ts"),
    ];
    let stubs = vec![
        ("/p/components/Counter.tsx".to_string(), "/stubs/Counter.js".to_string()),
        ("/p/components/Nav.tsx".to_string(), "/stubs/Nav.js".to_string()),
    ];
    apply_stub_overrides(&mut aliases, &stubs);
    assert_eq!(
        aliases,
        vec![
            alias("react", "/rt/bridge.ts"),
            alias("/p/components/Counter.tsx", "/stubs/Counter.js"),
            alias("/p/components/Nav.tsx", "/stubs/Nav.js"),
        ]
    );
}

#[test]
fn stub_overrides_without_stubs_change_nothing() {
    let mut aliases = vec![alias("react", "/rt/bridge.ts")];
    apply_stub_overrides(&mut aliases, &[]);
    assert_eq!(aliases, vec![alias("react", "/rt/bridge.ts")]);
}

#[test]
fn base_aliases_order_and_filters() {
    let r = build_base_aliases(
        vec![alias("rex/actions", "/rt/actions.ts")],
        vec![alias("fs", "/rt/fs.ts")],
        vec![alias("/p/post.mdx", "/out/post.jsx")],
        vec![alias("rex", "/p/rex"), alias("@/*", "/p/src/*")],
        "/rt",
        true,
    );
    assert_eq!(
        r,
        vec![
            alias("rex/actions", "/rt/actions.ts"),
            alias("fs", "/rt/fs.ts"),
            alias("/p/post.mdx", "/out/post.jsx"),
            alias("@/*", "/p/src/*"),
            alias("react-dom", "/rt/react-dom-server-stub.ts"),
            alias("react-dom/client", "/rt/react-dom-server-stub.ts"),
            alias("react-dom/server", "/rt/react-dom-server-stub.ts"),
        ]
    );
    let r = build_base_aliases(vec![], vec![], vec![], vec![], "/rt", false);
    assert!(r.is_empty());
}
