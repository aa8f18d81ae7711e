use rex_build::use_client_detect::UseClientDetectPlugin;

#[test]
fn detects_double_quote_directive() {
    assert!(UseClientDetectPlugin::has_use_client_directive("\"use client\";\nexport default function() {}"));
}

#[test]
fn detects_single_quote_directive() {
    assert!(UseClientDetectPlugin::has_use_client_directive("'use client';\nexport default function() {}"));
}

#[test]
fn detects_directive_without_semicolon() {
    assert!(UseClientDetectPlugin::has_use_client_directive("\"use client\"\nexport default function() {}"));
}

#[test]
fn skips_comments_before_directive() {
    assert!(UseClientDetectPlugin::has_use_client_directive(
        "// comment\n\"use client\";\nexport default function() {}"
    ));
}

#[test]
fn rejects_non_directive() {
    assert!(!UseClientDetectPlugin::has_use_client_directive("export default function() {}"));
}

#[test]
fn rejects_directive_after_import() {
    assert!(!UseClientDetectPlugin::has_use_client_directive("import React from 'react';\n\"use client\";"));
}

#[test]
fn detects_minified_directive() {
    assert!(UseClientDetectPlugin::has_use_client_directive("\"use client\";import{a as ge}from\"./chunk.js\";"));
}

#[test]
fn detects_minified_single_quote_directive() {
    assert!(UseClientDetectPlugin::has_use_client_directive("'use client';import{a as ge}from'./chunk.js';"));
}

#[test]
fn generates_noop_stub() {
    let stub = UseClientDetectPlugin::generate_noop_stub(&["default".to_string(), "Button".to_string()]);
    assert!(stub.contains("export default __$N;"));
    assert!(stub.contains("export var Button = __$N;"));
}

#[test]
fn noop_stub_adds_default_when_missing() {
    let stub = UseClientDetectPlugin::generate_noop_stub(&["Button".to_string()]);
    assert_eq!(
        stub,
        "var __$N = function() { return null; };\nexport var Button = __$N;\nexport default __$N;\n"
    );
    let with_default = UseClientDetectPlugin::generate_noop_stub(&["default".to_string()]);
    assert_eq!(with_default.matches("export default").count(), 1);
}

#[test]
fn skips_block_comment_lines_and_blank_lines() {
    assert!(UseClientDetectPlugin::has_use_client_directive("\n/**\n * doc\n */\n'use client'\n"));
    assert!(!UseClientDetectPlugin::has_use_client_directive(""));
}

#[test]
fn stubs_only_node_modules_client_modules() {
    let _plugin = UseClientDetectPlugin::new();
    assert!(UseClientDetectPlugin::is_node_modules("/p/node_modules/pkg/index.js"));
    assert!(UseClientDetectPlugin::is_node_modules("C:\\p\\node_modules\\pkg\\index.js"));
    assert!(!UseClientDetectPlugin::is_node_modules("/p/src/index.js"));
    assert!(UseClientDetectPlugin::should_stub("/p/node_modules/x/a.js", "'use client';\n"));
    assert!(!UseClientDetectPlugin::should_stub("/p/src/a.js", "'use client';\n"));
    assert!(!UseClientDetectPlugin::should_stub("/p/node_modules/x/a.js", "export {}\n"));
}
