use rex_build::server_action_extract::{
    extract_inline_server_actions, extraction_ok_exec, try_extract_inline_server_actions,
    InlineServerActionPlugin,
};

#[test]
fn extracts_arrow_function_in_jsx() {
    let source = r#"import { sendMessage } from "./utils"

export default function ContactForm() {
  return (
    <form action={async (data: FormData) => {
      "use server"
      const name = data.get("name")
      sendMessage(name)
    }}>
      <input name="name" />
    </form>
  )
}"#;

    let result = extract_inline_server_actions(source, "test.tsx").unwrap();
    assert!(
        result.source.contains("export async function __rex_action_0"),
        "Should hoist the function. Got:\n{}",
        result.source
    );
    assert!(
        result.source.contains("action={__rex_action_0}"),
        "Should replace inline with reference. Got:\n{}",
        result.source
    );
    assert!(
        !result.source.contains("\"use server\""),
        "Should remove directive. Got:\n{}",
        result.source
    );
    assert_eq!(result.actions.len(), 1);
    assert_eq!(result.actions[0].name, "__rex_action_0");
}

#[test]
fn skips_module_level_use_server() {
    let source = r#""use server"

export async function myAction() {
    return 42
}
"#;
    let result = extract_inline_server_actions(source, "test.ts");
    assert!(result.is_none(), "Module-level 'use server' should be skipped");
}

#[test]
fn skips_file_without_use_server() {
    let source = r#"export default function Page() {
    return <div>Hello</div>
}
"#;
    let result = extract_inline_server_actions(source, "test.tsx");
    assert!(result.is_none());
}

#[test]
fn handles_single_quote_directive() {
    let source = r#"export default function Form() {
  return (
    <form action={async (fd) => {
      'use server'
      console.log(fd)
    }}>
      <button type="submit">Go</button>
    </form>
  )
}"#;

    let result = extract_inline_server_actions(source, "test.tsx").unwrap();
    assert!(result.source.contains("__rex_action_0"));
    assert!(!result.source.contains("'use server'"));
}

#[test]
fn preserves_function_params() {
    let source = r#"export default function Form() {
  return (
    <form action={async (data: FormData) => {
      "use server"
      const x = data.get("x")
    }}>
      <button>Submit</button>
    </form>
  )
}"#;

    let result = extract_inline_server_actions(source, "test.tsx").unwrap();
    assert!(
        result.actions[0].source.contains("(data: FormData)"),
        "Should preserve params. Got: {}",
        result.actions[0].source
    );
}

#[test]
fn extraction_hoists_after_imports_and_numbers_actions() {
    let source = "import a from 'a'\nexport default function F() {\n  return <div>\n    <form action={async () => {\n      \"use server\"\n      one()\n    }} />\n    <form action={async () => {\n      \"use server\"\n      two()\n    }} />\n  </div>\n}\n";
    let result = extract_inline_server_actions(source, "f.tsx").unwrap();
    assert_eq!(result.actions.len(), 2);
    assert_eq!(result.actions[0].name, "__rex_action_0");
    assert_eq!(result.actions[1].name, "__rex_action_1");
    let import_end = result.source.find("import a from 'a'").unwrap();
    let hoisted = result.source.find("export async function __rex_action_0").unwrap();
    assert!(import_end < hoisted);
    assert!(result.source.contains("action={__rex_action_1}"));
}

#[test]
fn checked_extraction_agrees_with_extraction() {
    let source = "export default function F() {\n  return <form action={async () => {\n    \"use server\"\n    go()\n  }} />\n}\n";
    assert!(extraction_ok_exec(source));
    let checked = try_extract_inline_server_actions(source, "f.tsx").unwrap().unwrap();
    let plain = extract_inline_server_actions(source, "f.tsx").unwrap();
    assert_eq!(checked.source, plain.source);
    assert_eq!(checked.actions.len(), plain.actions.len());
    assert!(try_extract_inline_server_actions("export const x = 1;\n", "x.ts").unwrap().is_none());
}

#[test]
fn plugin_loads_only_targets_and_registers_actions() {
    let plugin = InlineServerActionPlugin::new(
        vec!["/p/app/page.tsx".to_string()],
        "/p".to_string(),
        "build1".to_string(),
    );
    assert!(plugin.is_target("/p/app/page.tsx"));
    assert!(!plugin.is_target("/p/app/other.tsx"));
    let source = "export default function F() {\n  return <form action={async () => {\n    \"use server\"\n    go()\n  }} />\n}\n";
    assert_eq!(plugin.load_source("/p/app/other.tsx", "app/other.tsx", source), Ok(None));
    let code = plugin.load_source("/p/app/page.tsx", "app\\page.tsx", source).unwrap().unwrap();
    let id = rex_build::server_action_manifest::server_action_id("app/page.tsx", "__rex_action_0", "build1");
    assert!(code.contains(&format!("__rex_action_0.$$id = \"{id}\";")));
    assert!(code.contains("__rex_action_0.$$typeof = Symbol.for(\"react.server.reference\");"));
    assert!(code.ends_with("__rex_action_0.$$bound = null;\n"));
}

#[test]
fn template_expression_braces_do_not_hide_the_closing_brace() {
    let source = r#"export default function Page() {
  async function greet(name) {
    "use server"
    return `hi ${name}`
  }
  return <form action={greet} />
}"#;
    let result = extract_inline_server_actions(source, "page.tsx").unwrap();
    assert_eq!(result.actions.len(), 1);
    assert!(
        result.source.contains("return `hi ${name}`\n  }"),
        "The hoisted function keeps its whole body. Got:\n{}",
        result.source
    );
    assert!(result.source.contains("<form action={greet} />"), "Got:\n{}", result.source);
}

#[test]
fn module_level_directive_only_extracts_nothing() {
    let source = "// actions\n\"use server\";\nimport { db } from './db';\nexport async function save() { await db.save(); }\n";
    assert!(extract_inline_server_actions(source, "/p/actions.ts").is_none());
}

#[test]
fn every_extracted_action_is_an_exported_rex_action() {
    let source = r#"export default function Page() {
  return (
    <div>
      <form action={async () => { "use server"; await a(); }} />
      <form action={async function save(d) { 'use server'; await b(d); }} />
    </div>
  )
}"#;
    let result = extract_inline_server_actions(source, "page.tsx").unwrap();
    assert_eq!(result.actions.len(), 2);
    for a in &result.actions {
        assert!(a.name.starts_with("__rex_action_"));
        assert!(a.source.starts_with("export "));
        assert!(a.source.contains(&a.name));
        assert!(result.source.contains(&a.source));
    }
    assert_ne!(result.actions[0].name, result.actions[1].name);
}
