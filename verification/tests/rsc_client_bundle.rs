use rex_build::ids::client_reference_id;
use rex_build::rsc_build_config::sanitize_filename;
use rex_build::rsc_client_bundle::{rsc_client_outputs, RscOutput};

fn chunk(filename: &str, is_entry: bool, name: &str) -> RscOutput {
    RscOutput { filename: filename.to_string(), is_chunk: true, is_entry, name: name.to_string() }
}

#[test]
fn bootstrap_first_and_component_rows() {
    let rel = "components/Counter.tsx".to_string();
    let name = sanitize_filename(&rel);
    let outputs = vec![
        chunk("react-abc.js", false, "react"),
        chunk(&format!("{name}-abc.js"), true, &name),
        RscOutput { filename: "logo.png".to_string(), is_chunk: false, is_entry: false, name: String::new() },
        chunk("hydrate-abc.js", true, "__rsc_hydrate"),
        chunk("other-abc.js", true, "unknown"),
    ];
    let boundaries = vec![(rel.clone(), vec!["default".to_string(), "Counter".to_string()])];
    let (files, rows) = rsc_client_outputs(&outputs, &boundaries, "b1");
    assert_eq!(
        files,
        vec![
            "rsc/hydrate-abc.js".to_string(),
            "rsc/react-abc.js".to_string(),
            format!("rsc/{name}-abc.js"),
            "rsc/logo.png".to_string(),
            "rsc/other-abc.js".to_string(),
        ]
    );
    let url = format!("/_rex/static/rsc/{name}-abc.js");
    assert_eq!(
        rows,
        vec![
            (client_reference_id(&rel, "default", "b1"), url.clone(), "default".to_string()),
            (client_reference_id(&rel, "Counter", "b1"), url, "Counter".to_string()),
        ]
    );
}

#[test]
fn no_outputs_no_rows() {
    let (files, rows) = rsc_client_outputs(&[], &[], "b");
    assert!(files.is_empty() && rows.is_empty());
}
