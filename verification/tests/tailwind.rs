use rex_build::tailwind::{needs_tailwind, tailwind_bin_path};

#[test]
fn tailwind_directives_detected() {
    assert!(needs_tailwind("@import \"tailwindcss\";\n"));
    assert!(needs_tailwind("body {}\n  @tailwind base;\n"));
    assert!(needs_tailwind("@import 'tailwindcss' layer(x);"));
    assert!(!needs_tailwind("@import \"./other.css\";\n@tailwindcss;\n"));
}

#[test]
fn tailwind_bin_location() {
    assert_eq!(tailwind_bin_path("/p"), "/p/node_modules/.bin/tailwindcss");
}
