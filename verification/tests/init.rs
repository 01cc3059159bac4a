use nocli::init::{init_features, project_stylesheet, trunk_toml};

#[test]
fn drops_the_docs_only_lines_and_keeps_the_rest() {
    let source = "@import url(\"https://fonts.googleapis.com/x\");\n@import \"tailwindcss\";\n@import \"./animate.css\";\n@source \"../../src\";\n\n@custom-variant dark (&:is(.dark *));\n";
    let out = project_stylesheet(source);
    assert!(!out.contains("fonts.googleapis"));
    assert!(!out.contains("@source"));
    assert!(out.contains("@import \"tailwindcss\";"));
    assert!(out.contains("@import \"./animate.css\";"));
    assert!(out.contains("@custom-variant dark"));
}

#[test]
fn the_stylesheet_is_its_kept_lines_joined() {
    let source = "a\r\n  @source \"x\";\nb\n\nc";
    assert_eq!(project_stylesheet(source), "a\nb\n\nc");
    assert_eq!(project_stylesheet(""), "");
    assert_eq!(project_stylesheet("x\n"), "x");
    assert_eq!(project_stylesheet("x\r"), "x\r");
}

#[test]
fn trunk_gets_tailwind_under_its_tools() {
    assert_eq!(trunk_toml("[tools]\nsass = \"1\"\n").as_deref(), Some("[tools]\ntailwindcss = \"4.3.0\"\nsass = \"1\"\n"));
    assert_eq!(trunk_toml("").as_deref(), Some("\n[tools]\ntailwindcss = \"4.3.0\"\n"));
    assert_eq!(trunk_toml("[build]").as_deref(), Some("[build]\n\n[tools]\ntailwindcss = \"4.3.0\"\n"));
    assert_eq!(trunk_toml("[build]\n").as_deref(), Some("[build]\n\n[tools]\ntailwindcss = \"4.3.0\"\n"));
}

#[test]
fn trunk_that_names_tailwind_is_left_alone() {
    assert_eq!(trunk_toml("[tools]\ntailwindcss = \"4.0.0\"\n"), None);
    let once = trunk_toml("[build]\n").unwrap();
    assert_eq!(trunk_toml(&once), None);
}

#[test]
fn init_asks_for_the_primitives_icons_and_theme() {
    assert_eq!(
        init_features(&vec!["button".to_string(), "icons".to_string()]),
        vec!["button", "icons", "primitives", "theme"]
    );
}
