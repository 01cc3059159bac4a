use nocli::remote::{
    catalogue_names, check_status, component_path, contents_url, raw_url, release_tag, resolve,
    stylesheet_path, Resolution, StatusCheck, AGENT,
};

#[test]
fn the_repository_is_read_at_a_tag() {
    assert_eq!(
        raw_url("v0.3.1", "src/components/button.rs"),
        "https://raw.githubusercontent.com/notreallyuri/nocomponents/v0.3.1/src/components/button.rs"
    );
    assert_eq!(
        contents_url("v0.3.1", "src/components"),
        "https://api.github.com/repos/notreallyuri/nocomponents/contents/src/components?ref=v0.3.1"
    );
    assert_eq!(component_path("button"), "src/components/button.rs");
    assert_eq!(stylesheet_path("globals.css"), "docs/styles/globals.css");
    assert_eq!(release_tag("0.3.1"), "v0.3.1");
    assert_eq!(AGENT, "nocomponents-cli");
}

#[test]
fn the_release_comes_from_the_project() {
    assert!(matches!(resolve(true, Some("1.0.0".to_string())), Resolution::RefusePath));
    match resolve(false, Some("0.3.1".to_string())) {
        Resolution::Tag(t) => assert_eq!(t, "v0.3.1"),
        _ => panic!("the lock decides"),
    }
    assert!(matches!(resolve(false, None), Resolution::AskLatest));
}

#[test]
fn a_status_is_success_not_found_or_failure() {
    assert_eq!(check_status(200), StatusCheck::Success);
    assert_eq!(check_status(299), StatusCheck::Success);
    assert_eq!(check_status(404), StatusCheck::NotFound);
    assert_eq!(check_status(500), StatusCheck::Failed);
    assert_eq!(check_status(301), StatusCheck::Failed);
}

#[test]
fn the_catalogue_is_the_rust_files_but_mod_sorted() {
    let entries: Vec<String> = ["dialog.rs", "mod.rs", "button.rs", "README.md", "x.rs.rs"]
        .iter()
        .map(|s| s.to_string())
        .collect();
    assert_eq!(catalogue_names(&entries), vec!["button", "dialog", "x"]);
}
