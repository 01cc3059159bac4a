use nocli::manifest::{
    add_arguments, feature_list, features_in, is_path_dependency_in, locked_version_in,
    require_cargo_project, ManifestError,
};

#[test]
fn a_project_needs_its_manifest() {
    assert!(require_cargo_project(true).is_ok());
    match require_cargo_project(false) {
        Err(e) => assert_eq!(
            e.text("Cargo.toml"),
            "no Cargo.toml here — run this from the root of your project"
        ),
        Ok(()) => panic!("no manifest, no project"),
    }
}

#[test]
fn reads_the_features_already_asked_for() {
    let manifest = "[package]\nname = \"app\"\n\n[dependencies]\nnocomponents = { version = \"0.1\", features = [\"theme\", \"button\", 3, \"button\"] }\n";
    assert_eq!(features_in(manifest).unwrap(), vec!["button", "theme"]);
    assert!(features_in("[dependencies]\nleptos = \"0.8\"\n").unwrap().is_empty());
    assert!(features_in("").unwrap().is_empty());
    let table_form = "[dependencies.nocomponents]\nversion = \"0.1\"\nfeatures = [\"icons\"]\n";
    assert_eq!(features_in(table_form).unwrap(), vec!["icons"]);
}

#[test]
fn a_manifest_that_is_not_toml_is_an_error() {
    match features_in("this is = = not toml") {
        Err(e) => {
            assert!(matches!(e, ManifestError::Unparsable { .. }));
            assert!(e.text("Cargo.toml").starts_with("parsing Cargo.toml: "));
        }
        Ok(_) => panic!("not toml"),
    }
    assert!(is_path_dependency_in("[[[").is_err());
    assert!(locked_version_in("[[[").is_err());
}

#[test]
fn tells_a_path_dependency() {
    assert!(is_path_dependency_in("[dependencies]\nnocomponents = { path = \"../nc\" }\n").unwrap());
    assert!(!is_path_dependency_in("[dependencies]\nnocomponents = \"0.1\"\n").unwrap());
    assert!(!is_path_dependency_in("[package]\nname = \"x\"\n").unwrap());
}

#[test]
fn reads_the_version_the_lock_resolved() {
    let lock = "version = 4\n\n[[package]]\nname = \"leptos\"\nversion = \"0.8.0\"\n\n[[package]]\nname = \"nocomponents\"\nversion = \"0.3.1\"\n";
    assert_eq!(locked_version_in(lock).unwrap().as_deref(), Some("0.3.1"));
    assert_eq!(locked_version_in("version = 4\n").unwrap(), None);
    let unresolved = "[[package]]\nname = \"leptos\"\nversion = \"0.8.0\"\n";
    assert_eq!(locked_version_in(unresolved).unwrap(), None);
}

#[test]
fn cargo_add_is_asked_for_the_features_comma_separated() {
    let fs = vec!["button".to_string(), "icons".to_string()];
    assert_eq!(feature_list(&fs), "button,icons");
    assert_eq!(feature_list(&vec![]), "");
    assert_eq!(
        add_arguments(&fs),
        vec!["add", "nocomponents", "--features", "button,icons"]
    );
}
