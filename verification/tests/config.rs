use nocli::config::{Config, ConfigError, PathConfig, CONFIG_FILE};

fn at(components: &str) -> Config {
    Config {
        paths: PathConfig {
            components: components.to_string(),
        },
        ..Config::default()
    }
}

#[test]
fn derives_the_module_path_from_the_install_directory() {
    assert_eq!(
        at("src/components/nc").rust_path().unwrap(),
        "crate::components::nc"
    );
    assert_eq!(at("./src/ui/").rust_path().unwrap(), "crate::ui");
    assert_eq!(at("src/a/b/c").rust_path().unwrap(), "crate::a::b::c");
}

#[test]
fn refuses_a_directory_with_no_module_path() {
    assert!(at("components/nc").rust_path().is_err());
    assert!(at("src").rust_path().is_err());
}

#[test]
fn a_fresh_config_points_at_the_usual_places() {
    let c = Config::default();
    assert_eq!(c.style.css, "styles/globals.css");
    assert_eq!(c.paths.components, "src/components/nc");
    assert_eq!(CONFIG_FILE, "nocomponents.toml");
}

#[test]
fn empty_segments_are_dropped_from_the_module_path() {
    assert_eq!(at("src//ui///x").rust_path().unwrap(), "crate::ui::x");
    assert_eq!(at("././src/ui").rust_path().unwrap(), "crate::ui");
}

#[test]
fn the_refusal_names_the_tidied_directory() {
    match at("./components/nc/").rust_path() {
        Err(e) => {
            let ConfigError::NotUnderSrc { rel } = &e;
            assert_eq!(rel, "components/nc");
            assert_eq!(
                e.text(),
                "paths.components (components/nc) has to name a directory under `src/`"
            );
        }
        Ok(p) => panic!("expected a refusal, got {p}"),
    }
    assert!(at("src/").rust_path().is_err());
    assert!(at("").rust_path().is_err());
}
