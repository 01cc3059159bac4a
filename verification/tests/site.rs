use nocli::site::{palettes, slug};

#[test]
fn a_heading_id_is_its_words_lower_cased_and_dashed() {
    assert_eq!(slug("Hello, World!"), "hello-world");
    assert_eq!(slug("  Leading"), "leading");
    assert_eq!(slug("a--b"), "a-b");
    assert_eq!(slug("API  Reference 2"), "api-reference-2");
    assert_eq!(slug("trailing!!"), "trailing");
    assert_eq!(slug("é"), "");
    assert_eq!(slug(""), "");
}

#[test]
fn light_mode_offers_latte_for_the_three_flavours() {
    let rows = palettes(false);
    let names: Vec<&str> = rows.iter().map(|p| p.name).collect();
    assert_eq!(names, vec!["", "grove", "ember", "ctp-mocha"]);
    let latte = &rows[3];
    assert_eq!(latte.label, "Latte");
    assert!(latte.holds("ctp-frappe"));
    assert_eq!(latte.choice("ctp-frappe"), None, "picking Latte keeps Frappé");
    assert_eq!(latte.choice("grove"), Some("ctp-mocha"));
}

#[test]
fn dark_mode_offers_each_flavour() {
    let rows = palettes(true);
    let labels: Vec<&str> = rows.iter().map(|p| p.label).collect();
    assert_eq!(
        labels,
        vec!["Default", "Grove", "Ember", "Frappé", "Macchiato", "Mocha"]
    );
    assert!(!rows[5].holds("ctp-frappe"));
    assert_eq!(rows[0].choice(""), None);
    assert_eq!(rows[0].choice("ember"), Some(""));
}

use nocli::site::{current_heading, rail, Marked};

fn marked(id: &str, text: &str, toc: Option<&str>) -> Marked {
    Marked {
        id: id.to_string(),
        text: text.to_string(),
        toc: toc.map(|t| t.to_string()),
    }
}

#[test]
fn the_rail_keeps_headings_with_an_id_and_a_text() {
    let found = vec![
        marked("intro", " Intro ", Some("section")),
        marked("", "No id", None),
        marked("api", "API", Some("section")),
        marked("blank", "   ", None),
        marked("size", "size", Some("item")),
    ];
    let rail = rail(&found).expect("three headings are enough");
    let got: Vec<(&str, &str, bool)> = rail
        .iter()
        .map(|h| (h.id.as_str(), h.label.as_str(), h.nested))
        .collect();
    assert_eq!(
        got,
        vec![("intro", "Intro", false), ("api", "API", false), ("size", "size", true)]
    );
}

#[test]
fn fewer_than_three_headings_get_no_rail() {
    let found = vec![marked("a", "A", None), marked("b", "B", None)];
    assert!(rail(&found).is_none());
    assert!(rail(&vec![]).is_none());
}

#[test]
fn the_current_heading_is_the_last_to_cross_the_line() {
    let ids: Vec<String> = ["a", "b", "c"].iter().map(|s| s.to_string()).collect();
    assert_eq!(current_heading(&ids, &vec![false, false, false], false).as_deref(), Some("a"));
    assert_eq!(current_heading(&ids, &vec![true, true, false], false).as_deref(), Some("b"));
    assert_eq!(current_heading(&ids, &vec![true, false, false], true).as_deref(), Some("c"));
    assert_eq!(current_heading(&vec![], &vec![], true), None);
}

#[test]
fn a_slug_is_an_id_and_slugging_it_again_changes_nothing() {
    for text in ["Hello, World!", "--API  v2--", "Ünïcode ok", "", "a_b-c"] {
        let s = slug(text);
        assert!(s.chars().all(|c| c.is_ascii_lowercase() || c.is_ascii_digit() || c == '-'));
        assert!(!s.starts_with('-') && !s.ends_with('-') && !s.contains("--"));
        assert_eq!(slug(&s), s);
        assert_eq!(slug(&text.to_ascii_uppercase()), s);
    }
}
