use nocli::search::{companion, is_current, label_for, menu_items, BlockInfo, NavGroup, NavItem};
use nocli::search;

fn nav() -> Vec<NavItem> {
    vec![
        NavItem {
            label: "Drawer".to_string(),
            href: "/docs/drawer".to_string(),
        },
        NavItem {
            label: "Data Table".to_string(),
            href: "/docs/data_table".to_string(),
        },
    ]
}

fn block(uses: &[&str]) -> BlockInfo {
    BlockInfo {
        title: "Settings dialog".to_string(),
        description: "A panel of switches".to_string(),
        uses: uses.iter().map(|s| s.to_string()).collect(),
    }
}

#[test]
fn a_component_is_labelled_as_the_navigation_spells_it() {
    assert_eq!(label_for(&nav(), "data_table").as_deref(), Some("Data Table"));
    assert_eq!(label_for(&nav(), "tooltip"), None);
}

#[test]
fn a_block_answers_to_its_title_its_blurb_and_its_components() {
    let b = block(&["drawer", "data_table"]);
    assert!(search::matches(&b, &nav(), ""));
    assert!(search::matches(&b, &nav(), "   "));
    assert!(search::matches(&b, &nav(), "  DIALOG "));
    assert!(search::matches(&b, &nav(), "switches"));
    assert!(search::matches(&b, &nav(), "drawer"));
    assert!(search::matches(&b, &nav(), "Data Table"), "through the label");
    assert!(!search::matches(&b, &nav(), "tooltip"));
    assert!(!search::matches(&block(&["tooltip"]), &nav(), "drawer"));
}

fn item(label: &str, href: &str) -> NavItem {
    NavItem {
        label: label.to_string(),
        href: href.to_string(),
    }
}

fn labels(items: &[NavItem]) -> Vec<&str> {
    items.iter().map(|i| i.label.as_str()).collect()
}

#[test]
fn components_are_listed_by_label_whatever_its_case() {
    let group = NavGroup {
        label: "Components".to_string(),
        items: vec![
            item("dropdown Menu", "/docs/dropdown-menu"),
            item("Button", "/docs/button"),
            item("accordion", "/docs/accordion"),
            item("Avatar", "/docs/avatar"),
            item("Code", "/docs/code"),
        ],
    };
    let sorted = menu_items(&group);
    assert_eq!(labels(&sorted), vec!["accordion", "Avatar", "Button", "Code", "dropdown Menu"]);
    assert_eq!(sorted[0].href, "/docs/accordion");
}

#[test]
fn components_whose_labels_lower_case_alike_keep_their_order() {
    let group = NavGroup {
        label: "Components".to_string(),
        items: vec![
            item("Tabs", "/docs/tabs-one"),
            item("Badge", "/docs/badge"),
            item("tabs", "/docs/tabs-two"),
            item("TABS", "/docs/tabs-three"),
        ],
    };
    let sorted = menu_items(&group);
    let hrefs: Vec<&str> = sorted.iter().map(|i| i.href.as_str()).collect();
    assert_eq!(hrefs, vec!["/docs/badge", "/docs/tabs-one", "/docs/tabs-two", "/docs/tabs-three"]);
}

#[test]
fn other_groups_are_listed_as_written() {
    let group = NavGroup {
        label: "Sections".to_string(),
        items: vec![
            item("Introduction", "/docs/introduction"),
            item("Components", "/docs"),
            item("Blocks", "/blocks"),
        ],
    };
    assert_eq!(labels(&menu_items(&group)), vec!["Introduction", "Components", "Blocks"]);
}

#[test]
fn a_row_is_lit_on_its_page_and_on_its_blocks_page() {
    assert!(is_current("/docs/button", "/docs/button"));
    assert!(is_current("/docs/button", "/docs/button/blocks"));
    assert!(!is_current("/docs/button", "/docs/button-group"));
    assert!(!is_current("/docs/button", "/docs"));
}

fn site_nav() -> Vec<NavGroup> {
    vec![
        NavGroup {
            label: "Sections".to_string(),
            items: vec![item("Introduction", "/docs/introduction"), item("Components", "/docs")],
        },
        NavGroup {
            label: "Components".to_string(),
            items: vec![item("Button", "/docs/button"), item("Dropdown Menu", "/docs/dropdown-menu")],
        },
    ]
}

#[test]
fn a_component_page_links_to_the_blocks_that_use_it() {
    let nav = site_nav();
    assert_eq!(
        companion(&nav, "", "/docs/dropdown-menu"),
        Some(("/blocks?uses=dropdown-menu".to_string(), "Blocks"))
    );
    assert_eq!(
        companion(&nav, "/nocomponents", "/nocomponents/docs/button"),
        Some(("/nocomponents/blocks?uses=button".to_string(), "Blocks"))
    );
}

#[test]
fn other_pages_have_no_blocks_link() {
    let nav = site_nav();
    assert_eq!(companion(&nav, "", "/docs/introduction"), None);
    assert_eq!(companion(&nav, "", "/docs/button/blocks"), None);
    assert_eq!(companion(&nav, "/base", "/docs/button"), None);
}

#[test]
fn the_index_shows_the_blocks_that_answer_in_order() {
    let blocks = vec![
        BlockInfo {
            title: "Settings dialog".to_string(),
            description: "Switches in a panel".to_string(),
            uses: vec!["drawer".to_string()],
        },
        BlockInfo {
            title: "Paged table".to_string(),
            description: "Sorting before paging".to_string(),
            uses: vec!["data_table".to_string()],
        },
        BlockInfo {
            title: "Bug report".to_string(),
            description: "A form in a drawer".to_string(),
            uses: vec![],
        },
    ];
    assert_eq!(search::showing(&blocks, &nav(), "DRAWER"), vec![0, 2]);
    assert_eq!(search::showing(&blocks, &nav(), "data table"), vec![1]);
    assert_eq!(search::showing(&blocks, &nav(), "  "), vec![0, 1, 2]);
    assert_eq!(search::showing(&blocks, &nav(), "calendar"), Vec::<usize>::new());
}

#[test]
fn a_query_matches_whatever_its_case_or_padding() {
    let b = block(&["drawer"]);
    for q in ["settings", "drawer", "panel of", "tooltip", ""] {
        let plain = search::matches(&b, &nav(), q);
        assert_eq!(search::matches(&b, &nav(), &q.to_ascii_uppercase()), plain);
        assert_eq!(search::matches(&b, &nav(), &format!(" {q} ")), plain);
    }
    assert!(search::matches(&b, &nav(), " SETTINGS "));
    assert!(!search::matches(&b, &nav(), "TOOLTIP"));
}
