use nocli::rewrite::{rewrite, Rewritten};

const MP: &str = "crate::components::nc";

fn rw(src: &str) -> Rewritten {
    rewrite(src, MP)
}

#[test]
fn flattens_a_nested_tree_and_redirects_each_leaf() {
    let out = rw(
        "use crate::{\n    cn,\n    components::button::{Button, ButtonSize},\n    primitives::combobox::ComboboxRoot,\n};\n",
    );
    assert!(out.source.contains("use nocomponents::cn;"));
    assert!(out
        .source
        .contains("use crate::components::nc::button::Button;"));
    assert!(out
        .source
        .contains("use crate::components::nc::button::ButtonSize;"));
    assert!(out
        .source
        .contains("use nocomponents::primitives::combobox::ComboboxRoot;"));
    assert_eq!(out.component_deps, vec!["button"]);
}

#[test]
fn keeps_a_rename_and_the_pub_of_a_re_export() {
    let out = rw("pub use crate::components::sheet::{SheetClose as DrawerClose};\n");
    assert!(out
        .source
        .contains("pub use crate::components::nc::sheet::SheetClose as DrawerClose;"));
    assert_eq!(out.component_deps, vec!["sheet"]);
}

#[test]
fn joins_a_rename_split_over_two_lines() {
    let out = rw("use crate::icons::calendar::{\n    Calendar as\n    CalendarIcon,\n};\n");
    assert!(out
        .source
        .contains("use nocomponents::icons::calendar::Calendar as CalendarIcon;"));
    assert!(out.uses_icons);
}

#[test]
fn leaves_leptos_alone_but_reroutes_the_node_ref() {
    let out = rw("use leptos::prelude::*;\nuse leptos_node_ref::AnyNodeRef;\n");
    assert!(out.source.contains("use leptos::prelude::*;"));
    assert!(out
        .source
        .contains("use nocomponents::deps::leptos_node_ref::AnyNodeRef;"));
}

#[test]
fn redirects_a_path_written_in_expression_position() {
    let out = rw("fn f() { let n = js_sys::Date::now(); }\n");
    assert!(out
        .source
        .contains("nocomponents::deps::js_sys::Date::now()"));
}

#[test]
fn finds_a_component_named_only_in_the_body() {
    let out = rw("fn f() { crate::components::separator::Separator(); }\n");
    assert_eq!(out.component_deps, vec!["separator"]);
    assert!(out
        .source
        .contains("crate::components::nc::separator::Separator()"));
}

#[test]
fn leaves_a_body_that_names_nothing_of_ours_untouched() {
    let src = "#[component]\npub fn Card() -> impl IntoView {\n    view! { <div class=\"p-4\" /> }\n}\n";
    assert_eq!(rw(src).source, src);
}

#[test]
fn a_whole_file_is_put_back_together_exactly() {
    let src = "use crate::components::button::{Button, ButtonSize};\nuse leptos::prelude::*;\n\nfn f() { crate::icons::x::X(); crate::utils::cn(); }\n";
    let out = rw(src);
    assert_eq!(
        out.source,
        "use crate::components::nc::button::Button;\nuse crate::components::nc::button::ButtonSize;\nuse leptos::prelude::*;\n\nfn f() { nocomponents::icons::x::X(); nocomponents::utils::cn(); }\n"
    );
    assert_eq!(out.component_deps, vec!["button"]);
    assert!(out.uses_icons);
}

#[test]
fn the_lines_of_one_statement_come_out_sorted() {
    let out = rw("use crate::{utils::z, cn, components::a::A};\n");
    assert_eq!(
        out.source,
        "use crate::components::nc::a::A;\nuse nocomponents::cn;\nuse nocomponents::utils::z;\n"
    );
}

#[test]
fn dependencies_are_sorted_and_named_once() {
    let out = rw("use crate::components::dialog::Dialog;\nuse crate::components::button::{Button, ButtonSize};\nfn f() { crate::components::dialog::X(); }\n");
    assert_eq!(out.component_deps, vec!["button", "dialog"]);
    assert!(!out.uses_icons);
}

#[test]
fn an_indented_statement_keeps_its_indentation_and_a_last_one_needs_no_newline() {
    let out = rw("mod m {\n    use crate::cn;\n}\nuse crate::icons::I");
    assert_eq!(
        out.source,
        "mod m {\n    use nocomponents::cn;\n}\nuse nocomponents::icons::I;"
    );
    assert!(out.uses_icons);
}

#[test]
fn a_path_that_is_not_the_library_stays_as_it_is() {
    let out = rw("use std::collections::{BTreeMap, BTreeSet};\n");
    assert_eq!(
        out.source,
        "use std::collections::BTreeMap;\nuse std::collections::BTreeSet;\n"
    );
    assert!(out.component_deps.is_empty());
}

#[test]
fn a_module_path_of_another_depth_is_used_as_given() {
    let out = rewrite("use crate::components::button::Button;\n", "crate::ui");
    assert_eq!(out.source, "use crate::ui::button::Button;\n");
}

#[test]
fn an_empty_file_stays_empty() {
    let out = rw("");
    assert_eq!(out.source, "");
    assert!(out.component_deps.is_empty());
    assert!(!out.uses_icons);
}
