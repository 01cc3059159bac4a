use nocli::install::{
    add_features, clobbered_notice, installed_count, listing, module_file, outside_the_block,
    removal, splice, Install, KeepReason, Removal, Step, MOD_BEGIN, MOD_END,
};
use nocli::lock::{hash, Lock};
use nocli::rewrite::rewrite;

#[test]
fn a_first_mod_rs_is_the_block_and_nothing_else() {
    let out = splice("", "// nocli:begin\npub mod button;\n// nocli:end");
    assert!(out.starts_with(MOD_BEGIN));
    assert!(out.contains("pub mod button;"));
}

#[test]
fn keeps_what_the_project_wrote_around_the_block() {
    let existing = "//! Our components.\n\n// nocli:begin\npub mod button;\n// nocli:end\n\npub mod our_own;\n";
    let out = splice(
        existing,
        "// nocli:begin\npub mod button;\npub mod dialog;\n// nocli:end",
    );

    assert!(out.starts_with("//! Our components."));
    assert!(
        out.contains("pub mod dialog;"),
        "the new component is declared"
    );
    assert!(
        out.trim_end().ends_with("pub mod our_own;"),
        "theirs survives"
    );
}

#[test]
fn a_module_the_project_declared_itself_is_not_declared_twice() {
    let existing = "// nocli:begin\npub mod button;\n// nocli:end\n\npub mod our_own;\n";
    let theirs = outside_the_block(existing);

    assert!(theirs.contains("pub mod our_own;"));
    assert!(
        !theirs.contains("pub mod button;"),
        "the block is not theirs"
    );
}

#[test]
fn a_mod_rs_from_before_the_markers_is_replaced_whole() {
    let old = "// Generated by `cargo nocli`. …\n\npub mod button;\n\npub mod prelude {\n    pub use super::button::*;\n}\n";
    let out = splice(old, "// nocli:begin\npub mod button;\n// nocli:end");

    assert!(!out.contains("Generated by"));
    assert_eq!(
        out.matches("pub mod button;").count(),
        1,
        "not declared twice"
    );
}

#[test]
fn splicing_puts_the_block_exactly_where_the_old_one_was() {
    let existing = "head\n// nocli:begin\nold\n// nocli:end\ntail\n";
    assert_eq!(
        splice(existing, "// nocli:begin\nnew\n// nocli:end"),
        "head\n// nocli:begin\nnew\n// nocli:end\ntail\n"
    );
    assert_eq!(outside_the_block(existing), "head\n\ntail\n");
    assert_eq!(outside_the_block("no block here"), "");
    // An end marker before the first begin marker is no block.
    assert_eq!(
        splice("// nocli:end\n// nocli:begin\n", "B"),
        "B\n"
    );
    assert_eq!(MOD_END, "// nocli:end");
}

#[test]
fn splicing_the_same_block_twice_changes_nothing() {
    let block = "// nocli:begin\npub mod a;\n// nocli:end";
    for existing in ["", "x\n// nocli:begin\n// nocli:end\ny", "plain"] {
        let once = splice(existing, block);
        assert_eq!(splice(&once, block), once);
    }
}

#[test]
fn the_module_file_declares_each_component_of_the_directory_once() {
    let files: Vec<String> = ["dialog.rs", "mod.rs", "button.rs", "notes.txt", "ours.rs"]
        .iter()
        .map(|s| s.to_string())
        .collect();
    let existing = "// nocli:begin\n// nocli:end\npub mod ours;\n";
    let out = module_file(&files, existing);
    let expected_block = "// nocli:begin\n// Written by `cargo nocli` from the directory, every time something is added or\n// removed. The components are yours to edit; this list is not. Anything you write\n// outside these two markers is left alone.\n\npub mod button;\npub mod dialog;\n\npub mod prelude {\n    pub use super::button::*;\n    pub use super::dialog::*;\n}\n// nocli:end";
    assert_eq!(out, format!("{expected_block}\npub mod ours;\n"));
}

#[test]
fn writing_the_module_file_twice_is_writing_it_once() {
    let files: Vec<String> = ["dialog.rs", "mod.rs", "button.rs", "ours.rs"]
        .iter()
        .map(|s| s.to_string())
        .collect();
    for existing in ["", "pub mod ours;\n", "// top\n// nocli:begin\n// nocli:end\npub mod ours;\n"] {
        let once = module_file(&files, existing);
        let twice = module_file(&files, &once);
        assert_eq!(twice, once);
    }
}

#[test]
fn a_new_module_file_ends_with_a_newline() {
    let out = module_file(&vec!["a.rs".to_string()], "");
    assert!(out.starts_with(MOD_BEGIN));
    assert!(out.ends_with("// nocli:end\n"));
    assert!(out.contains("pub mod a;\n"));
    assert!(out.contains("    pub use super::a::*;\n"));
}

fn names(v: &[&str]) -> Vec<String> {
    v.iter().map(|s| s.to_string()).collect()
}

#[test]
fn add_writes_what_is_missing_and_pulls_in_what_it_is_built_on() {
    let mut lock = Lock::default();
    let mut plan = Install::new(&names(&["dialog"]), false);
    assert_eq!(plan.pending().as_deref(), Some("dialog"));
    let dialog_src = "use crate::components::button::Button;\n";
    let step = plan.settle(&mut lock, dialog_src, None, "crate::ui");
    let expected = rewrite(dialog_src, "crate::ui").source;
    match step {
        Step::Written {
            name,
            source,
            requested,
        } => {
            assert_eq!(name, "dialog");
            assert_eq!(source, expected);
            assert_eq!(source, "use crate::ui::button::Button;\n");
            assert!(requested);
        }
        Step::Kept { .. } => panic!("nothing was there to keep"),
    }
    assert_eq!(lock.state("dialog", &expected), nocli::lock::State::Untouched);
    assert_eq!(plan.pending().as_deref(), Some("button"));
    let step = plan.settle(&mut lock, "use crate::icons::x::X;\n", None, "crate::ui");
    match step {
        Step::Written { name, requested, .. } => {
            assert_eq!(name, "button");
            assert!(!requested, "needed by, not asked for");
        }
        Step::Kept { .. } => panic!("nothing was there to keep"),
    }
    assert_eq!(plan.pending(), None);
    assert_eq!(plan.installed, names(&["dialog", "button"]));
    assert_eq!(plan.written, 2);
    assert_eq!(plan.kept, 0);
    assert!(plan.uses_icons);
    assert!(plan.clobbered.is_empty());
}

#[test]
fn a_file_already_there_is_kept_unless_forced() {
    let mut lock = Lock::default();
    lock.record("button", "installed");
    let mut plan = Install::new(&names(&["button", "card"]), false);
    match plan.settle(&mut lock, "fn b() {}", Some("installed"), "crate::ui") {
        Step::Kept { name, reason } => {
            assert_eq!(name, "button");
            assert_eq!(reason, KeepReason::Unchanged);
            assert_eq!(reason.text(), "unchanged, --force refreshes it");
        }
        Step::Written { .. } => panic!("must not write over a file that is there"),
    }
    assert_eq!(lock.state("button", "installed"), nocli::lock::State::Untouched);
    match plan.settle(&mut lock, "fn c() {}", Some("ours"), "crate::ui") {
        Step::Kept { reason, .. } => {
            assert_eq!(reason, KeepReason::AlreadyHere);
            assert_eq!(reason.text(), "already here");
        }
        Step::Written { .. } => panic!("must not write over a file that is there"),
    }
    assert_eq!(plan.kept, 2);
    assert_eq!(plan.written, 0);
}

#[test]
fn force_writes_over_an_edited_file_and_remembers_it() {
    let mut lock = Lock::default();
    lock.record("button", "installed");
    let mut plan = Install::new(&names(&["button"]), true);
    match plan.settle(&mut lock, "fn b() {}", Some("edited"), "crate::ui") {
        Step::Written { name, source, .. } => {
            assert_eq!(name, "button");
            assert_eq!(source, "fn b() {}");
        }
        Step::Kept { .. } => panic!("--force writes"),
    }
    assert_eq!(plan.clobbered, names(&["button"]));
    assert_eq!(lock.state("button", "fn b() {}"), nocli::lock::State::Untouched);
    assert_eq!(
        clobbered_notice(&plan.clobbered).as_deref(),
        Some("\n--force overwrote a component you had edited: button")
    );
}

#[test]
fn an_edited_file_is_kept_with_its_reason() {
    let mut lock = Lock::default();
    lock.record("button", "installed");
    let mut plan = Install::new(&names(&["button"]), false);
    match plan.settle(&mut lock, "fn b() {}", Some("edited"), "crate::ui") {
        Step::Kept { reason, .. } => {
            assert_eq!(reason, KeepReason::EditedHere);
            assert_eq!(reason.text(), "edited here");
        }
        Step::Written { .. } => panic!("must not write over an edited file"),
    }
}

#[test]
fn a_dependency_met_twice_is_queued_once() {
    let mut lock = Lock::default();
    let mut plan = Install::new(&names(&["a", "b"]), false);
    let uses_c = "use crate::components::c::C;\n";
    plan.settle(&mut lock, uses_c, None, "crate::ui");
    plan.settle(&mut lock, uses_c, None, "crate::ui");
    assert_eq!(plan.queue, names(&["a", "b", "c"]));
    plan.settle(&mut lock, "use crate::components::a::A;\n", None, "crate::ui");
    assert_eq!(plan.pending(), None);
    assert_eq!(plan.installed, names(&["a", "b", "c"]));
}

#[test]
fn the_features_are_the_union_sorted() {
    let f = add_features(&names(&["theme", "button"]), &names(&["dialog", "button"]), true);
    assert_eq!(f, names(&["button", "dialog", "icons", "primitives", "theme"]));
    let f = add_features(&vec![], &names(&["card"]), false);
    assert_eq!(f, names(&["card", "primitives"]));
}

#[test]
fn the_notice_names_every_component_written_over() {
    assert_eq!(clobbered_notice(&vec![]), None);
    assert_eq!(
        clobbered_notice(&names(&["a", "b"])).as_deref(),
        Some("\n--force overwrote components you had edited: a, b")
    );
}

#[test]
fn remove_refuses_twice_before_it_deletes() {
    let mut lock = Lock::default();
    lock.record("button", "installed");
    let files = vec![
        (
            "dialog.rs".to_string(),
            Some("use crate::ui::button::Button;".to_string()),
        ),
        ("button.rs".to_string(), Some("installed".to_string())),
    ];
    assert!(matches!(
        removal(&lock, "gone", false, &files, "crate::ui", None, false),
        Removal::NotHere
    ));
    match removal(&lock, "button", true, &files, "crate::ui", Some("installed"), false) {
        Removal::BuiltOn { dependents } => assert_eq!(dependents, names(&["dialog"])),
        _ => panic!("dialog is built on button"),
    }
    assert!(matches!(
        removal(&lock, "button", true, &files, "crate::ui", Some("installed"), true),
        Removal::Remove
    ));
    let alone = vec![("button.rs".to_string(), Some("edited".to_string()))];
    assert!(matches!(
        removal(&lock, "button", true, &alone, "crate::ui", Some("edited"), false),
        Removal::EditedHere
    ));
    assert!(matches!(
        removal(&lock, "button", true, &alone, "crate::ui", Some("installed"), false),
        Removal::Remove
    ));
    assert!(matches!(
        removal(&lock, "button", true, &alone, "crate::ui", None, false),
        Removal::Remove
    ));
    let _ = hash("");
}

#[test]
fn list_marks_what_is_installed() {
    let catalogue = names(&["button", "card", "dialog"]);
    let files = names(&["button.rs", "mod.rs", "dialog.rs", "README.md"]);
    assert_eq!(
        listing(&catalogue, &files),
        names(&["* button", "  card", "* dialog"])
    );
    assert_eq!(installed_count(&files), 3);
}
