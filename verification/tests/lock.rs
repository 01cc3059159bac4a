use nocli::lock::{dependents_among, hash, Lock, State, LOCK_FILE};

#[test]
fn a_hash_ignores_the_line_endings_a_checkout_may_change() {
    assert_eq!(hash("one\ntwo\n"), hash("one\r\ntwo\r\n"));
    assert_ne!(hash("one\ntwo\n"), hash("one\nthree\n"));
}

#[test]
fn tells_an_edited_file_from_an_untouched_one() {
    let mut lock = Lock::default();
    lock.record("button", "fn button() {}");

    assert_eq!(lock.state("button", "fn button() {}"), State::Untouched);
    assert_eq!(
        lock.state("button", "fn button() { edited }"),
        State::Edited
    );
    assert_eq!(lock.state("dialog", "anything"), State::Unrecorded);
}

#[test]
fn forgetting_a_component_leaves_the_rest() {
    let mut lock = Lock::default();
    lock.record("button", "a");
    lock.record("dialog", "b");
    lock.forget("button");

    assert_eq!(lock.state("button", "a"), State::Unrecorded);
    assert_eq!(lock.state("dialog", "b"), State::Untouched);
}

#[test]
fn the_hash_is_fnv1a_in_sixteen_hex_digits() {
    // FNV-1a of nothing is its offset basis; of "a", the published test vector.
    assert_eq!(hash(""), "cbf29ce484222325");
    assert_eq!(hash("a"), "af63dc4c8601ec8c");
    assert_eq!(hash("\r"), hash(""));
    assert_eq!(hash("foobar"), "85944171f73967e8");
    assert_eq!(hash("héllo").len(), 16);
}

#[test]
fn recording_again_replaces_the_hash() {
    let mut lock = Lock::default();
    lock.record("button", "old");
    lock.record("button", "new");
    assert_eq!(lock.state("button", "new"), State::Untouched);
    assert_eq!(lock.state("button", "old"), State::Edited);
    assert_eq!(lock.entries().len(), 1);
}

#[test]
fn an_empty_lock_is_empty_and_forgetting_nothing_is_harmless() {
    let mut lock = Lock::default();
    assert!(lock.is_empty());
    lock.forget("nothing");
    assert!(lock.is_empty());
    lock.record("x", "y");
    assert!(!lock.is_empty());
    assert_eq!(LOCK_FILE, "nocomponents.lock");
}

#[test]
fn entries_round_trip_through_from_entries() {
    let mut lock = Lock::default();
    lock.record("b", "1");
    lock.record("a", "2");
    let back = Lock::from_entries(lock.entries());
    assert_eq!(back.state("a", "2"), State::Untouched);
    assert_eq!(back.state("b", "1"), State::Untouched);
    let later_wins = Lock::from_entries(vec![
        ("a".to_string(), hash("1")),
        ("a".to_string(), hash("2")),
    ]);
    assert_eq!(later_wins.state("a", "2"), State::Untouched);
}

#[test]
fn dependents_are_the_other_files_that_name_the_component() {
    let files = vec![
        (
            "dialog.rs".to_string(),
            Some("use crate::ui::button::Button;".to_string()),
        ),
        ("card.rs".to_string(), Some("nothing here".to_string())),
        (
            "alert.rs".to_string(),
            Some("crate::ui::button::ButtonSize".to_string()),
        ),
        (
            "button.rs".to_string(),
            Some("crate::ui::button::x".to_string()),
        ),
        ("mod.rs".to_string(), Some("crate::ui::button::".to_string())),
        ("notes.txt".to_string(), Some("crate::ui::button::".to_string())),
        ("broken.rs".to_string(), None),
    ];
    assert_eq!(
        dependents_among(&files, "button", "crate::ui"),
        vec!["alert", "dialog"]
    );
    assert!(dependents_among(&files, "card", "crate::ui").is_empty());
}
