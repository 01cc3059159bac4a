use nocli::canvas::{band, band_base, delete_selected, duplicate_ids, press, raise};

#[test]
fn a_plain_press_selects_one_node_unless_it_is_already_selected() {
    assert_eq!(press(&vec![1, 2], 3, false), vec![3]);
    assert_eq!(press(&vec![1, 2], 2, false), vec![1, 2]);
    assert_eq!(press(&vec![], 7, false), vec![7]);
}

#[test]
fn shift_adds_and_removes() {
    assert_eq!(press(&vec![1, 2], 3, true), vec![1, 2, 3]);
    assert_eq!(press(&vec![1, 2, 3], 2, true), vec![1, 3]);
    assert_eq!(press(&press(&vec![4], 5, true), 5, true), vec![4]);
}

#[test]
fn a_band_replaces_without_shift_and_extends_with_it() {
    let ids = vec![10, 11, 12, 13];
    let touched = vec![false, true, true, false];
    let selected = vec![13, 11];
    assert_eq!(band(&band_base(&selected, false), &ids, &touched), vec![11, 12]);
    assert_eq!(band(&band_base(&selected, true), &ids, &touched), vec![13, 11, 12]);
    assert_eq!(band(&band_base(&selected, false), &ids, &vec![false; 4]), Vec::<usize>::new());
}

#[test]
fn deleting_takes_the_selection_off_the_board() {
    let mut ids = vec![1, 2, 3, 4];
    let mut selected = vec![3, 1];
    delete_selected(&mut ids, &mut selected);
    assert_eq!(ids, vec![2, 4]);
    assert!(selected.is_empty());
    let mut none: Vec<usize> = vec![];
    delete_selected(&mut ids, &mut none);
    assert_eq!(ids, vec![2, 4]);
}

#[test]
fn duplicates_get_fresh_ids_counted_from_next() {
    assert_eq!(duplicate_ids(&vec![1, 2, 3, 4], &vec![4, 2], 5), (vec![5, 6], 7));
    assert_eq!(duplicate_ids(&vec![1, 2], &vec![], 5), (vec![], 5));
}

#[test]
fn to_front_stacks_the_selection_above_the_top_in_node_order() {
    let mut z = vec![0, 3, 1, 2];
    raise(&mut z, &vec![10, 11, 12, 13], &vec![12, 10]);
    assert_eq!(z, vec![4, 3, 5, 2]);
    let mut high = vec![i32::MAX - 1, 0, 0];
    raise(&mut high, &vec![1, 2, 3], &vec![2, 3]);
    assert_eq!(high, vec![i32::MAX - 1, i32::MAX, i32::MAX]);
    let mut empty: Vec<i32> = vec![];
    raise(&mut empty, &vec![], &vec![1]);
    assert!(empty.is_empty());
}

use nocli::canvas::{frame_drawn, inspector_heading, place, placed_label, selection_caption};
use nocli::demos::Kind;

#[test]
fn a_placed_node_is_named_numbered_and_selected() {
    assert_eq!(placed_label(Kind::Ellipse, 3), "Ellipse 3");
    let mut ids = vec![0, 1];
    let mut next = 2;
    let mut selected = vec![0];
    let id = place(&mut ids, &mut next, &mut selected);
    assert_eq!(id, 2);
    assert_eq!(ids, vec![0, 1, 2]);
    assert_eq!(next, 3);
    assert_eq!(selected, vec![2]);
}

#[test]
fn the_frame_and_the_inspector_follow_how_many_are_selected() {
    assert!(!frame_drawn(0));
    assert!(!frame_drawn(1));
    assert!(frame_drawn(2));
    assert_eq!(inspector_heading(&vec![], &vec![]), None);
    assert_eq!(
        inspector_heading(&vec!["Note 4".to_string()], &vec![Kind::Note]),
        Some(("Note 4".to_string(), "Note".to_string()))
    );
    assert_eq!(
        inspector_heading(&vec!["a".to_string(), "b".to_string(), "c".to_string()], &vec![Kind::Note, Kind::Text, Kind::Note]),
        Some(("3 selected".to_string(), "Selection".to_string()))
    );
}

#[test]
fn the_caption_counts_the_selected_notes() {
    assert_eq!(selection_caption(0), "Nothing selected.");
    assert_eq!(selection_caption(1), "One note selected.");
    assert_eq!(selection_caption(4), "4 notes selected.");
}
