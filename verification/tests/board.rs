use nocli::board::{Board, Move};

fn view(b: &Board) -> Vec<(String, Vec<String>)> {
    b.columns
        .iter()
        .map(|c| (c.name.clone(), c.cards.clone()))
        .collect()
}

fn col(name: &str, cards: &[&str]) -> (String, Vec<String>) {
    (
        name.to_string(),
        cards.iter().map(|c| c.to_string()).collect(),
    )
}

fn mv(card: &str, from: &str, to: &str, index: usize) -> Move {
    Move {
        card: card.to_string(),
        from: from.to_string(),
        to: to.to_string(),
        index,
    }
}

#[test]
fn the_board_starts_with_three_columns() {
    let b = Board::seed();
    assert_eq!(
        view(&b),
        vec![
            col(
                "Backlog",
                &["Split globals.css", "Re-encode the avatar", "Publish the CLI"]
            ),
            col("In progress", &["Kanban block"]),
            col("Done", &["Tree", "Dropzone"]),
        ]
    );
    assert_eq!(b.next, 0);
}

#[test]
fn a_drag_moves_a_card_to_its_slot() {
    let mut b = Board::seed();
    b.apply(&mv("Publish the CLI", "Backlog", "Done", 1));
    assert_eq!(
        view(&b),
        vec![
            col("Backlog", &["Split globals.css", "Re-encode the avatar"]),
            col("In progress", &["Kanban block"]),
            col("Done", &["Tree", "Publish the CLI", "Dropzone"]),
        ]
    );
}

#[test]
fn a_menu_move_goes_to_the_bottom() {
    let mut b = Board::seed();
    b.apply(&mv("Tree", "Done", "Backlog", usize::MAX));
    assert_eq!(b.columns[0].cards.last().map(String::as_str), Some("Tree"));
    assert_eq!(b.columns[2].cards, vec!["Dropzone"]);
}

#[test]
fn a_move_within_a_column_reorders_it() {
    let mut b = Board::seed();
    b.apply(&mv("Publish the CLI", "Backlog", "Backlog", 0));
    assert_eq!(
        b.columns[0].cards,
        vec!["Publish the CLI", "Split globals.css", "Re-encode the avatar"]
    );
}

#[test]
fn a_move_to_no_column_drops_the_card() {
    let mut b = Board::seed();
    b.apply(&mv("Tree", "Done", "Nowhere", 0));
    assert_eq!(b.columns[2].cards, vec!["Dropzone"]);
    let total: usize = b.columns.iter().map(|c| c.cards.len()).sum();
    assert_eq!(total, 5);
}

#[test]
fn delete_takes_the_card_off_the_board() {
    let mut b = Board::seed();
    b.delete("Kanban block");
    assert!(b.columns[1].cards.is_empty());
    b.delete("not there");
    assert_eq!(b.columns[0].cards.len(), 3);
}

#[test]
fn added_cards_get_ids_that_tell_them_apart() {
    let mut b = Board::seed();
    b.add_card("Done", "  Fix it ");
    b.add_card("Done", "Fix it");
    b.add_card("Done", "   ");
    assert_eq!(b.next, 2);
    assert_eq!(
        b.columns[2].cards,
        vec!["Tree", "Dropzone", "Fix it #1", "Fix it #2"]
    );
    b.add_card("Nowhere", "Lost");
    assert_eq!(b.next, 3, "the count goes up even with no column to take the card");
    for _ in 0..8 {
        b.add_card("Backlog", "x");
    }
    assert_eq!(b.columns[0].cards.last().map(String::as_str), Some("x #11"));
}

#[test]
fn a_column_is_added_once_and_never_blank() {
    let mut b = Board::seed();
    b.add_column(" Review ");
    b.add_column("Review");
    b.add_column("  ");
    let names: Vec<&str> = b.columns.iter().map(|c| c.name.as_str()).collect();
    assert_eq!(names, vec!["Backlog", "In progress", "Done", "Review"]);
    assert!(b.columns[3].cards.is_empty());
}

#[test]
fn a_card_can_be_moved_to_every_other_column() {
    let b = Board::seed();
    assert_eq!(b.move_targets("In progress"), vec!["Backlog", "Done"]);
    assert_eq!(b.move_targets("Elsewhere"), vec!["Backlog", "In progress", "Done"]);
}
