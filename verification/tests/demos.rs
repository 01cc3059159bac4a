use nocli::demos::{
    deployment_badge, groups, invoice_badge, next_page, page, page_count, pages, people, person,
    previous_page, range_for, ranges, section, sections, selection_caption, visible_range, Badge,
    Kind, PAGE_SIZE,
};
use nocli::demos::{delete_doc, docs, holds, problems, toggle, undo_delete, Problems};
use nocli::demos::{act, actions_for, delete_row, deployments, set_status, status_of, RowAction};

#[test]
fn a_range_is_found_by_its_slug() {
    let r = range_for("6w");
    assert_eq!(r.slug, "6w");
    assert_eq!(r.days, 42);
    assert_eq!(r.bucket, 7);
    assert_eq!(range_for("7d").days, 7);
    assert_eq!(range_for("7d").bucket, 1);
}

#[test]
fn an_unknown_range_falls_back_to_twelve_weeks() {
    let r = range_for("1y");
    assert_eq!(r.slug, "12w");
    assert_eq!(r.days, 84);
    assert_eq!(r.caption, "One column a week");
    assert_eq!(range_for("").slug, "12w");
}

#[test]
fn the_ranges_run_shortest_first() {
    let days: Vec<usize> = ranges().iter().map(|r| r.days).collect();
    assert_eq!(days, vec![7, 42, 84]);
}

#[test]
fn a_person_is_found_by_id_and_anyone_else_is_the_first() {
    assert_eq!(person("bo").name, "Bo Lindqvist");
    assert_eq!(person("farah").team, "Security");
    assert_eq!(person("zoe").id, "ana");
    assert_eq!(person("Bo").id, "ana");
    assert_eq!(people().len(), 6);
}

#[test]
fn a_page_is_found_by_slug_and_anything_else_is_the_overview() {
    let p = page("members");
    assert_eq!(p.label, "Members");
    assert_eq!(p.section, "Account");
    assert_eq!(p.badge, Some("4"));
    assert_eq!(page("billing").badge, None);
    assert_eq!(page("nowhere").slug, "overview");
    assert_eq!(pages().len(), 5);
}

#[test]
fn a_settings_pane_is_found_by_slug_and_anything_else_is_general() {
    let s = section("notifications");
    assert_eq!(s.label, "Notifications");
    assert_eq!(s.group, "Settings");
    assert_eq!(s.settings.len(), 3);
    assert_eq!(section("members").group, "Workspace");
    let g = section("privacy");
    assert_eq!(g.slug, "general");
    assert_eq!(g.settings[0].label, "Autosave");
    assert!(g.settings[0].on);
    assert!(!g.settings[1].on);
}

#[test]
fn every_pane_sits_in_one_of_the_groups() {
    let gs = groups();
    assert_eq!(gs, vec!["Settings", "Workspace"]);
    for s in sections() {
        assert!(gs.contains(&s.group));
    }
}

#[test]
fn invoice_statuses_are_badged() {
    assert_eq!(invoice_badge("Paid"), Badge::Secondary);
    assert_eq!(invoice_badge("Overdue"), Badge::Destructive);
    assert_eq!(invoice_badge("Pending"), Badge::Outline);
    assert_eq!(invoice_badge("paid"), Badge::Outline);
}

#[test]
fn deployment_statuses_are_badged() {
    assert_eq!(deployment_badge("Live"), Badge::Default);
    assert_eq!(deployment_badge("Rolled back"), Badge::Destructive);
    assert_eq!(deployment_badge("Building"), Badge::Secondary);
}

#[test]
fn canvas_kinds_have_labels() {
    assert_eq!(Kind::Note.label(), "Note");
    assert_eq!(Kind::Rectangle.label(), "Rectangle");
    assert_eq!(Kind::Ellipse.label(), "Ellipse");
    assert_eq!(Kind::Text.label(), "Text");
}

#[test]
fn every_row_is_on_a_page_and_there_is_always_one() {
    assert_eq!(PAGE_SIZE, 5);
    assert_eq!(page_count(0), 1);
    assert_eq!(page_count(1), 1);
    assert_eq!(page_count(5), 1);
    assert_eq!(page_count(6), 2);
    assert_eq!(page_count(12), 3);
}

#[test]
fn a_page_shows_its_slice_of_the_sorted_rows() {
    assert_eq!(visible_range(12, 1), (0, 5));
    assert_eq!(visible_range(12, 2), (5, 10));
    assert_eq!(visible_range(12, 3), (10, 12));
    assert_eq!(visible_range(12, 4), (12, 12));
    assert_eq!(visible_range(0, 1), (0, 0));
}

#[test]
fn previous_and_next_stop_at_the_ends() {
    assert_eq!(previous_page(3), 2);
    assert_eq!(previous_page(1), 1);
    assert_eq!(previous_page(0), 1);
    assert_eq!(next_page(1, 3), 2);
    assert_eq!(next_page(3, 3), 3);
}

#[test]
fn the_caption_counts_the_invoices_or_the_ticked_ones() {
    assert_eq!(selection_caption(0, 12), "12 invoices");
    assert_eq!(selection_caption(3, 12), "3 of 12 selected");
    assert_eq!(selection_caption(0, 0), "0 invoices");
}

#[test]
fn the_menu_offers_what_a_row_can_become() {
    assert_eq!(actions_for("Preview"), vec![RowAction::Promote, RowAction::Rerun, RowAction::Delete]);
    assert_eq!(actions_for("Live"), vec![RowAction::RollBack, RowAction::Rerun, RowAction::Delete]);
    assert_eq!(actions_for("Rolled back"), vec![RowAction::Rerun, RowAction::Delete]);
    assert_eq!(actions_for(""), vec![RowAction::Rerun, RowAction::Delete]);
}

#[test]
fn promoting_a_preview_makes_it_live_and_touches_nothing_else() {
    let mut rows = deployments();
    assert_eq!(status_of(&rows, "dep_1041"), "Preview");
    act(&mut rows, "dep_1041", RowAction::Promote);
    assert_eq!(status_of(&rows, "dep_1041"), "Live");
    assert_eq!(status_of(&rows, "dep_1039"), "Preview");
    assert_eq!(status_of(&rows, "dep_1042"), "Live");
    assert_eq!(rows.len(), 4);
    assert_eq!(rows[1].when, "an hour ago");
}

#[test]
fn rolling_back_and_rerunning_set_the_status() {
    let mut rows = deployments();
    act(&mut rows, "dep_1042", RowAction::RollBack);
    assert_eq!(rows[0].status, "Rolled back");
    act(&mut rows, "dep_1042", RowAction::Rerun);
    assert_eq!(rows[0].status, "Building");
    set_status(&mut rows, "dep_9999", "Live");
    assert_eq!(rows.len(), 4);
    assert_eq!(status_of(&rows, "dep_9999"), "");
}

#[test]
fn deleting_a_row_keeps_the_others_in_order() {
    let mut rows = deployments();
    delete_row(&mut rows, "dep_1039");
    let ids: Vec<&str> = rows.iter().map(|r| r.id).collect();
    assert_eq!(ids, vec!["dep_1042", "dep_1041", "dep_1036"]);
    act(&mut rows, "dep_1042", RowAction::Delete);
    assert_eq!(rows.len(), 2);
    delete_row(&mut rows, "nothing");
    assert_eq!(rows.len(), 2);
}

#[test]
fn an_empty_form_has_every_problem() {
    let p = problems("", "", "");
    assert_eq!(p, Problems { name: true, email: true, summary: true });
    assert!(p.any());
}

#[test]
fn a_filled_form_has_none() {
    let p = problems("Ada", "ada@example.com", "The canvas pans on click");
    assert_eq!(p, Problems { name: false, email: false, summary: false });
    assert!(!p.any());
}

#[test]
fn blanks_and_a_short_summary_are_problems_once_trimmed() {
    let p = problems("   ", "ada.example.com", "  too short  ");
    assert!(p.name);
    assert!(p.email);
    assert!(p.summary);
    assert!(!problems("Ada", "@", "  not so short  ").summary);
    assert!(problems("Ada", "@", "   123456789   ").summary);
    assert!(!problems("Ada", "@", "1234567890").summary);
}

#[test]
fn picking_a_person_adds_them_and_picking_again_lets_them_go() {
    let mut chosen = vec!["ana".to_string()];
    assert!(holds(&chosen, "ana"));
    assert!(!holds(&chosen, "bo"));
    toggle(&mut chosen, "bo");
    assert_eq!(chosen, vec!["ana".to_string(), "bo".to_string()]);
    toggle(&mut chosen, "bo");
    assert_eq!(chosen, vec!["ana".to_string()]);
    toggle(&mut chosen, "ana");
    assert!(chosen.is_empty());
}

#[test]
fn letting_someone_go_keeps_the_others_in_order() {
    let mut chosen: Vec<String> = ["ana", "bo", "chidi"].iter().map(|s| s.to_string()).collect();
    toggle(&mut chosen, "bo");
    assert_eq!(chosen, vec!["ana".to_string(), "chidi".to_string()]);
}

#[test]
fn undo_puts_a_deleted_row_back_where_it_was() {
    let mut rows = docs();
    let removed = delete_doc(&mut rows, 1);
    assert_eq!(removed.name, "Offsite agenda.md");
    assert_eq!(rows.len(), 2);
    undo_delete(&mut rows, 1, removed);
    let names: Vec<&str> = rows.iter().map(|d| d.name).collect();
    assert_eq!(names, vec!["Q3 forecast.numbers", "Offsite agenda.md", "Logo marks.zip"]);
}

#[test]
fn undo_into_a_shorter_list_puts_the_row_at_the_end() {
    let mut rows = docs();
    let last = delete_doc(&mut rows, 2);
    delete_doc(&mut rows, 0);
    undo_delete(&mut rows, 2, last);
    let names: Vec<&str> = rows.iter().map(|d| d.name).collect();
    assert_eq!(names, vec!["Offsite agenda.md", "Logo marks.zip"]);
}

use nocli::demos::{invoices, page_after_sort_change, sorted_invoices, visible_rows, Invoice, SortColumn};

fn ids(rows: &[Invoice]) -> Vec<&str> {
    rows.iter().map(|r| r.id).collect()
}

#[test]
fn the_whole_set_is_sorted_before_a_page_is_cut() {
    let rows = invoices();
    assert_eq!(rows.len(), 13);
    let by_amount = Some((SortColumn::Amount, false));
    assert_eq!(
        ids(&visible_rows(&rows, by_amount, 1)),
        vec!["INV-1008", "INV-1004", "INV-1010", "INV-1002", "INV-1005"]
    );
    assert_eq!(ids(&visible_rows(&rows, by_amount, 3)), vec!["INV-1003", "INV-1013", "INV-1007"]);
    assert_eq!(
        ids(&visible_rows(&rows, Some((SortColumn::Amount, true)), 1)),
        vec!["INV-1007", "INV-1013", "INV-1003", "INV-1006", "INV-1011"]
    );
    assert!(visible_rows(&rows, by_amount, 4).is_empty());
}

#[test]
fn an_unsorted_table_pages_the_rows_as_written() {
    let rows = invoices();
    assert_eq!(
        ids(&visible_rows(&rows, None, 2)),
        vec!["INV-1006", "INV-1007", "INV-1008", "INV-1009", "INV-1010"]
    );
}

#[test]
fn customers_sort_by_name_and_ids_sort_back() {
    let rows = invoices();
    let sorted = sorted_invoices(&rows, Some((SortColumn::Customer, false)));
    let names: Vec<&str> = sorted.iter().map(|r| r.customer).collect();
    assert_eq!(names[0], "Acme Corp");
    assert_eq!(names[1], "Aperture Science");
    assert_eq!(names[12], "Weyland-Yutani");
    let back = sorted_invoices(&sorted, Some((SortColumn::Invoice, false)));
    assert_eq!(ids(&back), ids(&rows));
    let down = sorted_invoices(&rows, Some((SortColumn::Invoice, true)));
    assert_eq!(down[0].id, "INV-1013");
}

#[test]
fn rows_with_equal_keys_keep_their_order_either_way() {
    let row = |id: &'static str, cents: u64| Invoice { id, customer: "C", status: "Paid", amount_cents: cents };
    let rows = vec![row("a", 5), row("b", 1), row("c", 5), row("d", 1)];
    assert_eq!(ids(&sorted_invoices(&rows, Some((SortColumn::Amount, false)))), vec!["b", "d", "a", "c"]);
    assert_eq!(ids(&sorted_invoices(&rows, Some((SortColumn::Amount, true)))), vec!["a", "c", "b", "d"]);
}

#[test]
fn a_change_of_sort_goes_back_to_the_first_page() {
    assert_eq!(page_after_sort_change(), 1);
}

use nocli::demos::{shown, summary_counter, InvoiceTable};

#[test]
fn the_table_stays_on_a_page_and_a_new_sort_goes_back_to_the_first() {
    let mut t = InvoiceTable::new();
    assert_eq!(t.pages(), 3);
    assert_eq!(t.page, 1);
    t.previous();
    assert_eq!(t.page, 1);
    t.next();
    t.next();
    t.next();
    assert_eq!(t.page, 3);
    assert_eq!(ids(&t.shown()), vec!["INV-1011", "INV-1012", "INV-1013"]);
    t.sort_by(Some((SortColumn::Amount, true)));
    assert_eq!(t.page, 1);
    assert_eq!(ids(&t.shown()), vec!["INV-1007", "INV-1013", "INV-1003", "INV-1006", "INV-1011"]);
    t.go_to(2);
    assert_eq!(t.shown().len(), 5);
    t.previous();
    assert_eq!(t.page, 1);
}

#[test]
fn problems_show_only_after_a_submit() {
    assert!(!shown(false, true));
    assert!(shown(true, true));
    assert!(!shown(true, false));
}

#[test]
fn the_counter_counts_up_to_ten_then_says_enough() {
    assert_eq!(summary_counter(""), "0 of 10 characters.");
    assert_eq!(summary_counter("  abc  "), "3 of 10 characters.");
    assert_eq!(summary_counter("123456789"), "9 of 10 characters.");
    assert_eq!(summary_counter("1234567890"), "Enough to go on.");
}
