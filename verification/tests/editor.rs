use nocli::editor::{
    chunks, is_marked, runs, set_style, style_at, toggle_wrap, utf16_len, ChunkKind, LineStyle,
    Mark, Runs,
};

fn plain() -> Runs {
    Runs::default()
}

#[test]
fn utf16_counts_two_units_above_the_basic_plane() {
    assert_eq!(utf16_len("aé😀"), 4);
    assert_eq!(utf16_len(""), 0);
}

#[test]
fn bold_wraps_a_selection_and_a_second_press_takes_it_off() {
    let (text, start, end) = toggle_wrap("hello world", 0, 5, Mark::Bold);
    assert_eq!((text.as_str(), start, end), ("**hello** world", 2, 7));
    assert!(is_marked(&text, start, end, Mark::Bold));
    let (back, start, end) = toggle_wrap(&text, start, end, Mark::Bold);
    assert_eq!((back.as_str(), start, end), ("hello world", 0, 5));
    assert!(!is_marked(&back, start, end, Mark::Bold));
}

#[test]
fn markers_selected_with_the_text_come_off() {
    let (text, start, end) = toggle_wrap("**hi**", 0, 6, Mark::Bold);
    assert_eq!((text.as_str(), start, end), ("hi", 0, 2));
}

#[test]
fn a_caret_inside_a_run_counts_as_marked_and_unmarks_it() {
    assert!(is_marked("**hello** world", 4, 4, Mark::Bold));
    assert!(!is_marked("**hello** world", 4, 4, Mark::Italic));
    let (text, start, end) = toggle_wrap("**hello** world", 4, 4, Mark::Bold);
    assert_eq!((text.as_str(), start, end), ("hello world", 2, 2));
}

#[test]
fn positions_are_utf16_units_around_a_wide_character() {
    let (text, start, end) = toggle_wrap("😀x", 2, 3, Mark::Italic);
    assert_eq!((text.as_str(), start, end), ("😀_x_", 3, 4));
}

#[test]
fn a_run_on_another_line_does_not_enclose() {
    assert!(!is_marked("**a\nb**", 5, 5, Mark::Bold));
    let (text, _, _) = toggle_wrap("`a`\nb", 4, 5, Mark::Code);
    assert_eq!(text, "`a`\n`b`");
}

#[test]
fn the_style_is_read_off_the_line_the_caret_is_on() {
    assert_eq!(style_at("# Title\nbody", 3), Some(LineStyle::H1));
    assert_eq!(style_at("# Title\nbody", 9), None);
    assert_eq!(style_at("## Sub", 0), Some(LineStyle::H2));
    assert_eq!(style_at("12. item", 0), Some(LineStyle::Number));
    assert_eq!(style_at("12.item", 0), None);
    assert_eq!(style_at("> q", 1), Some(LineStyle::Quote));
    assert_eq!(style_at("- x", 1), Some(LineStyle::Bullet));
}

#[test]
fn setting_a_style_twice_takes_it_off_and_the_caret_stays_in_the_words() {
    let (text, a, b) = set_style("hello", 2, "h1");
    assert_eq!((text.as_str(), a, b), ("# hello", 4, 4));
    let (back, a, b) = set_style(&text, a, "h1");
    assert_eq!((back.as_str(), a, b), ("hello", 2, 2));
}

#[test]
fn a_new_style_replaces_the_old_prefix() {
    let (text, a, _) = set_style("## sub", 0, "quote");
    assert_eq!((text.as_str(), a), ("> sub", 2));
    let (text, a, _) = set_style("one\n- two", 6, "number");
    assert_eq!((text.as_str(), a), ("one\n1. two", 7));
    let (text, _, _) = set_style("# x", 0, "nothing");
    assert_eq!(text, "x");
}

#[test]
fn a_line_splits_into_runs_by_their_marks() {
    let r = runs("a **b** _c_ `d*`");
    let bold = Runs {
        bold: true,
        ..plain()
    };
    let italic = Runs {
        italic: true,
        ..plain()
    };
    let code = Runs {
        code: true,
        ..plain()
    };
    let expected = vec![
        (plain(), "a ".to_string()),
        (bold, "b".to_string()),
        (plain(), " ".to_string()),
        (italic, "c".to_string()),
        (plain(), " ".to_string()),
        (code, "d*".to_string()),
    ];
    assert_eq!(r, expected);
    assert_eq!(runs(""), vec![]);
    assert_eq!(
        runs("~~x~~ ~y"),
        vec![
            (
                Runs {
                    strike: true,
                    ..plain()
                },
                "x".to_string()
            ),
            (plain(), " ~y".to_string())
        ]
    );
}

#[test]
fn a_run_is_drawn_with_the_classes_of_its_marks() {
    let r = Runs {
        bold: true,
        code: true,
        ..plain()
    };
    assert_eq!(
        r.class(),
        "font-semibold rounded bg-muted px-1 py-0.5 font-mono text-[0.85em] "
    );
    assert_eq!(plain().class(), "");
}

#[test]
fn the_preview_groups_lines_into_blocks() {
    let c = chunks("# T\n\npara one\npara two\n\n- a\n- b\n1. c\n> q");
    let got: Vec<(ChunkKind, Vec<String>)> = c.into_iter().map(|c| (c.kind, c.lines)).collect();
    let s = |v: &[&str]| v.iter().map(|x| x.to_string()).collect::<Vec<_>>();
    assert_eq!(
        got,
        vec![
            (ChunkKind::Heading(LineStyle::H1), s(&["T"])),
            (ChunkKind::Para, s(&["para one", "para two"])),
            (ChunkKind::List { ordered: false }, s(&["a", "b"])),
            (ChunkKind::List { ordered: true }, s(&["c"])),
            (ChunkKind::Quote, s(&["q"])),
        ]
    );
    assert!(chunks("").is_empty());
    assert!(chunks("\n\n").is_empty());
}

#[test]
fn the_toolbar_knows_its_marks_and_styles() {
    let slugs: Vec<&str> = Mark::all().iter().map(|m| m.slug()).collect();
    assert_eq!(slugs, vec!["bold", "italic", "strike", "code"]);
    let markers: Vec<&str> = Mark::all().iter().map(|m| m.marker()).collect();
    assert_eq!(markers, vec!["**", "_", "~~", "`"]);
    let labels: Vec<&str> = LineStyle::all().iter().map(|s| s.label()).collect();
    assert_eq!(
        labels,
        vec!["Heading", "Subheading", "Quote", "Bulleted list", "Numbered list"]
    );
    assert_eq!(LineStyle::Number.slug(), "number");
}

use nocli::editor::{marks_pressed, word_count};

#[test]
fn the_pressed_marks_are_read_back_out_of_the_text() {
    assert_eq!(marks_pressed("**_hi_**", 3, 3), vec![Mark::Bold, Mark::Italic]);
    assert_eq!(marks_pressed("plain", 0, 5), vec![]);
    assert_eq!(marks_pressed("`**x**`", 0, 7), vec![Mark::Code]);
}

#[test]
fn words_are_runs_between_white_space() {
    assert_eq!(word_count("  one two\n three  "), 3);
    assert_eq!(word_count(""), 0);
}

#[test]
fn the_first_press_leaves_an_unmarked_selection_marked() {
    let text = "say héllo there";
    assert!(!is_marked(text, 4, 9, Mark::Bold));
    let (t1, s1, e1) = toggle_wrap(text, 4, 9, Mark::Bold);
    assert_eq!(t1, "say **héllo** there");
    assert!(is_marked(&t1, s1, e1, Mark::Bold));
    assert_eq!(toggle_wrap(&t1, s1, e1, Mark::Bold), (text.to_string(), 4, 9));
}

#[test]
fn a_new_style_collapses_the_caret_on_a_line_that_reads_as_it() {
    let text = "intro\nplain line";
    let (t1, c1, d1) = set_style(text, 8, "quote");
    assert_eq!(t1, "intro\n> plain line");
    assert_eq!(c1, d1);
    assert_eq!(style_at(&t1, c1), Some(LineStyle::Quote));
    assert_eq!(set_style(&t1, c1, "quote"), (text.to_string(), 8, 8));
}

use nocli::editor::{Editor, SEED};

#[test]
fn the_editor_reads_its_buttons_back_from_the_text_after_every_step() {
    let mut e = Editor::new();
    assert_eq!(e.text, SEED);
    assert_eq!((e.start, e.end), (0, 0));
    assert_eq!(e.pressed_style(), Some(LineStyle::H1));
    e.edit("one two".to_string(), 4, 7);
    assert!(e.pressed_marks().is_empty());
    e.press_mark(Mark::Italic);
    assert_eq!(e.text, "one _two_");
    assert_eq!(e.pressed_marks(), vec![Mark::Italic]);
    e.press_style("h2");
    assert_eq!(e.text, "## one _two_");
    assert_eq!(e.start, e.end);
    assert_eq!(e.pressed_style(), Some(LineStyle::H2));
    e.reset();
    assert_eq!(e.text, SEED);
    assert_eq!((e.start, e.end), (0, 0));
}
