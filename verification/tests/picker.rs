//! The picker: what it filters, what it draws, and what each key does.

use ratatui::backend::TestBackend;
use ratatui::buffer::Buffer;
use ratatui::layout::{Constraint, Layout, Rect};
use ratatui::style::{Color, Modifier, Style};
use ratatui::widgets::Paragraph;
use ratatui::{Frame, Terminal};

use trydir::error::Error;
use trydir::fuzzy::{is_matchable, rank, Hit};
use trydir::picker::{
    can_filter, filter, highlight, label_width, list_height, next, render, row, viewport_height,
    Item, Key, Line, Picker, Progress, Screen, Span, CHROME, MAX_VISIBLE,
};
use trydir::theme;

fn item(label: &str, hint: &str) -> Item {
    Item {
        label: label.to_string(),
        hint: hint.to_string(),
    }
}

fn items(labels: &[&str]) -> Vec<Item> {
    labels.iter().map(|label| item(label, "")).collect()
}

fn indices(hits: &[Hit]) -> Vec<usize> {
    hits.iter().map(|hit| hit.index).collect()
}

fn matching(items: &[Item], query: &str) -> Vec<usize> {
    indices(&filter(items, query))
}

/// The text of a line, with the styling dropped.
fn text(line: &Line) -> String {
    line.spans.iter().map(|span| span.text.as_str()).collect()
}

fn color(c: theme::Color) -> Color {
    Color::Rgb(c.red, c.green, c.blue)
}

fn style(s: theme::Style) -> Style {
    let mut out = Style::new();
    if let Some(fg) = s.fg {
        out = out.fg(color(fg));
    }
    if let Some(bg) = s.bg {
        out = out.bg(color(bg));
    }
    if s.bold {
        out = out.add_modifier(Modifier::BOLD);
    }
    out
}

fn line(l: &Line) -> ratatui::text::Line<'static> {
    let spans: Vec<ratatui::text::Span<'static>> = l
        .spans
        .iter()
        .map(|span: &Span| ratatui::text::Span::styled(span.text.clone(), style(span.style)))
        .collect();
    ratatui::text::Line::from(spans)
}

fn paint(frame: &mut Frame, show: impl Fn(u16) -> Screen) {
    let [head, body, foot] = Layout::vertical([
        Constraint::Length(1),
        Constraint::Min(1),
        Constraint::Length(1),
    ])
    .areas(frame.area());
    let shown = show(body.height);
    frame.render_widget(Paragraph::new(line(&shown.head)), head);
    let lines: Vec<ratatui::text::Line> = shown.body.iter().map(line).collect();
    frame.render_widget(Paragraph::new(lines), body);
    if let Some(row) = shown.bar {
        let bar = Rect {
            y: body.y + row,
            height: 1,
            ..body
        };
        frame.buffer_mut().set_style(bar, style(theme::selected()));
    }
    frame.render_widget(Paragraph::new(line(&shown.foot)), foot);
}

/// Every row of a rendered frame, trailing blanks trimmed.
fn screen(buffer: &Buffer) -> Vec<String> {
    (0..buffer.area.height)
        .map(|y| {
            let row: String = (0..buffer.area.width)
                .filter_map(|x| buffer.cell((x, y)))
                .map(|cell| cell.symbol())
                .collect();
            row.trim_end().to_string()
        })
        .collect()
}

fn draw(query: &str, list: &[Item], selected: usize, offset: usize) -> Buffer {
    let width = label_width(list);
    let order = filter(list, query);
    let height = viewport_height(list.len());
    let mut term = Terminal::new(TestBackend::new(60, height)).unwrap();
    term.draw(|frame| {
        paint(frame, |height| {
            render(query, list, &order, selected, offset, width, height)
        })
    })
    .unwrap();
    term.backend().buffer().clone()
}

#[test]
fn an_empty_query_keeps_every_row_in_order() {
    let list = items(&["redis", "notes", "try"]);
    let hits = filter(&list, "");
    assert_eq!(
        hits.iter().map(|hit| hit.index).collect::<Vec<_>>(),
        [0, 1, 2]
    );
    assert!(hits.iter().all(|hit| hit.positions.is_empty()));
}

#[test]
fn a_query_keeps_only_what_it_matches() {
    let list = items(&["redis", "notes", "rust-docs"]);
    assert_eq!(matching(&list, "red"), [0]);
    assert_eq!(matching(&list, "zzz"), Vec::<usize>::new());
}

/// Fuzzy, so the letters only have to appear in order.
#[test]
fn a_query_matches_letters_spread_through_the_label() {
    let list = items(&["goofansu-try-pr-123"]);
    assert_eq!(matching(&list, "gtry"), [0]);
    assert_eq!(matching(&list, "pr123"), [0]);
}

#[test]
fn a_lowercase_query_ignores_case() {
    let list = items(&["Redis"]);
    assert_eq!(matching(&list, "red"), [0]);
}

#[test]
fn better_matches_come_first() {
    let list = items(&["my-redis-fork", "redis"]);
    assert_eq!(
        matching(&list, "redis"),
        [1, 0],
        "the whole label beats a fragment of one"
    );
}

/// The positions are what the row highlights, so they have to be usable as
/// a sorted, duplicate-free index into the label.
#[test]
fn matched_positions_are_sorted_and_unique() {
    let list = items(&["goofansu-try"]);
    let hits = filter(&list, "try");
    let positions = &hits[0].positions;
    assert!(!positions.is_empty());
    assert!(positions.windows(2).all(|pair| pair[0] < pair[1]));
    assert!(positions.iter().all(|&i| (i as usize) < 12));
}

#[test]
fn the_hint_column_clears_the_longest_label_that_has_one() {
    let list = vec![
        item("short", "today"),
        item("a-much-longer-name", ""),
        item("middling", "yesterday"),
    ];
    assert_eq!(
        label_width(&list),
        "middling".len(),
        "a row with no hint does not widen the column"
    );
    assert_eq!(label_width(&items(&["anything"])), 0);
    assert_eq!(label_width(&[]), 0);
}

#[test]
fn the_hint_column_counts_characters_not_bytes() {
    let list = vec![item("réseau", "today")];
    assert_eq!(label_width(&list), 6);
}

#[test]
fn moving_down_stops_at_the_last_row() {
    assert_eq!(next(0, 3), 1);
    assert_eq!(next(1, 3), 2);
    assert_eq!(next(2, 3), 2);
    assert_eq!(next(0, 0), 0, "an empty list has nowhere to go");
}

#[test]
fn an_unmatched_label_is_one_plain_run() {
    let spans = highlight("redis", &[], theme::text());
    assert_eq!(spans.len(), 1);
    assert_eq!(spans[0].text, "redis");
    assert_eq!(spans[0].style, theme::text());
}

#[test]
fn highlighting_splits_the_label_into_runs() {
    let spans = highlight("redis", &[0, 1, 2], theme::text());
    let runs: Vec<(&str, bool)> = spans
        .iter()
        .map(|span| {
            (
                span.text.as_str(),
                span.style == theme::text().patch(theme::matched()),
            )
        })
        .collect();
    assert_eq!(runs, [("red", true), ("is", false)]);

    let spans = highlight("redis", &[1, 3], theme::text());
    let runs: Vec<&str> = spans.iter().map(|span| span.text.as_str()).collect();
    assert_eq!(runs, ["r", "e", "d", "i", "s"]);
}

#[test]
fn highlighting_a_whole_label_is_one_matched_run() {
    let spans = highlight("try", &[0, 1, 2], theme::text());
    assert_eq!(spans.len(), 1);
    assert_eq!(spans[0].text, "try");
    assert_eq!(spans[0].style, theme::text().patch(theme::matched()));
}

/// The positions are character offsets, not byte offsets.
#[test]
fn highlighting_counts_characters_not_bytes() {
    let spans = highlight("réseau", &[0, 1], theme::text());
    assert_eq!(spans[0].text, "ré");
    assert_eq!(spans[1].text, "seau");
}

#[test]
fn a_row_marks_the_one_you_are_on() {
    assert!(text(&row(&item("redis", ""), true, 0, &[])).starts_with(" > "));
    assert!(text(&row(&item("redis", ""), false, 0, &[])).starts_with("   "));
}

#[test]
fn a_row_pads_its_label_out_to_the_hint_column() {
    let line = row(&item("try", "today"), false, 8, &[]);
    assert_eq!(text(&line), "   try       today");

    let line = row(&item("try", ""), false, 8, &[]);
    assert_eq!(text(&line), "   try", "no hint, no padding");
}

#[test]
fn the_frame_shows_the_query_the_rows_and_the_help() {
    let list = vec![item("redis", "today"), item("notes", "3 days ago")];
    let screen = screen(&draw("", &list, 0, 0));
    assert_eq!(screen[0], " >");
    assert_eq!(screen[1], " > redis  today");
    assert_eq!(screen[2], "   notes  3 days ago");
    assert!(screen[3].contains("enter select"), "{:?}", screen[3]);
}

#[test]
fn the_frame_echoes_what_was_typed() {
    let list = vec![item("redis", "")];
    let screen = screen(&draw("red", &list, 0, 0));
    assert_eq!(screen[0], " > red");
}

#[test]
fn a_query_that_matches_nothing_says_so() {
    let list = vec![item("redis", ""), item("notes", "")];
    let screen = screen(&draw("zzz", &list, 0, 0));
    assert_eq!(screen[1], "   no matches");
    assert_eq!(screen[2], "");
}

/// The bar spans the whole width, not just the text, so it is painted over
/// the row after the rows are drawn.
#[test]
fn the_selected_row_is_a_full_width_bar() {
    let list = vec![item("redis", ""), item("notes", "")];
    let buffer = draw("", &list, 1, 0);
    let bar_row = 2;
    for x in 0..buffer.area.width {
        assert_eq!(
            buffer.cell((x, bar_row)).unwrap().bg,
            color(theme::surface_color()),
            "column {x} of the selected row"
        );
    }
    for x in 0..buffer.area.width {
        assert_ne!(
            buffer.cell((x, 1)).unwrap().bg,
            color(theme::surface_color())
        );
    }
}

/// The list is taller than the viewport, so it scrolls: the offset is the
/// first row drawn.
#[test]
fn a_long_list_is_drawn_from_the_offset() {
    let labels: Vec<String> = (0..20).map(|n| format!("project-{n:02}")).collect();
    let list: Vec<Item> = labels.iter().map(|l| item(l, "")).collect();

    let screen = screen(&draw("", &list, 12, 8));
    assert_eq!(screen.len(), MAX_VISIBLE + CHROME as usize);
    assert_eq!(screen[1], "   project-08");
    assert_eq!(screen[5], " > project-12", "the selected row is marked");
    assert_eq!(screen[10], "   project-17");
}

#[test]
fn the_matched_characters_stand_out() {
    let list = vec![item("redis", "")];
    let buffer = draw("red", &list, 0, 0);
    // "   redis": the first three letters matched.
    for (x, matched) in [(3, true), (4, true), (5, true), (6, false), (7, false)] {
        let cell = buffer.cell((x, 1)).unwrap();
        assert_eq!(
            cell.fg == color(theme::yellow_color()),
            matched,
            "column {x} ({})",
            cell.symbol()
        );
    }
}

// ---------------------------------------------------------------------------
// Ranking
// ---------------------------------------------------------------------------

#[test]
fn ranking_goes_by_score_and_then_by_place() {
    let hits = rank(vec![
        Some((5, vec![2, 0, 2])),
        None,
        Some((9, vec![])),
        Some((5, vec![1])),
        Some((9, vec![3, 1])),
    ]);
    assert_eq!(indices(&hits), [2, 4, 0, 3]);
    let positions: Vec<&[u32]> = hits.iter().map(|hit| hit.positions.as_slice()).collect();
    let expected: [&[u32]; 4] = [&[], &[1, 3], &[0, 2], &[1]];
    assert_eq!(positions, expected);
    assert!(rank(vec![]).is_empty());
    assert!(rank(vec![None, None]).is_empty());
}

/// Several words are matched one by one, and the places of all are kept.
#[test]
fn every_word_of_a_query_has_to_match() {
    let list = items(&["rust-docs", "docs", "rust"]);
    assert_eq!(matching(&list, "docs rust"), [0]);
    assert_eq!(filter(&list, "docs rust")[0].positions, [0, 1, 2, 3, 5, 6, 7, 8]);
    // A query of blanks has no words, and so rules nothing out.
    assert_eq!(matching(&list, " "), [0, 1, 2]);
}

#[test]
fn a_capital_in_the_query_respects_case() {
    let list = items(&["redis", "Redis"]);
    assert_eq!(matching(&list, "Red"), [1]);
}

#[test]
fn ordinary_labels_can_always_be_matched() {
    assert!(is_matchable("red", "redis"));
    assert!(is_matchable("é", "réseau"));
    assert!(is_matchable("réseau", "Οδύσσεια"));
    assert!(is_matchable("z", "Οδυσσεύς"));
    assert!(is_matchable("é", "Οδυσσεύς"));
    assert!(is_matchable("éσ", "Οδυσσεύς"));
    assert!(is_matchable("é os", "ſ"));
    // A word with an accent may not start with what a small letter of the label
    // is folded to. A blank behind a backslash does not end a word.
    for query in ["σé", "z σé", "!σé", "^σé", "'σé", "!^σé", "!'σé", "z !σé", "σ\\ é"] {
        assert!(!is_matchable(query, "Οδυσσεύς"), "{query}");
        assert!(is_matchable(query, "Οδύσσεια"), "{query}");
    }
    for query in ["é σ", "σ é", "é !^σ", "zσé", "!!σé", "^!σé", "\\!σé", "\\σé", "z\\ σé"] {
        assert!(is_matchable(query, "Οδυσσεύς"), "{query}");
        assert!(can_filter(&items(&["Οδυσσεύς"]), query));
        filter(&items(&["Οδυσσεύς", "σς", "ςςς", "xςé"]), query);
    }
    assert!(is_matchable("μ é", "5µ"));
    assert!(!is_matchable("μé", "5µ"));
    assert!(!is_matchable("sé", "ſ"));
    assert!(!is_matchable("\u{13a0}é", "\u{ab70}"));
    assert!(!is_matchable("\u{13f5}é", "\u{13fd}"));
    assert!(!is_matchable(&"a".repeat(1261), &"a".repeat(2521)));
    assert!(is_matchable(&"a".repeat(1260), &"a".repeat(2521)));
    assert!(is_matchable(&"a".repeat(1261), &"a".repeat(2520)));
    assert!(can_filter(&items(&["Οδυσσεύς"]), ""));
    assert!(can_filter(&items(&["redis", "Οδυσσεύς"]), "é"));
    assert!(!can_filter(&items(&["redis", "Οδυσσεύς"]), "σé"));
}

/// An accent in the query rules out a label without it, whatever other letters
/// the label has.
#[test]
fn an_accent_is_matched_as_it_was_typed() {
    let list = items(&["Οδυσσεύς", "réseau", "reseau", "5µ"]);
    assert_eq!(matching(&list, "é"), [1]);
    assert_eq!(matching(&list, "réseau"), [1]);
    assert_eq!(matching(&list, "éσ"), Vec::<usize>::new());
    assert_eq!(matching(&list, "é σ"), Vec::<usize>::new());
    assert_eq!(matching(&list, "reseau"), [1, 2]);
}

/// Places lie inside a label that is ASCII, and inside one with a grapheme that
/// starts outside ASCII. In another they may count bytes.
#[test]
fn places_lie_inside_the_label() {
    let labels = ["redis", "redis-server", "s", "ré-e\u{301}s", "my-日本-re\u{301}dis", "s…"];
    for query in ["r", "redis", "rds", "^re", "is$", "'edi", "red s", "s"] {
        for hit in filter(&items(&labels), query) {
            let len = labels[hit.index].chars().count() as u32;
            assert!(hit.positions.iter().all(|place| *place < len), "{query}");
        }
    }
    assert_eq!(filter(&items(&["e\u{301}x"]), "x")[0].positions, [3]);
    assert_eq!(filter(&items(&["éx"]), "x")[0].positions, [1]);
    assert_eq!(filter(&items(&["aéee\u{301}x"]), "x")[0].positions, [4]);
}

/// Behind an ASCII character, none of these joins its grapheme.
#[test]
fn some_characters_never_combine_with_ascii() {
    for (first, last) in [
        (0x80, 0x2ff), (0x370, 0x482), (0x48a, 0x590), (0x5c8, 0x60f), (0x61b, 0x64a),
        (0x671, 0x6d5), (0x904, 0x939), (0xe01, 0xe30), (0x109e, 0x135c), (0x1e00, 0x200b),
        (0x200e, 0x20cf), (0x20f1, 0x2cee), (0x2e00, 0x3029), (0x3030, 0x3098),
        (0x309b, 0xa66e), (0xabee, 0xfb1d), (0x1f000, 0x1f3fa), (0x1f400, 0x3ffff),
    ] {
        for code in (first..=last).step_by(83).chain([last]) {
            let Some(c) = char::from_u32(code) else {
                continue;
            };
            let label = format!("a{c}e\u{301}e\u{301}e\u{301}x");
            let hits = filter(&items(&[&label]), "x");
            let len = label.chars().count() as u32;
            assert!(hits[0].positions.iter().all(|place| *place < len), "{code:x}");
        }
    }
}

/// The longest query and label that are let through still fit the scores.
#[test]
fn long_queries_are_scored() {
    let label = "a".repeat(2520);
    assert_eq!(filter(&items(&[&label]), &label).len(), 1);
    let label = "ab".repeat(5000);
    let query = "ab".repeat(630);
    assert_eq!(filter(&items(&[&label]), &query).len(), 1);
}

// ---------------------------------------------------------------------------
// Rows
// ---------------------------------------------------------------------------

/// Only the label is coloured by the match, and the base shows through.
#[test]
fn a_matched_run_keeps_the_background_of_its_row() {
    let base = theme::selected();
    let over = base.patch(theme::matched());
    assert_eq!(over.bg, Some(theme::surface_color()));
    assert_eq!(over.fg, Some(theme::yellow_color()));
    assert!(over.bold);
    assert_eq!(theme::matched().patch(theme::plain()), theme::matched());
}

#[test]
fn highlighting_keeps_every_character() {
    for positions in [vec![], vec![0], vec![4], vec![0, 2, 4], vec![9]] {
        let spans = highlight("redis", &positions, theme::text());
        let joined: String = spans.iter().map(|span| span.text.as_str()).collect();
        assert_eq!(joined, "redis", "{positions:?}");
    }
    let none = highlight("", &[0], theme::text());
    assert!(none.is_empty());
    assert_eq!(highlight("", &[], theme::text()).len(), 1);
}

#[test]
fn a_selected_row_is_drawn_in_the_accent() {
    let line = row(&item("try", "today"), true, 3, &[1]);
    let styles: Vec<(String, theme::Style)> = line
        .spans
        .iter()
        .map(|span| (span.text.clone(), span.style))
        .collect();
    let base = theme::selected_text();
    assert_eq!(
        styles,
        vec![
            (" > ".to_string(), base),
            ("t".to_string(), base),
            ("r".to_string(), base.patch(theme::matched())),
            ("y".to_string(), base),
            ("  ".to_string(), theme::plain()),
            ("today".to_string(), theme::muted()),
        ]
    );
    assert_eq!(base.fg, Some(theme::accent_color()));
    assert_eq!(theme::text().fg, Some(theme::text_color()));
    assert_eq!(theme::muted().fg, Some(theme::subtext_color()));
}

#[test]
fn a_label_wider_than_the_column_is_not_cut() {
    assert_eq!(
        text(&row(&item("redis", "today"), false, 2, &[])),
        "   redis  today"
    );
}

#[test]
fn the_bar_is_drawn_only_where_the_row_is() {
    let list = items(&["a", "b", "c"]);
    let order = filter(&list, "");
    assert_eq!(render("", &list, &order, 2, 1, 0, 2).bar, Some(1));
    assert_eq!(render("", &list, &order, 2, 0, 0, 2).bar, None);
    assert_eq!(render("", &list, &order, 0, 1, 0, 2).bar, None);
    assert_eq!(render("", &list, &[], 0, 0, 0, 2).bar, None);
    assert_eq!(render("", &list, &order, 2, 1, 0, 9).body.len(), 2);
    assert!(render("", &list, &order, 2, 7, 0, 9).body.is_empty());
}

#[test]
fn the_picker_is_no_taller_than_it_needs_to_be() {
    assert_eq!(viewport_height(0), 3);
    assert_eq!(viewport_height(1), 3);
    assert_eq!(viewport_height(4), 6);
    assert_eq!(viewport_height(10), 12);
    assert_eq!(viewport_height(500), 12);
    assert_eq!(list_height(12), 10);
    assert_eq!(list_height(3), 1);
    assert_eq!(list_height(2), 1);
    assert_eq!(list_height(0), 1);
}

// ---------------------------------------------------------------------------
// Keys
// ---------------------------------------------------------------------------

fn press(picker: &mut Picker, key: Key) -> Progress {
    assert!(picker.can_take(key, false, false));
    picker.press(key, false, false)
}

fn ctrl(picker: &mut Picker, c: char) -> Progress {
    assert!(picker.can_take(Key::Char(c), true, false));
    picker.press(Key::Char(c), true, false)
}

fn type_in(picker: &mut Picker, text: &str) {
    for c in text.chars() {
        assert_eq!(press(picker, Key::Char(c)), Progress::Open);
    }
}

#[test]
fn typing_filters_and_enter_takes_the_best_match() {
    let mut picker = Picker::new(items(&["my-redis-fork", "notes", "redis"]));
    type_in(&mut picker, "redis");
    assert_eq!(picker.query, "redis");
    assert_eq!(indices(&picker.order), [2, 0]);
    assert_eq!(press(&mut picker, Key::Enter), Progress::Chosen(2));
    assert_eq!(press(&mut picker, Key::Down), Progress::Open);
    assert_eq!(press(&mut picker, Key::Enter), Progress::Chosen(0));
}

/// There is nothing to take where nothing matches.
#[test]
fn enter_on_an_empty_list_does_nothing() {
    let mut picker = Picker::new(items(&["redis"]));
    type_in(&mut picker, "zzz");
    assert_eq!(press(&mut picker, Key::Enter), Progress::Open);
    assert_eq!(picker.query, "zzz");
}

#[test]
fn escape_clears_before_it_cancels() {
    let mut picker = Picker::new(items(&["redis", "notes"]));
    type_in(&mut picker, "red");
    assert_eq!(press(&mut picker, Key::Esc), Progress::Open);
    assert_eq!(picker.query, "");
    assert_eq!(indices(&picker.order), [0, 1]);
    assert_eq!(press(&mut picker, Key::Esc), Progress::Canceled);
}

#[test]
fn control_c_cancels_whatever_was_typed() {
    let mut picker = Picker::new(items(&["redis"]));
    type_in(&mut picker, "red");
    assert_eq!(ctrl(&mut picker, 'c'), Progress::Canceled);
}

#[test]
fn the_selection_moves_and_stops_at_the_ends() {
    let mut picker = Picker::new(items(&["a", "b", "c"]));
    assert_eq!(press(&mut picker, Key::Up), Progress::Open);
    assert_eq!(picker.selected, 0);
    press(&mut picker, Key::Down);
    ctrl(&mut picker, 'n');
    ctrl(&mut picker, 'j');
    assert_eq!(picker.selected, 2);
    ctrl(&mut picker, 'p');
    assert_eq!(picker.selected, 1);
    ctrl(&mut picker, 'k');
    press(&mut picker, Key::Up);
    assert_eq!(picker.selected, 0);
}

/// Only the control-prefixed letters navigate.
#[test]
fn bare_letters_reach_the_query() {
    let mut picker = Picker::new(items(&["a", "b"]));
    type_in(&mut picker, "jknpuc");
    assert_eq!(picker.query, "jknpuc");
    assert_eq!(ctrl(&mut picker, 'x'), Progress::Open);
    assert_eq!(picker.press(Key::Char('y'), false, true), Progress::Open);
    assert_eq!(picker.press(Key::Char('n'), true, true), Progress::Open);
    assert_eq!(press(&mut picker, Key::Other), Progress::Open);
    assert_eq!(picker.query, "jknpuc");
}

#[test]
fn deleting_starts_the_list_over() {
    let mut picker = Picker::new(items(&["redis", "reddit", "rust"]));
    type_in(&mut picker, "re");
    press(&mut picker, Key::Down);
    assert_eq!(picker.selected, 1);
    assert_eq!(press(&mut picker, Key::Backspace), Progress::Open);
    assert_eq!((picker.query.as_str(), picker.selected), ("r", 0));
    assert_eq!(picker.order.len(), 3);
    type_in(&mut picker, "é");
    assert_eq!(press(&mut picker, Key::Backspace), Progress::Open);
    assert_eq!(picker.query, "r", "a character, not a byte");
    ctrl(&mut picker, 'u');
    assert_eq!(picker.query, "");
    press(&mut picker, Key::Down);
    press(&mut picker, Key::Backspace);
    assert_eq!((picker.query.as_str(), picker.selected), ("", 0));
}

#[test]
fn scrolling_keeps_the_selected_row_in_view() {
    let labels: Vec<String> = (0..20).map(|n| format!("project-{n:02}")).collect();
    let mut picker = Picker::new(labels.iter().map(|l| item(l, "")).collect());
    for _ in 0..12 {
        press(&mut picker, Key::Down);
        picker.scroll(10);
    }
    assert_eq!((picker.selected, picker.offset), (12, 3));
    picker.scroll(10);
    assert_eq!(picker.offset, 3, "scrolling settles");
    let shown = picker.screen(10);
    assert_eq!(shown.bar, Some(9));
    assert_eq!(text(&shown.body[9]), " > project-12");
    for _ in 0..11 {
        press(&mut picker, Key::Up);
        picker.scroll(10);
    }
    assert_eq!((picker.selected, picker.offset), (1, 1));
}

#[test]
fn a_query_that_the_matcher_cannot_take_is_told_beforehand() {
    let mut picker = Picker::new(items(&["Οδυσσεύς"]));
    assert!(picker.can_take(Key::Char('é'), false, false));
    press(&mut picker, Key::Char('σ'));
    assert!(!picker.can_take(Key::Char('é'), false, false));
    assert!(picker.can_take(Key::Char('é'), true, false));
    assert!(picker.can_take(Key::Char('e'), false, false));
    assert!(picker.can_take(Key::Esc, false, false));
}

#[test]
fn the_picker_needs_a_terminal() {
    let picker = Picker::open(items(&["redis", "notes"]), true).unwrap();
    assert_eq!(indices(&picker.order), [0, 1]);
    assert!(matches!(
        Picker::open(items(&["redis"]), false),
        Err(Error::NoTerminal)
    ));
}
