//! Laws of the picker: what a query leaves, what the screen shows of it, and
//! what each key comes to.

use crate::fuzzy::{accented_from, folds_to_start, fuzzy, matchable, may_be_accented, HitText};
use crate::picker::{bar_row, body_text, effect_of, filterable, filtering_is_settled, head_text};
use crate::picker::{highlighted, hit_run_end, is_consistent, is_filtered, is_hit, joined_runs};
use crate::picker::{labels, lemma_hit_run_end, matches_of, pressed, progress_of, row_text, rows};
use crate::picker::{rows_in, runs_from, scrolled, started, widest, Item, Key, PickerText, Progress};
use crate::picker::SpanText;
use crate::theme;
use crate::theme::Style;
use vstd::prelude::*;
use vstd::utf8::encode_utf8;

verus! {

// ---------------------------------------------------------------------------
// Filtering
// ---------------------------------------------------------------------------

/// The labels are those of the items, one for each and in their order.
pub proof fn labels_are_those_of_the_items(items: Seq<Item>)
    ensures
        labels(items).len() == items.len(),
        forall|k: int| 0 <= k < items.len() ==> #[trigger] labels(items)[k] == items[k].label@,
{
}

/// Where nothing was typed every item is offered, in its place and with nothing
/// hit.
pub proof fn nothing_typed_offers_every_item(hits: Seq<HitText>, labels: Seq<Seq<char>>)
    requires
        is_filtered(hits, labels, Seq::empty()),
    ensures
        hits.len() == labels.len(),
        forall|k: int|
            0 <= k < hits.len() ==> (#[trigger] hits[k]).index == k && hits[k].positions.len() == 0,
{
}

/// A query offers every item whose label the matcher finds it in, however many
/// items there are, and no other.
pub proof fn every_match_is_offered(hits: Seq<HitText>, labels: Seq<Seq<char>>, query: Seq<char>)
    requires
        is_filtered(hits, labels, query),
        query.len() > 0,
    ensures
        forall|i: int| 0 <= i < hits.len() ==> 0 <= (#[trigger] hits[i]).index < labels.len(),
        forall|k: int|
            0 <= k < labels.len() ==> (fuzzy(query, #[trigger] labels[k]) is Some <==> exists|i: int|
                0 <= i < hits.len() && (#[trigger] hits[i]).index == k),
{
    let found = matches_of(labels, query);
    assert forall|k: int| 0 <= k < labels.len() implies (fuzzy(query, #[trigger] labels[k]) is Some
        <==> exists|i: int| 0 <= i < hits.len() && (#[trigger] hits[i]).index == k) by {
        assert(found[k] == fuzzy(query, labels[k]));
        if exists|i: int| 0 <= i < hits.len() && (#[trigger] hits[i]).index == k {
            let i = choose|i: int| 0 <= i < hits.len() && (#[trigger] hits[i]).index == k;
            assert(found[hits[i].index] is Some);
        }
    }
}

/// The better match comes first, and of two equal ones the item that stood
/// first; so no item is offered twice.
pub proof fn the_best_match_comes_first(
    hits: Seq<HitText>,
    labels: Seq<Seq<char>>,
    query: Seq<char>,
    i: int,
    j: int,
)
    requires
        is_filtered(hits, labels, query),
        query.len() > 0,
        0 <= i < j < hits.len(),
    ensures
        ({
            let a = hits[i].index;
            let b = hits[j].index;
            &&& fuzzy(query, labels[a]) matches Some(better)
            &&& fuzzy(query, labels[b]) matches Some(worse)
            &&& better.0 > worse.0 || (better.0 == worse.0 && a < b)
            &&& a != b
        }),
{
    let found = matches_of(labels, query);
    assert(found[hits[i].index] is Some);
    assert(found[hits[j].index] is Some);
    assert(found[hits[i].index] == fuzzy(query, labels[hits[i].index]));
    assert(found[hits[j].index] == fuzzy(query, labels[hits[j].index]));
}

/// What is marked in a label are the places that the matcher hit, in increasing
/// order and each once.
pub proof fn the_places_are_those_that_were_hit(
    hits: Seq<HitText>,
    labels: Seq<Seq<char>>,
    query: Seq<char>,
    i: int,
)
    requires
        is_filtered(hits, labels, query),
        query.len() > 0,
        0 <= i < hits.len(),
    ensures
        ({
            let places = hits[i].positions;
            &&& forall|m: int, n: int| 0 <= m < n < places.len() ==> places[m] < places[n]
            &&& fuzzy(query, labels[hits[i].index]) matches Some(found)
            &&& forall|x: u32| places.contains(x) <==> #[trigger] found.1.contains(x)
        }),
{
    let found = matches_of(labels, query)[hits[i].index];
    assert(found is Some);
    assert(found == fuzzy(query, labels[hits[i].index]));
    let places = hits[i].positions;
    assert forall|x: u32| places.contains(x) <==> #[trigger] (found->0).1.contains(x) by {
        assert(places.contains(x) <==> crate::fuzzy::places_of(found).contains(x));
    }
}

/// No word has an accent where no character may have one.
proof fn lemma_no_accent(query: Seq<char>, j: int)
    requires
        forall|k: int| 0 <= k < query.len() ==> !may_be_accented(#[trigger] query[k]),
        0 <= j,
    ensures
        !accented_from(query, j),
    decreases query.len() - j,
{
    if j < query.len() {
        lemma_no_accent(query, j + 1);
    }
}

/// A query of ordinary length can be matched against a label where it holds no
/// accented letter or where the label is ASCII, whatever else the two are.
pub proof fn ordinary_queries_can_be_matched(query: Seq<char>, label: Seq<char>)
    requires
        encode_utf8(label).len() <= u32::MAX,
        query.len() <= 1260 || (label.len() <= 2520 && query.len() <= 50_000_000),
        (forall|i: int| 0 <= i < label.len() ==> #[trigger] label[i] <= '\u{7f}') || (forall|j: int|
            0 <= j < query.len() ==> {
                let c = #[trigger] query[j];
                !('\u{c0}' <= c <= '\u{36f}' || '\u{1d00}' <= c <= '\u{1eff}' || '\u{2071}' <= c
                    <= '\u{2184}')
            }),
    ensures
        matchable(query, label),
{
    assert forall|i: int, j: int|
        0 <= i < label.len() && 0 <= j < query.len() implies !(#[trigger] folds_to_start(
        query,
        label,
        i,
        j,
    )) by {
        if forall|i: int| 0 <= i < label.len() ==> #[trigger] label[i] <= '\u{7f}' {
            assert(label[i] <= '\u{7f}');
        } else {
            lemma_no_accent(query, j);
        }
    }
}

/// The rows can be filtered where each of them can be matched, and always where
/// nothing was typed.
pub proof fn rows_can_be_filtered_one_by_one(labels: Seq<Seq<char>>, query: Seq<char>)
    ensures
        filterable(labels, Seq::empty()),
        query.len() > 0 ==> (filterable(labels, query) <==> forall|i: int|
            0 <= i < labels.len() ==> matchable(query, #[trigger] labels[i])),
{
}

// ---------------------------------------------------------------------------
// Rows
// ---------------------------------------------------------------------------

/// Two lots of runs in a row.
proof fn lemma_joined_runs(a: Seq<SpanText>, b: Seq<SpanText>)
    ensures
        joined_runs(a + b) == joined_runs(a) + joined_runs(b),
    decreases a.len(),
{
    if a.len() == 0 {
        assert(a + b =~= b);
        assert(joined_runs(a) + joined_runs(b) =~= joined_runs(b));
    } else {
        lemma_joined_runs(a.drop_first(), b);
        assert((a + b).drop_first() =~= a.drop_first() + b);
        assert(a[0].text + (joined_runs(a.drop_first()) + joined_runs(b)) =~= a[0].text
            + joined_runs(a.drop_first()) + joined_runs(b));
    }
}

proof fn lemma_one_run(span: SpanText)
    ensures
        joined_runs(seq![span]) == span.text,
{
    reveal_with_fuel(joined_runs, 2);
    assert(seq![span].drop_first() =~= Seq::<SpanText>::empty());
    assert(joined_runs(seq![span]) =~= span.text);
}

/// A row reads as a marker, the whole label, and the hint where there is one. The
/// hints of all labels that fit the column start at the same place.
pub proof fn a_row_reads_as_marker_label_and_hint(
    label: Seq<char>,
    hint: Seq<char>,
    selected: bool,
    width: int,
    positions: Seq<u32>,
)
    ensures
        ({
            let line = joined_runs(row_text(label, hint, selected, width, positions));
            let front = if selected {
                seq![' ', '>', ' ']
            } else {
                seq![' ', ' ', ' ']
            };
            &&& line.take(3 + label.len() as int) == front + label
            &&& line.len() >= 3 + label.len() + hint.len()
            &&& line.skip(line.len() - hint.len()) == hint
            &&& hint.len() == 0 ==> line == front + label
            &&& hint.len() > 0 && label.len() <= width ==> line.skip(5 + width) == hint
            &&& hint.len() > 0 && label.len() > width ==> line.skip(5 + label.len() as int) == hint
            &&& hint.len() > 0 ==> forall|k: int|
                3 + label.len() <= k < line.len() - hint.len() ==> #[trigger] line[k] == ' '
        }),
{
    reveal_strlit(" > ");
    reveal_strlit("   ");
    let marker = if selected {
        SpanText { text: " > "@, style: theme::selected_text() }
    } else {
        SpanText { text: "   "@, style: theme::text() }
    };
    let front = if selected {
        seq![' ', '>', ' ']
    } else {
        seq![' ', ' ', ' ']
    };
    assert(marker.text =~= front);
    let runs = highlighted(label, positions, marker.style);
    crate::picker::highlighting_keeps_the_text(label, positions, marker.style);
    lemma_one_run(marker);
    lemma_joined_runs(seq![marker], runs);
    let main = seq![marker] + runs;
    let row = row_text(label, hint, selected, width, positions);
    let line = joined_runs(row);
    if hint.len() == 0 {
        assert(row == main);
        assert(line.take(3 + label.len() as int) =~= front + label);
    } else {
        let pad: nat = if width > label.len() {
            (width - label.len() + 2) as nat
        } else {
            2
        };
        let gap = SpanText { text: Seq::new(pad, |i: int| ' '), style: theme::plain() };
        let end = SpanText { text: hint, style: theme::muted() };
        assert(crate::picker::blanks(crate::picker::shortfall(label, width) + 2) =~= gap.text);
        assert(row == main + seq![gap, end]);
        lemma_one_run(gap);
        lemma_one_run(end);
        lemma_joined_runs(seq![gap], seq![end]);
        assert(seq![gap] + seq![end] =~= seq![gap, end]);
        lemma_joined_runs(main, seq![gap, end]);
        assert(line =~= front + label + gap.text + hint);
        assert(line.take(3 + label.len() as int) =~= front + label);
        assert(line.skip(3 + label.len() + pad as int) =~= hint);
    }
}

/// How the character at a place in some runs is drawn.
pub open spec fn style_at(spans: Seq<SpanText>, i: int) -> Style
    decreases spans.len(),
{
    if spans.len() == 0 {
        theme::plain()
    } else if i < spans[0].text.len() {
        spans[0].style
    } else {
        style_at(spans.drop_first(), i - spans[0].text.len())
    }
}

/// A character of a label is drawn as a match exactly where the query hit it.
pub proof fn what_was_hit_stands_out(
    label: Seq<char>,
    positions: Seq<u32>,
    base: Style,
    i: int,
)
    requires
        0 <= i < label.len(),
        i <= u32::MAX,
    ensures
        style_at(highlighted(label, positions, base), i) == if exists|k: int|
            0 <= k < positions.len() && #[trigger] positions[k] == i {
            base.over(theme::matched())
        } else {
            base
        },
{
    if positions.len() > 0 {
        lemma_style_of_runs(label, positions, base, 0, i);
        let hit = exists|k: int| 0 <= k < positions.len() && #[trigger] positions[k] == i;
        if is_hit(positions, i) {
            let k = choose|k: int| 0 <= k < positions.len() && positions[k] == i as u32;
            assert(positions[k] == i);
        }
        if hit {
            let k = choose|k: int| 0 <= k < positions.len() && #[trigger] positions[k] == i;
            assert(positions[k] == i as u32);
        }
    }
}

proof fn lemma_style_of_runs(
    label: Seq<char>,
    positions: Seq<u32>,
    base: Style,
    at: int,
    i: int,
)
    requires
        0 <= at <= i < label.len(),
    ensures
        style_at(runs_from(label, positions, base, at), i - at) == if is_hit(positions, i) {
            base.over(theme::matched())
        } else {
            base
        },
    decreases label.len() - at,
{
    let hit = is_hit(positions, at);
    let end = hit_run_end(positions, label.len() as int, at + 1, hit);
    lemma_hit_run_end(positions, label.len() as int, at + 1, hit);
    let spans = runs_from(label, positions, base, at);
    let rest = runs_from(label, positions, base, end);
    assert(spans.drop_first() =~= rest);
    assert(spans[0].text.len() == end - at);
    if i >= end {
        lemma_style_of_runs(label, positions, base, end, i);
    }
}

/// The styles of some runs with others behind them.
proof fn lemma_style_of_the_front(a: Seq<SpanText>, b: Seq<SpanText>, i: int)
    requires
        0 <= i < joined_runs(a).len(),
    ensures
        style_at(a + b, i) == style_at(a, i),
    decreases a.len(),
{
    assert((a + b).drop_first() =~= a.drop_first() + b);
    if i >= a[0].text.len() {
        lemma_style_of_the_front(a.drop_first(), b, i - a[0].text.len());
    }
}

/// The label of a row is drawn in the style of the row, what was hit as a match.
proof fn lemma_styles_of_a_row(
    label: Seq<char>,
    hint: Seq<char>,
    selected: bool,
    width: int,
    positions: Seq<u32>,
)
    ensures
        ({
            let base = if selected {
                theme::selected_text()
            } else {
                theme::text()
            };
            forall|k: int|
                0 <= k < label.len() && k <= u32::MAX ==> #[trigger] style_at(
                    row_text(label, hint, selected, width, positions),
                    3 + k,
                ) == if (exists|m: int| 0 <= m < positions.len() && #[trigger] positions[m] == k) {
                    base.over(theme::matched())
                } else {
                    base
                }
        }),
{
    reveal_strlit(" > ");
    reveal_strlit("   ");
    let base = if selected {
        theme::selected_text()
    } else {
        theme::text()
    };
    let row = row_text(label, hint, selected, width, positions);
    let runs = highlighted(label, positions, base);
    crate::picker::highlighting_keeps_the_text(label, positions, base);
    let rest = row.skip(1 + runs.len() as int);
    assert(row.drop_first() =~= runs + rest);
    assert forall|k: int| 0 <= k < label.len() && k <= u32::MAX implies #[trigger] style_at(
        row,
        3 + k,
    ) == if (exists|m: int| 0 <= m < positions.len() && #[trigger] positions[m] == k) {
        base.over(theme::matched())
    } else {
        base
    } by {
        assert(row[0].text.len() == 3);
        assert(style_at(row, 3 + k) == style_at(row.drop_first(), k));
        lemma_style_of_the_front(runs, rest, k);
        what_was_hit_stands_out(label, positions, base, k);
    }
}

/// The column of the hints is as wide as the longest label that has a hint, and
/// no wider.
pub proof fn the_column_fits_every_label_with_a_hint(items: Seq<Item>)
    ensures
        forall|k: int|
            0 <= k < items.len() && (#[trigger] items[k]).hint@.len() > 0 ==> items[k].label@.len()
                <= widest(items),
        widest(items) > 0 ==> exists|k: int|
            0 <= k < items.len() && (#[trigger] items[k]).hint@.len() > 0 && items[k].label@.len()
                == widest(items),
    decreases items.len(),
{
    if items.len() > 0 {
        let front = items.drop_last();
        the_column_fits_every_label_with_a_hint(front);
        assert forall|k: int|
            0 <= k < items.len() && (#[trigger] items[k]).hint@.len() > 0 implies items[k].label@.len()
            <= widest(items) by {
            if k < front.len() {
                assert(front[k] == items[k]);
            }
        }
        if widest(items) > 0 {
            if widest(items) == widest(front) {
                let k = choose|k: int|
                    0 <= k < front.len() && (#[trigger] front[k]).hint@.len() > 0
                        && front[k].label@.len() == widest(front);
                assert(items[k] == front[k]);
            } else {
                assert(items[items.len() - 1].label@.len() == widest(items));
            }
        }
    }
}

// ---------------------------------------------------------------------------
// The screen
// ---------------------------------------------------------------------------

/// The list shows the rows from the offset on, one under another and as many as
/// fit: each reads as the label of its item and its hint, and the selected one
/// alone has the marker and its style. What the query hit stands out.
pub proof fn the_rows_in_view_are_drawn(
    items: Seq<Item>,
    order: Seq<HitText>,
    selected: int,
    offset: int,
    width: int,
    height: int,
    i: int,
)
    requires
        0 <= offset,
        0 <= i < height,
        offset + i < order.len(),
    ensures
        ({
            let body = body_text(items, order, selected, offset, width, height);
            let label = items[order[offset + i].index].label@;
            let hint = items[order[offset + i].index].hint@;
            let places = order[offset + i].positions;
            let base = if offset + i == selected {
                theme::selected_text()
            } else {
                theme::text()
            };
            let line = joined_runs(body[i]);
            &&& i < body.len() <= height
            &&& line.take(3 + label.len() as int) == if offset + i == selected {
                seq![' ', '>', ' ']
            } else {
                seq![' ', ' ', ' ']
            } + label
            &&& line.len() >= 3 + label.len() + hint.len()
            &&& line.skip(line.len() - hint.len()) == hint
            &&& forall|k: int|
                0 <= k < label.len() && k <= u32::MAX ==> #[trigger] style_at(body[i], 3 + k) == if (
                exists|m: int| 0 <= m < places.len() && #[trigger] places[m] == k) {
                    base.over(theme::matched())
                } else {
                    base
                }
        }),
{
    let hit = order[offset + i];
    let item = items[hit.index];
    let base = if offset + i == selected {
        theme::selected_text()
    } else {
        theme::text()
    };
    let row = row_text(item.label@, item.hint@, offset + i == selected, width, hit.positions);
    lemma_styles_of_a_row(item.label@, item.hint@, offset + i == selected, width, hit.positions);
    assert(body_text(items, order, selected, offset, width, height)[i] == row);
    a_row_reads_as_marker_label_and_hint(
        item.label@,
        item.hint@,
        offset + i == selected,
        width,
        hit.positions,
    );
}

/// Where no row is left the list says so.
pub proof fn an_empty_list_says_so(
    items: Seq<Item>,
    selected: int,
    offset: int,
    width: int,
    height: int,
)
    ensures
        ({
            let body = body_text(items, Seq::empty(), selected, offset, width, height);
            &&& body.len() == 1
            &&& joined_runs(body[0]) == "   no matches"@
            &&& bar_row(0, selected, offset, height) is None
        }),
{
    lemma_one_run(SpanText { text: "   no matches"@, style: theme::dim() });
}

/// Enter takes the row that the screen marks: whatever was typed and wherever the
/// list was scrolled to, the item that is chosen is the one whose label stands on
/// the line with the bar, behind the marker. Where no row is left it does nothing.
pub proof fn enter_takes_the_marked_row(
    items: Seq<Item>,
    p: PickerText,
    width: int,
    height: int,
    ctrl: bool,
    alt: bool,
)
    requires
        is_consistent(labels(items), p),
        items.len() <= usize::MAX,
        0 <= p.offset,
    ensures
        ({
            let effect = effect_of(p.query, Key::Enter, ctrl, alt);
            let body = body_text(items, p.order, p.selected, p.offset, width, height);
            &&& pressed(labels(items), p, effect) == p
            &&& p.order.len() == 0 ==> progress_of(p, effect) == Progress::Open
            &&& p.order.len() > 0 ==> (progress_of(p, effect) matches Progress::Chosen(index)
                && index == p.order[p.selected].index)
            &&& (p.order.len() > 0 && p.offset <= p.selected < p.offset + height) ==> bar_row(
                p.order.len() as int,
                p.selected,
                p.offset,
                height,
            ) == Some(p.selected - p.offset)
            &&& bar_row(p.order.len() as int, p.selected, p.offset, height) matches Some(b) ==> {
                &&& 0 <= b < body.len()
                &&& progress_of(p, effect) matches Progress::Chosen(index)
                &&& joined_runs(body[b]).take(3 + items[index as int].label@.len() as int) == seq![
                    ' ',
                    '>',
                    ' ',
                ] + items[index as int].label@
            }
        }),
{
    let bar = bar_row(p.order.len() as int, p.selected, p.offset, height);
    if p.order.len() > 0 {
        assert(0 <= p.order[p.selected].index < labels(items).len());
    }
    if let Some(b) = bar {
        the_rows_in_view_are_drawn(items, p.order, p.selected, p.offset, width, height, b);
    }
}

/// Scrolling moves the list only where the selected row is out of view, no
/// further than it takes, and changes nothing else.
pub proof fn scrolling_moves_no_more_than_it_must(p: PickerText, rows: int)
    requires
        rows > 0,
    ensures
        ({
            let q = scrolled(p, rows);
            &&& q.query == p.query && q.order == p.order && q.selected == p.selected
            &&& q.offset <= q.selected < q.offset + rows
            &&& p.offset <= p.selected < p.offset + rows ==> q.offset == p.offset
            &&& p.selected < p.offset ==> q.offset == p.selected
            &&& p.offset + rows <= p.selected ==> q.offset + rows == p.selected + 1
        }),
{
}

// ---------------------------------------------------------------------------
// Keys
// ---------------------------------------------------------------------------

/// The picker after a key.
pub open spec fn after(
    labels: Seq<Seq<char>>,
    p: PickerText,
    key: Key,
    ctrl: bool,
    alt: bool,
) -> PickerText {
    pressed(labels, p, effect_of(p.query, key, ctrl, alt))
}

/// What a key makes of the picker.
pub open spec fn outcome(p: PickerText, key: Key, ctrl: bool, alt: bool) -> Progress {
    progress_of(p, effect_of(p.query, key, ctrl, alt))
}

/// Whether a key moves down.
pub open spec fn is_down(key: Key, ctrl: bool) -> bool {
    key == Key::Down || (ctrl && (key == Key::Char('n') || key == Key::Char('j')))
}

/// Whether a key moves up.
pub open spec fn is_up(key: Key, ctrl: bool) -> bool {
    key == Key::Up || (ctrl && (key == Key::Char('p') || key == Key::Char('k')))
}

/// Down goes to the row below, and stays on the last one. What was typed and the
/// rows that are left stay as they are, and the picker stays open.
pub proof fn down_goes_to_the_row_below(
    labels: Seq<Seq<char>>,
    p: PickerText,
    key: Key,
    ctrl: bool,
    alt: bool,
)
    requires
        is_down(key, ctrl),
        is_consistent(labels, p),
    ensures
        ({
            let q = after(labels, p, key, ctrl, alt);
            &&& outcome(p, key, ctrl, alt) == Progress::Open
            &&& q.query == p.query && q.order == p.order && q.offset == p.offset
            &&& p.selected + 1 < p.order.len() ==> q.selected == p.selected + 1
            &&& p.selected + 1 >= p.order.len() ==> q.selected == p.selected
        }),
{
}

/// Up goes to the row above, and stays on the first one, and changes nothing
/// else.
pub proof fn up_goes_to_the_row_above(
    labels: Seq<Seq<char>>,
    p: PickerText,
    key: Key,
    ctrl: bool,
    alt: bool,
)
    requires
        is_up(key, ctrl),
        is_consistent(labels, p),
    ensures
        ({
            let q = after(labels, p, key, ctrl, alt);
            &&& outcome(p, key, ctrl, alt) == Progress::Open
            &&& q.query == p.query && q.order == p.order && q.offset == p.offset
            &&& p.selected > 0 ==> q.selected == p.selected - 1
            &&& p.selected == 0 ==> q.selected == 0
        }),
{
}

/// Whether a picker shows a query from the top: its rows are those that the query
/// leaves, and the first is selected.
pub open spec fn shows_from_the_top(
    q: PickerText,
    labels: Seq<Seq<char>>,
    query: Seq<char>,
) -> bool {
    &&& q.query == query
    &&& q.selected == 0
    &&& q.offset == 0
    &&& forall|hits: Seq<HitText>| is_filtered(hits, labels, query) ==> q.order == hits
}

proof fn lemma_from_the_top(labels: Seq<Seq<char>>, q: PickerText, query: Seq<char>)
    requires
        q.query == query,
        q.selected == 0,
        q.offset == 0,
        q.order == rows(labels, query),
    ensures
        shows_from_the_top(q, labels, query),
{
    assert forall|hits: Seq<HitText>| is_filtered(hits, labels, query) implies q.order == hits by {
        filtering_is_settled(hits, labels, query);
    }
}

/// A picker that was just opened shows every item, from the top, and nothing
/// typed.
pub proof fn a_new_picker_shows_every_item(labels: Seq<Seq<char>>)
    ensures
        ({
            let p = started(labels, Seq::empty());
            &&& shows_from_the_top(p, labels, Seq::empty())
            &&& p.order.len() == labels.len()
            &&& forall|k: int| 0 <= k < labels.len() ==> (#[trigger] p.order[k]).index == k
        }),
{
    let p = started(labels, Seq::empty());
    lemma_from_the_top(labels, p, Seq::empty());
    let all = Seq::new(labels.len(), |i: int| HitText { index: i, positions: Seq::empty() });
    assert(is_filtered(all, labels, Seq::empty()));
    assert(p.order == all);
}

/// The list has all the lines but the one above it and the one below it, and
/// never less than one.
pub proof fn the_list_has_the_lines_between(height: u16)
    ensures
        height >= 3 ==> rows_in(height) == height - 2,
        height < 3 ==> rows_in(height) == 1,
{
}

/// The line above the list shows what was typed, behind a prompt.
pub proof fn the_head_shows_the_query(query: Seq<char>)
    ensures
        joined_runs(head_text(query)) == " > "@ + query,
{
    let prompt = SpanText { text: " > "@, style: theme::dim() };
    let typed = SpanText { text: query, style: theme::strong() };
    lemma_one_run(prompt);
    lemma_one_run(typed);
    lemma_joined_runs(seq![prompt], seq![typed]);
    assert(seq![prompt] + seq![typed] =~= head_text(query));
}

/// A letter goes to the end of what was typed, whichever letter it is, and the
/// rows are those that the longer query leaves.
pub proof fn a_letter_goes_to_the_query(labels: Seq<Seq<char>>, p: PickerText, c: char)
    ensures
        outcome(p, Key::Char(c), false, false) == Progress::Open,
        shows_from_the_top(
            after(labels, p, Key::Char(c), false, false),
            labels,
            p.query + seq![c],
        ),
{
    assert(p.query.push(c) =~= p.query + seq![c]);
    let q = after(labels, p, Key::Char(c), false, false);
    lemma_from_the_top(labels, q, p.query + seq![c]);
}

/// Backspace takes the last letter off, and the rows are those that the shorter
/// query leaves.
pub proof fn backspace_takes_the_last_letter(
    labels: Seq<Seq<char>>,
    p: PickerText,
    query: Seq<char>,
    c: char,
    ctrl: bool,
    alt: bool,
)
    requires
        p.query == query + seq![c] || (p.query.len() == 0 && query.len() == 0),
    ensures
        outcome(p, Key::Backspace, ctrl, alt) == Progress::Open,
        shows_from_the_top(after(labels, p, Key::Backspace, ctrl, alt), labels, query),
{
    if p.query.len() > 0 {
        assert((query + seq![c]).drop_last() =~= query);
    } else {
        assert(p.query =~= query);
    }
    lemma_from_the_top(labels, after(labels, p, Key::Backspace, ctrl, alt), query);
}

/// Escape, and `u` with control held, clear what was typed and show every item
/// again.
pub proof fn the_query_can_be_cleared(labels: Seq<Seq<char>>, p: PickerText, ctrl: bool, alt: bool)
    ensures
        p.query.len() > 0 ==> outcome(p, Key::Esc, ctrl, alt) == Progress::Open
            && shows_from_the_top(after(labels, p, Key::Esc, ctrl, alt), labels, Seq::empty()),
        outcome(p, Key::Char('u'), true, alt) == Progress::Open,
        shows_from_the_top(after(labels, p, Key::Char('u'), true, alt), labels, Seq::empty()),
{
    if p.query.len() > 0 {
        lemma_from_the_top(labels, after(labels, p, Key::Esc, ctrl, alt), Seq::empty());
    }
    lemma_from_the_top(labels, after(labels, p, Key::Char('u'), true, alt), Seq::empty());
}

/// The picker is dismissed by escape where nothing was typed, by `c` with control
/// held, and by no other key.
pub proof fn only_escape_and_control_c_dismiss(p: PickerText, key: Key, ctrl: bool, alt: bool)
    ensures
        outcome(p, key, ctrl, alt) == Progress::Canceled <==> (key == Key::Esc && p.query.len()
            == 0) || (key == Key::Char('c') && ctrl),
{
}

/// Only Enter chooses.
pub proof fn only_enter_chooses(p: PickerText, key: Key, ctrl: bool, alt: bool)
    ensures
        outcome(p, key, ctrl, alt) is Chosen ==> key == Key::Enter,
{
}

/// Any other key, a letter with control held that does nothing else, and a letter
/// with only the other modifier held leave the picker as it is.
pub proof fn the_other_keys_do_nothing(
    labels: Seq<Seq<char>>,
    p: PickerText,
    key: Key,
    ctrl: bool,
    alt: bool,
)
    requires
        !is_down(key, ctrl) && !is_up(key, ctrl),
        key == Key::Other || (key is Char && ctrl && key != Key::Char('c') && key != Key::Char('u'))
            || (key is Char && alt && !ctrl),
    ensures
        outcome(p, key, ctrl, alt) == Progress::Open,
        after(labels, p, key, ctrl, alt) == p,
{
}

/// The picker after so many times down.
pub open spec fn after_downs(labels: Seq<Seq<char>>, p: PickerText, n: nat) -> PickerText
    decreases n,
{
    if n == 0 {
        p
    } else {
        after(labels, after_downs(labels, p, (n - 1) as nat), Key::Down, false, false)
    }
}

/// Every row can be reached and taken: after so many times down, Enter chooses
/// the item of the row so far below the first, or of the last.
pub proof fn every_row_can_be_taken(labels: Seq<Seq<char>>, p: PickerText, n: nat)
    requires
        is_consistent(labels, p),
        p.selected == 0,
        p.order.len() > 0,
        labels.len() <= usize::MAX,
    ensures
        ({
            let q = after_downs(labels, p, n);
            let row = if n < p.order.len() {
                n as int
            } else {
                p.order.len() - 1
            };
            &&& q.selected == row
            &&& q.order == p.order
            &&& q.query == p.query
            &&& q.offset == p.offset
            &&& outcome(q, Key::Enter, false, false) matches Progress::Chosen(index)
            &&& index == p.order[row].index
        }),
    decreases n,
{
    if n > 0 {
        every_row_can_be_taken(labels, p, (n - 1) as nat);
    }
    let q = after_downs(labels, p, n);
    assert(0 <= q.order[q.selected].index < labels.len());
}

} // verus!
