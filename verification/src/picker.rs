//! Choose one of a list, with fuzzy filtering: what the picker shows and what
//! each key does to it. Drawing it and reading the keys is left to the terminal.

use crate::choosing::every_match_is_offered;
use crate::error::Error;
use crate::fuzzy::{are_inside, findings, fuzzy, fuzzy_indices, is_matchable, is_ranking};
use crate::fuzzy::{matchable, places_of, rank, ranking_is_unique, starts_beyond_ascii, Found};
use crate::fuzzy::{Hit, HitText};
use crate::order::views;
use crate::text::{chars_of, string_of};
use crate::theme;
use crate::theme::Style;
use vstd::prelude::*;
use vstd::slice::slice_subrange;
use vstd::utf8::{encode_utf8, is_ascii_chars, is_ascii_chars_encode_utf8};

verus! {

/// The picker is drawn inline rather than in the alternate screen, so it is
/// kept to one line per project and no taller than it needs to be.
pub const MAX_VISIBLE: usize = 10;

/// Rows the picker spends on itself rather than on projects: the query line
/// above the list and the help line below it.
pub const CHROME: u16 = 2;

/// One row of the picker.
pub struct Item {
    /// Main text, e.g. "tobi-try".
    pub label: String,
    /// Secondary text, e.g. "3 days ago".
    pub hint: String,
}

/// The labels of some rows.
pub open spec fn labels(items: Seq<Item>) -> Seq<Seq<char>> {
    items.map_values(|item: Item| item.label@)
}

// ---------------------------------------------------------------------------
// Filtering
// ---------------------------------------------------------------------------

/// What the matcher finds for a query in each label.
pub open spec fn matches_of(labels: Seq<Seq<char>>, query: Seq<char>) -> Seq<
    Option<(u32, Seq<u32>)>,
> {
    labels.map_values(|label: Seq<char>| fuzzy(query, label))
}

/// Whether some hits are the rows that a query leaves: all of them, untouched,
/// where nothing was typed, and otherwise the matches, the best first.
pub open spec fn is_filtered(hits: Seq<HitText>, labels: Seq<Seq<char>>, query: Seq<char>) -> bool {
    if query.len() == 0 {
        hits == Seq::new(labels.len(), |i: int| HitText { index: i, positions: Seq::empty() })
    } else {
        is_ranking(hits, matches_of(labels, query))
    }
}

/// The rows that a query leaves.
pub open spec fn rows(labels: Seq<Seq<char>>, query: Seq<char>) -> Seq<HitText> {
    choose|hits: Seq<HitText>| is_filtered(hits, labels, query)
}

/// There is only one way to filter rows by a query.
pub proof fn filtering_is_settled(hits: Seq<HitText>, labels: Seq<Seq<char>>, query: Seq<char>)
    requires
        is_filtered(hits, labels, query),
    ensures
        rows(labels, query) == hits,
{
    let other = rows(labels, query);
    assert(is_filtered(other, labels, query));
    if query.len() > 0 {
        ranking_is_unique(other, hits, matches_of(labels, query));
    }
}

/// Whether every label can be matched against a query. Nothing is matched where
/// nothing was typed.
pub open spec fn filterable(labels: Seq<Seq<char>>, query: Seq<char>) -> bool {
    query.len() > 0 ==> forall|i: int|
        0 <= i < labels.len() ==> matchable(query, #[trigger] labels[i])
}

/// Whether rows can be filtered by a query.
pub fn can_filter(items: &[Item], query: &str) -> (r: bool)
    ensures
        r == filterable(labels(items@), query@),
{
    if chars_of(query).len() == 0 {
        return true;
    }
    for i in 0..items.len()
        invariant
            query@.len() > 0,
            forall|j: int| 0 <= j < i ==> matchable(query@, #[trigger] labels(items@)[j]),
    {
        proof {
            assert(labels(items@)[i as int] == items@[i as int].label@);
        }
        if !is_matchable(query, &items[i].label) {
            return false;
        }
    }
    true
}

/// Whether a hit is one of the rows and its places lie inside: below the number
/// of characters of the label, where it is ASCII or some grapheme of it starts
/// outside ASCII, and in any case below that of its bytes.
pub open spec fn is_inside(hit: HitText, labels: Seq<Seq<char>>) -> bool {
    &&& 0 <= hit.index < labels.len()
    &&& forall|k: int|
        0 <= k < hit.positions.len() ==> {
            let place = #[trigger] hit.positions[k];
            let label = labels[hit.index];
            &&& place < encode_utf8(label).len()
            &&& is_ascii_chars(label) || starts_beyond_ascii(label) ==> place < label.len()
        }
}

/// What was hit in a label lies inside it.
proof fn lemma_inside(hits: Seq<HitText>, labels: Seq<Seq<char>>, query: Seq<char>, i: int)
    requires
        is_ranking(hits, matches_of(labels, query)),
        forall|j: int|
            0 <= j < labels.len() ==> are_inside(fuzzy(query, labels[j]), #[trigger] labels[j]),
        0 <= i < hits.len(),
    ensures
        is_inside(hits[i], labels),
{
    let hit = hits[i];
    let label = labels[hit.index];
    let found = matches_of(labels, query)[hit.index];
    assert(found == fuzzy(query, label));
    if is_ascii_chars(label) {
        is_ascii_chars_encode_utf8(label);
    }
    assert forall|k: int| 0 <= k < hit.positions.len() implies {
        let place = #[trigger] hit.positions[k];
        &&& place < encode_utf8(label).len()
        &&& is_ascii_chars(label) || starts_beyond_ascii(label) ==> place < label.len()
    } by {
        let place = hit.positions[k];
        assert(hit.positions.contains(place));
        assert(places_of(found).contains(place));
        let n = choose|n: int| 0 <= n < places_of(found).len() && places_of(found)[n] == place;
        assert(places_of(found)[n] == place);
    }
}

/// The visible rows, in order: everything when the query is empty, otherwise
/// the fuzzy matches ranked by score.
pub fn filter(items: &[Item], query: &str) -> (r: Vec<Hit>)
    requires
        filterable(labels(items@), query@),
    ensures
        is_filtered(views(r@), labels(items@), query@),
        views(r@) == rows(labels(items@), query@),
        forall|i: int| 0 <= i < r@.len() ==> is_inside((#[trigger] r@[i])@, labels(items@)),
        query@.len() == 0 ==> r@.len() == items@.len() && forall|k: int|
            0 <= k < items@.len() ==> (#[trigger] r@[k]).index == k,
        query@.len() > 0 ==> forall|k: int|
            0 <= k < items@.len() ==> (fuzzy(query@, (#[trigger] items@[k]).label@) is Some
                <==> exists|i: int| 0 <= i < r@.len() && (#[trigger] r@[i]).index == k),
{
    let ghost all = labels(items@);
    if chars_of(query).len() == 0 {
        let mut out: Vec<Hit> = Vec::new();
        for i in 0..items.len()
            invariant
                out@.len() == i,
                forall|j: int|
                    0 <= j < i ==> (#[trigger] views(out@)[j]) == (HitText {
                        index: j,
                        positions: Seq::empty(),
                    }),
        {
            let ghost was = out@;
            out.push(Hit { index: i, positions: Vec::new() });
            proof {
                assert(views(out@) =~= views(was).push(out@[i as int]@));
                assert(out@[i as int]@ =~= (HitText { index: i as int, positions: Seq::empty() }));
            }
        }
        proof {
            assert(views(out@) =~= Seq::new(
                all.len(),
                |i: int| HitText { index: i, positions: Seq::empty() },
            ));
            filtering_is_settled(views(out@), all, query@);
            assert forall|i: int| 0 <= i < out@.len() implies is_inside(
                (#[trigger] out@[i])@,
                all,
            ) by {
                assert(views(out@)[i] == out@[i]@);
            }
            assert forall|k: int| 0 <= k < items@.len() implies (#[trigger] out@[k]).index == k by {
                assert(views(out@)[k] == out@[k]@);
            }
        }
        return out;
    }
    let mut found: Vec<Found> = Vec::new();
    for i in 0..items.len()
        invariant
            query@.len() > 0,
            all == labels(items@),
            filterable(all, query@),
            findings(found@) == matches_of(all.take(i as int), query@),
            forall|j: int|
                0 <= j < i ==> are_inside(fuzzy(query@, all[j]), #[trigger] all[j]),
    {
        let ghost was = found@;
        proof {
            assert(all[i as int] == items@[i as int].label@);
        }
        found.push(fuzzy_indices(query, &items[i].label));
        proof {
            assert(findings(found@) =~= findings(was).push(fuzzy(query@, all[i as int])));
            assert(matches_of(all.take(i + 1), query@) =~= matches_of(
                all.take(i as int),
                query@,
            ).push(fuzzy(query@, all[i as int])));
        }
    }
    proof {
        assert(all.take(all.len() as int) =~= all);
    }
    let out = rank(found);
    proof {
        filtering_is_settled(views(out@), all, query@);
        assert forall|i: int| 0 <= i < out@.len() implies is_inside((#[trigger] out@[i])@, all) by {
            lemma_inside(views(out@), all, query@, i);
        }
        every_match_is_offered(views(out@), all, query@);
        assert forall|k: int| 0 <= k < items@.len() implies (fuzzy(
            query@,
            (#[trigger] items@[k]).label@,
        ) is Some <==> exists|i: int| 0 <= i < out@.len() && (#[trigger] out@[i]).index == k) by {
            assert(all[k] == items@[k].label@);
            if fuzzy(query@, all[k]) is Some {
                let i = choose|i: int|
                    0 <= i < views(out@).len() && (#[trigger] views(out@)[i]).index == k;
                assert(out@[i].index == k);
            }
            if exists|i: int| 0 <= i < out@.len() && (#[trigger] out@[i]).index == k {
                let i = choose|i: int| 0 <= i < out@.len() && (#[trigger] out@[i]).index == k;
                assert(views(out@)[i].index == k);
            }
        }
    }
    out
}

/// The length of the longest label among the rows that have a hint.
pub open spec fn widest(items: Seq<Item>) -> nat
    decreases items.len(),
{
    if items.len() == 0 {
        0
    } else {
        let before = widest(items.drop_last());
        let last = items.last();
        if last.hint@.len() > 0 && last.label@.len() > before {
            last.label@.len()
        } else {
            before
        }
    }
}

/// The column the hints line up on. Rows without a hint do not widen it.
pub fn label_width(items: &[Item]) -> (r: usize)
    ensures
        r == widest(items@),
{
    let mut width: usize = 0;
    for i in 0..items.len()
        invariant
            width == widest(items@.take(i as int)),
    {
        let item = &items[i];
        proof {
            assert(items@.take(i + 1).drop_last() =~= items@.take(i as int));
        }
        if item.hint.as_str().unicode_len() > 0 {
            let len: usize = item.label.as_str().unicode_len();
            if len > width {
                width = len;
            }
        }
    }
    proof {
        assert(items@.take(items@.len() as int) =~= items@);
    }
    width
}

/// The row below `selected`, stopping at the end of the list.
pub open spec fn below(selected: int, len: int) -> int {
    if selected + 1 < len {
        selected + 1
    } else {
        selected
    }
}

/// The row below `selected`, stopping at the end of the list.
pub fn next(selected: usize, len: usize) -> (r: usize)
    requires
        selected < usize::MAX,
    ensures
        r == below(selected as int, len as int),
{
    if selected + 1 < len {
        selected + 1
    } else {
        selected
    }
}

// ---------------------------------------------------------------------------
// Rows
// ---------------------------------------------------------------------------

/// A run of text in one style.
pub struct Span {
    pub text: String,
    pub style: Style,
}

/// A run as text.
#[verifier::ext_equal]
pub struct SpanText {
    pub text: Seq<char>,
    pub style: Style,
}

impl View for Span {
    type V = SpanText;

    open spec fn view(&self) -> SpanText {
        SpanText { text: self.text@, style: self.style }
    }
}

/// A line of runs.
pub struct Line {
    pub spans: Vec<Span>,
}

impl View for Line {
    type V = Seq<SpanText>;

    open spec fn view(&self) -> Seq<SpanText> {
        views(self.spans@)
    }
}

/// Whether the query hit a character of a label.
pub open spec fn is_hit(positions: Seq<u32>, i: int) -> bool {
    positions.contains(i as u32)
}

/// Where the run that a character is in ends: at the first character that
/// differs from it in being hit.
pub open spec fn hit_run_end(positions: Seq<u32>, len: int, at: int, hit: bool) -> int
    decreases len - at,
{
    if at >= len || is_hit(positions, at) != hit {
        at
    } else {
        hit_run_end(positions, len, at + 1, hit)
    }
}

/// A run ends behind where it starts and inside the label.
pub proof fn lemma_hit_run_end(positions: Seq<u32>, len: int, at: int, hit: bool)
    requires
        0 <= at <= len,
    ensures
        at <= hit_run_end(positions, len, at, hit) <= len,
        forall|j: int|
            at <= j < hit_run_end(positions, len, at, hit) ==> is_hit(positions, j) == hit,
        hit_run_end(positions, len, at, hit) < len ==> is_hit(
            positions,
            hit_run_end(positions, len, at, hit),
        ) != hit,
    decreases len - at,
{
    if !(at >= len || is_hit(positions, at) != hit) {
        lemma_hit_run_end(positions, len, at + 1, hit);
    }
}

/// The style of a run.
pub open spec fn run_style(base: Style, hit: bool) -> Style {
    if hit {
        base.over(theme::matched())
    } else {
        base
    }
}

/// The runs of hit and missed characters of a label, from a character on.
pub open spec fn runs_from(label: Seq<char>, positions: Seq<u32>, base: Style, at: int) -> Seq<
    SpanText,
>
    decreases label.len() - at,
    via runs_from_decreases
{
    if at < 0 || at >= label.len() {
        Seq::empty()
    } else {
        let hit = is_hit(positions, at);
        let end = hit_run_end(positions, label.len() as int, at + 1, hit);
        seq![SpanText { text: label.subrange(at, end), style: run_style(base, hit) }] + runs_from(
            label,
            positions,
            base,
            end,
        )
    }
}

#[via_fn]
proof fn runs_from_decreases(label: Seq<char>, positions: Seq<u32>, base: Style, at: int) {
    if 0 <= at < label.len() {
        lemma_hit_run_end(positions, label.len() as int, at + 1, is_hit(positions, at));
    }
}

/// A label with what the query hit standing out.
pub open spec fn highlighted(label: Seq<char>, positions: Seq<u32>, base: Style) -> Seq<SpanText> {
    if positions.len() == 0 {
        seq![SpanText { text: label, style: base }]
    } else {
        runs_from(label, positions, base, 0)
    }
}

/// Whether the query hit a character.
fn hits(positions: &[u32], i: usize) -> (r: bool)
    ensures
        r == is_hit(positions@, i as int),
{
    let place: u32 = i as u32;
    for k in 0..positions.len()
        invariant
            place == i as u32,
            forall|j: int| 0 <= j < k ==> positions@[j] != place,
    {
        if positions[k] == place {
            return true;
        }
    }
    false
}

/// Splits a label into runs of matched and unmatched characters, so the part
/// the query actually hit stands out.
pub fn highlight(label: &str, positions: &[u32], base: Style) -> (r: Vec<Span>)
    ensures
        views(r@) == highlighted(label@, positions@, base),
{
    if positions.len() == 0 {
        let whole = vec![Span { text: label.to_owned(), style: base }];
        proof {
            assert(views(whole@) =~= highlighted(label@, positions@, base));
        }
        return whole;
    }
    let text = chars_of(label);
    let mut spans: Vec<Span> = Vec::new();
    let mut at: usize = 0;
    proof {
        assert(views(spans@) + runs_from(label@, positions@, base, 0) =~= highlighted(
            label@,
            positions@,
            base,
        ));
    }
    while at < text.len()
        invariant
            text@ == label@,
            at <= text@.len(),
            views(spans@) + runs_from(label@, positions@, base, at as int) == highlighted(
                label@,
                positions@,
                base,
            ),
        decreases text@.len() - at,
    {
        let hit = hits(positions, at);
        let mut end: usize = at + 1;
        while end < text.len() && hits(positions, end) == hit
            invariant
                at < end <= text@.len(),
                hit_run_end(positions@, text@.len() as int, at + 1, hit) == hit_run_end(
                    positions@,
                    text@.len() as int,
                    end as int,
                    hit,
                ),
            decreases text@.len() - end,
        {
            end = end + 1;
        }
        let run = slice_subrange(text.as_slice(), at, end);
        let style = if hit {
            base.patch(theme::matched())
        } else {
            base
        };
        let ghost was = views(spans@);
        let ghost new = SpanText { text: run@, style };
        spans.push(Span { text: string_of(run), style });
        proof {
            assert(views(spans@) =~= was.push(new));
            let from = runs_from(label@, positions@, base, at as int);
            assert(from == seq![new] + runs_from(label@, positions@, base, end as int));
            assert(was + from =~= views(spans@) + runs_from(
                label@,
                positions@,
                base,
                end as int,
            ));
        }
        at = end;
    }
    proof {
        assert(views(spans@) + runs_from(label@, positions@, base, at as int) =~= views(spans@));
    }
    spans
}

/// So many spaces.
pub open spec fn blanks(n: nat) -> Seq<char> {
    Seq::new(n, |i: int| ' ')
}

/// Writes so many spaces, and two more.
fn gap(n: usize) -> (r: String)
    ensures
        r@ == blanks((n + 2) as nat),
{
    let mut out = String::new();
    for i in 0..n
        invariant
            out@ == blanks(i as nat),
    {
        out.push(' ');
        proof {
            assert(out@ =~= blanks((i + 1) as nat));
        }
    }
    out.push(' ');
    out.push(' ');
    proof {
        assert(out@ =~= blanks((n + 2) as nat));
    }
    out
}

/// How far a label falls short of the column of the hints.
pub open spec fn shortfall(label: Seq<char>, width: int) -> nat {
    if width > label.len() {
        (width - label.len()) as nat
    } else {
        0
    }
}

/// How a row is drawn: a marker, the label, and the hint in its column where
/// there is one.
pub open spec fn row_text(
    label: Seq<char>,
    hint: Seq<char>,
    selected: bool,
    width: int,
    positions: Seq<u32>,
) -> Seq<SpanText> {
    let marker = if selected {
        SpanText { text: " > "@, style: theme::selected_text() }
    } else {
        SpanText { text: "   "@, style: theme::text() }
    };
    let main = seq![marker] + highlighted(label, positions, marker.style);
    if hint.len() == 0 {
        main
    } else {
        main + seq![
            SpanText { text: blanks(shortfall(label, width) + 2), style: theme::plain() },
            SpanText { text: hint, style: theme::muted() },
        ]
    }
}

/// Draws a row.
pub fn row(item: &Item, selected: bool, width: usize, positions: &[u32]) -> (r: Line)
    ensures
        r@ == row_text(item.label@, item.hint@, selected, width as int, positions@),
{
    let (marker, base) = if selected {
        (" > ", theme::selected_text())
    } else {
        ("   ", theme::text())
    };
    let mut spans: Vec<Span> = vec![Span { text: marker.to_owned(), style: base }];
    let mut label = highlight(&item.label, positions, base);
    let ghost first = views(spans@);
    let ghost rest = views(label@);
    spans.append(&mut label);
    proof {
        assert(views(spans@) =~= first + rest);
        assert(first =~= seq![SpanText { text: marker@, style: base }]);
    }
    if item.hint.as_str().unicode_len() > 0 {
        let len: usize = item.label.as_str().unicode_len();
        let pad: usize = if width > len {
            width - len
        } else {
            0
        };
        let ghost main = views(spans@);
        spans.push(Span { text: gap(pad), style: theme::plain() });
        spans.push(Span { text: item.hint.clone(), style: theme::muted() });
        proof {
            assert(views(spans@) =~= main + seq![
                SpanText {
                    text: blanks(shortfall(item.label@, width as int) + 2),
                    style: theme::plain(),
                },
                SpanText { text: item.hint@, style: theme::muted() },
            ]);
        }
    }
    Line { spans }
}

// ---------------------------------------------------------------------------
// The screen
// ---------------------------------------------------------------------------

/// Everything the picker shows.
pub struct Screen {
    /// The line above the list.
    pub head: Line,
    /// The list, from its first visible row on.
    pub body: Vec<Line>,
    /// The row of the list that has a bar behind it, across the full width.
    pub bar: Option<u16>,
    /// The line below the list.
    pub foot: Line,
}

/// A screen as texts.
pub struct ScreenText {
    pub head: Seq<SpanText>,
    pub body: Seq<Seq<SpanText>>,
    pub bar: Option<int>,
    pub foot: Seq<SpanText>,
}

impl View for Screen {
    type V = ScreenText;

    open spec fn view(&self) -> ScreenText {
        ScreenText {
            head: self.head@,
            body: views(self.body@),
            bar: match self.bar {
                Some(row) => Some(row as int),
                None => None,
            },
            foot: self.foot@,
        }
    }
}

/// The input line: a prompt and what was typed, and nothing else.
pub open spec fn head_text(query: Seq<char>) -> Seq<SpanText> {
    seq![
        SpanText { text: " > "@, style: theme::dim() },
        SpanText { text: query, style: theme::strong() },
    ]
}

/// The help line.
pub open spec fn foot_text() -> Seq<SpanText> {
    seq![
        SpanText {
            text: " type to filter · ↑↓ move · enter select · esc clear/cancel"@,
            style: theme::dim(),
        },
    ]
}

/// The line in place of a list with nothing in it.
pub open spec fn empty_text() -> Seq<SpanText> {
    seq![SpanText { text: "   no matches"@, style: theme::dim() }]
}

/// How many rows of a list are visible from an offset on.
pub open spec fn visible_rows(len: int, offset: int, height: int) -> nat {
    if offset >= len {
        0
    } else if len - offset <= height {
        (len - offset) as nat
    } else {
        height as nat
    }
}

/// The list: as many rows from the offset on as fit.
pub open spec fn body_text(
    items: Seq<Item>,
    order: Seq<HitText>,
    selected: int,
    offset: int,
    width: int,
    height: int,
) -> Seq<Seq<SpanText>> {
    if order.len() == 0 {
        seq![empty_text()]
    } else {
        Seq::new(
            visible_rows(order.len() as int, offset, height),
            |i: int|
                {
                    let hit = order[offset + i];
                    let item = items[hit.index];
                    row_text(item.label@, item.hint@, offset + i == selected, width, hit.positions)
                },
        )
    }
}

/// The row with the bar behind it: the selected one, where there is one and it
/// is in view.
pub open spec fn bar_row(len: int, selected: int, offset: int, height: int) -> Option<int> {
    if len > 0 && offset <= selected < offset + height {
        Some(selected - offset)
    } else {
        None
    }
}

/// Lays out what the picker shows, for a list area of `height` rows.
pub fn render(
    query: &str,
    items: &[Item],
    order: &[Hit],
    selected: usize,
    offset: usize,
    width: usize,
    height: u16,
) -> (r: Screen)
    requires
        forall|i: int| 0 <= i < order@.len() ==> (#[trigger] order@[i]).index < items@.len(),
    ensures
        r@.head == head_text(query@),
        r@.body == body_text(
            items@,
            views(order@),
            selected as int,
            offset as int,
            width as int,
            height as int,
        ),
        r@.bar == bar_row(order@.len() as int, selected as int, offset as int, height as int),
        r@.foot == foot_text(),
{
    let head = Line {
        spans: vec![
            Span { text: " > ".to_owned(), style: theme::dim() },
            Span { text: query.to_owned(), style: theme::strong() },
        ],
    };
    let foot = Line {
        spans: vec![
            Span {
                text: " type to filter · ↑↓ move · enter select · esc clear/cancel".to_owned(),
                style: theme::dim(),
            },
        ],
    };
    proof {
        assert(head@ =~= head_text(query@));
        assert(foot@ =~= foot_text());
    }
    let body = list_rows(items, order, selected, offset, width, height);
    let bar: Option<u16> = if order.len() > 0 && offset <= selected && selected - offset
        < height as usize {
        Some((selected - offset) as u16)
    } else {
        None
    };
    Screen { head, body, bar, foot }
}

/// Draws the rows of the list that are in view.
fn list_rows(
    items: &[Item],
    order: &[Hit],
    selected: usize,
    offset: usize,
    width: usize,
    height: u16,
) -> (r: Vec<Line>)
    requires
        forall|i: int| 0 <= i < order@.len() ==> (#[trigger] order@[i]).index < items@.len(),
    ensures
        views(r@) == body_text(
            items@,
            views(order@),
            selected as int,
            offset as int,
            width as int,
            height as int,
        ),
{
    let ghost want = body_text(
        items@,
        views(order@),
        selected as int,
        offset as int,
        width as int,
        height as int,
    );
    let mut out: Vec<Line> = Vec::new();
    if order.len() == 0 {
        let none = Line {
            spans: vec![Span { text: "   no matches".to_owned(), style: theme::dim() }],
        };
        proof {
            assert(none@ =~= empty_text());
        }
        out.push(none);
        proof {
            assert(views(out@) =~= want);
        }
        return out;
    }
    let len: usize = order.len();
    let count: usize = if offset >= len {
        0
    } else if len - offset <= height as usize {
        len - offset
    } else {
        height as usize
    };
    for i in 0..count
        invariant
            count == want.len(),
            count > 0 ==> offset + count <= len,
            len == order@.len(),
            len > 0,
            forall|j: int| 0 <= j < order@.len() ==> (#[trigger] order@[j]).index < items@.len(),
            want == body_text(
                items@,
                views(order@),
                selected as int,
                offset as int,
                width as int,
                height as int,
            ),
            views(out@) == want.take(i as int),
    {
        let hit = &order[offset + i];
        let ghost was = views(out@);
        let line = row(
            &items[hit.index],
            offset + i == selected,
            width,
            hit.positions.as_slice(),
        );
        let ghost shown = line@;
        out.push(line);
        proof {
            assert(views(order@)[offset + i] == hit@);
            assert(shown == want[i as int]);
            assert(views(out@) =~= was.push(shown));
            assert(want.take(i + 1) =~= want.take(i as int).push(want[i as int]));
        }
    }
    proof {
        assert(want.take(want.len() as int) =~= want);
    }
    out
}

/// How many lines the picker takes up: one for each row, but at least one and
/// no more than are visible at once, and those it spends on itself.
pub fn viewport_height(len: usize) -> (r: u16)
    ensures
        r == CHROME + (if len < 1 {
            1int
        } else if len > MAX_VISIBLE {
            MAX_VISIBLE as int
        } else {
            len as int
        }),
{
    let visible: usize = if len < 1 {
        1
    } else if len > MAX_VISIBLE {
        MAX_VISIBLE
    } else {
        len
    };
    visible as u16 + CHROME
}

/// How many rows of the list fit in a terminal of so many lines: at least one.
pub open spec fn rows_in(height: u16) -> int {
    if height > CHROME + 1 {
        height - CHROME
    } else {
        1
    }
}

/// How many rows of the list fit in a terminal of so many lines.
pub fn list_height(height: u16) -> (r: usize)
    ensures
        r == rows_in(height),
{
    if height > CHROME + 1 {
        (height - CHROME) as usize
    } else {
        1
    }
}

// ---------------------------------------------------------------------------
// Keys
// ---------------------------------------------------------------------------

/// A key on the keyboard.
#[derive(Clone, Copy, Debug, PartialEq, Eq, Structural)]
pub enum Key {
    Char(char),
    Esc,
    Enter,
    Up,
    Down,
    Backspace,
    /// Any other key.
    Other,
}

/// What a key does.
pub enum Effect {
    /// Dismisses the picker.
    Cancel,
    /// Takes the selected row.
    Take,
    /// Moves up one row.
    Up,
    /// Moves down one row.
    Down,
    /// Changes the query, which starts the list over.
    Retype(Seq<char>),
    /// Nothing.
    Nothing,
}

/// What a key does, given what was typed so far.
///
/// Only the control-prefixed letters navigate: with type-to-filter a bare `j`
/// or `n` has to reach the query like any other letter.
pub open spec fn effect_of(query: Seq<char>, key: Key, ctrl: bool, alt: bool) -> Effect {
    match key {
        Key::Esc => if query.len() == 0 {
            Effect::Cancel
        } else {
            Effect::Retype(Seq::empty())
        },
        Key::Enter => Effect::Take,
        Key::Up => Effect::Up,
        Key::Down => Effect::Down,
        Key::Backspace => Effect::Retype(
            if query.len() == 0 {
                query
            } else {
                query.drop_last()
            },
        ),
        Key::Char(c) => if ctrl {
            if c == 'c' {
                Effect::Cancel
            } else if c == 'p' || c == 'k' {
                Effect::Up
            } else if c == 'n' || c == 'j' {
                Effect::Down
            } else if c == 'u' {
                Effect::Retype(Seq::empty())
            } else {
                Effect::Nothing
            }
        } else if alt {
            Effect::Nothing
        } else {
            Effect::Retype(query.push(c))
        },
        Key::Other => Effect::Nothing,
    }
}

/// What became of the picker.
#[derive(Clone, Copy, Debug, PartialEq, Eq, Structural)]
pub enum Progress {
    /// It goes on.
    Open,
    /// It was dismissed.
    Canceled,
    /// The item of this index was chosen.
    Chosen(usize),
}

/// The picker between two keys.
pub struct Picker {
    pub items: Vec<Item>,
    /// What was typed.
    pub query: String,
    /// The rows that are left.
    pub order: Vec<Hit>,
    /// The row you are on.
    pub selected: usize,
    /// The first row that is drawn.
    pub offset: usize,
    /// The column the hints line up on.
    pub width: usize,
}

/// A picker as texts and numbers, but for its items, which never change.
pub struct PickerText {
    pub query: Seq<char>,
    pub order: Seq<HitText>,
    pub selected: int,
    pub offset: int,
}

impl View for Picker {
    type V = PickerText;

    open spec fn view(&self) -> PickerText {
        PickerText {
            query: self.query@,
            order: views(self.order@),
            selected: self.selected as int,
            offset: self.offset as int,
        }
    }
}

/// The picker with the list started over for a query.
pub open spec fn started(labels: Seq<Seq<char>>, query: Seq<char>) -> PickerText {
    PickerText { query, order: rows(labels, query), selected: 0, offset: 0 }
}

/// The picker after a key.
pub open spec fn pressed(labels: Seq<Seq<char>>, p: PickerText, effect: Effect) -> PickerText {
    match effect {
        Effect::Up => PickerText {
            selected: if p.selected > 0 {
                p.selected - 1
            } else {
                0
            },
            ..p
        },
        Effect::Down => PickerText { selected: below(p.selected, p.order.len() as int), ..p },
        Effect::Retype(query) => started(labels, query),
        _ => p,
    }
}

/// What became of the picker after a key. Taking a row takes an item only where
/// there is a row.
pub open spec fn progress_of(p: PickerText, effect: Effect) -> Progress {
    match effect {
        Effect::Cancel => Progress::Canceled,
        Effect::Take => if p.selected < p.order.len() {
            Progress::Chosen(p.order[p.selected].index as usize)
        } else {
            Progress::Open
        },
        _ => Progress::Open,
    }
}

/// The picker with the selected row brought into view.
pub open spec fn scrolled(p: PickerText, rows: int) -> PickerText {
    if p.selected < p.offset {
        PickerText { offset: p.selected, ..p }
    } else if p.selected >= p.offset + rows {
        PickerText { offset: p.selected + 1 - rows, ..p }
    } else {
        p
    }
}

/// Whether rows point at items, and the selection at a row where there is one.
pub open spec fn is_consistent(labels: Seq<Seq<char>>, p: PickerText) -> bool {
    &&& is_filtered(p.order, labels, p.query)
    &&& forall|i: int|
        0 <= i < p.order.len() ==> 0 <= (#[trigger] p.order[i]).index < labels.len()
    &&& p.selected < p.order.len() || p.selected == 0
    &&& p.selected >= 0
}

/// What is left of the rows points at items.
proof fn lemma_rows_point_at_items(
    hits: Seq<HitText>,
    labels: Seq<Seq<char>>,
    query: Seq<char>,
)
    requires
        is_filtered(hits, labels, query),
    ensures
        forall|i: int| 0 <= i < hits.len() ==> 0 <= (#[trigger] hits[i]).index < labels.len(),
{
    assert(matches_of(labels, query).len() == labels.len());
}

impl Picker {
    /// Whether the picker holds together.
    pub open spec fn well_formed(self) -> bool {
        &&& is_consistent(labels(self.items@), self@)
        &&& self.width == widest(self.items@)
    }

    /// Opens the picker on a list.
    pub fn new(items: Vec<Item>) -> (r: Picker)
        ensures
            r.well_formed(),
            r.items@ == items@,
            r@ == started(labels(items@), Seq::empty()),
    {
        let query = String::new();
        let order = filter(&items, &query);
        let width = label_width(&items);
        proof {
            lemma_rows_point_at_items(views(order@), labels(items@), query@);
        }
        Picker { items, query, order, selected: 0, offset: 0, width }
    }

    /// Opens the picker on a list where there is a terminal to show it on.
    pub fn open(items: Vec<Item>, terminal: bool) -> (r: Result<Picker, Error>)
        ensures
            match r {
                Ok(picker) => terminal && picker.well_formed() && picker.items@ == items@ && picker@
                    == started(labels(items@), Seq::empty()),
                Err(e) => !terminal && e is NoTerminal,
            },
    {
        if terminal {
            Ok(Picker::new(items))
        } else {
            Err(Error::NoTerminal)
        }
    }

    /// Brings the selected row into view of a list area of so many rows.
    pub fn scroll(&mut self, rows: usize)
        requires
            old(self).well_formed(),
            rows > 0,
        ensures
            final(self).well_formed(),
            final(self).items == old(self).items,
            final(self)@ == scrolled(old(self)@, rows as int),
    {
        if self.selected < self.offset {
            self.offset = self.selected;
        } else if self.selected - self.offset >= rows {
            self.offset = self.selected - (rows - 1);
        }
    }

    /// What the picker shows in a list area of so many rows.
    pub fn screen(&self, height: u16) -> (r: Screen)
        requires
            self.well_formed(),
        ensures
            r@.head == head_text(self.query@),
            r@.body == body_text(
                self.items@,
                self@.order,
                self@.selected,
                self@.offset,
                widest(self.items@) as int,
                height as int,
            ),
            r@.bar == bar_row(
                self@.order.len() as int,
                self@.selected,
                self@.offset,
                height as int,
            ),
            r@.foot == foot_text(),
    {
        proof {
            assert forall|i: int| 0 <= i < self.order@.len() implies (
            #[trigger] self.order@[i]).index < self.items@.len() by {
                assert(views(self.order@)[i] == self.order@[i]@);
            }
        }
        render(
            &self.query,
            &self.items,
            &self.order,
            self.selected,
            self.offset,
            self.width,
            height,
        )
    }

    /// The query that a key makes, where it makes one.
    fn retyped(&self, key: Key, ctrl: bool, alt: bool) -> (r: Option<String>)
        ensures
            match r {
                Some(query) => effect_of(self.query@, key, ctrl, alt) == Effect::Retype(query@),
                None => !(effect_of(self.query@, key, ctrl, alt) is Retype),
            },
    {
        match key {
            Key::Esc => {
                if self.query.as_str().unicode_len() == 0 {
                    return None;
                }
                Some(String::new())
            },
            Key::Backspace => {
                let typed = chars_of(&self.query);
                if typed.len() == 0 {
                    return Some(self.query.clone());
                }
                let kept = slice_subrange(typed.as_slice(), 0, typed.len() - 1);
                proof {
                    assert(kept@ =~= self.query@.drop_last());
                }
                Some(string_of(kept))
            },
            Key::Char(c) => {
                if ctrl {
                    if c == 'u' {
                        return Some(String::new());
                    }
                    return None;
                }
                if alt {
                    return None;
                }
                let mut query = self.query.clone();
                query.push(c);
                Some(query)
            },
            _ => None,
        }
    }

    /// Whether a key leaves a query that every label can be matched against.
    pub open spec fn takes(self, key: Key, ctrl: bool, alt: bool) -> bool {
        effect_of(self.query@, key, ctrl, alt) matches Effect::Retype(query) ==> filterable(
            labels(self.items@),
            query,
        )
    }

    /// Whether a key leaves a query that every label can be matched against.
    pub fn can_take(&self, key: Key, ctrl: bool, alt: bool) -> (r: bool)
        ensures
            r == self.takes(key, ctrl, alt),
    {
        match self.retyped(key, ctrl, alt) {
            Some(query) => can_filter(&self.items, &query),
            None => true,
        }
    }

    /// Takes a key.
    pub fn press(&mut self, key: Key, ctrl: bool, alt: bool) -> (r: Progress)
        requires
            old(self).well_formed(),
            old(self).takes(key, ctrl, alt),
        ensures
            final(self).well_formed(),
            final(self).items == old(self).items,
            final(self)@ == pressed(
                labels(old(self).items@),
                old(self)@,
                effect_of(old(self).query@, key, ctrl, alt),
            ),
            r == progress_of(old(self)@, effect_of(old(self).query@, key, ctrl, alt)),
            r matches Progress::Chosen(index) ==> index < old(self).items@.len() && key
                == Key::Enter && index == old(self).order@[old(self).selected as int].index,
            key == Key::Enter && old(self).order@.len() > 0 ==> r is Chosen,
    {
        if let Some(query) = self.retyped(key, ctrl, alt) {
            let order = filter(&self.items, &query);
            proof {
                lemma_rows_point_at_items(views(order@), labels(self.items@), query@);
            }
            self.query = query;
            self.order = order;
            self.selected = 0;
            self.offset = 0;
            return Progress::Open;
        }
        match key {
            Key::Esc => {
                return Progress::Canceled;
            },
            Key::Enter => {
                if self.selected < self.order.len() {
                    proof {
                        assert(self@.order[self.selected as int]
                            == self.order@[self.selected as int]@);
                    }
                    return Progress::Chosen(self.order[self.selected].index);
                }
            },
            Key::Up => {
                self.up();
            },
            Key::Down => {
                self.down();
            },
            Key::Char(c) => {
                if ctrl {
                    if c == 'c' {
                        return Progress::Canceled;
                    } else if c == 'p' || c == 'k' {
                        self.up();
                    } else if c == 'n' || c == 'j' {
                        self.down();
                    }
                }
            },
            _ => {},
        }
        Progress::Open
    }

    fn up(&mut self)
        requires
            old(self).well_formed(),
        ensures
            final(self).well_formed(),
            final(self).items == old(self).items,
            final(self)@ == pressed(labels(old(self).items@), old(self)@, Effect::Up),
    {
        if self.selected > 0 {
            self.selected = self.selected - 1;
        }
    }

    fn down(&mut self)
        requires
            old(self).well_formed(),
        ensures
            final(self).well_formed(),
            final(self).items == old(self).items,
            final(self)@ == pressed(labels(old(self).items@), old(self)@, Effect::Down),
    {
        let len: usize = self.order.len();
        self.selected = next(self.selected, len);
    }
}

// ---------------------------------------------------------------------------
// Laws of the picker
// ---------------------------------------------------------------------------

/// The runs of a label, one after another, are the label.
pub proof fn highlighting_keeps_the_text(label: Seq<char>, positions: Seq<u32>, base: Style)
    ensures
        joined_runs(highlighted(label, positions, base)) == label,
{
    if positions.len() == 0 {
        let whole = seq![SpanText { text: label, style: base }];
        assert(whole.drop_first() =~= Seq::<SpanText>::empty());
        reveal_with_fuel(joined_runs, 2);
        assert(joined_runs(whole) =~= label);
    } else {
        lemma_runs_keep_text(label, positions, base, 0);
        assert(label.skip(0) =~= label);
    }
}

/// The text of some runs in a row.
pub open spec fn joined_runs(spans: Seq<SpanText>) -> Seq<char>
    decreases spans.len(),
{
    if spans.len() == 0 {
        Seq::empty()
    } else {
        spans[0].text + joined_runs(spans.drop_first())
    }
}

proof fn lemma_runs_keep_text(label: Seq<char>, positions: Seq<u32>, base: Style, at: int)
    requires
        0 <= at <= label.len(),
    ensures
        joined_runs(runs_from(label, positions, base, at)) == label.skip(at),
    decreases label.len() - at,
{
    let spans = runs_from(label, positions, base, at);
    if at < label.len() {
        let hit = is_hit(positions, at);
        lemma_hit_run_end(positions, label.len() as int, at + 1, hit);
        let end = hit_run_end(positions, label.len() as int, at + 1, hit);
        let rest = runs_from(label, positions, base, end);
        lemma_runs_keep_text(label, positions, base, end);
        assert(spans.drop_first() =~= rest);
        assert(label.subrange(at, end) + label.skip(end) =~= label.skip(at));
    } else {
        assert(joined_runs(spans) =~= label.skip(at));
    }
}

/// After scrolling the selected row is in view, and so has the bar behind it.
pub proof fn the_selected_row_is_in_view(labels: Seq<Seq<char>>, p: PickerText, height: u16)
    requires
        is_consistent(labels, p),
        p.order.len() > 0,
    ensures
        ({
            let q = scrolled(p, rows_in(height));
            &&& q.offset <= q.selected < q.offset + rows_in(height)
            &&& height > CHROME ==> bar_row(
                q.order.len() as int,
                q.selected,
                q.offset,
                height - CHROME,
            ) == Some(q.selected - q.offset)
        }),
{
}

/// Scrolling again changes nothing.
pub proof fn scrolling_settles(p: PickerText, rows: int)
    requires
        rows > 0,
    ensures
        scrolled(scrolled(p, rows), rows) == scrolled(p, rows),
{
}

/// Whatever keys are pressed, what is chosen is one of the items, and one that
/// the query matches.
pub proof fn what_is_chosen_was_offered(labels: Seq<Seq<char>>, p: PickerText, index: usize)
    requires
        is_consistent(labels, p),
        labels.len() <= usize::MAX,
        progress_of(p, Effect::Take) == Progress::Chosen(index),
    ensures
        index < labels.len(),
        p.query.len() > 0 ==> fuzzy(p.query, labels[index as int]) is Some,
{
    let hit = p.order[p.selected];
    if p.query.len() > 0 {
        assert(matches_of(labels, p.query)[hit.index] is Some);
    }
}

/// Escape clears the query first, and dismisses the picker only once there is
/// nothing to clear.
pub proof fn escape_clears_before_it_cancels(labels: Seq<Seq<char>>, p: PickerText)
    requires
        p.query.len() > 0,
    ensures
        ({
            let first = effect_of(p.query, Key::Esc, false, false);
            let q = pressed(labels, p, first);
            &&& progress_of(p, first) == Progress::Open
            &&& q == started(labels, Seq::empty())
            &&& progress_of(q, effect_of(q.query, Key::Esc, false, false)) == Progress::Canceled
        }),
{
}

/// A letter that is typed and then deleted leaves the query as it was, with the
/// list started over.
pub proof fn backspace_undoes_a_letter(labels: Seq<Seq<char>>, p: PickerText, c: char)
    ensures
        ({
            let typed = pressed(labels, p, effect_of(p.query, Key::Char(c), false, false));
            pressed(labels, typed, effect_of(typed.query, Key::Backspace, false, false)) == started(
                labels,
                p.query,
            )
        }),
{
    assert(p.query.push(c).drop_last() =~= p.query);
}

/// Moving up takes back moving down, unless the last row stopped it.
pub proof fn up_undoes_down(labels: Seq<Seq<char>>, p: PickerText)
    requires
        0 <= p.selected,
        p.selected + 1 < p.order.len(),
    ensures
        pressed(labels, pressed(labels, p, Effect::Down), Effect::Up) == p,
{
}

} // verus!
