//! Matching a query against labels, and ranking what it matches.

use crate::order::{distinct, increasing, increasing_is_unique, order_is_a_permutation};
use crate::order::{ordered_form, sort, views, Ranked};
use crate::text::chars_of;
use nucleo_matcher::pattern::{CaseMatching, Normalization, Pattern};
use nucleo_matcher::{Config, Matcher, Utf32Str};
use vstd::prelude::*;
use vstd::utf8::encode_utf8;

verus! {

// ---------------------------------------------------------------------------
// The matcher
// ---------------------------------------------------------------------------

/// The code point that simple case folding maps a small letter to, where it maps
/// it to another letter, as it does the micro sign and the final sigma.
pub open spec fn folded(c: char) -> Option<u32> {
    if c == '\u{b5}' {
        Some(0x3bcu32)
    } else if c == '\u{17f}' {
        Some(0x73u32)
    } else if c == '\u{345}' || c == '\u{1fbe}' {
        Some(0x3b9u32)
    } else if c == '\u{3c2}' {
        Some(0x3c3u32)
    } else if c == '\u{3d0}' {
        Some(0x3b2u32)
    } else if c == '\u{3d1}' {
        Some(0x3b8u32)
    } else if c == '\u{3d5}' {
        Some(0x3c6u32)
    } else if c == '\u{3d6}' {
        Some(0x3c0u32)
    } else if c == '\u{3f0}' {
        Some(0x3bau32)
    } else if c == '\u{3f1}' {
        Some(0x3c1u32)
    } else if c == '\u{3f5}' {
        Some(0x3b5u32)
    } else if c == '\u{1c80}' {
        Some(0x432u32)
    } else if c == '\u{1c81}' {
        Some(0x434u32)
    } else if c == '\u{1c82}' {
        Some(0x43eu32)
    } else if c == '\u{1c83}' {
        Some(0x441u32)
    } else if c == '\u{1c84}' || c == '\u{1c85}' {
        Some(0x442u32)
    } else if c == '\u{1c86}' {
        Some(0x44au32)
    } else if c == '\u{1c87}' {
        Some(0x463u32)
    } else if c == '\u{1c88}' {
        Some(0xa64bu32)
    } else if c == '\u{1e9b}' {
        Some(0x1e61u32)
    } else if '\u{13f8}' <= c <= '\u{13fd}' {
        Some((c as u32 - 8) as u32)
    } else if '\u{ab70}' <= c <= '\u{abbf}' {
        Some((c as u32 - 0x97d0) as u32)
    } else {
        None
    }
}

/// Whether a character lies in a range where accented letters are reduced to
/// plain ones.
pub open spec fn may_be_accented(c: char) -> bool {
    ||| '\u{c0}' <= c <= '\u{36f}'
    ||| '\u{1d00}' <= c <= '\u{1eff}'
    ||| '\u{2071}' <= c <= '\u{2184}'
}

/// Whether a blank in a query ends a word: one behind a backslash does not.
pub open spec fn is_break(query: Seq<char>, k: int) -> bool {
    query[k] == ' ' && (k == 0 || query[k - 1] != '\\')
}

/// Whether a word of a query begins at a character.
pub open spec fn begins_word(query: Seq<char>, j: int) -> bool {
    j == 0 || is_break(query, j - 1)
}

/// Whether what is looked for of a word starts at a character: where the word
/// begins, or behind the marks that say how it is to be matched, `!` and then
/// `^` or `'`.
pub open spec fn starts_needle(query: Seq<char>, j: int) -> bool {
    ||| begins_word(query, j)
    ||| j >= 1 && begins_word(query, j - 1) && (query[j - 1] == '!' || query[j - 1] == '^' || query[
        j - 1] == '\'')
    ||| j >= 2 && begins_word(query, j - 2) && query[j - 2] == '!' && (query[j - 1] == '^' || query[
        j - 1] == '\'')
}

/// Whether a word of a query may have an accent from a character on.
pub open spec fn accented_from(query: Seq<char>, j: int) -> bool
    decreases query.len() - j,
{
    if j >= query.len() || is_break(query, j) {
        false
    } else {
        may_be_accented(query[j]) || accented_from(query, j + 1)
    }
}

/// Whether a word of a query may have an accent and starts with what a letter of
/// a label is folded to.
pub open spec fn folds_to_start(query: Seq<char>, label: Seq<char>, i: int, j: int) -> bool {
    &&& starts_needle(query, j)
    &&& accented_from(query, j)
    &&& folded(label[i]) == Some(query[j] as u32)
}

/// Whether the matcher can be asked about a query and a label.
///
/// A label is counted in 32 bits. The first character of a word scores at most
/// 36 and every other at most 26, so that 2520 characters fit a 16-bit score,
/// and a word that the matcher makes of the query is at most twice as long as it
/// was typed. The scores of all words together have to fit 32 bits. And where
/// accents in a word turn off the folding of accents, the word may not start
/// with what a small letter of the label is folded to: the matcher folds such a
/// letter where it looks for the start of a word, and not where it scores.
pub open spec fn matchable(query: Seq<char>, label: Seq<char>) -> bool {
    &&& encode_utf8(label).len() <= u32::MAX
    &&& query.len() <= 50_000_000
    &&& query.len() <= 1260 || label.len() <= 2520
    &&& forall|i: int, j: int|
        0 <= i < label.len() && 0 <= j < query.len() ==> !(#[trigger] folds_to_start(
            query,
            label,
            i,
            j,
        ))
}

/// What the fuzzy matcher finds for a query in a label: a score and the places
/// that it hit, as they come, or nothing.
pub uninterp spec fn fuzzy(query: Seq<char>, label: Seq<char>) -> Option<(u32, Seq<u32>)>;

/// Whether a character lies in a range outside ASCII where none continues the
/// grapheme of an ASCII character: no combining mark, joiner or spacing mark.
/// The ranges hold the letters and ideographs of most scripts, punctuation,
/// symbols and pictographs.
pub open spec fn is_uncombining(c: char) -> bool {
    ||| '\u{80}' <= c <= '\u{2ff}'
    ||| '\u{370}' <= c <= '\u{482}'
    ||| '\u{48a}' <= c <= '\u{590}'
    ||| '\u{5c8}' <= c <= '\u{60f}'
    ||| '\u{61b}' <= c <= '\u{64a}'
    ||| '\u{671}' <= c <= '\u{6d5}'
    ||| '\u{904}' <= c <= '\u{939}'
    ||| '\u{e01}' <= c <= '\u{e30}'
    ||| '\u{109e}' <= c <= '\u{135c}'
    ||| '\u{1e00}' <= c <= '\u{200b}'
    ||| '\u{200e}' <= c <= '\u{20cf}'
    ||| '\u{20f1}' <= c <= '\u{2cee}'
    ||| '\u{2e00}' <= c <= '\u{3029}'
    ||| '\u{3030}' <= c <= '\u{3098}'
    ||| '\u{309b}' <= c <= '\u{a66e}'
    ||| '\u{abee}' <= c <= '\u{fb1d}'
    ||| '\u{1f000}' <= c <= '\u{1f3fa}'
    ||| '\u{1f400}' <= c <= '\u{3ffff}'
}

/// Whether some grapheme of a label starts outside ASCII, as far as that can be
/// told from single characters: at the front, or at a character that does not
/// combine with ASCII.
pub open spec fn starts_beyond_ascii(label: Seq<char>) -> bool {
    ||| label.len() > 0 && label[0] > '\u{7f}'
    ||| exists|i: int| 0 <= i < label.len() && is_uncombining(#[trigger] label[i])
}

/// `nucleo_matcher`'s `Pattern::indices` on a pattern that `Pattern::parse` read
/// with smart case and smart normalization, by a new matcher in its default
/// configuration. What it finds depends on the query and the label alone.
///
/// A place counts the graphemes of the label where one of them starts outside
/// ASCII, and otherwise its bytes. So no place reaches the number of bytes, and
/// where some grapheme is known to start outside ASCII none reaches the number
/// of characters. Which characters continue a grapheme is in the table of
/// `unicode_segmentation`, by which the matcher splits the label. That a place is
/// below the number of characters of every label is not said: in `e`, U+0301,
/// `x` the place of `x` is 3.
///
/// The matcher asserts that a label is no longer than 32 bits count, adds up
/// 16-bit scores of at most 36 a character, and in debug builds asserts that the
/// letter a word was found to start at is still that letter once folded, which
/// fails for some letters where the word has accents: such queries and labels
/// are left out.
#[verifier::external_body]
pub(crate) fn fuzzy_indices(query: &str, label: &str) -> (r: Option<(u32, Vec<u32>)>)
    requires
        matchable(query@, label@),
    ensures
        match r {
            Some((score, positions)) => fuzzy(query@, label@) == Some((score, positions@)),
            None => fuzzy(query@, label@) is None,
        },
        match r {
            Some((_, positions)) => forall|k: int|
                0 <= k < positions@.len() ==> #[trigger] positions@[k] < encode_utf8(label@).len()
                    && (starts_beyond_ascii(label@) ==> positions@[k] < label@.len()),
            None => true,
        },
{
    let pattern = Pattern::parse(query, CaseMatching::Smart, Normalization::Smart);
    let mut matcher = Matcher::new(Config::DEFAULT);
    let mut buf = Vec::new();
    let mut positions = Vec::new();
    let score = pattern.indices(Utf32Str::new(label, &mut buf), &mut matcher, &mut positions)?;
    Some((score, positions))
}

/// Folds a small letter that simple case folding maps to another.
fn fold(c: char) -> (r: Option<u32>)
    ensures
        r == folded(c),
{
    match c {
        '\u{b5}' => Some(0x3bc),
        '\u{17f}' => Some(0x73),
        '\u{345}' => Some(0x3b9),
        '\u{1fbe}' => Some(0x3b9),
        '\u{3c2}' => Some(0x3c3),
        '\u{3d0}' => Some(0x3b2),
        '\u{3d1}' => Some(0x3b8),
        '\u{3d5}' => Some(0x3c6),
        '\u{3d6}' => Some(0x3c0),
        '\u{3f0}' => Some(0x3ba),
        '\u{3f1}' => Some(0x3c1),
        '\u{3f5}' => Some(0x3b5),
        '\u{1c80}' => Some(0x432),
        '\u{1c81}' => Some(0x434),
        '\u{1c82}' => Some(0x43e),
        '\u{1c83}' => Some(0x441),
        '\u{1c84}' => Some(0x442),
        '\u{1c85}' => Some(0x442),
        '\u{1c86}' => Some(0x44a),
        '\u{1c87}' => Some(0x463),
        '\u{1c88}' => Some(0xa64b),
        '\u{1e9b}' => Some(0x1e61),
        _ => if '\u{13f8}' <= c && c <= '\u{13fd}' {
            Some(c as u32 - 8)
        } else if '\u{ab70}' <= c && c <= '\u{abbf}' {
            Some(c as u32 - 0x97d0)
        } else {
            None
        },
    }
}

/// Whether a blank ends a word.
fn breaks(query: &[char], k: usize) -> (r: bool)
    requires
        k < query@.len(),
    ensures
        r == is_break(query@, k as int),
{
    query[k] == ' ' && (k == 0 || query[k - 1] != '\\')
}

/// Whether a word begins at a character.
fn at_word(query: &[char], j: usize) -> (r: bool)
    requires
        j < query@.len(),
    ensures
        r == begins_word(query@, j as int),
{
    j == 0 || breaks(query, j - 1)
}

/// Whether what is looked for of a word starts at a character.
fn at_needle(query: &[char], j: usize) -> (r: bool)
    requires
        j < query@.len(),
    ensures
        r == starts_needle(query@, j as int),
{
    if at_word(query, j) {
        return true;
    }
    if j == 0 {
        return false;
    }
    let c = query[j - 1];
    if at_word(query, j - 1) {
        return c == '!' || c == '^' || c == '\'';
    }
    j >= 2 && at_word(query, j - 2) && query[j - 2] == '!' && (c == '^' || c == '\'')
}

/// Whether a word may have an accent from a character on.
fn has_accent(query: &[char], j: usize) -> (r: bool)
    requires
        j <= query@.len(),
    ensures
        r == accented_from(query@, j as int),
{
    let mut k: usize = j;
    while k < query.len()
        invariant
            j <= k <= query@.len(),
            accented_from(query@, j as int) == accented_from(query@, k as int),
        decreases query@.len() - k,
    {
        if breaks(query, k) {
            return false;
        }
        let c = query[k];
        if ('\u{c0}' <= c && c <= '\u{36f}') || ('\u{1d00}' <= c && c <= '\u{1eff}') || ('\u{2071}'
            <= c && c <= '\u{2184}') {
            return true;
        }
        k = k + 1;
    }
    false
}

/// Whether the matcher can be asked about a query and a label.
pub fn is_matchable(query: &str, label: &str) -> (r: bool)
    ensures
        r == matchable(query@, label@),
{
    let q = chars_of(query);
    let l = chars_of(label);
    let bytes: usize = label.as_bytes().len();
    if !(bytes as u64 <= u32::MAX as u64 && q.len() <= 50_000_000 && (q.len() <= 1260 || l.len()
        <= 2520)) {
        return false;
    }
    for j in 0..q.len()
        invariant
            q@ == query@,
            l@ == label@,
            forall|i: int, k: int|
                0 <= i < l@.len() && 0 <= k < j ==> !(#[trigger] folds_to_start(q@, l@, i, k)),
    {
        if at_needle(&q, j) && has_accent(&q, j) {
            let code: u32 = q[j] as u32;
            for i in 0..l.len()
                invariant
                    q@ == query@,
                    l@ == label@,
                    j < q@.len(),
                    code == q@[j as int] as u32,
                    starts_needle(q@, j as int),
                    accented_from(q@, j as int),
                    forall|k: int| 0 <= k < i ==> !folds_to_start(q@, l@, k, j as int),
            {
                if let Some(other) = fold(l[i]) {
                    if other == code {
                        proof {
                            assert(folds_to_start(q@, l@, i as int, j as int));
                        }
                        return false;
                    }
                }
            }
        }
    }
    true
}

// ---------------------------------------------------------------------------
// Ranking
// ---------------------------------------------------------------------------

/// A row that survived the filter, with the character positions the query
/// matched so they can be picked out when the row is drawn.
pub struct Hit {
    pub index: usize,
    pub positions: Vec<u32>,
}

/// A hit as numbers.
#[verifier::ext_equal]
pub struct HitText {
    pub index: int,
    pub positions: Seq<u32>,
}

impl View for Hit {
    type V = HitText;

    open spec fn view(&self) -> HitText {
        HitText { index: self.index as int, positions: self.positions@ }
    }
}

/// What the matcher found in each label.
pub type Found = Option<(u32, Vec<u32>)>;

/// Findings as numbers.
pub open spec fn findings(found: Seq<Found>) -> Seq<Option<(u32, Seq<u32>)>> {
    found.map_values(
        |f: Found|
            match f {
                Some((score, positions)) => Some((score, positions@)),
                None => None,
            },
    )
}

/// The score of a finding.
pub open spec fn score_of(found: Option<(u32, Seq<u32>)>) -> u32 {
    match found {
        Some((score, _)) => score,
        None => 0,
    }
}

/// The places of a finding, as they came.
pub open spec fn places_of(found: Option<(u32, Seq<u32>)>) -> Seq<u32> {
    match found {
        Some((_, positions)) => positions,
        None => Seq::empty(),
    }
}

/// Whether the places of a finding lie inside a label: below the number of its
/// bytes, and below that of its characters where some grapheme of it starts
/// outside ASCII.
pub open spec fn are_inside(found: Option<(u32, Seq<u32>)>, label: Seq<char>) -> bool {
    forall|k: int|
        0 <= k < places_of(found).len() ==> {
            let place = #[trigger] places_of(found)[k];
            &&& place < encode_utf8(label).len()
            &&& starts_beyond_ascii(label) ==> place < label.len()
        }
}

/// Whether one row comes before another: its score is higher, or the same and
/// it came earlier to begin with.
pub open spec fn outranks(found: Seq<Option<(u32, Seq<u32>)>>, a: int, b: int) -> bool {
    score_of(found[a]) > score_of(found[b]) || (score_of(found[a]) == score_of(found[b]) && a < b)
}

/// Whether some hits are the ranking of what was found: every label that
/// matched and no other, the better before the worse, each with its places in
/// increasing order and none of them twice.
pub open spec fn is_ranking(hits: Seq<HitText>, found: Seq<Option<(u32, Seq<u32>)>>) -> bool {
    &&& forall|i: int|
        0 <= i < hits.len() ==> {
            let hit = #[trigger] hits[i];
            &&& 0 <= hit.index < found.len()
            &&& found[hit.index] is Some
            &&& increasing(hit.positions)
            &&& forall|x: u32|
                hit.positions.contains(x) <==> #[trigger] places_of(found[hit.index]).contains(x)
        }
    &&& forall|k: int|
        0 <= k < found.len() && (#[trigger] found[k]) is Some ==> exists|i: int|
            0 <= i < hits.len() && (#[trigger] hits[i]).index == k
    &&& forall|i: int, j: int|
        0 <= i < j < hits.len() ==> outranks(
            found,
            (#[trigger] hits[i]).index,
            (#[trigger] hits[j]).index,
        )
}

/// A hit with its score.
struct Scored {
    hit: Hit,
    score: u32,
}

impl View for Scored {
    type V = (HitText, u32);

    closed spec fn view(&self) -> (HitText, u32) {
        (self.hit@, self.score)
    }
}

impl Ranked for Scored {
    closed spec fn leads(a: (HitText, u32), b: (HitText, u32)) -> bool {
        a.1 > b.1 || (a.1 == b.1 && a.0.index <= b.0.index)
    }

    proof fn total(a: (HitText, u32), b: (HitText, u32)) {
    }

    proof fn transitive(a: (HitText, u32), b: (HitText, u32), c: (HitText, u32)) {
    }

    fn may_lead(&self, other: &Self) -> (r: bool) {
        self.score > other.score || (self.score == other.score && self.hit.index
            <= other.hit.index)
    }
}

/// Whether scored hits are what was found in the first `n` labels, in order.
spec fn collects(
    scored: Seq<(HitText, u32)>,
    found: Seq<Option<(u32, Seq<u32>)>>,
    n: int,
) -> bool {
    &&& forall|i: int|
        0 <= i < scored.len() ==> {
            let (hit, score) = #[trigger] scored[i];
            &&& 0 <= hit.index < n
            &&& found[hit.index] is Some
            &&& score == score_of(found[hit.index])
            &&& increasing(hit.positions)
            &&& forall|x: u32|
                hit.positions.contains(x) <==> #[trigger] places_of(found[hit.index]).contains(x)
        }
    &&& forall|k: int|
        0 <= k < n && (#[trigger] found[k]) is Some ==> exists|i: int|
            0 <= i < scored.len() && (#[trigger] scored[i]).0.index == k
    &&& forall|i: int, j: int|
        0 <= i < j < scored.len() ==> (#[trigger] scored[i]).0.index < (
        #[trigger] scored[j]).0.index
}

/// Ranks what was found: the best first, and of equals the one that came first.
pub fn rank(found: Vec<Found>) -> (r: Vec<Hit>)
    ensures
        is_ranking(views(r@), findings(found@)),
{
    let ghost all = findings(found@);
    let mut scored: Vec<Scored> = Vec::new();
    for i in 0..found.len()
        invariant
            all == findings(found@),
            collects(views(scored@), all, i as int),
    {
        let ghost was = views(scored@);
        proof {
            assert(all[i as int] == findings(found@)[i as int]);
        }
        if let Some((score, positions)) = &found[i] {
            let hit = Hit { index: i, positions: distinct(positions.as_slice()) };
            let ghost new = (hit@, *score);
            scored.push(Scored { hit, score: *score });
            proof {
                assert(views(scored@) =~= was.push(new));
                lemma_collect(was, all, i as int, new);
            }
        } else {
            proof {
                assert(all[i as int] is None);
                assert(collects(was, all, i + 1)) by {
                    assert forall|k: int|
                        0 <= k < i + 1 && (#[trigger] all[k]) is Some implies exists|j: int|
                        0 <= j < was.len() && (#[trigger] was[j]).0.index == k by {}
                }
            }
        }
    }
    let ghost gathered = views(scored@);
    let sorted = sort(scored);
    let ghost order = views(sorted@);
    proof {
        lemma_ranking(order, gathered, all);
    }
    let mut out: Vec<Hit> = Vec::new();
    for i in 0..sorted.len()
        invariant
            order == views(sorted@),
            views(out@) == hits_of(order.take(i as int)),
    {
        let hit = &sorted[i].hit;
        let ghost was = views(out@);
        let ghost shown = hit@;
        out.push(
            Hit {
                index: hit.index,
                positions: vstd::slice::slice_to_vec(hit.positions.as_slice()),
            },
        );
        proof {
            assert(views(out@) =~= was.push(shown));
            assert(order[i as int].0 == shown);
            assert(hits_of(order.take(i + 1)) =~= hits_of(order.take(i as int)).push(shown));
        }
    }
    proof {
        assert(order.take(order.len() as int) =~= order);
    }
    out
}

/// The hits of scored hits.
spec fn hits_of(scored: Seq<(HitText, u32)>) -> Seq<HitText> {
    scored.map_values(|p: (HitText, u32)| p.0)
}

proof fn lemma_collect(
    was: Seq<(HitText, u32)>,
    found: Seq<Option<(u32, Seq<u32>)>>,
    n: int,
    new: (HitText, u32),
)
    requires
        collects(was, found, n),
        0 <= n < found.len(),
        found[n] is Some,
        new.0.index == n,
        new.1 == score_of(found[n]),
        increasing(new.0.positions),
        forall|x: u32| new.0.positions.contains(x) <==> places_of(found[n]).contains(x),
    ensures
        collects(was.push(new), found, n + 1),
{
    let now = was.push(new);
    assert forall|k: int| 0 <= k < n + 1 && (#[trigger] found[k]) is Some implies exists|i: int|
        0 <= i < now.len() && (#[trigger] now[i]).0.index == k by {
        if k < n {
            let i = choose|i: int| 0 <= i < was.len() && (#[trigger] was[i]).0.index == k;
            assert(now[i].0.index == k);
        } else {
            assert(now[was.len() as int].0.index == k);
        }
    }
    assert forall|i: int| 0 <= i < now.len() implies {
        let (hit, score) = #[trigger] now[i];
        &&& 0 <= hit.index < n + 1
        &&& found[hit.index] is Some
        &&& score == score_of(found[hit.index])
        &&& increasing(hit.positions)
        &&& forall|x: u32|
            hit.positions.contains(x) <==> #[trigger] places_of(found[hit.index]).contains(x)
    } by {
        if i < was.len() {
            assert(now[i] == was[i]);
        }
    }
}

proof fn lemma_ranking(
    order: Seq<(HitText, u32)>,
    gathered: Seq<(HitText, u32)>,
    found: Seq<Option<(u32, Seq<u32>)>>,
)
    requires
        ordered_form::<Scored>(order, gathered),
        collects(gathered, found, found.len() as int),
    ensures
        is_ranking(hits_of(order), found),
{
    order_is_a_permutation::<Scored>(order, gathered);
    let hits = hits_of(order);
    assert(gathered.no_duplicates());
    gathered.lemma_multiset_has_no_duplicates();
    order.lemma_multiset_has_no_duplicates_conv();
    assert forall|i: int| 0 <= i < hits.len() implies {
        let hit = #[trigger] hits[i];
        &&& 0 <= hit.index < found.len()
        &&& found[hit.index] is Some
        &&& order[i].1 == score_of(found[hit.index])
        &&& increasing(hit.positions)
        &&& forall|x: u32|
            hit.positions.contains(x) <==> #[trigger] places_of(found[hit.index]).contains(x)
    } by {
        assert(order.contains(order[i]));
        let k = choose|k: int| 0 <= k < gathered.len() && gathered[k] == order[i];
        assert(gathered[k].0 == hits[i]);
    }
    assert forall|k: int| 0 <= k < found.len() && (#[trigger] found[k]) is Some implies exists|
        i: int,
    |
        0 <= i < hits.len() && (#[trigger] hits[i]).index == k by {
        let g = choose|g: int| 0 <= g < gathered.len() && (#[trigger] gathered[g]).0.index == k;
        assert(gathered.contains(gathered[g]));
        assert(order.contains(gathered[g]));
        let i = choose|i: int| 0 <= i < order.len() && order[i] == gathered[g];
        assert(hits[i].index == k);
    }
    assert forall|i: int, j: int| 0 <= i < j < hits.len() implies outranks(
        found,
        (#[trigger] hits[i]).index,
        (#[trigger] hits[j]).index,
    ) by {
        assert(Scored::leads(order[i], order[j]));
        assert(order.contains(order[i]));
        assert(order.contains(order[j]));
        let a = choose|a: int| 0 <= a < gathered.len() && gathered[a] == order[i];
        let b = choose|b: int| 0 <= b < gathered.len() && gathered[b] == order[j];
        if hits[i].index == hits[j].index {
            assert(gathered[a].0.index == gathered[b].0.index);
            assert(a == b);
            assert(order[i] == order[j]);
        }
    }
}

/// There is only one ranking of what was found.
pub proof fn ranking_is_unique(
    a: Seq<HitText>,
    b: Seq<HitText>,
    found: Seq<Option<(u32, Seq<u32>)>>,
)
    requires
        is_ranking(a, found),
        is_ranking(b, found),
    ensures
        a == b,
{
    lemma_same_rows(a, b, found, 0);
    assert(a =~= b);
}

/// From a row on, two rankings go on alike.
proof fn lemma_same_rows(
    a: Seq<HitText>,
    b: Seq<HitText>,
    found: Seq<Option<(u32, Seq<u32>)>>,
    n: int,
)
    requires
        is_ranking(a, found),
        is_ranking(b, found),
        0 <= n <= a.len(),
        n <= b.len(),
        forall|i: int| 0 <= i < n ==> a[i] == b[i],
    ensures
        a.len() == b.len(),
        forall|i: int| n <= i < a.len() ==> a[i] == b[i],
    decreases a.len() - n,
{
    if n < a.len() {
        // The row of `a` is somewhere in `b`, and not among the rows that agree.
        let k = a[n].index;
        assert(found[k] is Some);
        let j = choose|j: int| 0 <= j < b.len() && (#[trigger] b[j]).index == k;
        if j < n {
            assert(a[j] == b[j]);
            assert(outranks(found, a[j].index, a[n].index));
        }
        // What stands at that row of `b` is somewhere in `a`, and not earlier.
        let m = b[n].index;
        assert(found[m] is Some);
        let i = choose|i: int| 0 <= i < a.len() && (#[trigger] a[i]).index == m;
        if i < n {
            assert(a[i] == b[i]);
            assert(outranks(found, b[i].index, b[n].index));
        }
        if j > n {
            assert(outranks(found, b[n].index, b[j].index));
            if i > n {
                assert(outranks(found, a[n].index, a[i].index));
            }
        }
        assert(a[n].index == b[n].index);
        assert forall|x: u32| a[n].positions.contains(x) <==> b[n].positions.contains(x) by {
            assert(a[n].positions.contains(x) <==> places_of(found[k]).contains(x));
            assert(b[n].positions.contains(x) <==> places_of(found[k]).contains(x));
        }
        increasing_is_unique(a[n].positions, b[n].positions);
        assert(a[n] =~= b[n]);
        lemma_same_rows(a, b, found, n + 1);
    } else if n < b.len() {
        let m = b[n].index;
        assert(found[m] is Some);
        let i = choose|i: int| 0 <= i < a.len() && (#[trigger] a[i]).index == m;
        assert(a[i] == b[i]);
        assert(outranks(found, b[i].index, b[n].index));
    }
}

} // verus!
