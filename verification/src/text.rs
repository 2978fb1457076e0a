//! Text as sequences of characters.
//!
//! Everything that reads user input works on `Seq<char>` in its contract and on
//! character slices in its code, so that an index is always a character index.

use vstd::prelude::*;
use vstd::slice::slice_subrange;

verus! {

/// [`String::push`] appends one character and changes nothing else.
pub assume_specification[ String::push ](s: &mut String, c: char)
    ensures
        final(s)@ == old(s)@.push(c),
;

/// What the `{:?}` format of a string writes: the text in double quotes, with
/// the characters that need it escaped.
pub uninterp spec fn debug_text(s: Seq<char>) -> Seq<char>;

/// The `Debug` format of a `str`, which depends on the text alone.
#[verifier::external_body]
pub(crate) fn debug_of(s: &str) -> (r: String)
    ensures
        r@ == debug_text(s@),
{
    format!("{s:?}")
}

// ---------------------------------------------------------------------------
// Characters in and out
// ---------------------------------------------------------------------------

/// The characters of a string.
pub fn chars_of(s: &str) -> (r: Vec<char>)
    ensures
        r@ == s@,
{
    let mut out: Vec<char> = Vec::new();
    for c in it: s.chars()
        invariant
            it.seq() == s@,
            out@ == s@.take(it.index() as int),
    {
        proof {
            assert(s@.take(it.index() + 1) =~= s@.take(it.index() as int).push(c));
        }
        out.push(c);
    }
    proof {
        assert(s@.take(s@.len() as int) =~= s@);
    }
    out
}

/// The string made of some characters.
pub fn string_of(cs: &[char]) -> (r: String)
    ensures
        r@ == cs@,
{
    let mut out = String::new();
    for i in 0..cs.len()
        invariant
            out@ == cs@.take(i as int),
    {
        out.push(cs[i]);
        proof {
            assert(cs@.take(i + 1) =~= cs@.take(i as int).push(cs@[i as int]));
        }
    }
    proof {
        assert(cs@.take(cs@.len() as int) =~= cs@);
    }
    out
}

/// Whether two runs of characters are the same.
pub fn same(a: &[char], b: &[char]) -> (r: bool)
    ensures
        r == (a@ == b@),
{
    if a.len() != b.len() {
        return false;
    }
    for i in 0..a.len()
        invariant
            a@.len() == b@.len(),
            forall|j: int| 0 <= j < i ==> a@[j] == b@[j],
    {
        if a[i] != b[i] {
            return false;
        }
    }
    proof {
        assert(a@ =~= b@);
    }
    true
}

/// Whether a run of characters is this word.
pub fn is_word(s: &[char], word: &str) -> (r: bool)
    ensures
        r == (s@ == word@),
{
    let w = chars_of(word);
    same(s, &w)
}

/// Whether `s` begins with `p`.
pub open spec fn begins<A>(s: Seq<A>, p: Seq<A>) -> bool {
    p.len() <= s.len() && s.take(p.len() as int) == p
}

/// Whether `s` ends with `p`.
pub open spec fn ends<A>(s: Seq<A>, p: Seq<A>) -> bool {
    p.len() <= s.len() && s.skip(s.len() - p.len()) == p
}

/// Whether `s` begins with these characters.
fn starts(s: &[char], p: &[char]) -> (r: bool)
    ensures
        r == begins(s@, p@),
{
    if p.len() > s.len() {
        return false;
    }
    let head = slice_subrange(s, 0, p.len());
    proof {
        assert(head@ == s@.take(p@.len() as int));
    }
    same(head, p)
}

/// Whether `s` begins with the characters of `word`.
pub fn begins_with(s: &[char], word: &str) -> (r: bool)
    ensures
        r == begins(s@, word@),
{
    starts(s, &chars_of(word))
}

/// Whether `s` ends with the characters of `word`.
pub fn ends_with(s: &[char], word: &str) -> (r: bool)
    ensures
        r == ends(s@, word@),
{
    let w = chars_of(word);
    if w.len() > s.len() {
        return false;
    }
    let tail = slice_subrange(s, s.len() - w.len(), s.len());
    proof {
        assert(tail@ =~= s@.skip(s@.len() - w@.len()));
    }
    same(tail, &w)
}

/// `s` without the ending `p`, or `s` itself where it has no such ending.
pub open spec fn without_ending(s: Seq<char>, p: Seq<char>) -> Seq<char> {
    if ends(s, p) {
        s.take(s.len() - p.len())
    } else {
        s
    }
}

/// Drops one occurrence of `word` from the end of `s`.
pub fn drop_ending<'a>(s: &'a [char], word: &str) -> (r: &'a [char])
    ensures
        r@ == without_ending(s@, word@),
{
    if ends_with(s, word) {
        let w = chars_of(word);
        slice_subrange(s, 0, s.len() - w.len())
    } else {
        s
    }
}

// ---------------------------------------------------------------------------
// White space and trimming
// ---------------------------------------------------------------------------

/// The characters with the Unicode property White_Space.
pub open spec fn is_space(c: char) -> bool {
    ||| '\u{9}' <= c <= '\u{d}'
    ||| c == ' '
    ||| c == '\u{85}'
    ||| c == '\u{a0}'
    ||| c == '\u{1680}'
    ||| '\u{2000}' <= c <= '\u{200a}'
    ||| c == '\u{2028}'
    ||| c == '\u{2029}'
    ||| c == '\u{202f}'
    ||| c == '\u{205f}'
    ||| c == '\u{3000}'
}

/// Whether a character is white space.
pub fn is_whitespace(c: char) -> (r: bool)
    ensures
        r == is_space(c),
{
    ('\u{9}' <= c && c <= '\u{d}') || c == ' ' || c == '\u{85}' || c == '\u{a0}' || c == '\u{1680}'
        || ('\u{2000}' <= c && c <= '\u{200a}') || c == '\u{2028}' || c == '\u{2029}' || c
        == '\u{202f}' || c == '\u{205f}' || c == '\u{3000}'
}

/// White space is what Unicode says it is: the blank, the tab and the line
/// breaks, the no-break space, and the spaces of various widths. No letter, digit
/// or mark of ASCII is.
pub proof fn white_space_is_known(c: char)
    ensures
        c == ' ' || c == '\t' || c == '\n' || c == '\r' || c == '\u{b}' || c == '\u{c}' ==> is_space(
            c,
        ),
        c == '\u{85}' || c == '\u{a0}' || c == '\u{1680}' || c == '\u{2028}' || c == '\u{2029}' || c
            == '\u{202f}' || c == '\u{205f}' || c == '\u{3000}' ==> is_space(c),
        '\u{2000}' <= c <= '\u{200a}' ==> is_space(c),
        '!' <= c <= '\u{84}' ==> !is_space(c),
        is_space(c) ==> c <= ' ' || c == '\u{85}' || c == '\u{a0}' || c == '\u{1680}' || '\u{2000}'
            <= c <= '\u{200a}' || c == '\u{2028}' || c == '\u{2029}' || c == '\u{202f}' || c
            == '\u{205f}' || c == '\u{3000}',
        c <= '\u{8}' || '\u{e}' <= c <= '\u{1f}' ==> !is_space(c),
{
}

/// What is trimmed from the two ends of a text.
#[derive(Clone, Copy)]
pub enum Edge {
    /// White space.
    Blank,
    /// Dashes and dots.
    Mark,
}

impl Edge {
    /// Whether a character at an end of the text is trimmed.
    pub open spec fn covers(self, c: char) -> bool {
        match self {
            Edge::Blank => is_space(c),
            Edge::Mark => c == '-' || c == '.',
        }
    }

    /// Whether a character at an end of the text is trimmed.
    fn matches_char(self, c: char) -> (r: bool)
        ensures
            r == self.covers(c),
    {
        match self {
            Edge::Blank => is_whitespace(c),
            Edge::Mark => c == '-' || c == '.',
        }
    }
}

/// `s` without what `edge` covers at its front.
pub open spec fn trimmed_front(s: Seq<char>, edge: Edge) -> Seq<char>
    decreases s.len(),
{
    if s.len() > 0 && edge.covers(s[0]) {
        trimmed_front(s.drop_first(), edge)
    } else {
        s
    }
}

/// `s` without what `edge` covers at its back.
pub open spec fn trimmed_back(s: Seq<char>, edge: Edge) -> Seq<char>
    decreases s.len(),
{
    if s.len() > 0 && edge.covers(s.last()) {
        trimmed_back(s.drop_last(), edge)
    } else {
        s
    }
}

/// `s` without what `edge` covers at either end.
pub open spec fn trimmed(s: Seq<char>, edge: Edge) -> Seq<char> {
    trimmed_back(trimmed_front(s, edge), edge)
}

/// Trims both ends.
pub fn trim(s: &[char], edge: Edge) -> (r: &[char])
    ensures
        r@ == trimmed(s@, edge),
{
    proof {
        assert(s@.skip(0) =~= s@);
    }
    let mut from: usize = 0;
    while from < s.len() && edge.matches_char(s[from])
        invariant
            from <= s@.len(),
            trimmed_front(s@.skip(from as int), edge) == trimmed_front(s@, edge),
        decreases s@.len() - from,
    {
        proof {
            assert(s@.skip(from as int).drop_first() =~= s@.skip(from + 1));
        }
        from = from + 1;
    }
    proof {
        assert(trimmed_front(s@, edge) == s@.skip(from as int));
        assert(s@.subrange(from as int, s@.len() as int) =~= s@.skip(from as int));
    }
    let mut to: usize = s.len();
    while to > from && edge.matches_char(s[to - 1])
        invariant
            from <= to <= s@.len(),
            trimmed_back(s@.subrange(from as int, to as int), edge) == trimmed_back(
                s@.skip(from as int),
                edge,
            ),
        decreases to,
    {
        proof {
            assert(s@.subrange(from as int, to as int).drop_last() =~= s@.subrange(
                from as int,
                to - 1,
            ));
        }
        to = to - 1;
    }
    slice_subrange(s, from, to)
}

/// What trimming leaves: some part of the text, with nothing to trim at either
/// end and nothing but trimmed characters around it.
pub proof fn lemma_trimmed(s: Seq<char>, edge: Edge)
    ensures
        exists|a: int, b: int|
            0 <= a <= b <= s.len() && trimmed(s, edge) == #[trigger] s.subrange(a, b),
        trimmed(s, edge).len() > 0 ==> !edge.covers(trimmed(s, edge)[0]) && !edge.covers(
            trimmed(s, edge).last(),
        ),
{
    lemma_trimmed_front(s, edge);
    let t = trimmed_front(s, edge);
    lemma_trimmed_back(t, edge);
    let a = choose|a: int| 0 <= a <= s.len() && t == #[trigger] s.skip(a);
    let b = choose|b: int| 0 <= b <= t.len() && trimmed(s, edge) == #[trigger] t.take(b);
    assert(t.take(b) =~= s.subrange(a, a + b));
}

proof fn lemma_trimmed_front(s: Seq<char>, edge: Edge)
    ensures
        exists|a: int| 0 <= a <= s.len() && trimmed_front(s, edge) == #[trigger] s.skip(a),
        trimmed_front(s, edge).len() > 0 ==> !edge.covers(trimmed_front(s, edge)[0]),
    decreases s.len(),
{
    if s.len() > 0 && edge.covers(s[0]) {
        let t = s.drop_first();
        lemma_trimmed_front(t, edge);
        let a = choose|a: int| 0 <= a <= t.len() && trimmed_front(t, edge) == #[trigger] t.skip(a);
        assert(t.skip(a) =~= s.skip(a + 1));
    } else {
        assert(s.skip(0) =~= s);
    }
}

proof fn lemma_trimmed_back(s: Seq<char>, edge: Edge)
    ensures
        exists|b: int| 0 <= b <= s.len() && trimmed_back(s, edge) == #[trigger] s.take(b),
        trimmed_back(s, edge).len() > 0 ==> !edge.covers(trimmed_back(s, edge).last())
            && trimmed_back(s, edge)[0] == s[0],
    decreases s.len(),
{
    if s.len() > 0 && edge.covers(s.last()) {
        let t = s.drop_last();
        lemma_trimmed_back(t, edge);
        let b = choose|b: int| 0 <= b <= t.len() && trimmed_back(t, edge) == #[trigger] t.take(b);
        assert(t.take(b) =~= s.take(b));
    } else {
        assert(s.take(s.len() as int) =~= s);
    }
}

/// Trimming takes off what was put around a text that has nothing to trim.
pub proof fn lemma_trimmed_around(a: Seq<char>, core: Seq<char>, b: Seq<char>, edge: Edge)
    requires
        forall|i: int| 0 <= i < a.len() ==> edge.covers(#[trigger] a[i]),
        forall|i: int| 0 <= i < b.len() ==> edge.covers(#[trigger] b[i]),
        core.len() > 0,
        !edge.covers(core[0]),
        !edge.covers(core.last()),
    ensures
        trimmed(a + core + b, edge) == core,
    decreases a.len() + b.len(),
{
    let s = a + core + b;
    if a.len() > 0 {
        let rest = a.drop_first();
        assert(s.drop_first() =~= rest + core + b);
        assert(s[0] == a[0]);
        assert forall|i: int| 0 <= i < rest.len() implies edge.covers(#[trigger] rest[i]) by {
            assert(rest[i] == a[i + 1]);
        }
        lemma_trimmed_around(rest, core, b, edge);
    } else {
        assert(s =~= core + b);
        assert(s[0] == core[0]);
        if b.len() > 0 {
            let rest = b.drop_last();
            assert(s.last() == b[b.len() - 1]);
            assert(s.drop_last() =~= core + rest);
            assert(a + core + rest =~= core + rest);
            assert((core + rest)[0] == core[0]);
            assert forall|i: int| 0 <= i < rest.len() implies edge.covers(#[trigger] rest[i]) by {
                assert(rest[i] == b[i]);
            }
            lemma_trimmed_around(a, core, rest, edge);
        } else {
            assert(s =~= core);
        }
    }
}

/// What is trimmed at the back goes whatever stands before it.
pub proof fn lemma_trimmed_push(s: Seq<char>, c: char, edge: Edge)
    requires
        edge.covers(c),
    ensures
        trimmed(s.push(c), edge) == trimmed(s, edge),
        trimmed(seq![c] + s, edge) == trimmed(s, edge),
    decreases s.len(),
{
    assert((seq![c] + s).drop_first() =~= s);
    if s.len() > 0 && edge.covers(s[0]) {
        lemma_trimmed_push(s.drop_first(), c, edge);
        assert(s.push(c).drop_first() =~= s.drop_first().push(c));
        assert(s.push(c)[0] == s[0]);
    } else if s.len() > 0 {
        assert(s.push(c)[0] == s[0]);
        assert(s.push(c).drop_last() =~= s);
    } else {
        assert(s.push(c).drop_first() =~= s);
    }
}

/// A text with nothing to trim at either end is left as it is.
pub proof fn lemma_nothing_to_trim(s: Seq<char>, edge: Edge)
    requires
        s.len() > 0 ==> !edge.covers(s[0]) && !edge.covers(s.last()),
    ensures
        trimmed(s, edge) == s,
{
}

// ---------------------------------------------------------------------------
// Searching and splitting
// ---------------------------------------------------------------------------

/// How many characters stand before the first `a` or `b`: all of them where
/// neither occurs.
pub open spec fn before_either(s: Seq<char>, a: char, b: char) -> nat
    decreases s.len(),
{
    if s.len() == 0 || s[0] == a || s[0] == b {
        0
    } else {
        1 + before_either(s.drop_first(), a, b)
    }
}

/// How many characters stand before the first `c`.
pub open spec fn before(s: Seq<char>, c: char) -> nat {
    before_either(s, c, c)
}

/// Where a search for two characters stops.
pub proof fn lemma_before_either(s: Seq<char>, a: char, b: char, n: nat)
    requires
        n <= s.len(),
        forall|j: int| 0 <= j < n ==> s[j] != a && s[j] != b,
        n < s.len() ==> s[n as int] == a || s[n as int] == b,
    ensures
        before_either(s, a, b) == n,
    decreases n,
{
    if n > 0 {
        let t = s.drop_first();
        assert forall|j: int| 0 <= j < n - 1 implies t[j] != a && t[j] != b by {
            assert(t[j] == s[j + 1]);
        }
        lemma_before_either(t, a, b, (n - 1) as nat);
    }
}

/// What a search for two characters tells of the text.
pub proof fn lemma_before_either_bounds(s: Seq<char>, a: char, b: char)
    ensures
        before_either(s, a, b) <= s.len(),
        forall|j: int| 0 <= j < before_either(s, a, b) ==> s[j] != a && s[j] != b,
        before_either(s, a, b) < s.len() ==> s[before_either(s, a, b) as int] == a
            || s[before_either(s, a, b) as int] == b,
    decreases s.len(),
{
    if s.len() > 0 && s[0] != a && s[0] != b {
        let t = s.drop_first();
        lemma_before_either_bounds(t, a, b);
        assert forall|j: int| 0 <= j < before_either(s, a, b) implies s[j] != a && s[j] != b by {
            if j > 0 {
                assert(t[j - 1] == s[j]);
            }
        }
    }
}

/// Finds the first `a` or `b`.
pub fn find_either(s: &[char], a: char, b: char) -> (r: usize)
    ensures
        r == before_either(s@, a, b),
        r <= s@.len(),
        r < s@.len() ==> s@[r as int] == a || s@[r as int] == b,
{
    let mut n: usize = 0;
    while n < s.len() && s[n] != a && s[n] != b
        invariant
            n <= s@.len(),
            forall|j: int| 0 <= j < n ==> s@[j] != a && s@[j] != b,
        decreases s@.len() - n,
    {
        n = n + 1;
    }
    proof {
        lemma_before_either(s@, a, b, n as nat);
    }
    n
}

/// The parts of `s` around its first `c`, where it has one.
pub open spec fn parted(s: Seq<char>, c: char) -> Option<(Seq<char>, Seq<char>)> {
    if before(s, c) < s.len() {
        Some((s.take(before(s, c) as int), s.skip(before(s, c) as int + 1)))
    } else {
        None
    }
}

/// Splits `s` around its first `c`.
pub fn part<'a>(s: &'a [char], c: char) -> (r: Option<(&'a [char], &'a [char])>)
    ensures
        match r {
            Some((head, tail)) => parted(s@, c) == Some((head@, tail@)),
            None => parted(s@, c) is None,
        },
{
    let n = find_either(s, c, c);
    if n < s.len() {
        let head = slice_subrange(s, 0, n);
        let tail = slice_subrange(s, n + 1, s.len());
        proof {
            assert(head@ =~= s@.take(n as int));
            assert(tail@ =~= s@.skip(n + 1));
        }
        Some((head, tail))
    } else {
        None
    }
}

/// The pieces of `s` between the occurrences of `c`, empty ones included.
pub open spec fn split<A>(s: Seq<A>, c: A) -> Seq<Seq<A>>
    decreases s.len(),
{
    if s.len() == 0 {
        seq![s]
    } else {
        let front = split(s.drop_last(), c);
        if s.last() == c {
            front.push(Seq::empty())
        } else {
            front.update(front.len() - 1, front.last().push(s.last()))
        }
    }
}

/// A text without the separator is one piece.
pub proof fn lemma_split_plain<A>(s: Seq<A>, c: A)
    requires
        !s.contains(c),
    ensures
        split(s, c) == seq![s],
    decreases s.len(),
{
    if s.len() > 0 {
        let front = s.drop_last();
        assert forall|x: A| front.contains(x) implies s.contains(x) by {
            let k = choose|k: int| 0 <= k < front.len() && front[k] == x;
            assert(s[k] == x);
        }
        lemma_split_plain(front, c);
        assert(s[s.len() - 1] == s.last());
        assert(front.push(s.last()) =~= s);
        assert(split(s, c) =~= seq![s]);
    }
}

/// Around a separator the pieces of either side come one after another.
pub proof fn lemma_split_around<A>(a: Seq<A>, c: A, b: Seq<A>)
    ensures
        split(a.push(c) + b, c) == split(a, c) + split(b, c),
        split(b, c).len() > 0,
    decreases b.len(),
{
    let s = a.push(c) + b;
    if b.len() == 0 {
        assert(s =~= a.push(c));
        assert(s.drop_last() =~= a);
        assert(b =~= Seq::<A>::empty());
        assert(split(s, c) =~= split(a, c) + split(b, c));
    } else {
        let front = b.drop_last();
        lemma_split_around(a, c, front);
        assert(s.drop_last() =~= a.push(c) + front);
        assert(s.last() == b.last());
        assert(split(s, c) =~= split(a, c) + split(b, c));
    }
}

/// The non-empty texts among some texts.
pub open spec fn nonempty(parts: Seq<Seq<char>>) -> Seq<Seq<char>> {
    parts.filter(|p: Seq<char>| p.len() > 0)
}

/// The pieces of `s` between slashes, empty ones left out.
pub open spec fn segments(s: Seq<char>) -> Seq<Seq<char>> {
    nonempty(split(s, '/'))
}

/// The texts that some vectors of characters hold.
pub open spec fn texts(parts: Seq<Vec<char>>) -> Seq<Seq<char>> {
    parts.map_values(|p: Vec<char>| p@)
}

/// Adding one text at the end of a list.
proof fn lemma_nonempty_push(parts: Seq<Seq<char>>, last: Seq<char>)
    ensures
        nonempty(parts.push(last)) == if last.len() > 0 {
            nonempty(parts).push(last)
        } else {
            nonempty(parts)
        },
{
    reveal(Seq::filter);
    assert(parts.push(last).drop_last() =~= parts);
}

/// Splits at slashes and leaves out the empty pieces.
pub fn segments_of(s: &[char]) -> (r: Vec<Vec<char>>)
    ensures
        texts(r@) == segments(s@),
{
    let mut done: Vec<Vec<char>> = Vec::new();
    let mut piece: Vec<char> = Vec::new();
    proof {
        let start = split(s@.take(0), '/');
        assert(start =~= seq![s@.take(0)]);
        assert(start.drop_last() =~= Seq::<Seq<char>>::empty());
        reveal(Seq::filter);
        assert(texts(done@) =~= nonempty(start.drop_last()));
    }
    for i in 0..s.len()
        invariant
            split(s@.take(i as int), '/').len() > 0,
            split(s@.take(i as int), '/').last() == piece@,
            nonempty(split(s@.take(i as int), '/').drop_last()) == texts(done@),
    {
        let c = s[i];
        let ghost here = split(s@.take(i as int), '/');
        let ghost there = split(s@.take(i + 1), '/');
        proof {
            assert(s@.take(i + 1).drop_last() =~= s@.take(i as int));
            assert(s@.take(i + 1).last() == c);
            assert(here =~= here.drop_last().push(piece@));
            lemma_nonempty_push(here.drop_last(), piece@);
        }
        if c == '/' {
            proof {
                assert(there == here.push(Seq::empty()));
                assert(there.drop_last() =~= here);
            }
            if piece.len() > 0 {
                let ghost before = done@;
                let ghost text = piece@;
                done.push(piece);
                proof {
                    assert(texts(done@) =~= texts(before).push(text));
                }
                piece = Vec::new();
            }
        } else {
            piece.push(c);
            proof {
                assert(there.drop_last() =~= here.drop_last());
            }
        }
    }
    proof {
        let all = split(s@, '/');
        assert(s@.take(s@.len() as int) =~= s@);
        assert(all =~= all.drop_last().push(piece@));
        lemma_nonempty_push(all.drop_last(), piece@);
    }
    if piece.len() > 0 {
        let ghost before = done@;
        let ghost text = piece@;
        done.push(piece);
        proof {
            assert(texts(done@) =~= texts(before).push(text));
        }
    }
    done
}

/// Around a slash the segments of either side come one after another.
pub proof fn lemma_segments_around(a: Seq<char>, b: Seq<char>)
    ensures
        segments(a.push('/') + b) == segments(a) + segments(b),
{
    lemma_split_around(a, '/', b);
    Seq::filter_distributes_over_add(
        split(a, '/'),
        split(b, '/'),
        |p: Seq<char>| p.len() > 0,
    );
}

/// A text without a slash is one segment, unless it is empty.
pub proof fn lemma_segments_plain(s: Seq<char>)
    requires
        !s.contains('/'),
    ensures
        segments(s) == if s.len() > 0 {
            seq![s]
        } else {
            Seq::empty()
        },
{
    lemma_split_plain(s, '/');
    lemma_nonempty_push(Seq::empty(), s);
    assert(Seq::<Seq<char>>::empty().push(s) =~= seq![s]);
    reveal(Seq::filter);
    assert(nonempty(Seq::empty()) =~= Seq::<Seq<char>>::empty());
    assert(segments(s) =~= if s.len() > 0 {
        seq![s]
    } else {
        Seq::empty()
    });
}

/// A piece holds no separator, and nothing that the whole does not hold.
proof fn lemma_split_pieces(s: Seq<char>, c: char)
    ensures
        split(s, c).len() > 0,
        forall|i: int|
            0 <= i < split(s, c).len() ==> !(#[trigger] split(s, c)[i]).contains(c) && (forall|
                x: char,
            |
                split(s, c)[i].contains(x) ==> s.contains(x)),
    decreases s.len(),
{
    let all = split(s, c);
    if s.len() > 0 {
        let front = s.drop_last();
        let before = split(front, c);
        lemma_split_pieces(front, c);
        assert forall|x: char| front.contains(x) implies s.contains(x) by {
            let k = choose|k: int| 0 <= k < front.len() && front[k] == x;
            assert(s[k] == x);
        }
        assert(s[s.len() - 1] == s.last());
        assert forall|i: int| 0 <= i < all.len() implies !(#[trigger] all[i]).contains(c) && (
        forall|x: char| all[i].contains(x) ==> s.contains(x)) by {
            if i < before.len() - 1 || (s.last() == c && i < before.len()) {
                assert(all[i] == before[i]);
            } else if s.last() != c {
                let head = before[i];
                assert(all[i] == head.push(s.last()));
                assert forall|x: char| all[i].contains(x) implies s.contains(x) && x != c by {
                    let k = choose|k: int| 0 <= k < all[i].len() && all[i][k] == x;
                    if k < head.len() {
                        assert(head[k] == x);
                        assert(head.contains(x));
                    }
                }
            }
        }
    }
}

/// The non-empty texts are among the texts.
proof fn lemma_nonempty_among(parts: Seq<Seq<char>>)
    ensures
        forall|i: int|
            0 <= i < nonempty(parts).len() ==> (#[trigger] nonempty(parts)[i]).len() > 0
                && parts.contains(nonempty(parts)[i]),
    decreases parts.len(),
{
    let kept = nonempty(parts);
    if parts.len() == 0 {
        reveal(Seq::filter);
        assert(kept =~= Seq::<Seq<char>>::empty());
    } else {
        let front = parts.drop_last();
        lemma_nonempty_among(front);
        lemma_nonempty_push(front, parts.last());
        assert(front.push(parts.last()) =~= parts);
        assert forall|i: int| 0 <= i < kept.len() implies (#[trigger] kept[i]).len() > 0
            && parts.contains(kept[i]) by {
            if i < nonempty(front).len() {
                assert(kept[i] == nonempty(front)[i]);
                let k = choose|k: int| 0 <= k < front.len() && front[k] == kept[i];
                assert(parts[k] == kept[i]);
            } else {
                assert(parts[parts.len() - 1] == kept[i]);
            }
        }
    }
}

/// A segment holds something, no slash, and nothing that the whole does not
/// hold.
pub proof fn lemma_segments_hold(s: Seq<char>)
    ensures
        forall|i: int|
            0 <= i < segments(s).len() ==> (#[trigger] segments(s)[i]).len() > 0
                && !segments(s)[i].contains('/') && (forall|x: char|
                segments(s)[i].contains(x) ==> s.contains(x)),
{
    let pieces = split(s, '/');
    lemma_split_pieces(s, '/');
    lemma_nonempty_among(pieces);
    assert forall|i: int| 0 <= i < segments(s).len() implies (#[trigger] segments(s)[i]).len() > 0
        && !segments(s)[i].contains('/') && (forall|x: char|
        segments(s)[i].contains(x) ==> s.contains(x)) by {
        let p = segments(s)[i];
        assert(nonempty(pieces)[i] == p);
        let k = choose|k: int| 0 <= k < pieces.len() && pieces[k] == p;
        assert(pieces[k] == p);
    }
}

/// Where `pattern` first occurs in `s`.
pub open spec fn found(s: Seq<char>, pattern: Seq<char>) -> Option<nat>
    decreases s.len(),
{
    if begins(s, pattern) {
        Some(0)
    } else if s.len() == 0 {
        None
    } else {
        match found(s.drop_first(), pattern) {
            Some(n) => Some(n + 1),
            None => None,
        }
    }
}

/// A pattern is found where it occurs and does not occur earlier.
pub proof fn lemma_found_at(s: Seq<char>, pattern: Seq<char>, n: nat)
    requires
        n <= s.len(),
        begins(s.skip(n as int), pattern),
        forall|m: int| 0 <= m < n ==> !begins(#[trigger] s.skip(m), pattern),
    ensures
        found(s, pattern) == Some(n),
    decreases n,
{
    assert(s.skip(0) =~= s);
    if n > 0 {
        assert(!begins(s.skip(0), pattern));
        let t = s.drop_first();
        assert forall|m: int| 0 <= m < n - 1 implies !begins(#[trigger] t.skip(m), pattern) by {
            assert(t.skip(m) =~= s.skip(m + 1));
        }
        assert(t.skip(n - 1) =~= s.skip(n as int));
        lemma_found_at(t, pattern, (n - 1) as nat);
    }
}

/// A pattern that occurs nowhere is not found.
pub proof fn lemma_found_none(s: Seq<char>, pattern: Seq<char>)
    requires
        forall|m: int| 0 <= m <= s.len() ==> !begins(#[trigger] s.skip(m), pattern),
    ensures
        found(s, pattern) is None,
    decreases s.len(),
{
    assert(s.skip(0) =~= s);
    assert(!begins(s.skip(0), pattern));
    if s.len() > 0 {
        let t = s.drop_first();
        assert forall|m: int| 0 <= m <= t.len() implies !begins(#[trigger] t.skip(m), pattern) by {
            assert(t.skip(m) =~= s.skip(m + 1));
        }
        lemma_found_none(t, pattern);
    }
}

/// What finding a pattern tells of the text.
pub proof fn lemma_found(s: Seq<char>, pattern: Seq<char>)
    ensures
        found(s, pattern) matches Some(n) ==> n + pattern.len() <= s.len() && begins(
            s.skip(n as int),
            pattern,
        ) && (forall|m: int| 0 <= m < n ==> !begins(#[trigger] s.skip(m), pattern)),
        found(s, pattern) is None ==> forall|m: int|
            0 <= m <= s.len() ==> !begins(#[trigger] s.skip(m), pattern),
    decreases s.len(),
{
    assert(s.skip(0) =~= s);
    if begins(s, pattern) {
    } else if s.len() > 0 {
        let t = s.drop_first();
        lemma_found(t, pattern);
        match found(t, pattern) {
            Some(n) => {
                assert(t.skip(n as int) =~= s.skip(n as int + 1));
                assert forall|m: int| 0 <= m < n + 1 implies !begins(
                    #[trigger] s.skip(m),
                    pattern,
                ) by {
                    if m > 0 {
                        assert(t.skip(m - 1) =~= s.skip(m));
                    }
                }
            },
            None => {
                assert forall|m: int| 0 <= m <= s.len() implies !begins(
                    #[trigger] s.skip(m),
                    pattern,
                ) by {
                    if m > 0 {
                        assert(t.skip(m - 1) =~= s.skip(m));
                    }
                }
            },
        }
    }
}

/// Finds the first occurrence of a word.
pub fn find_word(s: &[char], word: &str) -> (r: Option<usize>)
    ensures
        match r {
            Some(n) => found(s@, word@) == Some(n as nat),
            None => found(s@, word@) is None,
        },
{
    let pattern = chars_of(word);
    let mut n: usize = 0;
    loop
        invariant
            pattern@ == word@,
            n <= s@.len(),
            forall|m: int| 0 <= m < n ==> !begins(#[trigger] s@.skip(m), word@),
        decreases s@.len() - n,
    {
        let rest = slice_subrange(s, n, s.len());
        proof {
            assert(rest@ =~= s@.skip(n as int));
        }
        if starts(rest, &pattern) {
            proof {
                lemma_found_at(s@, word@, n as nat);
            }
            return Some(n);
        }
        if n == s.len() {
            proof {
                lemma_found_none(s@, word@);
            }
            return None;
        }
        n = n + 1;
    }
}

/// `s` with every occurrence of `pattern` replaced, from left to right.
pub open spec fn replaced(s: Seq<char>, pattern: Seq<char>, by: Seq<char>) -> Seq<char>
    decreases s.len(),
{
    if s.len() == 0 || pattern.len() == 0 {
        s
    } else if begins(s, pattern) {
        by + replaced(s.skip(pattern.len() as int), pattern, by)
    } else {
        seq![s[0]] + replaced(s.drop_first(), pattern, by)
    }
}

/// Replaces every occurrence of a word.
pub fn replace_word(s: &str, word: &str, by: &str) -> (r: String)
    requires
        word@.len() > 0,
    ensures
        r@ == replaced(s@, word@, by@),
{
    let text = chars_of(s);
    let pattern = chars_of(word);
    let mut out = String::new();
    let mut at: usize = 0;
    proof {
        assert(s@.skip(0) =~= s@);
    }
    while at < text.len()
        invariant
            text@ == s@,
            pattern@ == word@,
            word@.len() > 0,
            at <= s@.len(),
            out@ + replaced(s@.skip(at as int), word@, by@) == replaced(s@, word@, by@),
        decreases s@.len() - at,
    {
        let rest = slice_subrange(text.as_slice(), at, text.len());
        proof {
            assert(rest@ =~= s@.skip(at as int));
        }
        let ghost before = out@;
        if starts(rest, &pattern) {
            out.append(by);
            proof {
                assert(s@.skip(at as int).skip(word@.len() as int) =~= s@.skip(
                    at + word@.len() as int,
                ));
                assert(before + (by@ + replaced(s@.skip(at + word@.len() as int), word@, by@))
                    =~= out@ + replaced(s@.skip(at + word@.len() as int), word@, by@));
            }
            at = at + pattern.len();
        } else {
            out.push(text[at]);
            proof {
                assert(s@.skip(at as int).drop_first() =~= s@.skip(at + 1));
                assert(before + (seq![s@[at as int]] + replaced(s@.skip(at + 1), word@, by@))
                    =~= out@ + replaced(s@.skip(at + 1), word@, by@));
            }
            at = at + 1;
        }
    }
    proof {
        assert(out@ + replaced(s@.skip(at as int), word@, by@) =~= out@);
    }
    out
}

// ---------------------------------------------------------------------------
// Joining
// ---------------------------------------------------------------------------

/// Some texts in a row, with `sep` between one and the next.
pub open spec fn joined(parts: Seq<Seq<char>>, sep: Seq<char>) -> Seq<char>
    decreases parts.len(),
{
    if parts.len() == 0 {
        Seq::empty()
    } else if parts.len() == 1 {
        parts[0]
    } else {
        joined(parts.drop_last(), sep) + sep + parts.last()
    }
}

/// Joins some runs of characters.
pub fn join(parts: &[Vec<char>], sep: char) -> (r: Vec<char>)
    ensures
        r@ == joined(texts(parts@), seq![sep]),
{
    let mut out: Vec<char> = Vec::new();
    for i in 0..parts.len()
        invariant
            out@ == joined(texts(parts@.take(i as int)), seq![sep]),
    {
        let ghost before = out@;
        let ghost sofar = texts(parts@.take(i as int));
        let ghost next = texts(parts@.take(i + 1));
        if i > 0 {
            out.push(sep);
        }
        let ghost mid = out@;
        let part = &parts[i];
        for j in 0..part.len()
            invariant
                i < parts@.len(),
                part@ == parts@[i as int]@,
                out@ == mid + part@.take(j as int),
        {
            out.push(part[j]);
            proof {
                assert(mid + part@.take(j + 1) =~= (mid + part@.take(j as int)).push(
                    part@[j as int],
                ));
            }
        }
        proof {
            assert(part@.take(part@.len() as int) =~= part@);
            assert(next.drop_last() =~= sofar);
            assert(next.last() == part@);
            if i > 0 {
                assert(out@ =~= before + seq![sep] + part@);
            } else {
                assert(out@ =~= part@);
            }
        }
    }
    proof {
        assert(parts@.take(parts@.len() as int) =~= parts@);
    }
    out
}

/// A pattern is replaced where it first stands and wherever it stands behind that,
/// and everything else is kept.
pub proof fn a_pattern_is_replaced_where_it_stands(
    a: Seq<char>,
    pattern: Seq<char>,
    b: Seq<char>,
    by: Seq<char>,
)
    requires
        pattern.len() > 0,
        forall|m: int|
            0 <= m < a.len() ==> #[trigger] (a + pattern + b).subrange(
                m,
                m + pattern.len() as int,
            ) != pattern,
    ensures
        replaced(a + pattern + b, pattern, by) == a + by + replaced(b, pattern, by),
    decreases a.len(),
{
    let s = a + pattern + b;
    if a.len() == 0 {
        assert(s.take(pattern.len() as int) =~= pattern);
        assert(s.skip(pattern.len() as int) =~= b);
        assert(a + by + replaced(b, pattern, by) =~= by + replaced(b, pattern, by));
    } else {
        let rest = a.drop_first();
        let t = rest + pattern + b;
        assert(s.drop_first() =~= t);
        assert(s.take(pattern.len() as int) =~= s.subrange(0, 0 + pattern.len() as int));
        assert forall|m: int| 0 <= m < rest.len() implies #[trigger] t.subrange(
            m,
            m + pattern.len() as int,
        ) != pattern by {
            assert(t.subrange(m, m + pattern.len() as int) =~= s.subrange(
                m + 1,
                m + 1 + pattern.len() as int,
            ));
        }
        a_pattern_is_replaced_where_it_stands(rest, pattern, b, by);
        assert(seq![s[0]] + (rest + by + replaced(b, pattern, by)) =~= a + by + replaced(
            b,
            pattern,
            by,
        ));
    }
}

/// A text without the pattern is kept as it is.
pub proof fn a_text_without_the_pattern_is_kept(s: Seq<char>, pattern: Seq<char>, by: Seq<char>)
    requires
        pattern.len() > 0,
        forall|m: int|
            0 <= m <= s.len() - pattern.len() ==> #[trigger] s.subrange(
                m,
                m + pattern.len() as int,
            ) != pattern,
    ensures
        replaced(s, pattern, by) == s,
    decreases s.len(),
{
    if s.len() > 0 {
        let rest = s.drop_first();
        if s.len() >= pattern.len() {
            assert(s.take(pattern.len() as int) =~= s.subrange(0, 0 + pattern.len() as int));
        }
        assert forall|m: int| 0 <= m <= rest.len() - pattern.len() implies #[trigger] rest.subrange(
            m,
            m + pattern.len() as int,
        ) != pattern by {
            assert(rest.subrange(m, m + pattern.len() as int) =~= s.subrange(
                m + 1,
                m + 1 + pattern.len() as int,
            ));
        }
        a_text_without_the_pattern_is_kept(rest, pattern, by);
        assert(seq![s[0]] + rest =~= s);
    }
}

} // verus!
