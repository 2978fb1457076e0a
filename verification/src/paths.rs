//! Unix paths: joining them, taking them apart and showing them.

use crate::error::Error;
use crate::text::{begins, begins_with, chars_of, is_word, string_of};
use vstd::prelude::*;
use vstd::slice::slice_subrange;
use vstd::utf8::{decode_utf8, encode_utf8, valid_utf8};

verus! {

/// A path, as the bytes the operating system gives and takes.
pub struct FilePath {
    pub bytes: Vec<u8>,
}

impl View for FilePath {
    type V = Seq<u8>;

    open spec fn view(&self) -> Seq<u8> {
        self.bytes@
    }
}

impl Clone for FilePath {
    fn clone(&self) -> (r: Self)
        ensures
            r@ == self@,
    {
        FilePath { bytes: vstd::slice::slice_to_vec(self.bytes.as_slice()) }
    }
}

/// The bytes of a path that may be missing.
pub open spec fn bytes_of(path: Option<&FilePath>) -> Option<Seq<u8>> {
    match path {
        Some(p) => Some(p@),
        None => None,
    }
}

/// The byte of a slash.
pub const SLASH: u8 = 47;

/// The byte of a dot.
pub const DOT: u8 = 46;

/// What `String::from_utf8_lossy` makes of bytes that are not UTF-8: a text with
/// U+FFFD in place of what cannot be read.
pub uninterp spec fn lossy_text(bytes: Seq<u8>) -> Seq<char>;

/// Bytes as text, for people to read.
pub open spec fn legible(bytes: Seq<u8>) -> Seq<char> {
    if valid_utf8(bytes) {
        decode_utf8(bytes)
    } else {
        lossy_text(bytes)
    }
}

/// `String::from_utf8_lossy`: the text that the bytes encode where they are
/// UTF-8, and otherwise a text that depends on the bytes alone.
#[verifier::external_body]
pub(crate) fn from_lossy(bytes: &[u8]) -> (r: String)
    ensures
        r@ == (if valid_utf8(bytes@) {
            decode_utf8(bytes@)
        } else {
            lossy_text(bytes@)
        }),
{
    String::from_utf8_lossy(bytes).into_owned()
}

/// A path that was made from a text is shown as that text.
pub proof fn a_text_is_shown_as_it_is(s: Seq<char>)
    ensures
        legible(encode_utf8(s)) == s,
{
    vstd::utf8::encode_utf8_valid_utf8(s);
    vstd::utf8::encode_utf8_decode_utf8(s);
}

/// What stands at the end of `base` when `rest` is added to it: an absolute
/// path takes its place, and another is set off by one slash.
pub open spec fn joined_path(base: Seq<u8>, rest: Seq<u8>) -> Seq<u8> {
    if rest.len() > 0 && rest[0] == SLASH {
        rest
    } else if base.len() == 0 || base.last() == SLASH {
        base + rest
    } else {
        base.push(SLASH) + rest
    }
}

/// Where the run of bytes that starts at `at` meets a slash or the end.
pub open spec fn run_end(p: Seq<u8>, at: int) -> int
    decreases p.len() - at,
{
    if at >= p.len() || p[at] == SLASH {
        at
    } else {
        run_end(p, at + 1)
    }
}

/// A run of bytes never ends before it starts, nor after the path.
pub proof fn lemma_run_end(p: Seq<u8>, at: int)
    ensures
        at <= run_end(p, at),
        at <= p.len() ==> run_end(p, at) <= p.len(),
        forall|j: int| at <= j < run_end(p, at) ==> p[j] != SLASH,
        0 <= run_end(p, at) < p.len() ==> p[run_end(p, at)] == SLASH,
    decreases p.len() - at,
{
    if !(at >= p.len() || p[at] == SLASH) {
        lemma_run_end(p, at + 1);
    }
}

/// A run of bytes without a slash in it ends where a slash or the end follows.
pub proof fn lemma_run_ends_at(p: Seq<u8>, at: int, end: int)
    requires
        0 <= at <= end <= p.len(),
        forall|j: int| at <= j < end ==> p[j] != SLASH,
        end == p.len() || p[end] == SLASH,
    ensures
        run_end(p, at) == end,
    decreases end - at,
{
    if at < end {
        lemma_run_ends_at(p, at + 1, end);
    }
}

/// Where the components of a path start and end, from `at` on.
///
/// A leading slash is a component of its own. Between slashes, nothing and a
/// single dot are no components, but for a dot at the very front.
pub open spec fn spans_from(p: Seq<u8>, at: int) -> Seq<(int, int)>
    decreases p.len() - at,
    via spans_from_decreases
{
    if at < 0 || at >= p.len() {
        Seq::empty()
    } else if p[at] == SLASH {
        if at == 0 {
            seq![(0int, 1int)] + spans_from(p, 1)
        } else {
            spans_from(p, at + 1)
        }
    } else if at > 0 && run_end(p, at) == at + 1 && p[at] == DOT {
        spans_from(p, at + 1)
    } else {
        seq![(at, run_end(p, at))] + spans_from(p, run_end(p, at))
    }
}

#[via_fn]
proof fn spans_from_decreases(p: Seq<u8>, at: int) {
    lemma_run_end(p, at);
    if at < p.len() && p[at] != SLASH {
        lemma_run_end(p, at + 1);
    }
}

/// Where the components of a path start and end.
pub open spec fn spans(p: Seq<u8>) -> Seq<(int, int)> {
    spans_from(p, 0)
}

/// The bytes of each component of a path.
pub open spec fn components(p: Seq<u8>) -> Seq<Seq<u8>> {
    spans(p).map_values(|s: (int, int)| p.subrange(s.0, s.1))
}

/// Spans with one more in front.
proof fn lemma_bounds_prepend(p: Seq<u8>, first: (int, int), from: int)
    requires
        first.0 < first.1 <= from,
        first.1 <= p.len(),
        forall|i: int|
            0 <= i < spans_from(p, from).len() ==> from <= (#[trigger] spans_from(p, from)[i]).0
                < spans_from(p, from)[i].1 <= p.len(),
    ensures
        forall|i: int|
            0 <= i < (seq![first] + spans_from(p, from)).len() ==> first.0 <= (#[trigger] (seq![
                first,
            ] + spans_from(p, from))[i]).0 < (seq![first] + spans_from(p, from))[i].1 <= p.len(),
{
    let tail = spans_from(p, from);
    let all = seq![first] + tail;
    assert forall|i: int| 0 <= i < all.len() implies first.0 <= (#[trigger] all[i]).0 < all[i].1
        <= p.len() by {
        if i > 0 {
            assert(all[i] == tail[i - 1]);
        }
    }
}

/// Every span lies inside the path, at or after the place where the search
/// began, and holds something.
pub proof fn lemma_spans_bounds(p: Seq<u8>, at: int)
    requires
        0 <= at,
    ensures
        forall|i: int|
            0 <= i < spans_from(p, at).len() ==> at <= (#[trigger] spans_from(p, at)[i]).0
                < spans_from(p, at)[i].1 <= p.len(),
    decreases p.len() - at,
{
    if at < p.len() {
        lemma_run_end(p, at);
        if p[at] == SLASH {
            lemma_spans_bounds(p, at + 1);
            if at == 0 {
                lemma_bounds_prepend(p, (0, 1), 1);
                assert(spans_from(p, at) == seq![(0int, 1int)] + spans_from(p, 1));
            } else {
                assert(spans_from(p, at) == spans_from(p, at + 1));
            }
        } else {
            lemma_run_end(p, at + 1);
            if at > 0 && run_end(p, at) == at + 1 && p[at] == DOT {
                lemma_spans_bounds(p, at + 1);
                assert(spans_from(p, at) == spans_from(p, at + 1));
            } else {
                lemma_spans_bounds(p, run_end(p, at));
                assert(spans_from(p, at) == seq![(at, run_end(p, at))] + spans_from(
                    p,
                    run_end(p, at),
                ));
                lemma_bounds_prepend(p, (at, run_end(p, at)), run_end(p, at));
            }
        }
    }
}

/// Spans as numbers without a size limit.
pub open spec fn as_spans(found: Seq<(usize, usize)>) -> Seq<(int, int)> {
    found.map_values(|s: (usize, usize)| (s.0 as int, s.1 as int))
}

impl FilePath {
    /// The path that a text names.
    pub fn from_text(s: &str) -> (r: FilePath)
        ensures
            r@ == encode_utf8(s@),
    {
        FilePath { bytes: vstd::slice::slice_to_vec(s.as_bytes()) }
    }

    /// The path as text, for people to read.
    pub fn display(&self) -> (r: String)
        ensures
            r@ == legible(self@),
    {
        from_lossy(self.bytes.as_slice())
    }

    /// Adds a path at the end of this one.
    pub fn join(&self, rest: &FilePath) -> (r: FilePath)
        ensures
            r@ == joined_path(self@, rest@),
    {
        if rest.bytes.len() > 0 && rest.bytes[0] == SLASH {
            return rest.clone();
        }
        let mut out = self.clone();
        let n = out.bytes.len();
        if n > 0 && out.bytes[n - 1] != SLASH {
            out.bytes.push(SLASH);
        }
        let ghost head = out@;
        for i in 0..rest.bytes.len()
            invariant
                out@ == head + rest@.take(i as int),
        {
            out.bytes.push(rest.bytes[i]);
            proof {
                assert(head + rest@.take(i + 1) =~= (head + rest@.take(i as int)).push(
                    rest@[i as int],
                ));
            }
        }
        proof {
            assert(rest@.take(rest@.len() as int) =~= rest@);
        }
        out
    }

    /// Finds the components of the path.
    pub fn find_components(&self) -> (r: Vec<(usize, usize)>)
        ensures
            as_spans(r@) == spans(self@),
    {
        let ghost p = self@;
        let mut out: Vec<(usize, usize)> = Vec::new();
        let mut at: usize = 0;
        proof {
            assert(as_spans(out@) + spans_from(p, 0) =~= spans(p));
        }
        while at < self.bytes.len()
            invariant
                p == self@,
                at <= p.len(),
                as_spans(out@) + spans_from(p, at as int) == spans(p),
            decreases p.len() - at,
        {
            let ghost was = out@;
            let ghost start = at as int;
            if self.bytes[at] == SLASH {
                if at == 0 {
                    out.push((0, 1));
                    proof {
                        assert(as_spans(out@) =~= as_spans(was).push((0int, 1int)));
                        assert(as_spans(was) + spans_from(p, 0) =~= as_spans(out@) + spans_from(
                            p,
                            1,
                        ));
                    }
                }
                at = at + 1;
            } else {
                let mut end: usize = at + 1;
                while end < self.bytes.len() && self.bytes[end] != SLASH
                    invariant
                        p == self@,
                        start == at,
                        at < end <= p.len(),
                        forall|j: int| at <= j < end ==> p[j] != SLASH,
                    decreases p.len() - end,
                {
                    end = end + 1;
                }
                proof {
                    lemma_run_ends_at(p, start, end as int);
                }
                if !(at > 0 && end == at + 1 && self.bytes[at] == DOT) {
                    out.push((at, end));
                    proof {
                        assert(as_spans(out@) =~= as_spans(was).push((start, end as int)));
                        assert(as_spans(was) + spans_from(p, start) =~= as_spans(out@)
                            + spans_from(p, end as int));
                    }
                }
                at = end;
            }
        }
        proof {
            assert(as_spans(out@) + spans_from(p, at as int) =~= as_spans(out@));
        }
        out
    }

    /// The last component of the path, where it is a name.
    pub fn file_name(&self) -> (r: Option<FilePath>)
        ensures
            match r {
                Some(name) => last_name(self@) == Some(name@),
                None => last_name(self@) is None,
            },
    {
        let found = self.find_components();
        if found.len() == 0 {
            return None;
        }
        let last = found[found.len() - 1];
        proof {
            lemma_spans_bounds(self@, 0);
            assert(spans(self@).last() == (last.0 as int, last.1 as int));
            assert(components(self@).last() == self@.subrange(last.0 as int, last.1 as int));
        }
        let name = slice_subrange(self.bytes.as_slice(), last.0, last.1);
        let special = (name.len() == 1 && (name[0] == SLASH || name[0] == DOT)) || (name.len() == 2
            && name[0] == DOT && name[1] == DOT);
        proof {
            let n = name@;
            assert(special <==> (n == seq![SLASH] || n == seq![DOT] || n == seq![DOT, DOT])) by {
                if special {
                    assert(n =~= seq![SLASH] || n =~= seq![DOT] || n =~= seq![DOT, DOT]);
                }
            }
        }
        if special {
            None
        } else {
            Some(FilePath { bytes: vstd::slice::slice_to_vec(name) })
        }
    }
}

/// The last component of a path, unless it is the root, `.` or `..`.
pub open spec fn last_name(p: Seq<u8>) -> Option<Seq<u8>> {
    let parts = components(p);
    if parts.len() == 0 {
        None
    } else if parts.last() == seq![SLASH] || parts.last() == seq![DOT] || parts.last() == seq![
        DOT,
        DOT,
    ] {
        None
    } else {
        Some(parts.last())
    }
}

// ---------------------------------------------------------------------------
// The home directory
// ---------------------------------------------------------------------------

/// The home directory that the variable `HOME` names: none where it is empty.
pub open spec fn home_of(var: Option<Seq<u8>>) -> Option<Seq<u8>> {
    match var {
        Some(h) => if h.len() > 0 {
            Some(h)
        } else {
            None
        },
        None => None,
    }
}

/// The home directory, from the value of `HOME`.
pub fn home(var: Option<&FilePath>) -> (r: Result<FilePath, Error>)
    ensures
        match r {
            Ok(h) => home_of(bytes_of(var)) == Some(h@),
            Err(e) => home_of(bytes_of(var)) is None && e is HomeUnset,
        },
{
    match var {
        Some(h) => if h.bytes.len() > 0 {
            Ok(h.clone())
        } else {
            Err(Error::HomeUnset)
        },
        None => Err(Error::HomeUnset),
    }
}

/// What a leading `~` stands for, and the rest of the text: `None` where the
/// text has no such front. Other users' homes are not looked up.
pub open spec fn after_tilde(raw: Seq<char>) -> Option<Option<Seq<char>>> {
    if raw == "~"@ {
        Some(None)
    } else if begins(raw, "~/"@) {
        Some(Some(raw.skip(2)))
    } else {
        None
    }
}

/// A typed path with a leading `~` taken for the home directory.
pub open spec fn expanded(raw: Seq<char>, var: Option<Seq<u8>>) -> Option<Seq<u8>> {
    match after_tilde(raw) {
        None => Some(encode_utf8(raw)),
        Some(rest) => match (home_of(var), rest) {
            (None, _) => None,
            (Some(h), None) => Some(h),
            (Some(h), Some(rest)) => Some(joined_path(h, encode_utf8(rest))),
        },
    }
}

/// Expands a leading `~` in a typed path. Whether the path is absolute is left
/// as it was typed.
pub fn expand(raw: &str, var: Option<&FilePath>) -> (r: Result<FilePath, Error>)
    ensures
        match r {
            Ok(path) => expanded(raw@, bytes_of(var)) == Some(path@),
            Err(e) => expanded(raw@, bytes_of(var)) is None && e is HomeUnset,
        },
{
    let text = chars_of(raw);
    if is_word(&text, "~") {
        home(var)
    } else if begins_with(&text, "~/") {
        proof {
            reveal_strlit("~/");
        }
        let tail = slice_subrange(text.as_slice(), 2, text.len());
        proof {
            assert(tail@ =~= raw@.skip(2));
        }
        let rest = FilePath::from_text(&string_of(tail));
        match home(var) {
            Ok(h) => Ok(h.join(&rest)),
            Err(e) => Err(e),
        }
    } else {
        Ok(FilePath::from_text(raw))
    }
}

/// How a path is shown: from `~` where the home directory leads to it.
pub open spec fn tilde_text(path: Seq<u8>, var: Option<Seq<u8>>) -> Seq<char> {
    match home_of(var) {
        None => legible(path),
        Some(h) => if components(path) == components(h) {
            "~"@
        } else if begins(components(path), components(h)) {
            "~/"@ + legible(
                path.subrange(spans(path)[components(h).len() as int].0, spans(path).last().1),
            )
        } else {
            legible(path)
        },
    }
}

/// Whether the components of `home` are those that `path` starts with.
fn leads_to(
    home: &FilePath,
    from: &Vec<(usize, usize)>,
    path: &FilePath,
    to: &Vec<(usize, usize)>,
) -> (r: bool)
    requires
        as_spans(from@) == spans(home@),
        as_spans(to@) == spans(path@),
    ensures
        r == begins(components(path@), components(home@)),
{
    let ghost hs = components(home@);
    let ghost ps = components(path@);
    if from.len() > to.len() {
        return false;
    }
    proof {
        lemma_spans_bounds(home@, 0);
        lemma_spans_bounds(path@, 0);
    }
    for i in 0..from.len()
        invariant
            as_spans(from@) == spans(home@),
            as_spans(to@) == spans(path@),
            hs == components(home@),
            ps == components(path@),
            from@.len() <= to@.len(),
            forall|j: int| 0 <= j < i ==> hs[j] == ps[j],
            forall|j: int|
                0 <= j < spans(home@).len() ==> 0 <= (#[trigger] spans(home@)[j]).0
                    < spans(home@)[j].1 <= home@.len(),
            forall|j: int|
                0 <= j < spans(path@).len() ==> 0 <= (#[trigger] spans(path@)[j]).0
                    < spans(path@)[j].1 <= path@.len(),
    {
        let a = from[i];
        let b = to[i];
        proof {
            assert(spans(home@)[i as int] == (a.0 as int, a.1 as int));
            assert(spans(path@)[i as int] == (b.0 as int, b.1 as int));
        }
        let x = slice_subrange(home.bytes.as_slice(), a.0, a.1);
        let y = slice_subrange(path.bytes.as_slice(), b.0, b.1);
        if !same_bytes(x, y) {
            proof {
                assert(hs[i as int] == x@);
                assert(ps[i as int] == y@);
                if begins(ps, hs) {
                    assert(ps.take(hs.len() as int)[i as int] == ps[i as int]);
                }
            }
            return false;
        }
    }
    proof {
        assert(ps.take(hs.len() as int) =~= hs);
    }
    true
}

/// Whether two runs of bytes are the same.
pub fn same_bytes(a: &[u8], b: &[u8]) -> (r: bool)
    ensures
        r == (a@ == b@),
{
    if a.len() != b.len() {
        return false;
    }
    for i in 0..a.len()
        invariant
            a@.len() == b@.len(),
            forall|j: int| 0 <= j < i ==> a@[j] == b@[j],
    {
        if a[i] != b[i] {
            return false;
        }
    }
    proof {
        assert(a@ =~= b@);
    }
    true
}

/// Shortens a path under the home directory for display.
pub fn tildify(path: &FilePath, var: Option<&FilePath>) -> (r: String)
    ensures
        r@ == tilde_text(path@, bytes_of(var)),
{
    let h = match home(var) {
        Ok(h) => h,
        Err(_) => {
            return path.display();
        },
    };
    let from = h.find_components();
    let to = path.find_components();
    if !leads_to(&h, &from, path, &to) {
        proof {
            if components(path@) == components(h@) {
                assert(components(path@).take(components(h@).len() as int) =~= components(h@));
            }
        }
        return path.display();
    }
    if from.len() == to.len() {
        proof {
            assert(components(path@).take(components(h@).len() as int) =~= components(path@));
        }
        return "~".to_owned();
    }
    let first = to[from.len()];
    let last = to[to.len() - 1];
    proof {
        lemma_spans_bounds(path@, 0);
        lemma_spans_ascend(path@, 0);
        assert(spans(path@)[from@.len() as int] == (first.0 as int, first.1 as int));
        assert(spans(path@).last() == (last.0 as int, last.1 as int));
    }
    let rest = slice_subrange(path.bytes.as_slice(), first.0, last.1);
    "~/".to_owned().concat(&from_lossy(rest))
}

/// Spans stand one after another.
pub proof fn lemma_spans_ascend(p: Seq<u8>, at: int)
    requires
        0 <= at,
    ensures
        forall|i: int, j: int|
            0 <= i < j < spans_from(p, at).len() ==> (#[trigger] spans_from(p, at)[i]).1 <= (
            #[trigger] spans_from(p, at)[j]).0,
    decreases p.len() - at,
{
    if at < p.len() {
        lemma_run_end(p, at);
        let here = spans_from(p, at);
        if p[at] == SLASH {
            lemma_spans_ascend(p, at + 1);
            lemma_spans_bounds(p, at + 1);
            if at == 0 {
                assert forall|i: int, j: int| 0 <= i < j < here.len() implies (
                #[trigger] here[i]).1 <= (#[trigger] here[j]).0 by {
                    assert(here[j] == spans_from(p, 1)[j - 1]);
                    if i > 0 {
                        assert(here[i] == spans_from(p, 1)[i - 1]);
                    }
                }
            } else {
                assert(here == spans_from(p, at + 1));
            }
        } else {
            lemma_run_end(p, at + 1);
            if at > 0 && run_end(p, at) == at + 1 && p[at] == DOT {
                lemma_spans_ascend(p, at + 1);
                assert(here == spans_from(p, at + 1));
            } else {
                lemma_spans_ascend(p, run_end(p, at));
                lemma_spans_bounds(p, run_end(p, at));
                let tail = spans_from(p, run_end(p, at));
                assert forall|i: int, j: int| 0 <= i < j < here.len() implies (
                #[trigger] here[i]).1 <= (#[trigger] here[j]).0 by {
                    assert(here[j] == tail[j - 1]);
                    if i > 0 {
                        assert(here[i] == tail[i - 1]);
                    }
                }
            }
        }
    }
}

// ---------------------------------------------------------------------------
// Laws of paths
// ---------------------------------------------------------------------------

/// The bytes of two texts in a row are those of the one and then the other.
pub proof fn lemma_encode_concat(a: Seq<char>, b: Seq<char>)
    ensures
        encode_utf8(a + b) == encode_utf8(a) + encode_utf8(b),
    decreases a.len(),
{
    if a.len() == 0 {
        assert(a + b =~= b);
        assert(encode_utf8(a) + encode_utf8(b) =~= encode_utf8(b));
    } else {
        let s = a + b;
        assert(s[0] == a[0]);
        assert(s.drop_first() =~= a.drop_first() + b);
        lemma_encode_concat(a.drop_first(), b);
        assert(encode_utf8(s) =~= encode_utf8(a) + encode_utf8(b));
    }
}

/// Whether some bytes are a single component: something, with no slash in it,
/// and not the dot that stands for where one is.
pub open spec fn is_component(name: Seq<u8>) -> bool {
    &&& name.len() > 0
    &&& forall|i: int| 0 <= i < name.len() ==> #[trigger] name[i] != SLASH
    &&& name != seq![DOT]
}

/// A slash at the end of a path adds no component.
proof fn lemma_trailing_slash(base: Seq<u8>, at: int)
    requires
        base.len() > 0,
        0 <= at <= base.len(),
    ensures
        spans_from(base.push(SLASH), at) == spans_from(base, at),
    decreases base.len() - at,
{
    let p = base.push(SLASH);
    if at == base.len() {
        assert(spans_from(p, at) == spans_from(p, at + 1));
        assert(spans_from(p, at + 1) =~= Seq::<(int, int)>::empty());
        assert(spans_from(base, at) =~= Seq::<(int, int)>::empty());
    } else {
        assert(p[at] == base[at]);
        lemma_run_end(base, at);
        if base[at] == SLASH {
            lemma_trailing_slash(base, at + 1);
        } else {
            lemma_run_end(base, at + 1);
            let end = run_end(base, at);
            assert forall|j: int| at <= j < end implies p[j] != SLASH by {
                assert(p[j] == base[j]);
            }
            lemma_run_ends_at(p, at, end);
            lemma_trailing_slash(base, end);
            lemma_trailing_slash(base, at + 1);
        }
    }
}

/// What follows a slash changes no component in front of it.
proof fn lemma_spans_apart(front: Seq<u8>, rest: Seq<u8>, at: int)
    requires
        0 <= at <= front.len(),
        front.len() > 0 ==> front.last() == SLASH,
    ensures
        spans_from(front + rest, at) == spans_from(front, at) + spans_from(
            front + rest,
            front.len() as int,
        ),
    decreases front.len() - at,
{
    let p = front + rest;
    let tail = spans_from(p, front.len() as int);
    if at == front.len() {
        assert(spans_from(front, at) =~= Seq::<(int, int)>::empty());
        assert(spans_from(front, at) + tail =~= tail);
    } else {
        assert(p[at] == front[at]);
        lemma_run_end(front, at);
        if front[at] == SLASH {
            lemma_spans_apart(front, rest, at + 1);
            if at == 0 {
                assert(spans_from(p, 0) == seq![(0int, 1int)] + spans_from(p, 1));
                assert(spans_from(front, 0) == seq![(0int, 1int)] + spans_from(front, 1));
                assert(spans_from(p, 0) =~= spans_from(front, 0) + tail);
            }
        } else {
            lemma_run_end(front, at + 1);
            let end = run_end(front, at);
            if end == front.len() {
                assert(front[front.len() - 1] != SLASH);
            }
            assert forall|j: int| at <= j < end implies p[j] != SLASH by {
                assert(p[j] == front[j]);
            }
            assert(p[end] == front[end]);
            lemma_run_ends_at(p, at, end);
            lemma_spans_apart(front, rest, end);
            lemma_spans_apart(front, rest, at + 1);
            if !(at > 0 && end == at + 1 && front[at] == DOT) {
                assert(spans_from(p, at) == seq![(at, end)] + spans_from(p, end));
                assert(spans_from(front, at) == seq![(at, end)] + spans_from(front, end));
                assert(spans_from(p, at) =~= spans_from(front, at) + tail);
            }
        }
    }
}

/// After a slash a component follows whole.
proof fn lemma_child_spans(front: Seq<u8>, name: Seq<u8>)
    requires
        is_component(name),
        front.len() > 0 ==> front.last() == SLASH,
    ensures
        spans(front + name) == spans(front).push(
            (front.len() as int, (front + name).len() as int),
        ),
{
    let p = front + name;
    let n = front.len() as int;
    let last = (n, p.len() as int);
    assert forall|j: int| n <= j < p.len() implies p[j] != SLASH by {
        assert(p[j] == name[j - n]);
    }
    lemma_run_ends_at(p, n, p.len() as int);
    assert(p[n] == name[0]);
    if p.len() == n + 1 && p[n] == DOT {
        assert(name =~= seq![DOT]);
    }
    assert(spans_from(p, n) == seq![last] + spans_from(p, p.len() as int));
    assert(spans_from(p, p.len() as int) =~= Seq::<(int, int)>::empty());
    assert(spans_from(p, n) =~= seq![last]);
    lemma_spans_apart(front, name, 0);
    assert(spans(front) + seq![last] =~= spans(front).push(last));
}

/// Joining one component to a path adds that component at the end and changes
/// no other: the result is a direct child of the path.
pub proof fn joining_adds_one_component(base: Seq<u8>, name: Seq<u8>)
    requires
        is_component(name),
    ensures
        components(joined_path(base, name)) == components(base).push(name),
        spans(joined_path(base, name)) == spans(base).push(
            (joined_path(base, name).len() - name.len(), joined_path(base, name).len() as int),
        ),
{
    assert(name[0] != SLASH);
    let front = if base.len() == 0 || base.last() == SLASH {
        base
    } else {
        base.push(SLASH)
    };
    let p = front + name;
    assert(p == joined_path(base, name));
    lemma_child_spans(front, name);
    if front != base {
        lemma_trailing_slash(base, 0);
    }
    assert(spans(front) == spans(base));
    lemma_spans_bounds(base, 0);
    let got = components(p);
    let want = components(base).push(name);
    assert forall|i: int| 0 <= i < got.len() implies got[i] == want[i] by {
        let span = spans(p)[i];
        assert(got[i] == p.subrange(span.0, span.1));
        if i < spans(base).len() {
            assert(span == spans(base)[i]);
            assert(p.subrange(span.0, span.1) =~= base.subrange(span.0, span.1));
        } else {
            assert(p.subrange(span.0, span.1) =~= name);
        }
    }
    assert(got =~= want);
}

/// A direct child of the home directory is shown as `~/` and its name.
pub proof fn a_child_of_home_is_shown_from_the_tilde(home: Seq<u8>, name: Seq<u8>)
    requires
        home.len() > 0,
        is_component(name),
    ensures
        tilde_text(joined_path(home, name), Some(home)) == "~/"@ + legible(name),
{
    let p = joined_path(home, name);
    joining_adds_one_component(home, name);
    assert(components(p).take(components(home).len() as int) =~= components(home));
    assert(components(p).len() != components(home).len());
    assert(spans(p)[components(home).len() as int] == spans(p).last());
    assert(p.subrange(p.len() - name.len(), p.len() as int) =~= name);
}

/// What is shown from the tilde is what can be typed: it expands to the path
/// that it was shown for.
pub proof fn what_is_shown_can_be_typed(home: Seq<u8>, name: Seq<char>)
    requires
        home.len() > 0,
        is_component(encode_utf8(name)),
    ensures
        tilde_text(joined_path(home, encode_utf8(name)), Some(home)) == "~/"@ + name,
        expanded("~/"@ + name, Some(home)) == Some(joined_path(home, encode_utf8(name))),
{
    a_child_of_home_is_shown_from_the_tilde(home, encode_utf8(name));
    a_text_is_shown_as_it_is(name);
    reveal_strlit("~/");
    reveal_strlit("~");
    let raw = "~/"@ + name;
    assert(raw.take(2) =~= "~/"@);
    assert(raw.skip(2) =~= name);
    assert(raw.len() > 1);
}

/// From the start of a span on, the same spans follow.
proof fn lemma_spans_suffix(p: Seq<u8>, at: int, k: int)
    requires
        0 <= at,
        0 <= k < spans_from(p, at).len(),
    ensures
        spans_from(p, spans_from(p, at)[k].0) == spans_from(p, at).skip(k),
    decreases p.len() - at,
{
    let here = spans_from(p, at);
    assert(at < p.len());
    lemma_run_end(p, at);
    if p[at] == SLASH && at > 0 {
        lemma_spans_suffix(p, at + 1, k);
    } else if p[at] != SLASH && at > 0 && run_end(p, at) == at + 1 && p[at] == DOT {
        lemma_spans_suffix(p, at + 1, k);
    } else {
        let next = if p[at] == SLASH {
            1
        } else {
            run_end(p, at)
        };
        if p[at] != SLASH {
            lemma_run_end(p, at + 1);
        }
        let tail = spans_from(p, next);
        assert(here == seq![(at, next)] + tail);
        if k == 0 {
            assert(here.skip(0) =~= here);
        } else {
            assert(here[k] == tail[k - 1]);
            lemma_spans_suffix(p, next, k - 1);
            assert(here.skip(k) =~= tail.skip(k - 1));
        }
    }
}

/// A span behind the front is a whole run of bytes between slashes.
proof fn lemma_span_is_run(p: Seq<u8>, at: int, k: int)
    requires
        0 <= at,
        at == 0 || at >= p.len() || p[at] == SLASH || p[at - 1] == SLASH,
        0 <= k < spans_from(p, at).len(),
        spans_from(p, at)[k].0 > 0,
    ensures
        ({
            let (start, end) = spans_from(p, at)[k];
            &&& 0 < start < end <= p.len()
            &&& p[start - 1] == SLASH
            &&& p[start] != SLASH
            &&& end == p.len() || p[end] == SLASH
        }),
    decreases p.len() - at,
{
    let here = spans_from(p, at);
    assert(at < p.len());
    lemma_run_end(p, at);
    if p[at] == SLASH && at > 0 {
        lemma_span_is_run(p, at + 1, k);
    } else if p[at] != SLASH && at > 0 && run_end(p, at) == at + 1 && p[at] == DOT {
        lemma_span_is_run(p, at + 1, k);
    } else {
        let next = if p[at] == SLASH {
            1
        } else {
            run_end(p, at)
        };
        if p[at] != SLASH {
            lemma_run_end(p, at + 1);
        }
        let tail = spans_from(p, next);
        assert(here == seq![(at, next)] + tail);
        if k > 0 {
            assert(here[k] == tail[k - 1]);
            lemma_span_is_run(p, next, k - 1);
        }
    }
}

/// Spans, moved along.
spec fn moved(all: Seq<(int, int)>, by: int) -> Seq<(int, int)> {
    all.map_values(|s: (int, int)| (s.0 + by, s.1 + by))
}

/// The part of a path from one component to the end of the last has the same
/// components behind any other front.
proof fn lemma_spans_moved(p: Seq<u8>, a: int, b: int, front: Seq<u8>, x: int)
    requires
        0 < a <= x <= b <= p.len(),
        b == p.len() || p[b] == SLASH,
        front.len() > 0,
        spans_from(p, x).len() > 0 ==> spans_from(p, x).last().1 == b,
    ensures
        spans_from(front + p.subrange(a, b), front.len() + x - a) == moved(
            spans_from(p, x),
            front.len() - a,
        ),
    decreases b - x,
{
    let q = front + p.subrange(a, b);
    let by = front.len() - a;
    let here = spans_from(p, x);
    let there = spans_from(q, x + by);
    lemma_spans_bounds(p, x);
    if x == b {
        assert(here.len() == 0);
        assert(there =~= moved(here, by));
    } else {
        assert(q[x + by] == p[x]);
        if p[x] == SLASH {
            lemma_spans_moved(p, a, b, front, x + 1);
        } else {
            lemma_run_end(p, x);
            lemma_run_end(p, x + 1);
            let end = run_end(p, x);
            assert(end <= b);
            assert forall|j: int| x + by <= j < end + by implies q[j] != SLASH by {
                assert(q[j] == p[j - by]);
            }
            if end < b {
                assert(q[end + by] == p[end]);
            }
            lemma_run_ends_at(q, x + by, end + by);
            if end == x + 1 && p[x] == DOT {
                lemma_spans_moved(p, a, b, front, x + 1);
            } else {
                let rest = spans_from(p, end);
                assert(here == seq![(x, end)] + rest);
                if rest.len() > 0 {
                    assert(here.last() == rest.last());
                }
                lemma_spans_moved(p, a, b, front, end);
                assert(there == seq![(x + by, end + by)] + spans_from(q, end + by));
                assert(there =~= moved(here, by));
            }
        }
    }
}

/// What stands between slashes in a text is a text.
proof fn lemma_utf8_between(p: Seq<u8>, a: int, b: int)
    requires
        valid_utf8(p),
        0 < a <= b <= p.len(),
        p[a - 1] == SLASH,
        b == p.len() || p[b] == SLASH,
    ensures
        valid_utf8(p.subrange(a, b)),
{
    vstd::utf8::is_char_boundary_iff_not_is_continuation_byte(p, a - 1);
    vstd::utf8::valid_utf8_split(p, a - 1);
    let t = p.subrange(a - 1, p.len() as int);
    assert(t[0] == SLASH);
    let rest = vstd::utf8::pop_first_scalar(t);
    assert(rest =~= p.subrange(a, p.len() as int));
    if b < p.len() {
        assert(rest[b - a] == SLASH);
        vstd::utf8::is_char_boundary_iff_not_is_continuation_byte(rest, b - a);
        vstd::utf8::valid_utf8_split(rest, b - a);
        assert(rest.subrange(0, b - a) =~= p.subrange(a, b));
    } else {
        assert(rest =~= p.subrange(a, b));
    }
}

/// An absolute path that is typed is taken as it is.
proof fn lemma_absolute_is_kept(p: Seq<u8>, var: Option<Seq<u8>>)
    requires
        valid_utf8(p),
        p.len() > 0,
        p[0] == SLASH,
    ensures
        expanded(decode_utf8(p), var) == Some(p),
{
    reveal_strlit("~");
    reveal_strlit("~/");
    let raw = decode_utf8(p);
    vstd::utf8::decode_utf8_encode_utf8(p);
    if after_tilde(raw) is Some {
        assert(raw.len() > 0 && raw[0] == '~') by {
            if begins(raw, "~/"@) {
                assert(raw.take(2)[0] == raw[0]);
            }
        }
        let first = seq!['~'];
        let rest = raw.drop_first();
        assert(raw =~= first + rest);
        lemma_encode_concat(first, rest);
        assert(vstd::utf8::is_ascii_chars(first));
        vstd::utf8::is_ascii_chars_encode_utf8(first);
        assert(first[0] as u8 == encode_utf8(first)[0]);
        assert(p[0] == encode_utf8(first)[0]);
    }
}

/// What leads to an absolute path is absolute.
proof fn lemma_same_front(home: Seq<u8>, path: Seq<u8>)
    requires
        home.len() > 0,
        path.len() > 0,
        path[0] == SLASH,
        begins(components(path), components(home)),
    ensures
        home[0] == SLASH,
{
    if home[0] != SLASH {
        let end = run_end(home, 0);
        lemma_run_end(home, 0);
        lemma_run_end(home, 1);
        assert(spans(home) == seq![(0int, end)] + spans_from(home, end));
        assert(spans(path) == seq![(0int, 1int)] + spans_from(path, 1));
        assert(components(home)[0] == home.subrange(0, end));
        assert(components(path)[0] == path.subrange(0, 1));
        assert(components(path).take(components(home).len() as int)[0] == components(path)[0]);
        assert(home.subrange(0, end)[0] == home[0]);
        assert(path.subrange(0, 1)[0] == path[0]);
    }
}

/// The components of a path under the home directory, behind the home directory.
proof fn lemma_rejoined(home: Seq<u8>, path: Seq<u8>)
    requires
        home.len() > 0,
        path.len() > 0,
        path[0] == SLASH,
        begins(components(path), components(home)),
        components(path) != components(home),
    ensures
        ({
            let (a, b) = (spans(path)[components(home).len() as int].0, spans(path).last().1);
            &&& 0 < a <= b <= path.len()
            &&& path[a - 1] == SLASH
            &&& b == path.len() || path[b] == SLASH
            &&& components(joined_path(home, path.subrange(a, b))) == components(path)
        }),
{
    let k = components(home).len() as int;
    let all = spans(path);
    if k == all.len() {
        assert(components(path).take(k) =~= components(path));
    }
    lemma_same_front(home, path);
    assert(spans(home) == seq![(0int, 1int)] + spans_from(home, 1));
    assert(k > 0);
    lemma_spans_bounds(path, 0);
    lemma_spans_ascend(path, 0);
    lemma_spans_bounds(home, 0);
    let a = all[k].0;
    let b = all.last().1;
    assert(all[0].1 <= a);
    lemma_span_is_run(path, 0, k);
    assert(all[k].1 <= all.last().0 || k == all.len() - 1);
    lemma_span_is_run(path, 0, all.len() - 1);
    let sub = path.subrange(a, b);
    assert(sub[0] == path[a]);

    let front = if home.last() == SLASH {
        home
    } else {
        home.push(SLASH)
    };
    let q = front + sub;
    assert(q == joined_path(home, sub));
    if front != home {
        lemma_trailing_slash(home, 0);
    }
    assert(spans(front) == spans(home));
    lemma_spans_apart(front, sub, 0);
    lemma_spans_suffix(path, 0, k);
    let by = front.len() - a;
    assert(spans_from(path, a).last() == all.last());
    lemma_spans_moved(path, a, b, front, a);
    let tail = moved(spans_from(path, a), by);
    assert(spans(q) == spans(home) + tail);

    let got = components(q);
    let want = components(path);
    assert(got.len() == want.len());
    assert forall|i: int| 0 <= i < got.len() implies got[i] == want[i] by {
        let (x, y) = spans(q)[i];
        assert(got[i] == q.subrange(x, y));
        if i < k {
            assert((x, y) == spans(home)[i]);
            assert(q.subrange(x, y) =~= home.subrange(x, y));
            assert(components(home)[i] == home.subrange(x, y));
            assert(want.take(k)[i] == want[i]);
        } else {
            let span = all[i];
            assert(spans_from(path, a)[i - k] == span);
            assert(tail[i - k] == (span.0 + by, span.1 + by));
            assert((x, y) == (span.0 + by, span.1 + by));
            if i > k {
                assert(all[k].1 <= span.0);
            }
            if i < all.len() - 1 {
                assert(span.1 <= all.last().0);
            }
            assert(a <= span.0 < span.1 <= b);
            assert(q.subrange(x, y) =~= path.subrange(span.0, span.1));
        }
    }
    assert(got =~= want);
}

/// Expanding undoes shortening: what an absolute path is shown as can be typed
/// and leads to the same components, whether or not the path is under the home
/// directory, and whether or not there is one.
pub proof fn expanding_undoes_shortening(path: Seq<u8>, var: Option<Seq<u8>>)
    requires
        valid_utf8(path),
        path.len() > 0,
        path[0] == SLASH,
    ensures
        expanded(tilde_text(path, var), var) matches Some(back) && components(back) == components(
            path,
        ),
{
    reveal_strlit("~");
    reveal_strlit("~/");
    match home_of(var) {
        None => lemma_absolute_is_kept(path, var),
        Some(home) => {
            if components(path) == components(home) {
                assert(after_tilde("~"@) == Some(None::<Seq<char>>));
            } else if begins(components(path), components(home)) {
                lemma_rejoined(home, path);
                let a = spans(path)[components(home).len() as int].0;
                let b = spans(path).last().1;
                let sub = path.subrange(a, b);
                lemma_utf8_between(path, a, b);
                vstd::utf8::decode_utf8_encode_utf8(sub);
                let raw = "~/"@ + decode_utf8(sub);
                assert(raw.take(2) =~= "~/"@);
                assert(raw.skip(2) =~= decode_utf8(sub));
                assert(raw.len() > 1);
            } else {
                lemma_absolute_is_kept(path, var);
            }
        },
    }
}

/// The spans of a path whose last component grows.
proof fn lemma_longer_last(h: Seq<u8>, more: Seq<u8>, at: int)
    requires
        0 <= at < h.len(),
        more.len() > 0,
        more[0] != SLASH,
        spans_from(h, at).len() > 0,
        spans_from(h, at).last().1 == h.len(),
        h.last() != SLASH,
    ensures
        spans_from(h + more, at).len() >= spans_from(h, at).len(),
        spans_from(h + more, at)[spans_from(h, at).len() - 1].0 == spans_from(h, at).last().0,
        spans_from(h + more, at)[spans_from(h, at).len() - 1].1 > h.len(),
    decreases h.len() - at,
{
    let p = h + more;
    let hs = spans_from(h, at);
    let ps = spans_from(p, at);
    assert(p[at] == h[at]);
    lemma_run_end(h, at);
    if h[at] == SLASH {
        assert(at + 1 < h.len());
        if at == 0 {
            let rest = spans_from(h, 1);
            assert(hs == seq![(0int, 1int)] + rest);
            assert(ps == seq![(0int, 1int)] + spans_from(p, 1));
            if rest.len() == 0 {
                assert(hs.last() == (0int, 1int));
            } else {
                assert(hs.last() == rest.last());
                lemma_longer_last(h, more, 1);
                assert(ps[hs.len() - 1] == spans_from(p, 1)[rest.len() - 1]);
            }
        } else {
            assert(hs == spans_from(h, at + 1));
            assert(ps == spans_from(p, at + 1));
            lemma_longer_last(h, more, at + 1);
        }
    } else {
        lemma_run_end(h, at + 1);
        let end = run_end(h, at);
        if end == h.len() {
            // The last component: it reaches into what is added.
            assert(spans_from(h, end) =~= Seq::<(int, int)>::empty());
            if at > 0 && end == at + 1 && h[at] == DOT {
                assert(hs == spans_from(h, at + 1));
                assert(false);
            }
            assert(hs =~= seq![(at, end)]);
            lemma_run_end(p, at);
            assert(run_end(p, at) > h.len()) by {
                assert(p[h.len() as int] == more[0]);
                if run_end(p, at) <= h.len() {
                    assert(p[run_end(p, at)] == SLASH);
                    if run_end(p, at) < h.len() {
                        assert(p[run_end(p, at)] == h[run_end(p, at)]);
                    }
                }
            }
            assert(ps == seq![(at, run_end(p, at))] + spans_from(p, run_end(p, at)));
            assert(ps[0] == (at, run_end(p, at)));
        } else {
            assert forall|j: int| at <= j < end implies p[j] != SLASH by {
                assert(p[j] == h[j]);
            }
            assert(p[end] == h[end]);
            lemma_run_ends_at(p, at, end);
            if at > 0 && end == at + 1 && h[at] == DOT {
                assert(hs == spans_from(h, at + 1));
                assert(ps == spans_from(p, at + 1));
                lemma_longer_last(h, more, at + 1);
            } else {
                let rest = spans_from(h, end);
                assert(hs == seq![(at, end)] + rest);
                assert(ps == seq![(at, end)] + spans_from(p, end));
                if rest.len() == 0 {
                    assert(hs.last() == (at, end));
                } else {
                    assert(hs.last() == rest.last());
                    lemma_longer_last(h, more, end);
                    assert(ps[hs.len() - 1] == spans_from(p, end)[rest.len() - 1]);
                }
            }
        }
    }
}

/// A path is shortened at a component boundary only: where the home directory
/// ends in a component and the path goes on with more of that component, the
/// path is shown whole. `/Users/jamie` is not shortened for `/Users/jam`.
pub proof fn shortening_stops_at_a_boundary(home: Seq<u8>, more: Seq<u8>)
    requires
        home.len() > 0,
        home.last() != SLASH,
        spans(home).len() > 0,
        spans(home).last().1 == home.len(),
        more.len() > 0,
        more[0] != SLASH,
    ensures
        tilde_text(home + more, Some(home)) == legible(home + more),
{
    let p = home + more;
    lemma_longer_last(home, more, 0);
    lemma_spans_bounds(home, 0);
    lemma_spans_bounds(p, 0);
    let n = spans(home).len() - 1;
    let hs = components(home);
    let ps = components(p);
    assert(hs[n].len() == spans(home)[n].1 - spans(home)[n].0);
    assert(ps[n].len() == spans(p)[n].1 - spans(p)[n].0);
    assert(hs[n] != ps[n]);
    if begins(ps, hs) {
        assert(ps.take(hs.len() as int)[n] == ps[n]);
    }
}

/// Joining puts one slash between two paths where there is none, and an absolute
/// path takes the place of the other.
pub proof fn joining_puts_one_slash_between(base: Seq<u8>, rest: Seq<u8>)
    ensures
        rest.len() > 0 && rest[0] == 47 ==> joined_path(base, rest) == rest,
        (rest.len() == 0 || rest[0] != 47) && base.len() > 0 && base.last() != 47 ==> joined_path(
            base,
            rest,
        ) == base + seq![47u8] + rest,
        (rest.len() == 0 || rest[0] != 47) && (base.len() == 0 || base.last() == 47) ==> joined_path(
            base,
            rest,
        ) == base + rest,
{
    if base.len() > 0 {
        assert(base.push(47) =~= base + seq![47u8]);
    }
}

/// Whatever has no slash in it and is not a single dot is one component more at
/// the end of any path, however long it is. Slashes at the end add none.
pub proof fn a_name_is_one_component_more(base: Seq<u8>, name: Seq<u8>)
    requires
        name.len() > 0,
        forall|i: int| 0 <= i < name.len() ==> #[trigger] name[i] != 47,
        name != seq![46u8],
    ensures
        components(joined_path(base, name)) == components(base) + seq![name],
        components(joined_path(base, name) + seq![47u8]) == components(base) + seq![name],
        last_name(joined_path(base, name)) == if name == seq![46u8, 46u8] {
            None
        } else {
            Some(name)
        },
{
    assert(is_component(name));
    joining_adds_one_component(base, name);
    let p = joined_path(base, name);
    assert(components(base).push(name) =~= components(base) + seq![name]);
    assert(components(p).last() == name);
    if name == seq![SLASH] {
        assert(name[0] == SLASH);
    }
    let q = p + seq![47u8];
    assert(q =~= p.push(SLASH));
    assert(p.len() > 0);
    lemma_trailing_slash(p, 0);
    lemma_spans_bounds(p, 0);
    assert(components(q) =~= components(p)) by {
        assert forall|i: int| 0 <= i < components(p).len() implies components(q)[i] == components(
            p,
        )[i] by {
            let (a, b) = spans(p)[i];
            assert(q.subrange(a, b) =~= p.subrange(a, b));
        }
    }
}

/// Slashes behind the first are no components.
proof fn lemma_slashes_alone(p: Seq<u8>, at: int)
    requires
        forall|i: int| 0 <= i < p.len() ==> #[trigger] p[i] == 47,
        0 < at <= p.len(),
    ensures
        spans_from(p, at).len() == 0,
    decreases p.len() - at,
{
    if at < p.len() {
        assert(p[at] == 47);
        lemma_slashes_alone(p, at + 1);
    }
}

/// Slashes alone, however many, are the root, and it has no name; nor has nothing.
pub proof fn slashes_alone_have_no_name(p: Seq<u8>)
    requires
        forall|i: int| 0 <= i < p.len() ==> #[trigger] p[i] == 47,
    ensures
        last_name(p) is None,
        p.len() == 0 ==> components(p).len() == 0,
        p.len() > 0 ==> components(p) == seq![seq![47u8]],
{
    if p.len() > 0 {
        assert(p[0] == 47);
        lemma_slashes_alone(p, 1);
        assert(spans(p) =~= seq![(0int, 1int)]);
        assert(p.subrange(0, 1) =~= seq![47u8]);
        assert(components(p) =~= seq![seq![47u8]]);
    }
}

/// A tilde in front stands for the home directory, alone or with a slash behind
/// it, and for nothing else anywhere: any other text is a path as it stands.
pub proof fn a_tilde_stands_for_home(raw: Seq<char>, rest: Seq<char>, home: Seq<u8>)
    requires
        home.len() > 0,
    ensures
        expanded("~"@, Some(home)) == Some(home),
        expanded("~/"@ + rest, Some(home)) == Some(joined_path(home, encode_utf8(rest))),
        expanded("~"@, None) is None,
        expanded("~/"@ + rest, None) is None,
        expanded("~/"@ + rest, Some(Seq::empty())) is None,
        raw.len() == 0 || raw[0] != '~' || (raw.len() > 1 && raw[1] != '/') ==> expanded(
            raw,
            Some(home),
        ) == Some(encode_utf8(raw)) && expanded(raw, None) == Some(encode_utf8(raw)),
{
    reveal_strlit("~");
    reveal_strlit("~/");
    let text = "~/"@ + rest;
    assert(text.take(2) =~= "~/"@);
    assert(text.skip(2) =~= rest);
    assert(text.len() > 1);
    assert(!begins("~"@, "~/"@));
    if begins(raw, "~/"@) {
        assert(raw.take(2)[0] == raw[0]);
        assert(raw.take(2)[1] == raw[1]);
    }
}

/// A path is shown from the tilde exactly where it is the home directory or below
/// it, at any depth, and whole where it is not or where there is none.
pub proof fn what_is_below_home_is_shown_from_the_tilde(path: Seq<u8>, home: Seq<u8>)
    requires
        home.len() > 0,
    ensures
        ({
            let shown = tilde_text(path, Some(home));
            let depth = components(home).len() as int;
            let below = components(path).len() >= depth && components(path).take(depth)
                == components(home);
            &&& components(path) == components(home) ==> shown == "~"@
            &&& below && components(path).len() > depth ==> shown.len() >= 2 && shown[0] == '~'
                && shown[1] == '/'
            &&& !below ==> shown == legible(path)
        }),
        tilde_text(path, None) == legible(path),
        tilde_text(path, Some(Seq::empty())) == legible(path),
{
    reveal_strlit("~/");
    let depth = components(home).len() as int;
    if components(path) == components(home) {
        assert(components(path).take(depth) =~= components(home));
    }
}

/// A path that was shown from the tilde below home is shown as what is left of it:
/// a name joined to a directory below home is added behind a slash.
pub proof fn a_name_is_shown_behind_its_directory(home: Seq<u8>, dir: Seq<char>, name: Seq<char>)
    requires
        home.len() > 0,
        is_component(encode_utf8(dir)),
        is_component(encode_utf8(name)),
    ensures
        tilde_text(
            joined_path(joined_path(home, encode_utf8(dir)), encode_utf8(name)),
            Some(home),
        ) == "~/"@ + dir + "/"@ + name,
{
    reveal_strlit("/");
    let d = encode_utf8(dir);
    let n = encode_utf8(name);
    let base = joined_path(home, d);
    let p = joined_path(base, n);
    joining_adds_one_component(home, d);
    joining_adds_one_component(base, n);
    let hs = components(home);
    let ps = components(p);
    assert(ps.take(hs.len() as int) =~= hs);
    assert(ps.len() == hs.len() + 2);
    assert(spans(p)[hs.len() as int] == spans(base).last());
    assert(base.last() == d.last());
    assert(d[d.len() - 1] != SLASH);
    assert(p == base.push(SLASH) + n);
    let tail = p.subrange(base.len() - d.len(), p.len() as int);
    lemma_encode_concat(dir, "/"@);
    lemma_encode_concat(dir + "/"@, name);
    vstd::utf8::is_ascii_chars_encode_utf8("/"@);
    assert(encode_utf8("/"@) =~= seq![SLASH]);
    assert(tail =~= d + seq![SLASH] + n);
    assert(tail =~= encode_utf8(dir + "/"@ + name));
    a_text_is_shown_as_it_is(dir + "/"@ + name);
    assert("~/"@ + (dir + "/"@ + name) =~= "~/"@ + dir + "/"@ + name);
}

} // verus!
