//! The project root and the directories inside it.
//!
//! A name is an identity: it maps to exactly one directory under the root. This
//! module settles where the root is, what counts as a project, what order
//! projects come back in, and what a name is allowed to look like.

use crate::error::Error;
use crate::order::{alphabetical, alphabetical_is_antisymmetric, alphabetical_is_total};
use crate::order::{alphabetical_is_transitive, is_alphabetical, order_is_a_permutation};
use crate::order::{order_is_unique, ordered_form, sort, tied, ties, views, Ranked};
use crate::paths::{a_text_is_shown_as_it_is, bytes_of, components, expand, expanded, home};
use crate::paths::{home_of, is_component, joined_path, joining_adds_one_component, last_name};
use crate::paths::{legible, lemma_encode_concat, spans, tilde_text, FilePath, DOT, SLASH};
use crate::text::{begins, chars_of, is_space, is_whitespace, lemma_nothing_to_trim, lemma_trimmed};
use crate::text::{lemma_trimmed_around, lemma_trimmed_push, string_of, trim, trimmed, Edge};
use vstd::prelude::*;
use vstd::utf8::{encode_scalar, encode_utf8};

verus! {

// ---------------------------------------------------------------------------
// Names
// ---------------------------------------------------------------------------

/// Whether a character separates the words of a name.
pub open spec fn is_separator(c: char) -> bool {
    is_space(c) || c == '/' || c == '\\' || c == ':' || c == '-'
}

/// A text with a dash in place of every separator.
pub open spec fn dashed(s: Seq<char>) -> Seq<char> {
    s.map_values(
        |c: char|
            if is_separator(c) {
                '-'
            } else {
                c
            },
    )
}

/// A text with one dash in place of every run of dashes.
pub open spec fn collapsed(s: Seq<char>) -> Seq<char>
    decreases s.len(),
{
    if s.len() == 0 {
        s
    } else {
        let front = collapsed(s.drop_last());
        if s.last() == '-' && front.len() > 0 && front.last() == '-' {
            front
        } else {
            front.push(s.last())
        }
    }
}

/// A typed name as a directory is called by it: separators become dashes, runs
/// of dashes collapse, and dashes and dots at the ends are dropped.
pub open spec fn cleaned(raw: Seq<char>) -> Seq<char> {
    trimmed(collapsed(dashed(trimmed(raw, Edge::Blank))), Edge::Mark)
}

/// Whether a text can be the name of a project.
pub open spec fn is_clean(name: Seq<char>) -> bool {
    &&& name.len() > 0
    &&& forall|i: int|
        0 <= i < name.len() ==> is_separator(#[trigger] name[i]) ==> name[i] == '-'
    &&& forall|i: int|
        0 <= i < name.len() - 1 ==> !(#[trigger] name[i] == '-' && name[i + 1] == '-')
    &&& !Edge::Mark.covers(name[0])
    &&& !Edge::Mark.covers(name.last())
}

/// Turns what was typed into a project name.
pub fn clean_name(raw: &str) -> (r: Result<String, Error>)
    ensures
        match r {
            Ok(name) => cleaned(raw@).len() > 0 && name@ == cleaned(raw@),
            Err(e) => cleaned(raw@).len() == 0 && (e matches Error::InvalidName(shown) && shown@
                == raw@),
        },
{
    let typed = chars_of(raw);
    let text = trim(&typed, Edge::Blank);
    let mut out: Vec<char> = Vec::new();
    for i in 0..text.len()
        invariant
            out@ == collapsed(dashed(text@.take(i as int))),
    {
        let c = text[i];
        proof {
            assert(dashed(text@.take(i + 1)).drop_last() =~= dashed(text@.take(i as int)));
        }
        if is_whitespace(c) || c == '/' || c == '\\' || c == ':' || c == '-' {
            if !(out.len() > 0 && out[out.len() - 1] == '-') {
                out.push('-');
            }
        } else {
            out.push(c);
        }
    }
    proof {
        assert(text@.take(text@.len() as int) =~= text@);
    }
    let name = trim(&out, Edge::Mark);
    if name.len() == 0 {
        Err(Error::InvalidName(raw.to_owned()))
    } else {
        Ok(string_of(name))
    }
}

/// What collapsing leaves: characters of the text, and no two dashes in a row.
proof fn lemma_collapsed(s: Seq<char>)
    ensures
        forall|i: int|
            0 <= i < collapsed(s).len() ==> s.contains(#[trigger] collapsed(s)[i]),
        forall|i: int|
            0 <= i < collapsed(s).len() - 1 ==> !(#[trigger] collapsed(s)[i] == '-' && collapsed(
                s,
            )[i + 1] == '-'),
    decreases s.len(),
{
    if s.len() > 0 {
        let t = s.drop_last();
        lemma_collapsed(t);
        let front = collapsed(t);
        assert forall|i: int| 0 <= i < collapsed(s).len() implies s.contains(
            #[trigger] collapsed(s)[i],
        ) by {
            if i < front.len() {
                assert(t.contains(front[i]));
                let k = choose|k: int| 0 <= k < t.len() && t[k] == front[i];
                assert(s[k] == front[i]);
            } else {
                assert(s[s.len() - 1] == collapsed(s)[i]);
            }
        }
    }
}

/// A text without two dashes in a row is left as it is.
proof fn lemma_collapsed_keeps(s: Seq<char>)
    requires
        forall|i: int| 0 <= i < s.len() - 1 ==> !(#[trigger] s[i] == '-' && s[i + 1] == '-'),
    ensures
        collapsed(s) == s,
    decreases s.len(),
{
    if s.len() > 0 {
        let t = s.drop_last();
        assert forall|i: int| 0 <= i < t.len() - 1 implies !(#[trigger] t[i] == '-' && t[i + 1]
            == '-') by {
            assert(t[i] == s[i]);
        }
        lemma_collapsed_keeps(t);
        if t.len() > 0 {
            assert(t.last() == s[t.len() - 1]);
        }
        assert(t.push(s.last()) =~= s);
    }
}

/// A cleaned name holds no white space, slash, backslash or colon, no two
/// dashes in a row, and no dash or dot at either end.
pub proof fn cleaning_gives_a_clean_name(raw: Seq<char>)
    requires
        cleaned(raw).len() > 0,
    ensures
        is_clean(cleaned(raw)),
{
    let d = dashed(trimmed(raw, Edge::Blank));
    let c = collapsed(d);
    let n = cleaned(raw);
    lemma_collapsed(d);
    lemma_trimmed(c, Edge::Mark);
    let (a, b) = choose|a: int, b: int| 0 <= a <= b <= c.len() && n == #[trigger] c.subrange(a, b);
    assert forall|i: int| 0 <= i < n.len() && is_separator(#[trigger] n[i]) implies n[i]
        == '-' by {
        assert(n[i] == c[a + i]);
        assert(d.contains(c[a + i]));
        let k = choose|k: int| 0 <= k < d.len() && d[k] == c[a + i];
    }
    assert forall|i: int| 0 <= i < n.len() - 1 implies !(#[trigger] n[i] == '-' && n[i + 1]
        == '-') by {
        assert(n[i] == c[a + i]);
        assert(n[i + 1] == c[a + i + 1]);
    }
}

/// A clean name is left as it is.
pub proof fn a_clean_name_is_left_as_it_is(name: Seq<char>)
    requires
        is_clean(name),
    ensures
        cleaned(name) == name,
{
    // A space at an end would be a separator there, and so a dash.
    assert(!Edge::Blank.covers(name[0]));
    assert(!Edge::Blank.covers(name.last()));
    assert(trimmed(name, Edge::Blank) == name);
    assert(dashed(name) =~= name);
    lemma_collapsed_keeps(name);
}

/// Cleaning a name twice is cleaning it once.
pub proof fn cleaning_is_idempotent(raw: Seq<char>)
    ensures
        cleaned(cleaned(raw)) == cleaned(raw),
{
    if cleaned(raw).len() > 0 {
        cleaning_gives_a_clean_name(raw);
        a_clean_name_is_left_as_it_is(cleaned(raw));
    } else {
        let e = cleaned(raw);
        assert(trimmed(e, Edge::Blank) =~= e);
        assert(dashed(e) =~= e);
        assert(collapsed(e) =~= e);
    }
}

/// Two texts, collapsed together: where a dash meets a dash one of them goes.
proof fn lemma_collapsed_concat(a: Seq<char>, b: Seq<char>)
    ensures
        collapsed(a + b) == collapsed(a) + (if collapsed(a).len() > 0 && collapsed(a).last() == '-'
            && collapsed(b).len() > 0 && collapsed(b)[0] == '-' {
            collapsed(b).drop_first()
        } else {
            collapsed(b)
        }),
    decreases b.len(),
{
    let ca = collapsed(a);
    let cb = collapsed(b);
    if b.len() == 0 {
        assert(a + b =~= a);
        assert(ca + cb =~= ca);
    } else {
        let t = b.drop_last();
        let ct = collapsed(t);
        let c = b.last();
        lemma_collapsed_concat(a, t);
        assert((a + b).drop_last() =~= a + t);
        assert((a + b).last() == c);
        let joint = ca.len() > 0 && ca.last() == '-' && ct.len() > 0 && ct[0] == '-';
        let front = collapsed(a + t);
        if t.len() == 0 {
            assert(ct.len() == 0);
            assert(front =~= ca);
            assert(cb =~= seq![c]);
            assert(cb.drop_first() =~= Seq::<char>::empty());
            assert(collapsed(a + b) =~= ca + (if ca.len() > 0 && ca.last() == '-' && c == '-' {
                cb.drop_first()
            } else {
                cb
            }));
        } else {
            lemma_collapsed_nonempty(t);
            assert(ct.len() > 0);
            assert(cb[0] == ct[0]);
            if joint && ct.len() == 1 {
                assert(front =~= ca);
                if c == '-' {
                    assert(cb == ct);
                    assert(collapsed(a + b) =~= ca);
                    assert(cb.drop_first() =~= Seq::<char>::empty());
                } else {
                    assert(cb =~= ct.push(c));
                    assert(cb.drop_first() =~= seq![c]);
                    assert(collapsed(a + b) =~= ca + seq![c]);
                }
            } else {
                assert(front.last() == ct.last());
                if c == '-' && ct.last() == '-' {
                    assert(cb == ct);
                } else {
                    assert(cb == ct.push(c));
                    if joint {
                        assert(cb.drop_first() =~= ct.drop_first().push(c));
                        assert(collapsed(a + b) =~= ca + cb.drop_first());
                    } else {
                        assert(collapsed(a + b) =~= ca + cb);
                    }
                }
            }
        }
    }
}

proof fn lemma_collapsed_nonempty(s: Seq<char>)
    requires
        s.len() > 0,
    ensures
        collapsed(s).len() > 0,
        collapsed(s)[0] == s[0],
    decreases s.len(),
{
    if s.len() > 1 {
        lemma_collapsed_nonempty(s.drop_last());
    } else {
        assert(s.drop_last() =~= Seq::<char>::empty());
        assert(collapsed(s.drop_last()) =~= s.drop_last());
    }
}

/// A text with its separators turned into dashes, runs of dashes collapsed, and
/// dashes and dots dropped at the ends.
spec fn tidied(s: Seq<char>) -> Seq<char> {
    trimmed(collapsed(dashed(s)), Edge::Mark)
}

/// A separator or a dot at either end makes no difference.
proof fn lemma_tidied_edge(s: Seq<char>, c: char)
    requires
        is_separator(c) || c == '.',
    ensures
        tidied(seq![c] + s) == tidied(s),
        tidied(s + seq![c]) == tidied(s),
{
    let m = if is_separator(c) {
        '-'
    } else {
        c
    };
    let d = dashed(s);
    let one = seq![m];
    assert(dashed(seq![c] + s) =~= one + d);
    assert(dashed(s + seq![c]) =~= d + one);
    lemma_collapsed_concat(one, d);
    lemma_collapsed_concat(d, one);
    assert(one.drop_last() =~= Seq::<char>::empty());
    assert(collapsed(one.drop_last()) =~= one.drop_last());
    assert(collapsed(one) =~= one);
    let cd = collapsed(d);
    if m == '-' && cd.len() > 0 && cd[0] == '-' {
        assert(one + cd.drop_first() =~= cd);
    } else {
        lemma_trimmed_push(cd, m, Edge::Mark);
    }
    if m == '-' && cd.len() > 0 && cd.last() == '-' {
        assert(one.drop_first() =~= Seq::<char>::empty());
        assert(cd + one.drop_first() =~= cd);
    } else {
        lemma_trimmed_push(cd, m, Edge::Mark);
        assert(cd + one =~= cd.push(m));
    }
}

/// Blanks at the ends are separators there, so that they go in any case.
proof fn lemma_cleaned_is_tidied(raw: Seq<char>)
    ensures
        cleaned(raw) == tidied(raw),
    decreases raw.len(),
{
    if raw.len() > 0 && is_space(raw[0]) {
        let rest = raw.drop_first();
        lemma_cleaned_is_tidied(rest);
        lemma_tidied_edge(rest, raw[0]);
        assert(raw =~= seq![raw[0]] + rest);
    } else if raw.len() > 0 && is_space(raw.last()) {
        let rest = raw.drop_last();
        lemma_cleaned_is_tidied(rest);
        lemma_tidied_edge(rest, raw.last());
        assert(raw =~= rest + seq![raw.last()]);
        lemma_trimmed_push(rest, raw.last(), Edge::Blank);
        assert(raw =~= rest.push(raw.last()));
    } else {
        lemma_nothing_to_trim(raw, Edge::Blank);
    }
}

/// Whether a character stands between the words of a name: white space, a slash
/// of either kind, a colon or a dash.
pub open spec fn parts_words(c: char) -> bool {
    is_space(c) || c == '/' || c == '\\' || c == ':' || c == '-'
}

/// All separators are alike: which of them stands somewhere makes no difference
/// to the name.
pub proof fn separators_are_alike(a: Seq<char>, b: Seq<char>)
    requires
        a.len() == b.len(),
        forall|i: int|
            0 <= i < a.len() ==> #[trigger] a[i] == b[i] || (parts_words(a[i]) && parts_words(b[i])),
    ensures
        cleaned(a) == cleaned(b),
{
    lemma_cleaned_is_tidied(a);
    lemma_cleaned_is_tidied(b);
    assert(dashed(a) =~= dashed(b));
}

/// Separators in a row count as one.
pub proof fn a_run_of_separators_counts_once(a: Seq<char>, s: char, t: char, b: Seq<char>)
    requires
        parts_words(s),
        parts_words(t),
    ensures
        cleaned(a + seq![s, t] + b) == cleaned(a + seq![s] + b),
        cleaned(a + seq![s] + b) == cleaned(a + seq!['-'] + b),
{
    let two = a + seq![s, t] + b;
    let one = a + seq![s] + b;
    lemma_cleaned_is_tidied(two);
    lemma_cleaned_is_tidied(one);
    separators_are_alike(one, a + seq!['-'] + b);
    let da = dashed(a);
    let db = dashed(b);
    let dash = seq!['-'];
    assert(dashed(two) =~= da + dash + dash + db);
    assert(dashed(one) =~= da + dash + db);
    assert(dash.drop_last() =~= Seq::<char>::empty());
    assert(collapsed(dash.drop_last()) =~= dash.drop_last());
    assert(collapsed(dash) =~= dash);
    lemma_collapsed_concat(da, dash);
    lemma_collapsed_concat(da + dash, dash);
    let once = collapsed(da + dash);
    assert(once.len() > 0 && once.last() == '-') by {
        if collapsed(da).len() > 0 && collapsed(da).last() == '-' {
            assert(once =~= collapsed(da));
        } else {
            assert(once =~= collapsed(da) + dash);
        }
    }
    assert(dash.drop_first() =~= Seq::<char>::empty());
    assert(collapsed(da + dash + dash) =~= once);
    lemma_collapsed_concat(da + dash + dash, db);
    lemma_collapsed_concat(da + dash, db);
}

/// Separators and dots at the ends are dropped.
pub proof fn separators_and_dots_at_the_ends_are_dropped(raw: Seq<char>, c: char)
    requires
        parts_words(c) || c == '.',
    ensures
        cleaned(seq![c] + raw) == cleaned(raw),
        cleaned(raw + seq![c]) == cleaned(raw),
{
    lemma_cleaned_is_tidied(raw);
    lemma_cleaned_is_tidied(seq![c] + raw);
    lemma_cleaned_is_tidied(raw + seq![c]);
    lemma_tidied_edge(raw, c);
}

/// A text that has single dashes between its words, and neither a dash nor a dot
/// at an end, is a name as it stands, however long it is and whatever else is in
/// it. Nothing is left of a text of nothing.
pub proof fn words_with_dashes_between_are_a_name(name: Seq<char>)
    requires
        forall|i: int|
            0 <= i < name.len() ==> parts_words(#[trigger] name[i]) ==> name[i] == '-',
        forall|i: int|
            0 <= i < name.len() - 1 ==> !(#[trigger] name[i] == '-' && name[i + 1] == '-'),
        name.len() > 0 ==> name[0] != '-' && name[0] != '.' && name.last() != '-' && name.last()
            != '.',
    ensures
        cleaned(name) == name,
{
    if name.len() > 0 {
        assert(is_clean(name));
        a_clean_name_is_left_as_it_is(name);
    } else {
        lemma_cleaned_is_tidied(name);
        assert(dashed(name) =~= name);
        assert(collapsed(name) =~= name);
    }
}

// ---------------------------------------------------------------------------
// The root
// ---------------------------------------------------------------------------

/// The directory that holds every project.
pub struct Store {
    /// Where it is. A root that `TRY_PATH` names may still be relative.
    pub root: FilePath,
    /// Whether `TRY_PATH` names it.
    pub named: bool,
}

impl View for Store {
    type V = Seq<u8>;

    open spec fn view(&self) -> Seq<u8> {
        self.root@
    }
}

/// Whether `TRY_PATH` says something.
pub open spec fn names_root(try_path: Option<&str>) -> bool {
    match try_path {
        Some(raw) => trimmed(raw@, Edge::Blank).len() > 0,
        None => false,
    }
}

/// The root that `TRY_PATH` and `HOME` settle on: none where `HOME` is needed
/// and says nothing.
pub open spec fn root_of(try_path: Option<&str>, var: Option<Seq<u8>>) -> Option<Seq<u8>> {
    if names_root(try_path) {
        expanded(trimmed(try_path->0@, Edge::Blank), var)
    } else {
        match home_of(var) {
            Some(h) => Some(joined_path(h, encode_utf8("try"@))),
            None => None,
        }
    }
}

/// The path of the project of this name.
pub open spec fn project_path(root: Seq<u8>, name: Seq<char>) -> Seq<u8> {
    joined_path(root, encode_utf8(name))
}

/// Whether an attempt failed, and if so why: the cause is told with the path.
pub open spec fn is_uncreatable(e: Error, path: Seq<u8>, cause: Seq<char>) -> bool {
    e matches Error::Uncreatable { path: shown, cause: told } && shown@ == legible(path) && told@
        == cause
}

/// Whether an error says that the root cannot be read, for this cause.
pub open spec fn is_unreadable(e: Error, root: Seq<u8>, cause: Seq<char>) -> bool {
    e matches Error::Unreadable { what, cause: told } && what@ == legible(root) && told@ == cause
}

impl Store {
    /// The root named by `TRY_PATH`, or `~/try` when that says nothing. The
    /// directory is not required to exist yet.
    pub fn open(try_path: Option<&str>, var: Option<&FilePath>) -> (r: Result<Store, Error>)
        ensures
            match r {
                Ok(store) => root_of(try_path, bytes_of(var)) == Some(store@) && store.named
                    == names_root(try_path),
                Err(e) => root_of(try_path, bytes_of(var)) is None && e is HomeUnset,
            },
    {
        if let Some(raw) = try_path {
            let typed = chars_of(raw);
            let path = trim(&typed, Edge::Blank);
            if path.len() > 0 {
                return match expand(&string_of(path), var) {
                    Ok(root) => Ok(Store { root, named: true }),
                    Err(e) => Err(e),
                };
            }
        }
        match home(var) {
            Ok(h) => Ok(Store { root: h.join(&FilePath::from_text("try")), named: false }),
            Err(e) => Err(e),
        }
    }

    /// The store at a given root.
    pub fn at(root: FilePath) -> (r: Store)
        ensures
            r@ == root@,
            !r.named,
    {
        Store { root, named: false }
    }

    /// Where the projects are.
    pub fn root(&self) -> (r: &FilePath)
        ensures
            r@ == self@,
    {
        &self.root
    }

    /// The path of the project of this name, whether or not it exists.
    pub fn project(&self, name: &str) -> (r: FilePath)
        ensures
            r@ == project_path(self@, name@),
    {
        self.root.join(&FilePath::from_text(name))
    }

    /// The project of this name, if it exists. Anything at the path counts, a
    /// symlink too, even one that leads nowhere.
    pub fn find(&self, name: &str, present: bool) -> (r: Option<FilePath>)
        ensures
            match r {
                Some(path) => present && path@ == project_path(self@, name@),
                None => !present,
            },
    {
        if present {
            Some(self.project(name))
        } else {
            None
        }
    }

    /// The path that a new project of this name will occupy, once the root has
    /// been made. The project directory itself is left to its source.
    pub fn reserve(&self, name: &str, root_made: Result<(), String>) -> (r: Result<
        FilePath,
        Error,
    >)
        ensures
            match r {
                Ok(path) => root_made is Ok && path@ == project_path(self@, name@),
                Err(e) => root_made matches Err(cause) && is_uncreatable(e, self@, cause@),
            },
    {
        match root_made {
            Ok(_) => Ok(self.project(name)),
            Err(cause) => Err(Error::Uncreatable { path: self.root.display(), cause }),
        }
    }

    /// The path of a new and empty project, once the root and then the project
    /// have been made.
    pub fn create_empty(
        &self,
        name: &str,
        root_made: Result<(), String>,
        made: Result<(), String>,
    ) -> (r: Result<FilePath, Error>)
        ensures
            match r {
                Ok(path) => root_made is Ok && made is Ok && path@ == project_path(self@, name@),
                Err(e) => match (root_made, made) {
                    (Err(cause), _) => is_uncreatable(e, self@, cause@),
                    (Ok(_), Err(cause)) => is_uncreatable(
                        e,
                        project_path(self@, name@),
                        cause@,
                    ),
                    (Ok(_), Ok(_)) => false,
                },
            },
    {
        let path = self.reserve(name, root_made)?;
        match made {
            Ok(_) => Ok(path),
            Err(cause) => Err(Error::Uncreatable { path: path.display(), cause }),
        }
    }
}

/// The bytes of a text hold a slash only where the text does.
pub proof fn lemma_encoded_slash(s: Seq<char>)
    requires
        !s.contains('/'),
    ensures
        forall|i: int| 0 <= i < encode_utf8(s).len() ==> #[trigger] encode_utf8(s)[i] != SLASH,
        s.len() > 0 ==> encode_utf8(s).len() > 0,
    decreases s.len(),
{
    if s.len() > 0 {
        let c = s[0] as u32;
        vstd::utf8::char_is_scalar(s[0]);
        assert(c != 47) by {
            vstd::utf8::char_u32_cast(s[0], c);
        }
        let rest = s.drop_first();
        assert forall|x: char| rest.contains(x) implies s.contains(x) by {
            let k = choose|k: int| 0 <= k < rest.len() && rest[k] == x;
            assert(s[k + 1] == x);
        }
        lemma_encoded_slash(rest);
        let first = encode_scalar(c);
        assert(c <= 0x7f ==> (c & 0x7F) as u8 != 47u8) by (bit_vector)
            requires
                c != 47,
        ;
        assert(forall|x: u8| #![auto] (0xC0u8 | x) != 47u8) by (bit_vector);
        assert(forall|x: u8| #![auto] (0xE0u8 | x) != 47u8) by (bit_vector);
        assert(forall|x: u8| #![auto] (0xF0u8 | x) != 47u8) by (bit_vector);
        assert(forall|x: u8| #![auto] (0x80u8 | x) != 47u8) by (bit_vector);
        assert(forall|i: int| 0 <= i < first.len() ==> #[trigger] first[i] != SLASH);
        assert(encode_utf8(s) == first + encode_utf8(rest));
    }
}

/// A clean name is a single path component, and no special one.
pub proof fn lemma_clean_name_is_component(name: Seq<char>)
    requires
        is_clean(name),
    ensures
        is_component(encode_utf8(name)),
        encode_utf8(name) != seq![DOT, DOT],
{
    if name.contains('/') {
        let k = choose|k: int| 0 <= k < name.len() && name[k] == '/';
        assert(is_separator(name[k]));
    }
    lemma_encoded_slash(name);
    vstd::utf8::encode_utf8_decode_utf8(name);
    let one = seq!['.'];
    let two = seq!['.', '.'];
    vstd::utf8::encode_utf8_decode_utf8(one);
    vstd::utf8::encode_utf8_decode_utf8(two);
    vstd::utf8::is_ascii_chars_encode_utf8(one);
    vstd::utf8::is_ascii_chars_encode_utf8(two);
    assert(encode_utf8(one) =~= seq![DOT]);
    assert(encode_utf8(two) =~= seq![DOT, DOT]);
}

/// A project is a direct child of the root, called by its name: its path is that
/// of the root with one component more.
pub proof fn a_project_is_a_child_of_the_root(root: Seq<u8>, name: Seq<char>)
    requires
        is_clean(name),
    ensures
        components(project_path(root, name)) == components(root).push(encode_utf8(name)),
        last_name(project_path(root, name)) == Some(encode_utf8(name)),
{
    lemma_clean_name_is_component(name);
    joining_adds_one_component(root, encode_utf8(name));
    let b = encode_utf8(name);
    assert(components(project_path(root, name)).last() == b);
    if b == seq![SLASH] {
        assert(b[0] == SLASH);
    }
}

/// A name is an identity: under one root, different names are different paths.
pub proof fn different_names_are_different_projects(root: Seq<u8>, a: Seq<char>, b: Seq<char>)
    requires
        is_clean(a),
        is_clean(b),
        project_path(root, a) == project_path(root, b),
    ensures
        a == b,
{
    a_project_is_a_child_of_the_root(root, a);
    a_project_is_a_child_of_the_root(root, b);
    let p = components(root).push(encode_utf8(a));
    let q = components(root).push(encode_utf8(b));
    assert(p.last() == q.last());
    vstd::utf8::encode_utf8_decode_utf8(a);
    vstd::utf8::encode_utf8_decode_utf8(b);
}

/// In the default root, a project is shown as `~/try/` and its name.
pub proof fn a_project_is_shown_under_the_tilde(var: Seq<u8>, name: Seq<char>)
    requires
        var.len() > 0,
        is_clean(name),
    ensures
        root_of(None, Some(var)) is Some,
        tilde_text(project_path(root_of(None, Some(var))->0, name), Some(var)) == "~/"@ + (
        "try"@ + "/"@ + name),
{
    reveal_strlit("try");
    reveal_strlit("/");
    let dir = encode_utf8("try"@);
    let root = joined_path(var, dir);
    let n = encode_utf8(name);
    let p = joined_path(root, n);
    vstd::utf8::is_ascii_chars_encode_utf8("try"@);
    vstd::utf8::is_ascii_chars_encode_utf8("/"@);
    assert(dir.len() == 3 && dir[0] == 116 && dir[1] == 114 && dir[2] == 121);
    assert(is_component(dir));
    lemma_clean_name_is_component(name);
    joining_adds_one_component(var, dir);
    joining_adds_one_component(root, n);
    let hs = components(var);
    let ps = components(p);
    assert(ps.take(hs.len() as int) =~= hs);
    assert(ps.len() == hs.len() + 2);
    assert(spans(p)[hs.len() as int] == spans(root).last());
    assert(root.last() == 121);
    assert(p == root.push(SLASH) + n);
    let tail = p.subrange(root.len() - 3, p.len() as int);
    lemma_encode_concat("try"@, "/"@);
    lemma_encode_concat("try"@ + "/"@, name);
    assert(encode_utf8("/"@) =~= seq![SLASH]);
    assert(root.subrange(root.len() - 3, root.len() as int) =~= dir);
    assert(tail =~= encode_utf8("try"@ + "/"@ + name)) by {
        assert(tail =~= dir + seq![SLASH] + n);
    }
    a_text_is_shown_as_it_is("try"@ + "/"@ + name);
}

/// The path of a project is one component below the root, whatever was typed for
/// its name, and the component is the name.
pub proof fn a_typed_name_is_a_child_of_the_root(root: Seq<u8>, raw: Seq<char>)
    requires
        cleaned(raw).len() > 0,
    ensures
        components(project_path(root, cleaned(raw))) == components(root).push(
            encode_utf8(cleaned(raw)),
        ),
        last_name(project_path(root, cleaned(raw))) == Some(encode_utf8(cleaned(raw))),
{
    cleaning_gives_a_clean_name(raw);
    a_project_is_a_child_of_the_root(root, cleaned(raw));
}

/// Without a `TRY_PATH` that says something, the root is `try` in the home
/// directory.
pub proof fn the_root_is_try_under_home(try_path: Option<&str>, home: Seq<u8>)
    requires
        home.len() > 0,
        try_path matches Some(raw) ==> forall|i: int|
            0 <= i < raw@.len() ==> is_space(#[trigger] raw@[i]),
    ensures
        ({
            let try_bytes = seq![116u8, 114u8, 121u8];
            &&& home.last() == SLASH ==> root_of(try_path, Some(home)) == Some(home + try_bytes)
            &&& home.last() != SLASH ==> root_of(try_path, Some(home)) == Some(
                home.push(SLASH) + try_bytes,
            )
            &&& components(root_of(try_path, Some(home))->0) == components(home).push(try_bytes)
        }),
        root_of(try_path, None) is None,
        root_of(try_path, Some(Seq::empty())) is None,
        !names_root(try_path),
{
    reveal_strlit("try");
    let dir = encode_utf8("try"@);
    vstd::utf8::is_ascii_chars_encode_utf8("try"@);
    assert(dir =~= seq![116u8, 114u8, 121u8]);
    assert(is_component(dir));
    joining_adds_one_component(home, dir);
    if let Some(raw) = try_path {
        lemma_all_blank(raw@);
    }
}

/// Nothing is left of blanks.
proof fn lemma_all_blank(s: Seq<char>)
    requires
        forall|i: int| 0 <= i < s.len() ==> is_space(#[trigger] s[i]),
    ensures
        trimmed(s, Edge::Blank).len() == 0,
    decreases s.len(),
{
    if s.len() > 0 {
        let rest = s.drop_first();
        assert forall|i: int| 0 <= i < rest.len() implies is_space(#[trigger] rest[i]) by {
            assert(rest[i] == s[i + 1]);
        }
        lemma_all_blank(rest);
    }
}

/// A `TRY_PATH` that says something is the root, without the blanks around it:
/// an absolute path as it stands, and one that starts with `~/` from the home
/// directory.
pub proof fn try_path_names_the_root(
    raw: &str,
    before: Seq<char>,
    path: Seq<char>,
    after: Seq<char>,
    var: Option<Seq<u8>>,
)
    requires
        raw@ == before + path + after,
        forall|i: int| 0 <= i < before.len() ==> is_space(#[trigger] before[i]),
        forall|i: int| 0 <= i < after.len() ==> is_space(#[trigger] after[i]),
        path.len() > 0,
        !is_space(path[0]),
        !is_space(path.last()),
    ensures
        names_root(Some(raw)),
        root_of(Some(raw), var) == expanded(path, var),
        path[0] != '~' ==> root_of(Some(raw), var) == Some(encode_utf8(path)),
{
    reveal_strlit("~");
    reveal_strlit("~/");
    assert forall|i: int| 0 <= i < before.len() implies Edge::Blank.covers(
        #[trigger] before[i],
    ) by {}
    assert forall|i: int| 0 <= i < after.len() implies Edge::Blank.covers(#[trigger] after[i]) by {}
    lemma_trimmed_around(before, path, after, Edge::Blank);
    if path[0] != '~' && begins(path, "~/"@) {
        assert(path.take(2)[0] == path[0]);
    }
}

// ---------------------------------------------------------------------------
// Listing
// ---------------------------------------------------------------------------

/// What is known of something on disk.
pub struct Meta {
    pub is_dir: bool,
    pub is_symlink: bool,
    /// When it was last modified, in nanoseconds since 1970, where known.
    pub modified: Option<i128>,
}

/// Something found in the root.
pub struct Entry {
    /// Its file name.
    pub name: FilePath,
    /// What a symlink leads to, or the thing itself. None where it cannot be
    /// told, as with a broken link.
    pub target: Option<Meta>,
    /// The thing itself, symlinks not followed.
    pub link: Option<Meta>,
}

/// What reading the root came to.
pub enum Listing {
    /// There is no such directory.
    Missing,
    /// It cannot be read, for this cause.
    Unreadable(String),
    /// It was read; a single entry may still fail.
    Entries(Vec<Result<Entry, String>>),
}

/// A single directory under the root.
pub struct Project {
    pub name: String,
    pub path: FilePath,
    /// When it was last modified, in nanoseconds since 1970, where known.
    pub mtime: Option<i128>,
}

/// A project as its name, its path and its time.
pub struct Listed {
    pub name: Seq<char>,
    pub path: Seq<u8>,
    pub mtime: Option<i128>,
}

impl View for Project {
    type V = Listed;

    open spec fn view(&self) -> Listed {
        Listed { name: self.name@, path: self.path@, mtime: self.mtime }
    }
}

impl Ranked for Project {
    /// Recent projects lead, undated ones come last, and the name decides
    /// between projects of one age.
    open spec fn leads(a: Listed, b: Listed) -> bool {
        match (a.mtime, b.mtime) {
            (Some(x), Some(y)) => x > y || (x == y && alphabetical(a.name, b.name)),
            (Some(_), None) => true,
            (None, Some(_)) => false,
            (None, None) => alphabetical(a.name, b.name),
        }
    }

    proof fn total(a: Listed, b: Listed) {
        alphabetical_is_total(a.name, b.name);
    }

    proof fn transitive(a: Listed, b: Listed, c: Listed) {
        if alphabetical(a.name, b.name) && alphabetical(b.name, c.name) {
            alphabetical_is_transitive(a.name, b.name, c.name);
        }
    }

    fn may_lead(&self, other: &Self) -> (r: bool) {
        match (self.mtime, other.mtime) {
            (Some(x), Some(y)) => {
                if x != y {
                    return x > y;
                }
            },
            (Some(_), None) => {
                return true;
            },
            (None, Some(_)) => {
                return false;
            },
            (None, None) => {},
        }
        let a = chars_of(&self.name);
        let b = chars_of(&other.name);
        is_alphabetical(&a, &b)
    }
}

impl Entry {
    /// Whether the entry is a project: a directory or a link to one, or a broken
    /// link, and not hidden by a dot.
    pub open spec fn is_project(self) -> bool {
        let shown = legible(self.name@);
        &&& !(shown.len() > 0 && shown[0] == '.')
        &&& match (self.target, self.link) {
            (Some(meta), _) => meta.is_dir,
            (None, Some(meta)) => meta.is_symlink,
            (None, None) => false,
        }
    }

    /// The project that the entry is, under a given root.
    pub open spec fn listed(self, root: Seq<u8>) -> Listed {
        Listed {
            name: legible(self.name@),
            path: joined_path(root, self.name@),
            mtime: match (self.target, self.link) {
                (Some(meta), _) => meta.modified,
                (None, Some(meta)) => meta.modified,
                (None, None) => None,
            },
        }
    }
}

/// The projects among some entries, in the order in which they were found.
pub open spec fn projects_among(entries: Seq<Result<Entry, String>>, root: Seq<u8>) -> Seq<Listed>
    decreases entries.len(),
{
    if entries.len() == 0 {
        Seq::empty()
    } else {
        let before = projects_among(entries.drop_last(), root);
        match entries.last() {
            Ok(entry) => if entry.is_project() {
                before.push(entry.listed(root))
            } else {
                before
            },
            Err(_) => before,
        }
    }
}

/// Whether the entry at `i` is the first that failed.
pub open spec fn first_failure(entries: Seq<Result<Entry, String>>, i: int) -> bool {
    &&& 0 <= i < entries.len()
    &&& entries[i] is Err
    &&& forall|j: int| 0 <= j < i ==> (#[trigger] entries[j]) is Ok
}

/// What a listing gives back.
pub open spec fn lists(read: Listing, root: Seq<u8>, r: Result<Vec<Project>, Error>) -> bool {
    match (read, r) {
        (Listing::Missing, Ok(projects)) => projects@.len() == 0,
        (Listing::Unreadable(cause), Err(e)) => is_unreadable(e, root, cause@),
        (Listing::Entries(entries), Ok(projects)) => {
            &&& forall|i: int| 0 <= i < entries@.len() ==> (#[trigger] entries@[i]) is Ok
            &&& ordered_form::<Project>(views(projects@), projects_among(entries@, root))
        },
        (Listing::Entries(entries), Err(e)) => exists|i: int|
            #[trigger] first_failure(entries@, i) && is_unreadable(e, root, entries@[i]->Err_0@),
        _ => false,
    }
}

impl Store {
    /// Every project under the root, most recently modified first.
    pub fn list(&self, read: Listing) -> (r: Result<Vec<Project>, Error>)
        ensures
            lists(read, self@, r),
    {
        let entries = match read {
            Listing::Missing => {
                return Ok(Vec::new());
            },
            Listing::Unreadable(cause) => {
                return Err(Error::Unreadable { what: self.root.display(), cause });
            },
            Listing::Entries(entries) => entries,
        };
        let ghost all = entries@;
        let mut projects: Vec<Project> = Vec::new();
        for i in 0..entries.len()
            invariant
                all == entries@,
                read == Listing::Entries(entries),
                forall|j: int| 0 <= j < i ==> (#[trigger] all[j]) is Ok,
                views(projects@) == projects_among(all.take(i as int), self@),
        {
            proof {
                assert(all.take(i + 1).drop_last() =~= all.take(i as int));
            }
            match &entries[i] {
                Err(cause) => {
                    let e = Error::Unreadable { what: self.root.display(), cause: cause.clone() };
                    proof {
                        assert(first_failure(all, i as int));
                    }
                    return Err(e);
                },
                Ok(entry) => {
                    let name = entry.name.display();
                    let hidden = {
                        let shown = chars_of(&name);
                        shown.len() > 0 && shown[0] == '.'
                    };
                    let keep = match (&entry.target, &entry.link) {
                        (Some(meta), _) => meta.is_dir,
                        (None, Some(meta)) => meta.is_symlink,
                        (None, None) => false,
                    };
                    if !hidden && keep {
                        let mtime = match (&entry.target, &entry.link) {
                            (Some(meta), _) => meta.modified,
                            (None, Some(meta)) => meta.modified,
                            (None, None) => None,
                        };
                        let project = Project { name, path: self.root.join(&entry.name), mtime };
                        let ghost was = projects@;
                        projects.push(project);
                        proof {
                            assert(views(projects@) =~= views(was).push(project@));
                            assert(project@ == entry.listed(self@));
                        }
                    }
                },
            }
        }
        proof {
            assert(all.take(all.len() as int) =~= all);
        }
        Ok(sort(projects))
    }
}

/// What counts as a project: what is listed was found as one, and everything
/// that was found as one is listed.
pub proof fn what_is_listed_was_found(
    r: Seq<Listed>,
    entries: Seq<Result<Entry, String>>,
    root: Seq<u8>,
    p: Listed,
)
    requires
        ordered_form::<Project>(r, projects_among(entries, root)),
    ensures
        r.contains(p) <==> exists|i: int|
            0 <= i < entries.len() && #[trigger] is_found(entries[i], root, p),
{
    order_is_a_permutation::<Project>(r, projects_among(entries, root));
    lemma_projects_among(entries, root, p);
}

/// Whether an entry is this project.
pub open spec fn is_found(entry: Result<Entry, String>, root: Seq<u8>, p: Listed) -> bool {
    entry matches Ok(e) && e.is_project() && p == e.listed(root)
}

proof fn lemma_projects_among(entries: Seq<Result<Entry, String>>, root: Seq<u8>, p: Listed)
    ensures
        projects_among(entries, root).contains(p) <==> exists|i: int|
            0 <= i < entries.len() && #[trigger] is_found(entries[i], root, p),
    decreases entries.len(),
{
    if entries.len() > 0 {
        let front = entries.drop_last();
        let before = projects_among(front, root);
        let all = projects_among(entries, root);
        let n = entries.len() - 1;
        lemma_projects_among(front, root, p);
        if all.contains(p) {
            let k = choose|k: int| 0 <= k < all.len() && all[k] == p;
            if k < before.len() {
                assert(before[k] == p);
                let i = choose|i: int|
                    0 <= i < front.len() && #[trigger] is_found(front[i], root, p);
                assert(is_found(entries[i], root, p));
            } else {
                assert(is_found(entries[n], root, p));
            }
        }
        if exists|i: int| 0 <= i < entries.len() && #[trigger] is_found(entries[i], root, p) {
            let i = choose|i: int|
                0 <= i < entries.len() && #[trigger] is_found(entries[i], root, p);
            if i < n {
                assert(is_found(front[i], root, p));
                let k = choose|k: int| 0 <= k < before.len() && before[k] == p;
                assert(all[k] == p);
            } else {
                assert(all[before.len() as int] == p);
            }
        }
    }
}

/// Whether an entry counts: a directory, a link to one, or a link that leads
/// nowhere, whose name does not start with a dot.
pub open spec fn counts(e: Entry) -> bool {
    let shown = legible(e.name@);
    &&& shown.len() == 0 || shown[0] != '.'
    &&& match e.target {
        Some(meta) => meta.is_dir,
        None => e.link matches Some(meta) && meta.is_symlink,
    }
}

/// Whether a project is what an entry is listed as: under its name, at its place
/// in the root, and with the time of what it leads to, or its own where that
/// cannot be told.
pub open spec fn shows(p: Listed, e: Entry, root: Seq<u8>) -> bool {
    &&& p.name == legible(e.name@)
    &&& p.path == joined_path(root, e.name@)
    &&& p.mtime == match e.target {
        Some(meta) => meta.modified,
        None => match e.link {
            Some(meta) => meta.modified,
            None => None,
        },
    }
}

/// Whether an entry counts and a project is what it is listed as.
pub open spec fn comes_from(p: Listed, entry: Result<Entry, String>, root: Seq<u8>) -> bool {
    entry matches Ok(e) && counts(e) && shows(p, e, root)
}

/// A directory is listed exactly where its name does not start with a dot,
/// whatever else is in the name and however many others there are. What is listed
/// is one of the entries that count.
pub proof fn every_directory_is_listed_unless_hidden(
    entries: Vec<Result<Entry, String>>,
    root: Seq<u8>,
    projects: Vec<Project>,
)
    requires
        lists(Listing::Entries(entries), root, Ok(projects)),
    ensures
        forall|i: int|
            0 <= i < entries@.len() ==> (#[trigger] entries@[i] matches Ok(e) && (counts(e)
                ==> exists|j: int|
                0 <= j < projects@.len() && shows(#[trigger] projects@[j]@, e, root))),
        forall|j: int|
            0 <= j < projects@.len() ==> exists|i: int|
                0 <= i < entries@.len() && comes_from(
                    (#[trigger] projects@[j])@,
                    #[trigger] entries@[i],
                    root,
                ),
{
    let r = views(projects@);
    let all = entries@;
    assert forall|i: int| 0 <= i < all.len() implies (#[trigger] all[i] matches Ok(e) && (counts(e)
        ==> exists|j: int| 0 <= j < projects@.len() && shows(
        #[trigger] projects@[j]@,
        e,
        root,
    ))) by {
        let e = all[i]->Ok_0;
        if counts(e) {
            let p = e.listed(root);
            what_is_listed_was_found(r, all, root, p);
            assert(is_found(all[i], root, p));
            let j = choose|j: int| 0 <= j < r.len() && r[j] == p;
            assert(projects@[j]@ == p);
            assert(shows(projects@[j]@, e, root));
        }
    }
    assert forall|j: int| 0 <= j < projects@.len() implies exists|i: int|
        0 <= i < all.len() && comes_from((#[trigger] projects@[j])@, #[trigger] all[i], root) by {
        let p = projects@[j]@;
        assert(r[j] == p);
        assert(r.contains(p));
        what_is_listed_was_found(r, all, root, p);
        let i = choose|i: int| 0 <= i < all.len() && #[trigger] is_found(all[i], root, p);
        assert(comes_from(projects@[j]@, all[i], root));
    }
}

/// A directory that is called by a clean project name is always listed, under
/// that name and at the path of the project of that name: what was created can be
/// browsed.
pub proof fn what_was_created_is_listed(
    entries: Vec<Result<Entry, String>>,
    root: Seq<u8>,
    projects: Vec<Project>,
    raw: Seq<char>,
    i: int,
    e: Entry,
)
    requires
        lists(Listing::Entries(entries), root, Ok(projects)),
        cleaned(raw).len() > 0,
        0 <= i < entries@.len(),
        entries@[i] == Ok::<Entry, String>(e),
        e.name@ == encode_utf8(cleaned(raw)),
        e.target matches Some(meta) && meta.is_dir,
    ensures
        exists|j: int|
            0 <= j < projects@.len() && (#[trigger] projects@[j])@.name == cleaned(raw)
                && projects@[j]@.path == project_path(root, cleaned(raw)),
{
    cleaning_gives_a_clean_name(raw);
    a_text_is_shown_as_it_is(cleaned(raw));
    every_directory_is_listed_unless_hidden(entries, root, projects);
    assert(entries@[i] is Ok);
    assert(counts(e));
    let j = choose|j: int| 0 <= j < projects@.len() && shows(#[trigger] projects@[j]@, e, root);
    assert(projects@[j]@.name == cleaned(raw));
}

/// Entries are taken one by one: what is found among some and then others is what
/// is found among the ones and what is found among the others. So as many
/// projects are listed as there are entries that count.
pub proof fn entries_are_taken_one_by_one(
    a: Seq<Result<Entry, String>>,
    b: Seq<Result<Entry, String>>,
    e: Entry,
    cause: String,
    root: Seq<u8>,
)
    ensures
        projects_among(a + b, root) == projects_among(a, root) + projects_among(b, root),
        projects_among(seq![Err(cause)], root).len() == 0,
        projects_among(seq![Ok(e)], root).len() == if counts(e) {
            1nat
        } else {
            0nat
        },
        counts(e) ==> shows(projects_among(seq![Ok(e)], root)[0], e, root),
    decreases b.len(),
{
    let one = seq![Ok::<Entry, String>(e)];
    let bad = seq![Err::<Entry, String>(cause)];
    assert(one.drop_last() =~= Seq::<Result<Entry, String>>::empty());
    assert(bad.drop_last() =~= Seq::<Result<Entry, String>>::empty());
    reveal_with_fuel(projects_among, 2);
    if b.len() == 0 {
        assert(a + b =~= a);
        assert(projects_among(a, root) + projects_among(b, root) =~= projects_among(a, root));
    } else {
        entries_are_taken_one_by_one(a, b.drop_last(), e, cause, root);
        assert((a + b).drop_last() =~= a + b.drop_last());
        assert((a + b).last() == b.last());
        assert(projects_among(a + b, root) =~= projects_among(a, root) + projects_among(b, root));
    }
}

/// As many projects are listed as were found.
pub proof fn none_is_listed_twice(
    entries: Vec<Result<Entry, String>>,
    root: Seq<u8>,
    projects: Vec<Project>,
)
    requires
        lists(Listing::Entries(entries), root, Ok(projects)),
    ensures
        projects@.len() == projects_among(entries@, root).len(),
        views(projects@).to_multiset() == projects_among(entries@, root).to_multiset(),
{
    order_is_a_permutation::<Project>(views(projects@), projects_among(entries@, root));
}

/// A root that cannot be read is told to be so, and so is one with an entry that
/// cannot be read, by the first such entry. A root that is not there has no
/// projects. In every other case there is a list.
pub proof fn a_listing_fails_only_where_reading_does(
    read: Listing,
    root: Seq<u8>,
    r: Result<Vec<Project>, Error>,
)
    requires
        lists(read, root, r),
    ensures
        match read {
            Listing::Missing => r matches Ok(projects) && projects@.len() == 0,
            Listing::Unreadable(cause) => r matches Err(Error::Unreadable { what, cause: told })
                && what@ == legible(root) && told@ == cause@,
            Listing::Entries(entries) => {
                &&& r is Ok <==> forall|i: int|
                    0 <= i < entries@.len() ==> (#[trigger] entries@[i]) is Ok
                &&& forall|i: int|
                    0 <= i < entries@.len() && (#[trigger] entries@[i]) is Err && (forall|k: int|
                        0 <= k < i ==> (#[trigger] entries@[k]) is Ok) ==> (r matches Err(
                        Error::Unreadable { what, cause: told },
                    ) && what@ == legible(root) && told@ == entries@[i]->Err_0@)
            },
        },
{
    if let Listing::Entries(entries) = read {
        if let Err(e) = r {
            let n = choose|n: int|
                #[trigger] first_failure(entries@, n) && is_unreadable(
                    e,
                    root,
                    entries@[n]->Err_0@,
                );
            assert(entries@[n] is Err);
            assert forall|i: int|
                0 <= i < entries@.len() && (#[trigger] entries@[i]) is Err && (forall|k: int|
                    0 <= k < i ==> (#[trigger] entries@[k]) is Ok) implies i == n by {
                if i < n {
                    assert(entries@[i] is Ok);
                }
                if n < i {
                    assert(entries@[n] is Ok);
                }
            }
        }
    }
}

/// Projects come most recently modified first, undated ones last, and in the
/// order of their names where they are of one age.
pub proof fn recent_projects_come_first(r: Seq<Listed>, found: Seq<Listed>, i: int, j: int)
    requires
        ordered_form::<Project>(r, found),
        0 <= i < j < r.len(),
    ensures
        r[j].mtime is Some ==> r[i].mtime is Some && r[i].mtime->0 >= r[j].mtime->0,
        r[i].mtime == r[j].mtime ==> alphabetical(r[i].name, r[j].name),
{
    assert(Project::leads(r[i], r[j]));
}

/// A filter that lets through one value keeps that value alone.
proof fn lemma_filter_single<A>(s: Seq<A>, f: spec_fn(A) -> bool, i: int)
    requires
        0 <= i < s.len(),
        f(s[i]),
        forall|j: int| 0 <= j < s.len() && j != i ==> !f(#[trigger] s[j]),
    ensures
        s.filter(f) == seq![s[i]],
    decreases s.len(),
{
    reveal(Seq::filter);
    let front = s.drop_last();
    if i == s.len() - 1 {
        assert forall|j: int| 0 <= j < front.len() implies !f(front[j]) by {
            assert(front[j] == s[j]);
        }
        front.lemma_all_neg_filter_empty(f);
        assert(s.filter(f) =~= seq![s[i]]);
    } else {
        assert forall|j: int| 0 <= j < front.len() && j != i implies !f(#[trigger] front[j]) by {
            assert(front[j] == s[j]);
        }
        lemma_filter_single(front, f, i);
        assert(!f(s[s.len() - 1]));
    }
}

/// Whether no two projects are called by one name.
pub open spec fn names_differ(s: Seq<Listed>) -> bool {
    forall|i: int, j: int| 0 <= i < j < s.len() ==> (#[trigger] s[i]).name != (#[trigger] s[j]).name
}

proof fn lemma_tied_by_name(s: Seq<Listed>, t: Seq<Listed>, x: Listed)
    requires
        names_differ(s),
        names_differ(t),
        forall|p: Listed| s.contains(p) ==> t.contains(p),
        exists|i: int| 0 <= i < s.len() && ties::<Project>(x, #[trigger] s[i]),
    ensures
        tied::<Project>(s, x) == tied::<Project>(t, x),
{
    let f = |y: Listed| ties::<Project>(x, y);
    let i = choose|i: int| 0 <= i < s.len() && ties::<Project>(x, #[trigger] s[i]);
    assert(s.contains(s[i]));
    let k = choose|k: int| 0 <= k < t.len() && t[k] == s[i];
    assert forall|j: int| 0 <= j < s.len() && j != i implies !f(#[trigger] s[j]) by {
        if f(s[j]) {
            alphabetical_is_antisymmetric(x.name, s[j].name);
            alphabetical_is_antisymmetric(x.name, s[i].name);
        }
    }
    assert forall|j: int| 0 <= j < t.len() && j != k implies !f(#[trigger] t[j]) by {
        if f(t[j]) {
            alphabetical_is_antisymmetric(x.name, t[j].name);
            alphabetical_is_antisymmetric(x.name, t[k].name);
        }
    }
    lemma_filter_single(s, f, i);
    lemma_filter_single(t, f, k);
}

/// The order in which the directory was read does not show: the same projects,
/// found in another order, are listed alike.
pub proof fn listing_ignores_the_order_of_the_directory(
    r1: Seq<Listed>,
    found1: Seq<Listed>,
    r2: Seq<Listed>,
    found2: Seq<Listed>,
)
    requires
        ordered_form::<Project>(r1, found1),
        ordered_form::<Project>(r2, found2),
        forall|p: Listed| found1.contains(p) <==> found2.contains(p),
        names_differ(found1),
        names_differ(found2),
    ensures
        r1 == r2,
{
    assert forall|x: Listed| #[trigger]
        tied::<Project>(r1, x) == tied::<Project>(r2, x) by {
        assert(tied::<Project>(r1, x) == tied::<Project>(found1, x));
        assert(tied::<Project>(r2, x) == tied::<Project>(found2, x));
        let f = |y: Listed| ties::<Project>(x, y);
        if exists|i: int| 0 <= i < found1.len() && ties::<Project>(x, #[trigger] found1[i]) {
            lemma_tied_by_name(found1, found2, x);
        } else if exists|i: int| 0 <= i < found2.len() && ties::<Project>(x, #[trigger] found2[i]) {
            lemma_tied_by_name(found2, found1, x);
        } else {
            assert forall|i: int| 0 <= i < found1.len() implies !f(found1[i]) by {
                assert(!ties::<Project>(x, found1[i]));
            }
            assert forall|i: int| 0 <= i < found2.len() implies !f(found2[i]) by {
                assert(!ties::<Project>(x, found2[i]));
            }
            found1.lemma_all_neg_filter_empty(f);
            found2.lemma_all_neg_filter_empty(f);
            assert(found1.filter(f) =~= found2.filter(f));
        }
    }
    order_is_unique::<Project>(r1, r2);
}

} // verus!
