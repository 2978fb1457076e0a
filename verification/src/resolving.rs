//! Laws of arguments and sources: what is typed, what it is taken for, and what
//! it turns out to be.

use crate::command::{means, says, Rooted};
use crate::error::Error;
use crate::git::answer_of;
use crate::naming::{a_url_comes_apart, an_at_sign_rules_out_a_scheme, is_scheme};
use crate::paths::{a_text_is_shown_as_it_is, expanded, is_component, joined_path, last_name};
use crate::paths::{joining_adds_one_component, legible, FilePath, DOT, SLASH};
use crate::source::{base_name, is_source, naming_failure, resolving, source_name, stage_ask};
use crate::source::{stage_next, SourceText, StageText};
use crate::store::{cleaned, lemma_encoded_slash};
use crate::system::{AskText, Reply, Said, Sight};
use crate::text::{before_either, begins, debug_text, ends, found, is_space, lemma_before_either};
use crate::text::{lemma_before_either_bounds, lemma_found, lemma_trimmed_around, parted, Edge};
use crate::url::{is_scheme_char, path_segments, repo_label, request_of, scheme_len, scheme_of};
use crate::url::scp_style;
use vstd::prelude::*;
use vstd::utf8::encode_utf8;

verus! {

// ---------------------------------------------------------------------------
// What is a source
// ---------------------------------------------------------------------------

/// Whether a text is a local path as it is typed: a dot, two dots, or something
/// that starts with `./`, `../`, `/` or a tilde.
pub open spec fn is_typed_path(arg: Seq<char>) -> bool {
    ||| arg == "."@
    ||| arg == ".."@
    ||| exists|rest: Seq<char>| arg == #[trigger] ("./"@ + rest)
    ||| exists|rest: Seq<char>| arg == #[trigger] ("../"@ + rest)
    ||| exists|rest: Seq<char>| arg == #[trigger] ("/"@ + rest)
    ||| exists|rest: Seq<char>| arg == #[trigger] ("~"@ + rest)
}

/// Whether a text is an ssh address: a login, a host without a slash, and a path.
pub open spec fn is_ssh_address(
    arg: Seq<char>,
    login: Seq<char>,
    host: Seq<char>,
    path: Seq<char>,
) -> bool {
    &&& arg == login + "@"@ + host + ":"@ + path
    &&& login.len() > 0 && !login.contains('@') && !login.contains('/')
    &&& host.len() > 0 && !host.contains(':') && !host.contains('/')
    &&& path.len() > 0
}

/// A typed path is a source, and has no scheme.
pub proof fn a_typed_path_is_a_source(arg: Seq<char>)
    requires
        is_typed_path(arg),
    ensures
        is_source(arg),
        scheme_of(arg) is None,
{
    reveal_strlit(".");
    reveal_strlit("..");
    reveal_strlit("./");
    reveal_strlit("../");
    reveal_strlit("/");
    reveal_strlit("~");
    reveal_strlit("://");
    lemma_found(arg, "://"@);
    // Where there is a `://` at all, something that no scheme holds comes before.
    if arg == "."@ || arg == ".."@ {
    } else if exists|rest: Seq<char>| arg == #[trigger] ("./"@ + rest) {
        let rest = choose|rest: Seq<char>| arg == #[trigger] ("./"@ + rest);
        assert(arg.take(2) =~= "./"@);
        lemma_no_scheme(arg, 1);
    } else if exists|rest: Seq<char>| arg == #[trigger] ("../"@ + rest) {
        let rest = choose|rest: Seq<char>| arg == #[trigger] ("../"@ + rest);
        assert(arg.take(3) =~= "../"@);
        lemma_no_scheme(arg, 2);
    } else if exists|rest: Seq<char>| arg == #[trigger] ("/"@ + rest) {
        let rest = choose|rest: Seq<char>| arg == #[trigger] ("/"@ + rest);
        assert(arg.take(1) =~= "/"@);
        lemma_no_scheme(arg, 0);
    } else {
        let rest = choose|rest: Seq<char>| arg == #[trigger] ("~"@ + rest);
        assert(arg.take(1) =~= "~"@);
        lemma_no_scheme(arg, 0);
    }
}

/// A character that no scheme holds, with no colon before it, rules a scheme out.
proof fn lemma_no_scheme(arg: Seq<char>, k: int)
    requires
        0 <= k < arg.len(),
        !is_scheme_char(arg[k]),
        arg[k] != ':',
        forall|j: int| 0 <= j < k ==> arg[j] != ':',
    ensures
        scheme_len(arg) is None,
{
    reveal_strlit("://");
    lemma_found(arg, "://"@);
    if let Some(n) = found(arg, "://"@) {
        assert(arg.skip(n as int).take(3)[0] == arg[n as int]);
        assert(n > k);
    }
}

/// What is no typed path is a source only with a colon in it, and then only with
/// an at sign or two slashes in a row.
pub proof fn any_other_text_is_a_name(arg: Seq<char>)
    requires
        !is_typed_path(arg),
        !arg.contains(':') || (!arg.contains('@') && forall|i: int|
            0 <= i < arg.len() - 1 ==> !(#[trigger] arg[i] == '/' && arg[i + 1] == '/')),
    ensures
        !is_source(arg),
{
    reveal_strlit("./");
    reveal_strlit("../");
    reveal_strlit("/");
    reveal_strlit("~");
    reveal_strlit("://");
    if begins(arg, "./"@) {
        assert(arg =~= "./"@ + arg.skip(2));
    }
    if begins(arg, "../"@) {
        assert(arg =~= "../"@ + arg.skip(3));
    }
    if begins(arg, "/"@) {
        assert(arg =~= "/"@ + arg.skip(1));
    }
    if begins(arg, "~"@) {
        assert(arg =~= "~"@ + arg.skip(1));
    }
    lemma_found(arg, "://"@);
    if let Some(n) = found(arg, "://"@) {
        assert(arg.skip(n as int).take(3)[0] == arg[n as int]);
        assert(arg.skip(n as int).take(3)[1] == arg[n as int + 1]);
        assert(arg.skip(n as int).take(3)[2] == arg[n as int + 2]);
    }
    if let Some((user, rest)) = parted(arg, '@') {
        lemma_before_either_bounds(arg, '@', '@');
        lemma_before_either_bounds(rest, ':', ':');
        assert(arg[user.len() as int] == '@');
        let n = before_either(rest, ':', ':') as int;
        if n < rest.len() {
            assert(rest[n] == arg[user.len() + 1 + n]);
        }
    }
}

/// Whether a text is a URL: a scheme, `://`, and anything.
pub open spec fn is_url(arg: Seq<char>) -> bool {
    exists|scheme: Seq<char>, rest: Seq<char>| #[trigger]
        is_scheme(scheme) && arg == #[trigger] (scheme + "://"@ + rest)
}

/// Whether a text is of the form that git takes for ssh: something, an at sign, a
/// host without a slash, a colon and a path.
pub open spec fn is_git_address(arg: Seq<char>) -> bool {
    exists|login: Seq<char>, host: Seq<char>, path: Seq<char>|
        {
            &&& arg == #[trigger] (login + "@"@ + host + ":"@ + path)
            &&& login.len() > 0 && !login.contains('@')
            &&& host.len() > 0 && !host.contains(':') && !host.contains('/')
            &&& path.len() > 0
        }
}

/// A source is a typed path, a URL or an address in the ssh form: nothing else is.
pub proof fn nothing_else_is_a_source(arg: Seq<char>)
    ensures
        scheme_of(arg) is Some ==> is_url(arg),
        scp_style(arg) ==> is_git_address(arg),
        is_source(arg) ==> is_typed_path(arg) || is_url(arg) || is_git_address(arg),
{
    reveal_strlit("./");
    reveal_strlit("../");
    reveal_strlit("/");
    reveal_strlit("~");
    if begins(arg, "./"@) {
        assert(arg =~= "./"@ + arg.skip(2));
    }
    if begins(arg, "../"@) {
        assert(arg =~= "../"@ + arg.skip(3));
    }
    if begins(arg, "/"@) {
        assert(arg =~= "/"@ + arg.skip(1));
    }
    if begins(arg, "~"@) {
        assert(arg =~= "~"@ + arg.skip(1));
    }
    if scheme_of(arg) is Some {
        lemma_scheme_is_a_url(arg);
    }
    if scp_style(arg) {
        lemma_scp_is_an_address(arg);
    }
}

proof fn lemma_scheme_is_a_url(arg: Seq<char>)
    requires
        scheme_len(arg) is Some,
    ensures
        is_url(arg),
{
    reveal_strlit("://");
    lemma_found(arg, "://"@);
    let n = scheme_len(arg)->0 as int;
    let scheme = arg.take(n);
    let rest = arg.skip(n + 3);
    assert forall|i: int| 0 <= i < scheme.len() implies {
        let c = #[trigger] scheme[i];
        'a' <= c <= 'z' || 'A' <= c <= 'Z' || '0' <= c <= '9' || c == '+' || c == '-' || c == '.'
    } by {
        assert(scheme[i] == arg[i]);
        assert(is_scheme_char(arg[i]));
    }
    assert(is_scheme(scheme));
    assert(arg.skip(n).take(3) =~= "://"@);
    assert(arg =~= arg.take(n) + arg.skip(n).take(3) + rest);
    assert(arg == scheme + "://"@ + rest);
}

proof fn lemma_scp_is_an_address(arg: Seq<char>)
    requires
        scp_style(arg),
    ensures
        is_git_address(arg),
{
    reveal_strlit("@");
    reveal_strlit(":");
    let (login, rest) = parted(arg, '@')->0;
    let (host, path) = parted(rest, ':')->0;
    lemma_before_either_bounds(arg, '@', '@');
    lemma_before_either_bounds(rest, ':', ':');
    assert(arg =~= login + "@"@ + rest);
    assert(rest =~= host + ":"@ + path);
    assert(arg =~= login + "@"@ + host + ":"@ + path);
    assert(!login.contains('@')) by {
        if login.contains('@') {
            let k = choose|k: int| 0 <= k < login.len() && login[k] == '@';
            assert(arg[k] == '@');
        }
    }
    assert(!host.contains(':')) by {
        if host.contains(':') {
            let k = choose|k: int| 0 <= k < host.len() && host[k] == ':';
            assert(rest[k] == ':');
        }
    }
}

/// A URL is a source, whatever its scheme is and whatever follows.
pub proof fn a_url_is_a_source(scheme: Seq<char>, rest: Seq<char>)
    requires
        is_scheme(scheme),
    ensures
        is_source(scheme + "://"@ + rest),
{
    a_url_comes_apart(scheme, rest);
}

/// An ssh address is a source, and has no scheme.
pub proof fn an_ssh_address_is_a_source(
    arg: Seq<char>,
    login: Seq<char>,
    host: Seq<char>,
    path: Seq<char>,
)
    requires
        is_ssh_address(arg, login, host, path),
    ensures
        is_source(arg),
        scp_style(arg),
        scheme_of(arg) is None,
{
    reveal_strlit("@");
    reveal_strlit(":");
    let rest = host + ":"@ + path;
    assert(arg =~= login + "@"@ + rest);
    an_at_sign_rules_out_a_scheme(login, rest);
    lemma_parted_at(login, '@', rest);
    assert(arg =~= login.push('@') + rest);
    lemma_parted_at(host, ':', path);
    assert(rest =~= host.push(':') + path);
}

proof fn lemma_parted_at(a: Seq<char>, c: char, b: Seq<char>)
    requires
        !a.contains(c),
    ensures
        parted(a.push(c) + b, c) == Some((a, b)),
{
    let s = a.push(c) + b;
    assert forall|j: int| 0 <= j < a.len() implies s[j] != c by {
        assert(s[j] == a[j]);
    }
    assert(s[a.len() as int] == c);
    lemma_before_either(s, c, c, a.len());
    assert(s.take(a.len() as int) =~= a);
    assert(s.skip(a.len() as int + 1) =~= b);
}

// ---------------------------------------------------------------------------
// What the arguments mean
// ---------------------------------------------------------------------------

/// A word alone is a name and a source alone is a source; a name goes first and
/// its source second, whatever the two are; a source first, two words that are no
/// sources, and more than two arguments are refused; and nothing browses.
pub proof fn the_arguments_mean_what_they_say(
    word: Seq<char>,
    other: Seq<char>,
    first: Seq<char>,
    source: Seq<char>,
    more: Seq<Seq<char>>,
    r: Rooted,
)
    requires
        !is_source(word),
        !is_source(other),
        is_source(source),
    ensures
        means(Seq::empty(), r) ==> r is Browse,
        means(seq![word], r) ==> (r matches Rooted::Enter { name, source: from } && says(
            name,
            Some(word),
        ) && says(from, None)),
        means(seq![source], r) ==> (r matches Rooted::Enter { name, source: from } && says(
            name,
            None,
        ) && says(from, Some(source))),
        means(seq![first, source], r) ==> (r matches Rooted::Enter { name, source: from } && says(
            name,
            Some(first),
        ) && says(from, Some(source))),
        means(seq![source, word], r) ==> (r matches Rooted::Refuse(
            Error::SourceFirst { first, second },
        ) && first@ == source && second@ == word),
        means(seq![word, other], r) ==> (r matches Rooted::Refuse(
            Error::NotASource { first, second },
        ) && first@ == word && second@ == other),
        more.len() > 2 && means(more, r) ==> (r matches Rooted::Refuse(e) && e is TooMany),
{
}

// ---------------------------------------------------------------------------
// What a source is
// ---------------------------------------------------------------------------

/// A URL is taken as it was typed: the page of a request for that request, and
/// any other for a repository to clone. Only `file://` is refused.
pub proof fn a_url_is_cloned_as_it_was_typed(
    scheme: Seq<char>,
    rest: Seq<char>,
    var: Option<Seq<u8>>,
)
    requires
        is_scheme(scheme),
    ensures
        ({
            let arg = scheme + "://"@ + rest;
            match resolving(arg, var) {
                StageText::Done(SourceText::Clone(url)) => url == arg && request_of(arg) is None,
                StageText::Done(SourceText::Request(request)) => request_of(arg) == Some(request),
                StageText::Failed(text) => scheme_of(arg) == Some("file"@) && text
                    == "point at the path directly rather than through a file:// URL"@,
                _ => false,
            }
        }),
        resolving(scheme + "://"@ + rest, var) is Failed <==> scheme_of(scheme + "://"@ + rest)
            == Some("file"@),
{
    a_url_comes_apart(scheme, rest);
}

/// An ssh address is cloned as it was typed.
pub proof fn an_ssh_address_is_cloned_as_it_was_typed(
    arg: Seq<char>,
    login: Seq<char>,
    host: Seq<char>,
    path: Seq<char>,
    var: Option<Seq<u8>>,
)
    requires
        is_ssh_address(arg, login, host, path),
    ensures
        resolving(arg, var) == StageText::Done(SourceText::Clone(arg)),
{
    an_ssh_address_is_a_source(arg, login, host, path);
}

/// A typed path is looked at, with a tilde in front taken for the home directory.
pub proof fn a_typed_path_is_looked_at(arg: Seq<char>, var: Option<Seq<u8>>)
    requires
        is_typed_path(arg),
        !arg.contains('@'),
    ensures
        match expanded(arg, var) {
            Some(path) => resolving(arg, var) == StageText::Look(path) && stage_ask(
                resolving(arg, var),
            ) == Some(AskText::Look(path)),
            None => resolving(arg, var) == StageText::Failed(
                "cannot determine home directory: HOME is unset"@,
            ),
        },
{
    a_typed_path_is_a_source(arg);
    lemma_before_either_bounds(arg, '@', '@');
    if before_either(arg, '@', '@') < arg.len() {
        assert(arg[before_either(arg, '@', '@') as int] == '@');
    }
}

/// What is seen at a typed path decides: a directory is asked about, and anything
/// else is told by what was typed.
pub proof fn a_directory_is_asked_about(
    arg: Seq<char>,
    looked: Seq<u8>,
    path: FilePath,
    is_symlink: bool,
    cause: String,
    shown: String,
)
    ensures
        ({
            let stage = StageText::Look(looked);
            let next = |sight: Sight| stage_next(arg, stage, Reply::Seen { path, sight });
            &&& next(Sight::Found { is_dir: true, is_symlink }) == StageText::Toplevel(path@)
            &&& stage_ask(StageText::Toplevel(path@)) == Some(
                AskText::Query(
                    seq![
                        encode_utf8("-C"@),
                        path@,
                        encode_utf8("rev-parse"@),
                        encode_utf8("--show-toplevel"@),
                    ],
                ),
            )
            &&& next(Sight::Found { is_dir: false, is_symlink: true }) == StageText::Failed(
                arg + " is a broken symlink"@,
            )
            &&& next(Sight::Found { is_dir: false, is_symlink: false }) == StageText::Failed(
                arg + " is not a directory"@,
            )
            &&& next(Sight::Missing) == StageText::Failed("no such path: "@ + arg)
            &&& next(Sight::Unreadable(cause)) == StageText::Failed(
                "cannot read "@ + arg + ": "@ + cause@,
            )
            &&& stage_next(arg, stage, Reply::Unresolved { shown, cause }) == StageText::Failed(
                "cannot resolve "@ + shown@ + ": "@ + cause@,
            )
        }),
{
}

/// What git prints with a line break at the end is the line.
proof fn lemma_line(line: Seq<char>, stdout: Vec<u8>)
    requires
        stdout@ == encode_utf8(line + "\n"@),
        line.len() > 0,
        !is_space(line[0]),
        !is_space(line.last()),
    ensures
        answer_of(Said::Output { success: true, stdout }) == Some(line),
        answer_of(Said::Output { success: false, stdout }) is None,
{
    reveal_strlit("\n");
    a_text_is_shown_as_it_is(line + "\n"@);
    let none = Seq::<char>::empty();
    lemma_trimmed_around(none, line, "\n"@, Edge::Blank);
    assert(none + line + "\n"@ =~= line + "\n"@);
}

/// A directory in a repository becomes a worktree of the whole repository, whose
/// root is what git says; a bare repository is its own root; and a directory in
/// no repository is linked as it is.
pub proof fn a_directory_is_a_worktree_or_a_link(
    arg: Seq<char>,
    path: Seq<u8>,
    top: Seq<char>,
    printed: Vec<u8>,
    bare: Seq<char>,
    answered: Vec<u8>,
    stdout: Vec<u8>,
)
    requires
        printed@ == encode_utf8(top + "\n"@),
        top.len() > 0 && !is_space(top[0]) && !is_space(top.last()),
        answered@ == encode_utf8(bare + "\n"@),
        bare.len() > 0 && !is_space(bare[0]) && !is_space(bare.last()),
    ensures
        ({
            let inside = StageText::Toplevel(path);
            let outside = StageText::Bare(path);
            &&& stage_next(
                arg,
                inside,
                Reply::Said(Said::Output { success: true, stdout: printed }),
            ) == StageText::Done(SourceText::Worktree(encode_utf8(top)))
            &&& stage_next(arg, inside, Reply::Said(Said::Output { success: false, stdout }))
                == outside
            &&& stage_ask(outside) == Some(
                AskText::Query(
                    seq![
                        encode_utf8("-C"@),
                        path,
                        encode_utf8("rev-parse"@),
                        encode_utf8("--is-bare-repository"@),
                    ],
                ),
            )
            &&& stage_next(
                arg,
                outside,
                Reply::Said(Said::Output { success: true, stdout: answered }),
            ) == StageText::Done(
                if bare == "true"@ {
                    SourceText::Worktree(path)
                } else {
                    SourceText::Link(path)
                },
            )
            &&& stage_next(arg, outside, Reply::Said(Said::Output { success: false, stdout }))
                == StageText::Done(SourceText::Link(path))
        }),
{
    lemma_line(top, printed);
    lemma_line(bare, answered);
}

/// Without git nothing local can be told, and that is said.
pub proof fn git_has_to_be_there(arg: Seq<char>, path: Seq<u8>, cause: String)
    ensures
        stage_next(arg, StageText::Toplevel(path), Reply::Said(Said::Missing)) == StageText::Failed(
            "git is required, but it is not on PATH"@,
        ),
        stage_next(arg, StageText::Bare(path), Reply::Said(Said::Missing)) == StageText::Failed(
            "git is required, but it is not on PATH"@,
        ),
        stage_next(arg, StageText::Toplevel(path), Reply::Said(Said::Unrunnable(cause)))
            == StageText::Failed("cannot run git: "@ + cause@),
        stage_next(arg, StageText::Bare(path), Reply::Said(Said::Unrunnable(cause)))
            == StageText::Failed("cannot run git: "@ + cause@),
{
}

// ---------------------------------------------------------------------------
// What a source is called
// ---------------------------------------------------------------------------

/// A local source is called by the last component of its path, cleaned up and
/// without a `.git` at the end, and a worktree and a link alike. A request is
/// called by the name that its page gave.
pub proof fn a_local_source_is_called_by_its_last_component(base: Seq<u8>, last: Seq<char>)
    requires
        last.len() > 0,
        !last.contains('/'),
        last != "."@,
        last != ".."@,
    ensures
        ({
            let path = joined_path(base, encode_utf8(last));
            let label = if ends(last, ".git"@) {
                last.take(last.len() - 4)
            } else {
                last
            };
            let name = if cleaned(label).len() > 0 {
                Some(cleaned(label))
            } else {
                None
            };
            &&& source_name(SourceText::Worktree(path)) == name
            &&& source_name(SourceText::Link(path)) == name
        }),
{
    reveal_strlit(".");
    reveal_strlit("..");
    reveal_strlit(".git");
    let n = encode_utf8(last);
    lemma_encoded_slash(last);
    vstd::utf8::encode_utf8_decode_utf8(last);
    let one = seq!['.'];
    let two = seq!['.', '.'];
    vstd::utf8::encode_utf8_decode_utf8(one);
    vstd::utf8::encode_utf8_decode_utf8(two);
    vstd::utf8::is_ascii_chars_encode_utf8(one);
    vstd::utf8::is_ascii_chars_encode_utf8(two);
    assert(encode_utf8(one) =~= seq![DOT]);
    assert(encode_utf8(two) =~= seq![DOT, DOT]);
    assert(one =~= "."@);
    assert(two =~= ".."@);
    assert(is_component(n));
    if n == seq![SLASH] {
        assert(n[0] == SLASH);
    }
    joining_adds_one_component(base, n);
    let path = joined_path(base, n);
    assert(last_name(path) == Some(n));
    a_text_is_shown_as_it_is(last);
    assert(legible(n) == last);
    assert(source_name(SourceText::Link(path)) == base_name(path));
}

/// A source that has no name is told as it was given, with the label that makes no
/// name where there is one.
pub proof fn a_source_without_a_name_is_told(url: Seq<char>, path: Seq<u8>, last: Seq<char>)
    requires
        !ends(last, ".git"@),
    ensures
        path_segments(url).len() == 0 ==> naming_failure(SourceText::Clone(url))
            == "cannot work out a project name from "@ + debug_text(url),
        path_segments(url).len() > 0 ==> naming_failure(SourceText::Clone(url))
            == "cannot work out a project name from "@ + debug_text(url)
            + ": invalid project name "@ + debug_text(repo_label(url)),
        last_name(path) is None ==> naming_failure(SourceText::Link(path))
            == "cannot work out a project name from "@ + legible(path),
        last_name(path) == Some(encode_utf8(last)) ==> naming_failure(SourceText::Link(path))
            == "invalid project name "@ + debug_text(last),
        naming_failure(SourceText::Worktree(path)) == naming_failure(SourceText::Link(path)),
{
    a_text_is_shown_as_it_is(last);
}

} // verus!
