//! Every git invocation, kept behind one seam so that nothing else spells out a
//! command line.

use crate::error::Error;
use crate::number::signed;
use crate::order::views;
use crate::paths::{a_text_is_shown_as_it_is, from_lossy, legible, FilePath};
use crate::system::{Exit, Said};
use crate::text::{chars_of, is_space, is_word, lemma_nothing_to_trim, lemma_trimmed_push};
use crate::text::{string_of, trim, trimmed, white_space_is_known, Edge};
use vstd::prelude::*;
use vstd::utf8::encode_utf8;

verus! {

// ---------------------------------------------------------------------------
// Command lines
// ---------------------------------------------------------------------------

/// The arguments of `git -C <dir> rev-parse <flag>`.
pub open spec fn rev_parse_args(dir: Seq<u8>, flag: Seq<char>) -> Seq<Seq<u8>> {
    seq![encode_utf8("-C"@), dir, encode_utf8("rev-parse"@), encode_utf8(flag)]
}

/// The arguments of `git -C <root> worktree prune`.
pub open spec fn prune_args(root: Seq<u8>) -> Seq<Seq<u8>> {
    seq![encode_utf8("-C"@), root, encode_utf8("worktree"@), encode_utf8("prune"@)]
}

/// The arguments of `git clone <url> <path>`.
pub open spec fn clone_args(url: Seq<char>, path: Seq<u8>) -> Seq<Seq<u8>> {
    seq![encode_utf8("clone"@), encode_utf8(url), path]
}

/// The arguments of `git -C <path> fetch origin <refspec>`.
pub open spec fn fetch_args(path: Seq<u8>, refspec: Seq<char>) -> Seq<Seq<u8>> {
    seq![
        encode_utf8("-C"@),
        path,
        encode_utf8("fetch"@),
        encode_utf8("origin"@),
        encode_utf8(refspec),
    ]
}

/// The arguments of `git -C <path> switch <branch>`.
pub open spec fn switch_args(path: Seq<u8>, branch: Seq<char>) -> Seq<Seq<u8>> {
    seq![encode_utf8("-C"@), path, encode_utf8("switch"@), encode_utf8(branch)]
}

/// The arguments of `git -C <root> worktree add --detach <path>`.
pub open spec fn worktree_args(root: Seq<u8>, path: Seq<u8>) -> Seq<Seq<u8>> {
    seq![
        encode_utf8("-C"@),
        root,
        encode_utf8("worktree"@),
        encode_utf8("add"@),
        encode_utf8("--detach"@),
        path,
    ]
}

/// Asks one thing about the repository that a directory is in.
pub fn rev_parse(dir: &FilePath, flag: &str) -> (r: Vec<FilePath>)
    ensures
        views(r@) == rev_parse_args(dir@, flag@),
{
    let args = vec![
        FilePath::from_text("-C"),
        dir.clone(),
        FilePath::from_text("rev-parse"),
        FilePath::from_text(flag),
    ];
    proof {
        assert(views(args@) =~= rev_parse_args(dir@, flag@));
    }
    args
}

/// Drops registrations for worktrees whose directories no longer exist. Best
/// effort and silent: it is housekeeping, not something the user asked for.
pub fn prune_worktrees(root: &FilePath) -> (r: Vec<FilePath>)
    ensures
        views(r@) == prune_args(root@),
{
    let args = vec![
        FilePath::from_text("-C"),
        root.clone(),
        FilePath::from_text("worktree"),
        FilePath::from_text("prune"),
    ];
    proof {
        assert(views(args@) =~= prune_args(root@));
    }
    args
}

/// Clones a repository.
pub fn clone_repo(url: &str, path: &FilePath) -> (r: Vec<FilePath>)
    ensures
        views(r@) == clone_args(url@, path@),
{
    let args = vec![FilePath::from_text("clone"), FilePath::from_text(url), path.clone()];
    proof {
        assert(views(args@) =~= clone_args(url@, path@));
    }
    args
}

/// Fetches one ref.
pub fn fetch(path: &FilePath, refspec: &str) -> (r: Vec<FilePath>)
    ensures
        views(r@) == fetch_args(path@, refspec@),
{
    let args = vec![
        FilePath::from_text("-C"),
        path.clone(),
        FilePath::from_text("fetch"),
        FilePath::from_text("origin"),
        FilePath::from_text(refspec),
    ];
    proof {
        assert(views(args@) =~= fetch_args(path@, refspec@));
    }
    args
}

/// Switches to a branch.
pub fn switch(path: &FilePath, branch: &str) -> (r: Vec<FilePath>)
    ensures
        views(r@) == switch_args(path@, branch@),
{
    let args = vec![
        FilePath::from_text("-C"),
        path.clone(),
        FilePath::from_text("switch"),
        FilePath::from_text(branch),
    ];
    proof {
        assert(views(args@) =~= switch_args(path@, branch@));
    }
    args
}

/// Adds a detached worktree.
pub fn add_worktree(root: &FilePath, path: &FilePath) -> (r: Vec<FilePath>)
    ensures
        views(r@) == worktree_args(root@, path@),
{
    let args = vec![
        FilePath::from_text("-C"),
        root.clone(),
        FilePath::from_text("worktree"),
        FilePath::from_text("add"),
        FilePath::from_text("--detach"),
        path.clone(),
    ];
    proof {
        assert(views(args@) =~= worktree_args(root@, path@));
    }
    args
}

// ---------------------------------------------------------------------------
// What comes back
// ---------------------------------------------------------------------------

/// What is said of a git that did not succeed; none where it did.
pub open spec fn exit_failure(what: Seq<char>, exit: Exit) -> Option<Seq<char>> {
    match exit {
        Exit::Missing => Some(Error::GitMissing.text()),
        Exit::Unrunnable(cause) => Some(Error::GitUnrunnable(cause).text()),
        Exit::Code(code) => if code == 0 {
            None
        } else {
            Some(what + " failed with exit code "@ + signed(code as int))
        },
        Exit::Signal => Some(what + " was killed by a signal"@),
    }
}

/// Tells a git that succeeded from one that did not.
pub fn run(what: &str, exit: Exit) -> (r: Result<(), Error>)
    ensures
        match r {
            Ok(_) => exit_failure(what@, exit) is None,
            Err(e) => exit_failure(what@, exit) == Some(e.text()) && !(e is Canceled),
        },
{
    match exit {
        Exit::Missing => Err(Error::GitMissing),
        Exit::Unrunnable(cause) => Err(Error::GitUnrunnable(cause)),
        Exit::Code(code) => if code == 0 {
            Ok(())
        } else {
            Err(Error::GitFailed { what: what.to_owned(), code })
        },
        Exit::Signal => Err(Error::GitKilled(what.to_owned())),
    }
}

/// What is said of a git that could not be asked; none where it could.
pub open spec fn query_failure(said: Said) -> Option<Seq<char>> {
    match said {
        Said::Missing => Some(Error::GitMissing.text()),
        Said::Unrunnable(cause) => Some(Error::GitUnrunnable(cause).text()),
        Said::Output { .. } => None,
    }
}

/// The line that git answered with: none when git said no, or nothing.
pub open spec fn answer_of(said: Said) -> Option<Seq<char>> {
    match said {
        Said::Output { success, stdout } => {
            let text = trimmed(legible(stdout@), Edge::Blank);
            if success && text.len() > 0 {
                Some(text)
            } else {
                None
            }
        },
        _ => None,
    }
}

/// A text that may be missing.
pub open spec fn text_of(s: Option<String>) -> Option<Seq<char>> {
    match s {
        Some(s) => Some(s@),
        None => None,
    }
}

/// One line of `git rev-parse`, or `None` when git says no.
pub fn one_line(said: Said) -> (r: Result<Option<String>, Error>)
    ensures
        match r {
            Ok(answer) => query_failure(said) is None && text_of(answer) == answer_of(said),
            Err(e) => query_failure(said) == Some(e.text()) && !(e is Canceled),
        },
{
    match said {
        Said::Missing => Err(Error::GitMissing),
        Said::Unrunnable(cause) => Err(Error::GitUnrunnable(cause)),
        Said::Output { success, stdout } => {
            if !success {
                return Ok(None);
            }
            let printed = chars_of(&from_lossy(stdout.as_slice()));
            let text = trim(&printed, Edge::Blank);
            if text.len() == 0 {
                Ok(None)
            } else {
                Ok(Some(string_of(text)))
            }
        },
    }
}

/// The root of the repository that a path is in, from what git said of its top
/// level and of whether it is bare.
pub open spec fn root_found(
    path: Seq<u8>,
    toplevel: Option<Seq<char>>,
    bare: Option<Seq<char>>,
) -> Option<Seq<u8>> {
    match toplevel {
        Some(top) => Some(encode_utf8(top)),
        None => if bare == Some("true"@) {
            Some(path)
        } else {
            None
        },
    }
}

/// The root of the repository a path belongs to, or `None` when it is not in
/// one. A bare repository is its own root.
pub fn repo_root(path: &FilePath, toplevel: Option<String>, bare: Option<String>) -> (r: Option<
    FilePath,
>)
    ensures
        match r {
            Some(root) => root_found(path@, text_of(toplevel), text_of(bare)) == Some(root@),
            None => root_found(path@, text_of(toplevel), text_of(bare)) is None,
        },
{
    if let Some(top) = toplevel {
        return Some(FilePath::from_text(&top));
    }
    if let Some(said) = bare {
        if is_word(&chars_of(&said), "true") {
            return Some(path.clone());
        }
    }
    None
}

// ---------------------------------------------------------------------------
// Laws of git
// ---------------------------------------------------------------------------

/// git answers with the line that it prints, without the end of the line, where it
/// succeeds. Where it does not, or prints nothing, there is no answer.
pub proof fn git_answers_with_the_line_it_prints(line: Seq<char>, success: bool, stdout: Vec<u8>)
    requires
        line.len() > 0 ==> !is_space(line[0]) && !is_space(line.last()),
        stdout@ == encode_utf8(line + seq!['\n']),
    ensures
        answer_of((Said::Output { success, stdout })) == if success && line.len() > 0 {
            Some(line)
        } else {
            None
        },
        query_failure((Said::Output { success, stdout })) is None,
{
    white_space_is_known('\n');
    a_text_is_shown_as_it_is(line + seq!['\n']);
    assert(line + seq!['\n'] =~= line.push('\n'));
    lemma_trimmed_push(line, '\n', Edge::Blank);
    lemma_nothing_to_trim(line, Edge::Blank);
}

/// git succeeds with the exit code zero and with no other, and what is said of any
/// other end names the command and the code.
pub proof fn git_succeeds_with_code_zero_alone(what: Seq<char>, code: i32, cause: String)
    ensures
        exit_failure(what, Exit::Code(code)) == if code == 0 {
            None
        } else {
            Some(what + " failed with exit code "@ + signed(code as int))
        },
        exit_failure(what, Exit::Signal) == Some(what + " was killed by a signal"@),
        exit_failure(what, Exit::Missing) == Some("git is required, but it is not on PATH"@),
        exit_failure(what, Exit::Unrunnable(cause)) == Some("cannot run git: "@ + cause@),
        query_failure(Said::Missing) == Some("git is required, but it is not on PATH"@),
        query_failure(Said::Unrunnable(cause)) == Some("cannot run git: "@ + cause@),
{
}

/// A repository starts at the top of its working tree; one that is bare is its own
/// root, and outside either there is none.
pub proof fn a_repository_starts_at_its_top(
    path: Seq<u8>,
    top: Seq<char>,
    bare: Option<Seq<char>>,
)
    ensures
        root_found(path, Some(top), bare) == Some(encode_utf8(top)),
        root_found(path, None, Some(seq!['t', 'r', 'u', 'e'])) == Some(path),
        bare != Some(seq!['t', 'r', 'u', 'e']) ==> root_found(path, None, bare) is None,
{
    reveal_strlit("true");
    assert("true"@ =~= seq!['t', 'r', 'u', 'e']);
}

} // verus!
