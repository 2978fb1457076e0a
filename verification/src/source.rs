//! Where a new project's contents come from.
//!
//! A source is a remote repository, a pull request, a local repository or a
//! plain directory. Callers only ever ask three things of it: whether an
//! argument looks like one, what name it implies, and to fill a directory.

use crate::error::Error;
use crate::git;
use crate::git::{answer_of, clone_args, exit_failure, fetch_args, prune_args, query_failure};
use crate::git::{rev_parse_args, root_found, switch_args, worktree_args};
use crate::number::{decimal, decimal_reads_back, is_digit, unsigned_32};
use crate::order::views;
use crate::paths::{a_text_is_shown_as_it_is, bytes_of, expand, expanded, joined_path, last_name};
use crate::paths::{legible, FilePath};
use crate::store::{a_clean_name_is_left_as_it_is, a_project_is_a_child_of_the_root, clean_name};
use crate::store::{cleaned, cleaning_gives_a_clean_name, is_clean, is_separator};
use crate::system::{fits, Ask, AskText, Exit, Reply, Sight};
use crate::text::{before, begins, begins_with, chars_of, debug_text, drop_ending, ends, found};
use crate::text::{is_word, joined, lemma_before_either_bounds, lemma_found, parted, string_of};
use crate::text::without_ending;
use crate::url::{is_scp_style, marker_from, name_from_repo_url, parse_request, path_segments};
use crate::url::{repo_label, repo_name, request_of, scheme_of, scp_style, url_scheme};
use crate::url::{web_segments, Forge, Request, RequestText};
use vstd::prelude::*;
use vstd::utf8::encode_utf8;

verus! {

/// Where a new project's contents come from.
pub struct Source(pub Kind);

/// The four kinds of source.
pub enum Kind {
    /// A remote repository to clone.
    Clone(String),
    /// A pull request to clone and check out.
    Request(Request),
    /// A local repository to add a detached worktree of.
    Worktree(FilePath),
    /// A local directory to symlink.
    Link(FilePath),
}

/// A source as texts and bytes.
pub enum SourceText {
    Clone(Seq<char>),
    Request(RequestText),
    Worktree(Seq<u8>),
    Link(Seq<u8>),
}

impl View for Source {
    type V = SourceText;

    open spec fn view(&self) -> SourceText {
        match self.0 {
            Kind::Clone(url) => SourceText::Clone(url@),
            Kind::Request(request) => SourceText::Request(request@),
            Kind::Worktree(root) => SourceText::Worktree(root@),
            Kind::Link(target) => SourceText::Link(target@),
        }
    }
}

// ---------------------------------------------------------------------------
// Telling a source from a name
// ---------------------------------------------------------------------------

/// Whether an argument is a source rather than a name: a path that starts like
/// one, a URL, or an address in the ssh form.
pub open spec fn is_source(arg: Seq<char>) -> bool {
    ||| arg == "."@
    ||| arg == ".."@
    ||| begins(arg, "./"@)
    ||| begins(arg, "../"@)
    ||| begins(arg, "/"@)
    ||| begins(arg, "~"@)
    ||| scheme_of(arg) is Some
    ||| scp_style(arg)
}

/// Whether an argument is a source rather than a name.
///
/// Being explicit about paths is what keeps the grammar unambiguous: `src` is
/// always the project `src`, and `./src` is always the directory.
pub fn looks_like_source(arg: &str) -> (r: bool)
    ensures
        r == is_source(arg@),
{
    let text = chars_of(arg);
    if is_word(&text, ".") || is_word(&text, "..") {
        return true;
    }
    if begins_with(&text, "./") || begins_with(&text, "../") || begins_with(&text, "/")
        || begins_with(&text, "~") {
        return true;
    }
    url_scheme(arg).is_some() || is_scp_style(arg)
}

// ---------------------------------------------------------------------------
// Resolving
// ---------------------------------------------------------------------------

/// How far a source has been resolved.
pub enum Stage {
    /// Something local: the path is to be looked at.
    Look(FilePath),
    /// A directory: git is to say where its repository starts.
    Toplevel(FilePath),
    /// Outside any working tree: git is to say whether it is bare.
    Bare(FilePath),
    /// The source is known.
    Done(Source),
    /// There is no such source.
    Failed(Error),
}

/// A stage as texts and bytes.
pub enum StageText {
    Look(Seq<u8>),
    Toplevel(Seq<u8>),
    Bare(Seq<u8>),
    Done(SourceText),
    Failed(Seq<char>),
}

impl View for Stage {
    type V = StageText;

    open spec fn view(&self) -> StageText {
        match *self {
            Stage::Look(path) => StageText::Look(path@),
            Stage::Toplevel(path) => StageText::Toplevel(path@),
            Stage::Bare(path) => StageText::Bare(path@),
            Stage::Done(source) => StageText::Done(source@),
            Stage::Failed(e) => StageText::Failed(e.text()),
        }
    }
}

/// A source that is being resolved.
pub struct Resolver {
    /// What was typed.
    pub arg: String,
    pub stage: Stage,
}

/// Where resolving starts. Remote sources are known from the argument alone.
pub open spec fn resolving(arg: Seq<char>, var: Option<Seq<u8>>) -> StageText {
    if scheme_of(arg) is Some {
        if scheme_of(arg) == Some("file"@) {
            StageText::Failed(Error::FileUrl.text())
        } else {
            match request_of(arg) {
                Some(request) => StageText::Done(SourceText::Request(request)),
                None => StageText::Done(SourceText::Clone(arg)),
            }
        }
    } else if scp_style(arg) {
        StageText::Done(SourceText::Clone(arg))
    } else {
        match expanded(arg, var) {
            Some(path) => StageText::Look(path),
            None => StageText::Failed(Error::HomeUnset.text()),
        }
    }
}

/// What is asked at each stage.
pub open spec fn stage_ask(stage: StageText) -> Option<AskText> {
    match stage {
        StageText::Look(path) => Some(AskText::Look(path)),
        StageText::Toplevel(path) => Some(
            AskText::Query(rev_parse_args(path, "--show-toplevel"@)),
        ),
        StageText::Bare(path) => Some(
            AskText::Query(rev_parse_args(path, "--is-bare-repository"@)),
        ),
        StageText::Done(_) => None,
        StageText::Failed(_) => None,
    }
}

/// The source that a local directory is.
pub open spec fn local_source(path: Seq<u8>, root: Option<Seq<u8>>) -> SourceText {
    match root {
        Some(root) => SourceText::Worktree(root),
        None => SourceText::Link(path),
    }
}

/// Which stage follows on an answer.
pub open spec fn stage_next(arg: Seq<char>, stage: StageText, reply: Reply) -> StageText {
    match (stage, reply) {
        (StageText::Look(_), Reply::Unresolved { shown, cause }) => StageText::Failed(
            "cannot resolve "@ + shown@ + ": "@ + cause@,
        ),
        (StageText::Look(_), Reply::Seen { path, sight }) => match sight {
            Sight::Missing => StageText::Failed("no such path: "@ + arg),
            Sight::Unreadable(cause) => StageText::Failed(
                "cannot read "@ + arg + ": "@ + cause@,
            ),
            Sight::Found { is_dir, is_symlink } => if is_dir {
                StageText::Toplevel(path@)
            } else if is_symlink {
                StageText::Failed(arg + " is a broken symlink"@)
            } else {
                StageText::Failed(arg + " is not a directory"@)
            },
        },
        (StageText::Toplevel(path), Reply::Said(said)) => match query_failure(said) {
            Some(failure) => StageText::Failed(failure),
            None => match answer_of(said) {
                Some(top) => StageText::Done(
                    local_source(path, root_found(path, Some(top), None)),
                ),
                None => StageText::Bare(path),
            },
        },
        (StageText::Bare(path), Reply::Said(said)) => match query_failure(said) {
            Some(failure) => StageText::Failed(failure),
            None => StageText::Done(local_source(path, root_found(path, None, answer_of(said)))),
        },
        _ => stage,
    }
}

/// Whether a failure is one to complain about.
pub open spec fn is_complaint(stage: Stage) -> bool {
    stage matches Stage::Failed(e) ==> !(e is Canceled)
}

/// Builds the source that a local directory is.
fn local(path: &FilePath, root: Option<FilePath>) -> (r: Source)
    ensures
        r@ == local_source(
            path@,
            match root {
                Some(root) => Some(root@),
                None => None,
            },
        ),
{
    match root {
        Some(root) => Source(Kind::Worktree(root)),
        None => Source(Kind::Link(path.clone())),
    }
}

impl Source {
    /// Starts to resolve an argument.
    pub fn resolve(arg: &str, var: Option<&FilePath>) -> (r: Resolver)
        ensures
            r.arg@ == arg@,
            r.stage@ == resolving(arg@, bytes_of(var)),
            is_complaint(r.stage),
    {
        let stage = if let Some(scheme) = url_scheme(arg) {
            if is_word(&chars_of(&scheme), "file") {
                Stage::Failed(Error::FileUrl)
            } else {
                match parse_request(arg) {
                    Some(request) => Stage::Done(Source(Kind::Request(request))),
                    None => Stage::Done(Source(Kind::Clone(arg.to_owned()))),
                }
            }
        } else if is_scp_style(arg) {
            Stage::Done(Source(Kind::Clone(arg.to_owned())))
        } else {
            match expand(arg, var) {
                Ok(path) => Stage::Look(path),
                Err(e) => Stage::Failed(e),
            }
        };
        Resolver { arg: arg.to_owned(), stage }
    }
}

impl Resolver {
    /// What has to be found out next: nothing once the source is known or known
    /// not to be one.
    pub fn ask(&self) -> (r: Option<Ask>)
        ensures
            match r {
                Some(ask) => stage_ask(self.stage@) == Some(ask@),
                None => stage_ask(self.stage@) is None,
            },
    {
        match &self.stage {
            Stage::Look(path) => Some(Ask::Look(path.clone())),
            Stage::Toplevel(path) => Some(Ask::Query(git::rev_parse(path, "--show-toplevel"))),
            Stage::Bare(path) => Some(Ask::Query(git::rev_parse(path, "--is-bare-repository"))),
            Stage::Done(_) => None,
            Stage::Failed(_) => None,
        }
    }

    /// Takes the answer to what was asked.
    pub fn answer(&mut self, reply: Reply)
        requires
            stage_ask(old(self).stage@) is Some,
            fits(stage_ask(old(self).stage@)->0, reply),
        ensures
            final(self).arg == old(self).arg,
            final(self).stage@ == stage_next(old(self).arg@, old(self).stage@, reply),
            is_complaint(final(self).stage),
    {
        let arg = self.arg.clone();
        let next = match (&self.stage, reply) {
            (Stage::Look(_), Reply::Unresolved { shown, cause }) => Stage::Failed(
                Error::Unresolvable { path: shown, cause },
            ),
            (Stage::Look(_), Reply::Seen { path, sight }) => match sight {
                Sight::Missing => Stage::Failed(Error::NoSuchPath(arg)),
                Sight::Unreadable(cause) => Stage::Failed(Error::Unreadable { what: arg, cause }),
                Sight::Found { is_dir, is_symlink } => if is_dir {
                    Stage::Toplevel(path)
                } else if is_symlink {
                    Stage::Failed(Error::BrokenLink(arg))
                } else {
                    Stage::Failed(Error::NotADirectory(arg))
                },
            },
            (Stage::Toplevel(path), Reply::Said(said)) => match git::one_line(said) {
                Err(e) => Stage::Failed(e),
                Ok(None) => Stage::Bare(path.clone()),
                Ok(top) => Stage::Done(local(path, git::repo_root(path, top, None))),
            },
            (Stage::Bare(path), Reply::Said(said)) => match git::one_line(said) {
                Err(e) => Stage::Failed(e),
                Ok(bare) => Stage::Done(local(path, git::repo_root(path, None, bare))),
            },
            _ => {
                return;
            },
        };
        self.stage = next;
    }
}

// ---------------------------------------------------------------------------
// Names
// ---------------------------------------------------------------------------

/// The last component of a path as it is shown, without a `.git` suffix.
pub open spec fn base_label(path: Seq<u8>) -> Seq<char> {
    without_ending(legible(last_name(path)->0), ".git"@)
}

/// The name that a local path implies, where it implies one.
pub open spec fn base_name(path: Seq<u8>) -> Option<Seq<char>> {
    if last_name(path) is Some && cleaned(base_label(path)).len() > 0 {
        Some(cleaned(base_label(path)))
    } else {
        None
    }
}

/// What is said of a local path that implies no name.
pub open spec fn base_failure(path: Seq<u8>) -> Seq<char> {
    if last_name(path) is None {
        "cannot work out a project name from "@ + legible(path)
    } else {
        "invalid project name "@ + debug_text(base_label(path))
    }
}

/// The name a local path implies: its last component, with a `.git` suffix
/// dropped so a bare repository at `thing.git` becomes the project `thing`.
pub fn basename_name(path: &FilePath) -> (r: Result<String, Error>)
    ensures
        match r {
            Ok(name) => base_name(path@) == Some(name@),
            Err(e) => base_name(path@) is None && e.text() == base_failure(path@) && !(e
                is Canceled),
        },
{
    match path.file_name() {
        None => Err(Error::UnnamedPath(path.display())),
        Some(base) => {
            let shown = chars_of(&base.display());
            clean_name(&string_of(drop_ending(&shown, ".git")))
        },
    }
}

/// The name that a source implies, where it implies one.
///
/// A worktree holds the whole repository, so it is named after the repository
/// root rather than the subdirectory that was pointed at.
pub open spec fn source_name(source: SourceText) -> Option<Seq<char>> {
    match source {
        SourceText::Clone(url) => repo_name(url),
        SourceText::Request(request) => Some(request.name),
        SourceText::Worktree(root) => base_name(root),
        SourceText::Link(target) => base_name(target),
    }
}

/// What is said of a source that implies no name.
pub open spec fn naming_failure(source: SourceText) -> Seq<char> {
    match source {
        SourceText::Clone(url) => if path_segments(url).len() == 0 {
            "cannot work out a project name from "@ + debug_text(url)
        } else {
            "cannot work out a project name from "@ + debug_text(url) + ": invalid project name "@
                + debug_text(repo_label(url))
        },
        SourceText::Request(request) => Seq::empty(),
        SourceText::Worktree(root) => base_failure(root),
        SourceText::Link(target) => base_failure(target),
    }
}

impl Source {
    /// The name a source implies when none was typed.
    pub fn name(&self) -> (r: Result<String, Error>)
        ensures
            match r {
                Ok(name) => source_name(self@) == Some(name@),
                Err(e) => source_name(self@) is None && e.text() == naming_failure(self@) && !(e
                    is Canceled),
            },
    {
        match &self.0 {
            Kind::Clone(url) => name_from_repo_url(url),
            Kind::Request(request) => Ok(request.name.clone()),
            Kind::Worktree(root) => basename_name(root),
            Kind::Link(target) => basename_name(target),
        }
    }
}

// ---------------------------------------------------------------------------
// Filling a directory
// ---------------------------------------------------------------------------

/// What it takes to fill a directory from a source.
pub open spec fn filling(source: SourceText, path: Seq<u8>) -> Seq<AskText> {
    match source {
        SourceText::Clone(url) => seq![
            AskText::Git { what: "git clone "@ + url, args: clone_args(url, path) },
        ],
        SourceText::Request(request) => checkout_steps(request, path),
        SourceText::Worktree(root) => seq![
            AskText::Housekeeping(prune_args(root)),
            AskText::Git {
                what: "git worktree add "@ + legible(path),
                args: worktree_args(root, path),
            },
        ],
        SourceText::Link(target) => seq![AskText::Symlink { target, path }],
    }
}

/// What it takes to check out a request: a clone of its repository, its head
/// fetched into a branch, and a switch to that branch.
pub open spec fn checkout_steps(request: RequestText, path: Seq<u8>) -> Seq<AskText> {
    seq![
        AskText::Git {
            what: "git clone "@ + request.repo_url,
            args: clone_args(request.repo_url, path),
        },
        AskText::Git {
            what: "git fetch "@ + request.remote_ref,
            args: fetch_args(path, request.remote_ref + ":"@ + request.branch),
        },
        AskText::Git {
            what: "git switch "@ + request.branch,
            args: switch_args(path, request.branch),
        },
    ]
}

/// What it takes to remove all that a failed attempt may have left. A worktree
/// is registered with its repository, and not only at its path.
pub open spec fn discarding(source: SourceText, path: Seq<u8>) -> Seq<AskText> {
    match source {
        SourceText::Worktree(root) => seq![
            AskText::RemoveFile(path),
            AskText::RemoveAll(path),
            AskText::Housekeeping(prune_args(root)),
        ],
        _ => seq![AskText::RemoveFile(path), AskText::RemoveAll(path)],
    }
}

/// Clones the repository a request belongs to, then fetches the request's head
/// into a local branch and switches to it.
///
/// A branch is safe here in a way it is not for a worktree: the clone is fresh,
/// so nothing else has the branch checked out.
fn checkout(request: &Request, path: &FilePath) -> (r: Vec<Ask>)
    ensures
        views(r@) == checkout_steps(request@, path@),
{
    let refspec = request.remote_ref.clone().concat(":").concat(&request.branch);
    let steps = vec![
        Ask::Git {
            what: "git clone ".to_owned().concat(&request.repo_url),
            args: git::clone_repo(&request.repo_url, path),
        },
        Ask::Git {
            what: "git fetch ".to_owned().concat(&request.remote_ref),
            args: git::fetch(path, &refspec),
        },
        Ask::Git {
            what: "git switch ".to_owned().concat(&request.branch),
            args: git::switch(path, &request.branch),
        },
    ];
    proof {
        assert(views(steps@) =~= checkout_steps(request@, path@));
    }
    steps
}

impl Source {
    /// Works out how to fill a directory from this source.
    fn write_into(&self, path: &FilePath) -> (r: Vec<Ask>)
        ensures
            views(r@) == filling(self@, path@),
    {
        let steps = match &self.0 {
            Kind::Clone(url) => vec![
                Ask::Git {
                    what: "git clone ".to_owned().concat(url),
                    args: git::clone_repo(url, path),
                },
            ],
            Kind::Request(request) => checkout(request, path),
            // A project deleted by hand leaves its worktree registered, and git
            // then refuses to reuse that path. Clearing the registrations whose
            // directories are gone makes the path available again.
            Kind::Worktree(root) => vec![
                Ask::Housekeeping(git::prune_worktrees(root)),
                Ask::Git {
                    what: "git worktree add ".to_owned().concat(&path.display()),
                    args: git::add_worktree(root, path),
                },
            ],
            Kind::Link(target) => vec![
                Ask::Symlink { target: target.clone(), path: path.clone() },
            ],
        };
        proof {
            assert(views(steps@) =~= filling(self@, path@));
        }
        steps
    }

    /// Works out how to remove whatever a failed attempt left behind, so a
    /// half-made project never takes a name.
    fn discard(&self, path: &FilePath) -> (r: Vec<Ask>)
        ensures
            views(r@) == discarding(self@, path@),
    {
        let steps = match &self.0 {
            Kind::Worktree(root) => vec![
                Ask::RemoveFile(path.clone()),
                Ask::RemoveAll(path.clone()),
                Ask::Housekeeping(git::prune_worktrees(root)),
            ],
            _ => vec![Ask::RemoveFile(path.clone()), Ask::RemoveAll(path.clone())],
        };
        proof {
            assert(views(steps@) =~= discarding(self@, path@));
        }
        steps
    }

    /// Starts to fill `path` with this source. Whatever a failure leaves behind
    /// will be removed, so a half-made project never takes a name.
    pub fn create_at(&self, path: &FilePath) -> (r: Creation)
        ensures
            r@ == creating(self@, path@),
            r.well_formed(),
    {
        Creation { todo: self.write_into(path), undo: self.discard(path), at: 0, failure: None }
    }
}

/// A directory that is being filled, or emptied again after a failure.
pub struct Creation {
    /// What fills it.
    pub todo: Vec<Ask>,
    /// What empties it.
    pub undo: Vec<Ask>,
    /// How much of either has been done.
    pub at: usize,
    /// What went wrong.
    pub failure: Option<Error>,
}

/// A creation as texts and bytes.
pub struct CreationText {
    pub todo: Seq<AskText>,
    pub undo: Seq<AskText>,
    pub at: nat,
    pub failure: Option<Seq<char>>,
}

impl View for Creation {
    type V = CreationText;

    open spec fn view(&self) -> CreationText {
        CreationText {
            todo: views(self.todo@),
            undo: views(self.undo@),
            at: self.at as nat,
            failure: match self.failure {
                Some(e) => Some(e.text()),
                None => None,
            },
        }
    }
}

/// Where a creation starts.
pub open spec fn creating(source: SourceText, path: Seq<u8>) -> CreationText {
    CreationText {
        todo: filling(source, path),
        undo: discarding(source, path),
        at: 0,
        failure: None,
    }
}

/// A creation that has failed before it began: an empty directory that could not
/// be made. Whatever is there is removed all the same.
pub open spec fn abandoning(path: Seq<u8>, failure: Seq<char>) -> CreationText {
    CreationText {
        todo: Seq::empty(),
        undo: seq![AskText::RemoveFile(path), AskText::RemoveAll(path)],
        at: 0,
        failure: Some(failure),
    }
}

/// The steps of the phase that a creation is in.
pub open spec fn creation_phase(c: CreationText) -> Seq<AskText> {
    if c.failure is Some {
        c.undo
    } else {
        c.todo
    }
}

/// The next step of a creation: none once it is through.
pub open spec fn creation_ask(c: CreationText) -> Option<AskText> {
    if c.at < creation_phase(c).len() {
        Some(creation_phase(c)[c.at as int])
    } else {
        None
    }
}

/// What is said of a step that failed; none where it did not. Only git and
/// symlinks can fail: the rest is done as far as it goes.
pub open spec fn step_failure(ask: AskText, reply: Reply) -> Option<Seq<char>> {
    match (ask, reply) {
        (AskText::Git { what, .. }, Reply::Exit(exit)) => exit_failure(what, exit),
        (AskText::Symlink { target, path }, Reply::Made(Err(cause))) => Some(
            "cannot link "@ + legible(path) + " to "@ + legible(target) + ": "@ + cause@,
        ),
        _ => None,
    }
}

/// How a creation goes on. The first failure turns it round.
pub open spec fn creation_next(c: CreationText, reply: Reply) -> CreationText {
    match (c.failure, step_failure(creation_phase(c)[c.at as int], reply)) {
        (None, Some(text)) => CreationText { at: 0, failure: Some(text), ..c },
        _ => CreationText { at: c.at + 1, ..c },
    }
}

impl Creation {
    /// Whether no more has been done than there is, and a failure is one to
    /// complain about.
    pub open spec fn well_formed(self) -> bool {
        &&& self@.at <= creation_phase(self@).len()
        &&& self.failure matches Some(e) ==> !(e is Canceled)
    }

    /// Gives up on an empty directory that could not be made.
    pub fn abandon(path: &FilePath, e: Error) -> (r: Creation)
        requires
            !(e is Canceled),
        ensures
            r@ == abandoning(path@, e.text()),
            r.well_formed(),
    {
        let undo = vec![Ask::RemoveFile(path.clone()), Ask::RemoveAll(path.clone())];
        let r = Creation { todo: Vec::new(), undo, at: 0, failure: Some(e) };
        proof {
            assert(r@.todo =~= Seq::<AskText>::empty());
            assert(r@.undo =~= abandoning(path@, e.text()).undo);
        }
        r
    }

    /// The next step: none once the directory is filled, or empty again.
    pub fn ask(&self) -> (r: Option<Ask>)
        ensures
            match r {
                Some(ask) => creation_ask(self@) == Some(ask@),
                None => creation_ask(self@) is None,
            },
    {
        let steps = if self.failure.is_some() {
            &self.undo
        } else {
            &self.todo
        };
        if self.at < steps.len() {
            Some(steps[self.at].copy())
        } else {
            None
        }
    }

    /// Takes the outcome of the step.
    pub fn answer(&mut self, reply: Reply)
        requires
            old(self).well_formed(),
            creation_ask(old(self)@) is Some,
            fits(creation_ask(old(self)@)->0, reply),
        ensures
            final(self).well_formed(),
            final(self)@ == creation_next(old(self)@, reply),
    {
        if self.failure.is_none() {
            let blame = blame(&self.todo[self.at], reply);
            if blame.is_some() {
                self.failure = blame;
                self.at = 0;
                return;
            }
        }
        proof {
            assert(self.at < self.undo.len() || self.at < self.todo.len());
        }
        self.at = self.at + 1;
    }

    /// How it came out.
    pub fn outcome(self) -> (r: Result<(), Error>)
        requires
            self.well_formed(),
        ensures
            match r {
                Ok(_) => self@.failure is None,
                Err(e) => self@.failure == Some(e.text()) && !(e is Canceled),
            },
    {
        match self.failure {
            Some(e) => Err(e),
            None => Ok(()),
        }
    }
}

/// What went wrong in a step, if anything did.
fn blame(step: &Ask, reply: Reply) -> (r: Option<Error>)
    ensures
        match r {
            Some(e) => step_failure(step@, reply) == Some(e.text()) && !(e is Canceled),
            None => step_failure(step@, reply) is None,
        },
{
    match (step, reply) {
        (Ask::Git { what, .. }, Reply::Exit(exit)) => match git::run(what, exit) {
            Ok(_) => None,
            Err(e) => Some(e),
        },
        (Ask::Symlink { target, path }, Reply::Made(Err(cause))) => Some(
            Error::Unlinkable { path: path.display(), target: target.display(), cause },
        ),
        _ => None,
    }
}

// ---------------------------------------------------------------------------
// Laws of sources
// ---------------------------------------------------------------------------

/// Whether a text is a bare word: it has no slash, does not start with a tilde,
/// is neither of the dots that stand for a directory, and has no at sign and
/// colon of an ssh address.
pub open spec fn is_bare_word(s: Seq<char>) -> bool {
    &&& !s.contains('/')
    &&& !begins(s, "~"@)
    &&& s != "."@
    &&& s != ".."@
    &&& !(s.contains('@') && s.contains(':'))
}

/// A bare word is never taken for a source, and behind `./` it always is: `src`
/// is the project and `./src` the directory. Without a slash, only the dots, a
/// tilde in front and an ssh address make a source.
pub proof fn a_bare_word_is_no_source(word: Seq<char>)
    requires
        !word.contains('/'),
    ensures
        is_bare_word(word) ==> !is_source(word),
        is_source(word) <==> word == "."@ || word == ".."@ || begins(word, "~"@) || scp_style(word),
        is_source("./"@ + word),
{
    reveal_strlit("./");
    reveal_strlit("../");
    reveal_strlit("/");
    reveal_strlit("://");
    assert(("./"@ + word).take(2) =~= "./"@);
    if begins(word, "./"@) {
        assert(word[1] == word.take(2)[1]);
    }
    if begins(word, "../"@) {
        assert(word[2] == word.take(3)[2]);
    }
    if begins(word, "/"@) {
        assert(word[0] == word.take(1)[0]);
    }
    lemma_found(word, "://"@);
    if let Some(n) = found(word, "://"@) {
        assert(word.skip(n as int).take(3)[1] == word[n as int + 1]);
    }
    if let Some((user, rest)) = parted(word, '@') {
        lemma_before_either_bounds(word, '@', '@');
        lemma_before_either_bounds(rest, ':', ':');
        assert(word[user.len() as int] == '@');
        let n = before(rest, ':') as int;
        if n < rest.len() {
            assert(rest[n] == word[user.len() + 1 + n]);
        }
    }
}

/// A project name is never taken for a source, but for one that starts with a
/// tilde, which always is.
pub proof fn a_name_is_no_source(name: Seq<char>)
    requires
        is_clean(name),
    ensures
        is_source(name) <==> name[0] == '~',
        is_bare_word(name) <==> name[0] != '~',
{
    reveal_strlit(".");
    reveal_strlit("..");
    reveal_strlit("~");
    assert(begins(name, "~"@) <==> name[0] == '~') by {
        if name[0] == '~' {
            assert(name.take(1) =~= "~"@);
        }
        if begins(name, "~"@) {
            assert(name.take(1)[0] == name[0]);
        }
    }
    assert forall|k: int| 0 <= k < name.len() implies name[k] != '/' && name[k] != ':' by {
        assert(is_separator(name[k]) ==> name[k] == '-');
    }
    a_bare_word_is_no_source(name);
}

/// What follows a clean text with a dash, a word and a number added is clean.
proof fn lemma_clean_request(repo: Seq<char>, forge: Forge, number: u32)
    requires
        is_clean(repo),
    ensures
        is_clean(repo + "-"@ + forge.label() + "-"@ + decimal(number as nat)),
{
    reveal_strlit("-");
    reveal_strlit("pr");
    reveal_strlit("mr");
    let digits = decimal(number as nat);
    decimal_reads_back(number as nat);
    let label = forge.label();
    let n = repo + "-"@ + label + "-"@ + digits;
    let a = repo.len() as int;
    assert(n.len() == a + 4 + digits.len());
    assert forall|i: int| 0 <= i < digits.len() implies !is_separator(#[trigger] digits[i])
        && digits[i] != '.' by {
        assert(is_digit(digits[i]));
    }
    assert forall|i: int| 0 <= i < n.len() implies ({
        &&& i < a ==> n[i] == repo[i]
        &&& i == a ==> n[i] == '-'
        &&& i == a + 1 ==> n[i] == label[0]
        &&& i == a + 2 ==> n[i] == label[1]
        &&& i == a + 3 ==> n[i] == '-'
        &&& i > a + 3 ==> #[trigger] n[i] == digits[i - a - 4]
    }) by {}
    assert forall|i: int| 0 <= i < n.len() && is_separator(#[trigger] n[i]) implies n[i]
        == '-' by {
        if i < a {
            assert(n[i] == repo[i]);
        } else if i > a + 3 {
            assert(n[i] == digits[i - a - 4]);
        }
    }
    assert forall|i: int| 0 <= i < n.len() - 1 implies !(#[trigger] n[i] == '-' && n[i + 1]
        == '-') by {
        if i < a - 1 {
            assert(n[i] == repo[i] && n[i + 1] == repo[i + 1]);
        } else if i == a - 1 {
            assert(n[i] == repo.last());
        } else if i >= a + 3 {
            assert(n[i + 1] == digits[i + 1 - a - 4]);
        }
    }
    assert(n[0] == repo[0]);
    assert(n.last() == digits.last());
}

/// Every name that a source implies is a clean one, so what is derived can be
/// typed again and means the same project.
pub proof fn derived_names_are_clean(arg: Seq<char>, source: SourceText)
    requires
        source matches SourceText::Request(request) ==> request_of(arg) == Some(request),
        source_name(source) is Some,
    ensures
        is_clean(source_name(source)->0),
{
    match source {
        SourceText::Clone(url) => {
            cleaning_gives_a_clean_name(repo_label(url));
        },
        SourceText::Request(request) => {
            let (at, forge) = marker_from(web_segments(arg), 3)->0;
            let number_at = at + forge.marker_len();
            let number = unsigned_32(web_segments(arg)[number_at])->0;
            let repo_url = scheme_of(arg)->0 + "://"@ + joined(
                web_segments(arg).take(at),
                seq!['/'],
            );
            cleaning_gives_a_clean_name(repo_label(repo_url));
            lemma_clean_request(repo_name(repo_url)->0, forge, number);
        },
        SourceText::Worktree(root) => {
            cleaning_gives_a_clean_name(base_label(root));
        },
        SourceText::Link(target) => {
            cleaning_gives_a_clean_name(base_label(target));
        },
    }
}

/// A clean name with `.git` added is a clean name.
proof fn lemma_clean_git(name: Seq<char>)
    requires
        is_clean(name),
    ensures
        is_clean(name + ".git"@),
        without_ending(name + ".git"@, ".git"@) == name,
{
    reveal_strlit(".git");
    let n = name + ".git"@;
    let a = name.len() as int;
    assert forall|i: int| 0 <= i < n.len() && is_separator(#[trigger] n[i]) implies n[i]
        == '-' by {
        if i < a {
            assert(n[i] == name[i]);
        } else {
            assert(n[i] == ".git"@[i - a]);
        }
    }
    assert forall|i: int| 0 <= i < n.len() - 1 implies !(#[trigger] n[i] == '-' && n[i + 1]
        == '-') by {
        if i < a - 1 {
            assert(n[i] == name[i] && n[i + 1] == name[i + 1]);
        } else {
            assert(n[i + 1] == ".git"@[i + 1 - a]);
        }
    }
    assert(n[0] == name[0]);
    assert(n.last() == 't');
    assert(n.skip(a) =~= ".git"@);
    assert(n.take(a) =~= name);
}

/// A local directory is called by its last component, and a `.git` suffix is
/// dropped: a bare repository at `thing.git` becomes the project `thing`.
pub proof fn a_directory_is_called_by_its_last_component(base: Seq<u8>, name: Seq<char>)
    requires
        is_clean(name),
    ensures
        base_name(joined_path(base, encode_utf8(name + ".git"@))) == Some(name),
        !ends(name, ".git"@) ==> base_name(joined_path(base, encode_utf8(name))) == Some(name),
{
    lemma_clean_git(name);
    a_clean_name_is_left_as_it_is(name);
    a_project_is_a_child_of_the_root(base, name + ".git"@);
    a_text_is_shown_as_it_is(name + ".git"@);
    a_project_is_a_child_of_the_root(base, name);
    a_text_is_shown_as_it_is(name);
}

/// The steps that a creation goes through, given the answers that it gets.
pub open spec fn performed(c: CreationText, replies: Seq<Reply>) -> Seq<AskText>
    decreases replies.len(),
{
    if replies.len() == 0 || creation_ask(c) is None {
        Seq::empty()
    } else {
        seq![creation_ask(c)->0] + performed(creation_next(c, replies[0]), replies.drop_first())
    }
}

/// Where a creation ends, given the answers that it gets.
pub open spec fn concluded(c: CreationText, replies: Seq<Reply>) -> CreationText
    decreases replies.len(),
{
    if replies.len() == 0 || creation_ask(c) is None {
        c
    } else {
        concluded(creation_next(c, replies[0]), replies.drop_first())
    }
}

/// A creation that empties the directory again does all of it.
proof fn lemma_undoing(c: CreationText, replies: Seq<Reply>)
    requires
        c.failure is Some,
        c.at <= c.undo.len(),
        creation_ask(concluded(c, replies)) is None,
    ensures
        performed(c, replies) == c.undo.skip(c.at as int),
        concluded(c, replies).failure == c.failure,
    decreases replies.len(),
{
    if c.at < c.undo.len() {
        if replies.len() > 0 {
            lemma_undoing(creation_next(c, replies[0]), replies.drop_first());
            assert(performed(c, replies) =~= c.undo.skip(c.at as int));
        }
    } else {
        assert(performed(c, replies) =~= c.undo.skip(c.at as int));
    }
}

/// A creation fills the directory as far as it goes, and where it fails it
/// empties it again.
proof fn lemma_filling(c: CreationText, replies: Seq<Reply>) -> (reached: int)
    requires
        c.failure is None,
        c.at <= c.todo.len(),
        creation_ask(concluded(c, replies)) is None,
    ensures
        c.at <= reached <= c.todo.len(),
        concluded(c, replies).failure is None ==> reached == c.todo.len() && performed(c, replies)
            == c.todo.skip(c.at as int),
        concluded(c, replies).failure is Some ==> performed(c, replies) == c.todo.subrange(
            c.at as int,
            reached,
        ) + c.undo,
        concluded(c, replies).failure is Some ==> reached > c.at,
    decreases replies.len(),
{
    if c.at < c.todo.len() && replies.len() > 0 {
        let next = creation_next(c, replies[0]);
        let rest = replies.drop_first();
        assert(performed(c, replies) == seq![c.todo[c.at as int]] + performed(next, rest));
        if next.failure is Some {
            lemma_undoing(next, rest);
            assert(c.undo.skip(0) =~= c.undo);
            assert(seq![c.todo[c.at as int]] + c.undo =~= c.todo.subrange(
                c.at as int,
                c.at as int + 1,
            ) + c.undo);
            c.at as int + 1
        } else {
            let reached = lemma_filling(next, rest);
            if concluded(c, replies).failure is None {
                assert(performed(c, replies) =~= c.todo.skip(c.at as int));
            } else {
                assert(performed(c, replies) =~= c.todo.subrange(c.at as int, reached) + c.undo);
            }
            reached
        }
    } else {
        assert(performed(c, replies) =~= c.todo.skip(c.at as int));
        c.todo.len() as int
    }
}

/// A creation that goes through without a failure does every step that fills
/// the directory, in order, and removes nothing.
pub proof fn a_filled_directory_is_left_alone(
    source: SourceText,
    path: Seq<u8>,
    replies: Seq<Reply>,
)
    requires
        creation_ask(concluded(creating(source, path), replies)) is None,
        concluded(creating(source, path), replies).failure is None,
    ensures
        performed(creating(source, path), replies) == filling(source, path),
{
    let c = creating(source, path);
    let _ = lemma_filling(c, replies);
    assert(c.todo.skip(0) =~= c.todo);
}

/// A half-made project never takes a name: a creation that fails at some step
/// does nothing more to fill the directory, and then every step that removes
/// what was left.
pub proof fn a_failed_creation_is_removed(source: SourceText, path: Seq<u8>, replies: Seq<Reply>)
    requires
        creation_ask(concluded(creating(source, path), replies)) is None,
        concluded(creating(source, path), replies).failure is Some,
    ensures
        exists|reached: int|
            0 < reached <= filling(source, path).len() && performed(
                creating(source, path),
                replies,
            ) == #[trigger] filling(source, path).take(reached) + discarding(source, path),
{
    let c = creating(source, path);
    let reached = lemma_filling(c, replies);
    assert(c.todo.subrange(0, reached) =~= filling(source, path).take(reached));
}

} // verus!
