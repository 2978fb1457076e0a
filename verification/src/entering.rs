//! Laws of entering a project: which steps are taken, for which project, and
//! what is said in the end.

use crate::command::{asked, bytes_in, chars_in, enter_ask, enter_next, entering, Enter};
use crate::command::{EnterStageText, EnterText, Setting};
use crate::git::exit_failure;
use crate::number::signed;
use crate::paths::{legible, tilde_text, FilePath};
use crate::source::{creation_ask, discarding, naming_failure, resolving, source_name, stage_ask};
use crate::source::{filling, stage_next, CreationText, Kind, Source, SourceText, StageText};
use crate::store::{cleaned, project_path};
use crate::system::{AskText, Exit, Reply};
use vstd::prelude::*;
use vstd::utf8::encode_utf8;

verus! {

// ---------------------------------------------------------------------------
// Filling a project
// ---------------------------------------------------------------------------

/// Whether entering has come to an end in which the project at `path` is told to
/// have been created.
pub open spec fn tells_created(setting: Setting, t: EnterText, path: Seq<u8>) -> bool {
    &&& t.stage == EnterStageText::Entered(seq!["created "@ + tilde_text(path, setting.home)])
    &&& enter_ask(setting, t) is None
}

/// Whether entering has come to an end in which this is told.
pub open spec fn tells_failure(setting: Setting, t: EnterText, text: Seq<char>) -> bool {
    &&& t.stage == EnterStageText::Failed(text)
    &&& enter_ask(setting, t) is None
}

/// What is told of a run of git that did not succeed.
pub open spec fn git_failure(what: Seq<char>, exit: Exit) -> Seq<char> {
    match exit {
        Exit::Missing => "git is required, but it is not on PATH"@,
        Exit::Unrunnable(cause) => "cannot run git: "@ + cause@,
        Exit::Code(code) => what + " failed with exit code "@ + signed(code as int),
        Exit::Signal => what + " was killed by a signal"@,
    }
}

/// Whether what is at `path` is removed next, whatever it is, and then the
/// failure is told. The registration of a worktree goes too.
pub open spec fn is_taken_back(
    setting: Setting,
    t: EnterText,
    source: SourceText,
    path: Seq<u8>,
    text: Seq<char>,
) -> bool {
    let second = enter_next(setting, t, Reply::Passed);
    let third = enter_next(setting, second, Reply::Passed);
    &&& enter_ask(setting, t) == Some(AskText::RemoveFile(path))
    &&& enter_ask(setting, second) == Some(AskText::RemoveAll(path))
    &&& match source {
        SourceText::Worktree(root) => {
            &&& enter_ask(setting, third) == Some(
                AskText::Housekeeping(
                    seq![
                        encode_utf8("-C"@),
                        root,
                        encode_utf8("worktree"@),
                        encode_utf8("prune"@),
                    ],
                ),
            )
            &&& tells_failure(setting, enter_next(setting, third, Reply::Passed), text)
        },
        _ => tells_failure(setting, third, text),
    }
}

/// Whether git is run next with these arguments, and where it does not succeed
/// everything is taken back.
pub open spec fn runs_git(
    setting: Setting,
    t: EnterText,
    what: Seq<char>,
    args: Seq<Seq<u8>>,
    source: SourceText,
    path: Seq<u8>,
) -> bool {
    &&& enter_ask(setting, t) == Some(AskText::Git { what, args })
    &&& forall|exit: Exit|
        exit != Exit::Code(0) ==> is_taken_back(
            setting,
            #[trigger] enter_next(setting, t, Reply::Exit(exit)),
            source,
            path,
            git_failure(what, exit),
        )
}

/// Whether the steps from here on are those that fill `path` from a source, one
/// after another, and the project is told to be created once all have succeeded.
pub open spec fn is_filled_from(
    setting: Setting,
    t: EnterText,
    source: SourceText,
    path: Seq<u8>,
) -> bool {
    match source {
        SourceText::Clone(url) => {
            &&& runs_git(
                setting,
                t,
                "git clone "@ + url,
                seq![encode_utf8("clone"@), encode_utf8(url), path],
                source,
                path,
            )
            &&& tells_created(setting, enter_next(setting, t, Reply::Exit(Exit::Code(0))), path)
        },
        SourceText::Request(request) => {
            let second = enter_next(setting, t, Reply::Exit(Exit::Code(0)));
            let third = enter_next(setting, second, Reply::Exit(Exit::Code(0)));
            &&& runs_git(
                setting,
                t,
                "git clone "@ + request.repo_url,
                seq![encode_utf8("clone"@), encode_utf8(request.repo_url), path],
                source,
                path,
            )
            &&& runs_git(
                setting,
                second,
                "git fetch "@ + request.remote_ref,
                seq![
                    encode_utf8("-C"@),
                    path,
                    encode_utf8("fetch"@),
                    encode_utf8("origin"@),
                    encode_utf8(request.remote_ref + ":"@ + request.branch),
                ],
                source,
                path,
            )
            &&& runs_git(
                setting,
                third,
                "git switch "@ + request.branch,
                seq![
                    encode_utf8("-C"@),
                    path,
                    encode_utf8("switch"@),
                    encode_utf8(request.branch),
                ],
                source,
                path,
            )
            &&& tells_created(
                setting,
                enter_next(setting, third, Reply::Exit(Exit::Code(0))),
                path,
            )
        },
        SourceText::Worktree(root) => {
            let second = enter_next(setting, t, Reply::Passed);
            &&& enter_ask(setting, t) == Some(
                AskText::Housekeeping(
                    seq![
                        encode_utf8("-C"@),
                        root,
                        encode_utf8("worktree"@),
                        encode_utf8("prune"@),
                    ],
                ),
            )
            &&& runs_git(
                setting,
                second,
                "git worktree add "@ + legible(path),
                seq![
                    encode_utf8("-C"@),
                    root,
                    encode_utf8("worktree"@),
                    encode_utf8("add"@),
                    encode_utf8("--detach"@),
                    path,
                ],
                source,
                path,
            )
            &&& tells_created(
                setting,
                enter_next(setting, second, Reply::Exit(Exit::Code(0))),
                path,
            )
        },
        SourceText::Link(target) => {
            &&& enter_ask(setting, t) == Some(AskText::Symlink { target, path })
            &&& tells_created(setting, enter_next(setting, t, Reply::Made(Ok(()))), path)
            &&& forall|cause: String|
                is_taken_back(
                    setting,
                    #[trigger] enter_next(setting, t, Reply::Made(Err(cause))),
                    source,
                    path,
                    "cannot link "@ + legible(path) + " to "@ + legible(target) + ": "@ + cause@,
                )
        },
    }
}

/// Whether the root is made next, and then `path` is filled from a source. Where
/// the root cannot be made that is told, and nothing else is done.
pub open spec fn is_created_from(
    setting: Setting,
    t: EnterText,
    source: SourceText,
    path: Seq<u8>,
) -> bool {
    &&& enter_ask(setting, t) == Some(AskText::MakeAll(setting.root))
    &&& is_filled_from(setting, enter_next(setting, t, Reply::Made(Ok(()))), source, path)
    &&& forall|cause: String|
        tells_failure(
            setting,
            #[trigger] enter_next(setting, t, Reply::Made(Err(cause))),
            "cannot create "@ + legible(setting.root) + ": "@ + cause@,
        )
}

/// A run that removes what was left comes to its end.
proof fn lemma_taken_back(
    setting: Setting,
    t: EnterText,
    source: SourceText,
    path: Seq<u8>,
    text: Seq<char>,
)
    requires
        t.stage matches EnterStageText::Filling(c) && c.failure == Some(text) && c.at == 0 && c.undo
            == discarding(source, path),
    ensures
        is_taken_back(setting, t, source, path, text),
{
    let second = enter_next(setting, t, Reply::Passed);
    assert(second.stage is Filling);
    let third = enter_next(setting, second, Reply::Passed);
}

/// A run of git in the middle of filling a project.
proof fn lemma_runs_git(
    setting: Setting,
    t: EnterText,
    c: CreationText,
    what: Seq<char>,
    args: Seq<Seq<u8>>,
    source: SourceText,
    path: Seq<u8>,
)
    requires
        t.stage == EnterStageText::Filling(c),
        c.failure is None,
        creation_ask(c) == Some(AskText::Git { what, args }),
        c.undo == discarding(source, path),
    ensures
        runs_git(setting, t, what, args, source, path),
{
    assert forall|exit: Exit| exit != Exit::Code(0) implies is_taken_back(
        setting,
        #[trigger] enter_next(setting, t, Reply::Exit(exit)),
        source,
        path,
        git_failure(what, exit),
    ) by {
        let text = git_failure(what, exit);
        assert(exit_failure(what, exit) == Some(text));
        let next = enter_next(setting, t, Reply::Exit(exit));
        lemma_taken_back(setting, next, source, path, text);
    }
}

#[verifier::rlimit(30)]
proof fn lemma_is_filled_from(setting: Setting, t: EnterText, source: SourceText)
    requires
        t.name is Some,
        t.source == Some(source),
        t.stage is MakingRoot,
    ensures
        is_filled_from(
            setting,
            enter_next(setting, t, Reply::Made(Ok(()))),
            source,
            project_path(setting.root, t.name->0),
        ),
{
    let path = project_path(setting.root, t.name->0);
    let first = enter_next(setting, t, Reply::Made(Ok(())));
    let steps = filling(source, path);
    let c0 = CreationText {
        todo: steps,
        undo: discarding(source, path),
        at: 0,
        failure: None,
    };
    let c1 = CreationText { at: 1, ..c0 };
    let c2 = CreationText { at: 2, ..c0 };
    assert(first.stage == EnterStageText::Filling(c0));
    match source {
        SourceText::Clone(url) => {
            lemma_runs_git(
                setting,
                first,
                c0,
                "git clone "@ + url,
                seq![encode_utf8("clone"@), encode_utf8(url), path],
                source,
                path,
            );
        },
        SourceText::Request(request) => {
            let second = enter_next(setting, first, Reply::Exit(Exit::Code(0)));
            let third = enter_next(setting, second, Reply::Exit(Exit::Code(0)));
            assert(second.stage == EnterStageText::Filling(c1));
            assert(third.stage == EnterStageText::Filling(c2));
            lemma_runs_git(
                setting,
                first,
                c0,
                "git clone "@ + request.repo_url,
                seq![encode_utf8("clone"@), encode_utf8(request.repo_url), path],
                source,
                path,
            );
            lemma_runs_git(
                setting,
                second,
                c1,
                "git fetch "@ + request.remote_ref,
                seq![
                    encode_utf8("-C"@),
                    path,
                    encode_utf8("fetch"@),
                    encode_utf8("origin"@),
                    encode_utf8(request.remote_ref + ":"@ + request.branch),
                ],
                source,
                path,
            );
            lemma_runs_git(
                setting,
                third,
                c2,
                "git switch "@ + request.branch,
                seq![
                    encode_utf8("-C"@),
                    path,
                    encode_utf8("switch"@),
                    encode_utf8(request.branch),
                ],
                source,
                path,
            );
        },
        SourceText::Worktree(root) => {
            let second = enter_next(setting, first, Reply::Passed);
            assert(second.stage == EnterStageText::Filling(c1));
            lemma_runs_git(
                setting,
                second,
                c1,
                "git worktree add "@ + legible(path),
                seq![
                    encode_utf8("-C"@),
                    root,
                    encode_utf8("worktree"@),
                    encode_utf8("add"@),
                    encode_utf8("--detach"@),
                    path,
                ],
                source,
                path,
            );
        },
        SourceText::Link(target) => {
            assert forall|cause: String| is_taken_back(
                setting,
                #[trigger] enter_next(setting, first, Reply::Made(Err(cause))),
                source,
                path,
                "cannot link "@ + legible(path) + " to "@ + legible(target) + ": "@ + cause@,
            ) by {
                lemma_taken_back(
                    setting,
                    enter_next(setting, first, Reply::Made(Err(cause))),
                    source,
                    path,
                    "cannot link "@ + legible(path) + " to "@ + legible(target) + ": "@ + cause@,
                );
            }
        },
    }
}

proof fn lemma_is_created_from(setting: Setting, t: EnterText, source: SourceText)
    requires
        t.name is Some,
        t.source == Some(source),
        t.stage is MakingRoot,
    ensures
        is_created_from(setting, t, source, project_path(setting.root, t.name->0)),
{
    lemma_is_filled_from(setting, t, source);
}

// ---------------------------------------------------------------------------
// A name and a source
// ---------------------------------------------------------------------------

/// A free name together with a source that is known from what was typed: the
/// project of that name is created from that source, whatever kind it is, and
/// from nothing else.
pub proof fn a_free_name_is_filled_from_what_was_typed(
    setting: Setting,
    raw: Seq<char>,
    source: SourceText,
)
    requires
        cleaned(raw).len() > 0,
        setting.arg is Some,
        resolving(setting.arg->0, setting.home) == StageText::Done(source),
    ensures
        ({
            let path = project_path(setting.root, cleaned(raw));
            let start = entering(setting, Some(raw));
            &&& enter_ask(setting, start) == Some(AskText::Exists(path))
            &&& is_created_from(
                setting,
                enter_next(setting, start, Reply::Present(false)),
                source,
                path,
            )
        }),
{
    let start = entering(setting, Some(raw));
    lemma_is_created_from(setting, enter_next(setting, start, Reply::Present(false)), source);
}

/// A free name together with a source that has to be looked at: the questions are
/// those that settle the source, and the name stays as it was typed.
pub proof fn a_free_name_waits_for_its_source(
    setting: Setting,
    raw: Seq<char>,
    stage: StageText,
)
    requires
        cleaned(raw).len() > 0,
        setting.arg is Some,
        resolving(setting.arg->0, setting.home) == stage,
        stage_ask(stage) is Some,
    ensures
        ({
            let next = enter_next(setting, entering(setting, Some(raw)), Reply::Present(false));
            &&& next.stage == EnterStageText::Resolving(stage)
            &&& next.name == Some(cleaned(raw))
            &&& enter_ask(setting, next) == stage_ask(stage)
        }),
{
}

/// Once the source is settled the project of the typed name is created from it.
/// Where there is no such source that is told, and nothing is made.
pub proof fn a_typed_name_is_filled_from_what_was_found(
    setting: Setting,
    t: EnterText,
    stage: StageText,
    reply: Reply,
    name: Seq<char>,
)
    requires
        t.stage == EnterStageText::Resolving(stage),
        t.name == Some(name),
        setting.arg is Some,
    ensures
        ({
            let next = enter_next(setting, t, reply);
            match stage_next(setting.arg->0, stage, reply) {
                StageText::Done(source) => is_created_from(
                    setting,
                    next,
                    source,
                    project_path(setting.root, name),
                ),
                StageText::Failed(text) => tells_failure(setting, next, text),
                more => next.stage == EnterStageText::Resolving(more) && next.name == Some(name),
            }
        }),
{
    if let StageText::Done(source) = stage_next(setting.arg->0, stage, reply) {
        lemma_is_created_from(setting, enter_next(setting, t, reply), source);
    }
}

// ---------------------------------------------------------------------------
// A source alone
// ---------------------------------------------------------------------------

/// Whether a source without a typed name goes by the name that it implies: a
/// project of that name is entered where there is one, with a note that the
/// source went unused, and is created from the source where there is none. A
/// source that implies no name is refused.
pub open spec fn goes_by_its_own_name(
    setting: Setting,
    t: EnterText,
    source: SourceText,
) -> bool {
    match source_name(source) {
        Some(name) => {
            let path = project_path(setting.root, name);
            let there = enter_next(setting, t, Reply::Present(true));
            &&& enter_ask(setting, t) == Some(AskText::Exists(path))
            &&& t.name == Some(name)
            &&& there.stage == EnterStageText::Entered(
                seq![name + " already exists, so "@ + setting.arg->0 + " was not used"@],
            )
            &&& enter_ask(setting, there) is None
            &&& is_created_from(
                setting,
                enter_next(setting, t, Reply::Present(false)),
                source,
                path,
            )
        },
        None => tells_failure(setting, t, naming_failure(source)),
    }
}

proof fn lemma_own_name(setting: Setting, t: EnterText, source: SourceText)
    requires
        setting.arg is Some,
        t.source == Some(source),
        source_name(source) is Some ==> t.stage is Finding && t.name == source_name(source),
        source_name(source) is None ==> t.stage == EnterStageText::Failed(naming_failure(source)),
    ensures
        goes_by_its_own_name(setting, t, source),
{
    if let Some(name) = source_name(source) {
        let next = enter_next(setting, t, Reply::Present(false));
        lemma_is_created_from(setting, next, source);
    }
}

/// A source alone, known from what was typed.
pub proof fn a_typed_source_goes_by_its_own_name(setting: Setting)
    requires
        setting.arg is Some,
    ensures
        match resolving(setting.arg->0, setting.home) {
            StageText::Done(source) => goes_by_its_own_name(
                setting,
                entering(setting, None),
                source,
            ),
            StageText::Failed(text) => tells_failure(setting, entering(setting, None), text),
            stage => entering(setting, None).stage == EnterStageText::Resolving(stage) && entering(
                setting,
                None,
            ).name is None,
        },
{
    if let StageText::Done(source) = resolving(setting.arg->0, setting.home) {
        lemma_own_name(setting, entering(setting, None), source);
    }
}

/// A source alone, once it is settled.
pub proof fn a_settled_source_goes_by_its_own_name(
    setting: Setting,
    t: EnterText,
    stage: StageText,
    reply: Reply,
)
    requires
        t.stage == EnterStageText::Resolving(stage),
        t.name is None,
        setting.arg is Some,
    ensures
        match stage_next(setting.arg->0, stage, reply) {
            StageText::Done(source) => goes_by_its_own_name(
                setting,
                enter_next(setting, t, reply),
                source,
            ),
            StageText::Failed(text) => tells_failure(setting, enter_next(setting, t, reply), text),
            more => enter_next(setting, t, reply).stage == EnterStageText::Resolving(more)
                && enter_next(setting, t, reply).name is None,
        },
{
    if let StageText::Done(source) = stage_next(setting.arg->0, stage, reply) {
        lemma_own_name(setting, enter_next(setting, t, reply), source);
    }
}

// ---------------------------------------------------------------------------
// A name alone
// ---------------------------------------------------------------------------

/// A free name without a source becomes an empty directory under the root, and
/// nothing is run. Where it cannot be made, what is there is removed and the
/// failure told.
pub proof fn a_free_name_alone_becomes_an_empty_directory(setting: Setting, raw: Seq<char>)
    requires
        cleaned(raw).len() > 0,
        setting.arg is None,
    ensures
        ({
            let path = project_path(setting.root, cleaned(raw));
            let start = entering(setting, Some(raw));
            let free = enter_next(setting, start, Reply::Present(false));
            let rooted = enter_next(setting, free, Reply::Made(Ok(())));
            &&& enter_ask(setting, start) == Some(AskText::Exists(path))
            &&& enter_ask(setting, free) == Some(AskText::MakeAll(setting.root))
            &&& enter_ask(setting, rooted) == Some(AskText::MakeDir(path))
            &&& tells_created(setting, enter_next(setting, rooted, Reply::Made(Ok(()))), path)
            &&& forall|cause: String|
                tells_failure(
                    setting,
                    #[trigger] enter_next(setting, free, Reply::Made(Err(cause))),
                    "cannot create "@ + legible(setting.root) + ": "@ + cause@,
                )
            &&& forall|cause: String|
                is_taken_back(
                    setting,
                    #[trigger] enter_next(setting, rooted, Reply::Made(Err(cause))),
                    SourceText::Link(path),
                    path,
                    "cannot create "@ + legible(path) + ": "@ + cause@,
                )
        }),
{
    let path = project_path(setting.root, cleaned(raw));
    let start = entering(setting, Some(raw));
    let free = enter_next(setting, start, Reply::Present(false));
    let rooted = enter_next(setting, free, Reply::Made(Ok(())));
    assert forall|cause: String| is_taken_back(
        setting,
        #[trigger] enter_next(setting, rooted, Reply::Made(Err(cause))),
        SourceText::Link(path),
        path,
        "cannot create "@ + legible(path) + ": "@ + cause@,
    ) by {
        let next = enter_next(setting, rooted, Reply::Made(Err(cause)));
        assert(next.stage is Filling);
        lemma_taken_back(
            setting,
            next,
            SourceText::Link(path),
            path,
            "cannot create "@ + legible(path) + ": "@ + cause@,
        );
    }
}

/// A project that is there is entered and nothing is done to it, whichever way
/// its name was settled. A source that was typed is told to be unused.
pub proof fn a_project_that_is_there_is_entered(setting: Setting, t: EnterText, name: Seq<char>)
    requires
        t.stage is Finding,
        t.name == Some(name),
    ensures
        ({
            let end = enter_next(setting, t, Reply::Present(true));
            &&& enter_ask(setting, t) == Some(AskText::Exists(project_path(setting.root, name)))
            &&& enter_ask(setting, end) is None
            &&& end.name == Some(name)
            &&& end.stage == EnterStageText::Entered(
                match setting.arg {
                    Some(arg) => seq![name + " already exists, so "@ + arg + " was not used"@],
                    None => Seq::empty(),
                },
            )
        }),
{
}

// ---------------------------------------------------------------------------
// Whatever is answered
// ---------------------------------------------------------------------------

/// Whether a stage is one that entering can come to: with a source typed, an
/// empty directory is never on the way.
spec fn is_on_the_way(setting: Setting, t: EnterText) -> bool {
    match t.stage {
        EnterStageText::MakingRoot => setting.arg is Some ==> t.source is Some,
        EnterStageText::MakingDir => setting.arg is None,
        EnterStageText::Filling(c) => {
            &&& forall|i: int| 0 <= i < c.todo.len() ==> !(#[trigger] c.todo[i] is MakeDir)
            &&& forall|i: int| 0 <= i < c.undo.len() ==> !(#[trigger] c.undo[i] is MakeDir)
        },
        _ => true,
    }
}

proof fn lemma_on_the_way(setting: Setting, t: EnterText, reply: Reply)
    requires
        is_on_the_way(setting, t),
    ensures
        is_on_the_way(setting, enter_next(setting, t, reply)),
{
}

/// An empty directory is made only where no source was typed, whatever the
/// answers are.
pub proof fn an_empty_directory_is_made_only_without_a_source(
    setting: Setting,
    typed: Option<Seq<char>>,
    replies: Seq<Reply>,
    i: int,
)
    requires
        typed is Some || setting.arg is Some,
        0 <= i < asked(setting, entering(setting, typed), replies).len(),
    ensures
        asked(setting, entering(setting, typed), replies)[i] is MakeDir ==> setting.arg is None,
{
    lemma_no_empty_directory(setting, entering(setting, typed), replies, i);
}

proof fn lemma_no_empty_directory(setting: Setting, t: EnterText, replies: Seq<Reply>, i: int)
    requires
        is_on_the_way(setting, t),
        0 <= i < asked(setting, t, replies).len(),
    ensures
        asked(setting, t, replies)[i] is MakeDir ==> setting.arg is None,
    decreases replies.len(),
{
    let next = enter_next(setting, t, replies[0]);
    let rest = replies.drop_first();
    lemma_on_the_way(setting, t, replies[0]);
    if i > 0 {
        assert(asked(setting, t, replies)[i] == asked(setting, next, rest)[i - 1]);
        lemma_no_empty_directory(setting, next, rest, i - 1);
    }
}

/// What a question would put somewhere or take away from there.
pub open spec fn touches(ask: AskText) -> Option<Seq<u8>> {
    match ask {
        AskText::MakeDir(path) => Some(path),
        AskText::Symlink { path, .. } => Some(path),
        AskText::RemoveFile(path) => Some(path),
        AskText::RemoveAll(path) => Some(path),
        _ => None,
    }
}

/// Whether all that entering can still touch is at one path.
spec fn stays_at(setting: Setting, t: EnterText, path: Seq<u8>) -> bool {
    &&& t.name matches Some(name) && path == project_path(setting.root, name)
    &&& t.stage matches EnterStageText::Filling(c) ==> {
        &&& forall|i: int|
            0 <= i < c.todo.len() ==> (touches(#[trigger] c.todo[i]) matches Some(p) ==> p == path)
                && !(c.todo[i] is MakeAll)
        &&& forall|i: int|
            0 <= i < c.undo.len() ==> (touches(#[trigger] c.undo[i]) matches Some(p) ==> p == path)
                && !(c.undo[i] is MakeAll)
    }
}

proof fn lemma_stays_at(setting: Setting, t: EnterText, path: Seq<u8>, reply: Reply)
    requires
        stays_at(setting, t, path),
    ensures
        stays_at(setting, enter_next(setting, t, reply), path),
{
}

/// Nothing but the project and the root is touched, whatever the answers are:
/// what is made, linked or removed is at the path of the typed name, and the only
/// other directory that is made is the root.
pub proof fn only_the_project_is_touched(
    setting: Setting,
    raw: Seq<char>,
    replies: Seq<Reply>,
    i: int,
)
    requires
        cleaned(raw).len() > 0,
        0 <= i < asked(setting, entering(setting, Some(raw)), replies).len(),
    ensures
        ({
            let ask = asked(setting, entering(setting, Some(raw)), replies)[i];
            &&& touches(ask) matches Some(path) ==> path == project_path(setting.root, cleaned(raw))
            &&& ask matches AskText::MakeAll(path) ==> path == setting.root
        }),
{
    let path = project_path(setting.root, cleaned(raw));
    lemma_only_touches(setting, entering(setting, Some(raw)), path, replies, i);
}

proof fn lemma_only_touches(
    setting: Setting,
    t: EnterText,
    path: Seq<u8>,
    replies: Seq<Reply>,
    i: int,
)
    requires
        stays_at(setting, t, path),
        0 <= i < asked(setting, t, replies).len(),
    ensures
        ({
            let ask = asked(setting, t, replies)[i];
            &&& touches(ask) matches Some(p) ==> p == path
            &&& ask matches AskText::MakeAll(p) ==> p == setting.root
        }),
    decreases replies.len(),
{
    let next = enter_next(setting, t, replies[0]);
    let rest = replies.drop_first();
    lemma_stays_at(setting, t, path, replies[0]);
    if i > 0 {
        assert(asked(setting, t, replies)[i] == asked(setting, next, rest)[i - 1]);
        lemma_only_touches(setting, next, path, rest, i - 1);
    }
}

/// A name that cleans down to nothing is refused before anything is asked.
pub proof fn a_name_of_nothing_is_refused(setting: Setting, raw: Seq<char>)
    requires
        cleaned(raw).len() == 0,
    ensures
        tells_failure(
            setting,
            entering(setting, Some(raw)),
            "invalid project name "@ + crate::text::debug_text(raw),
        ),
{
}

/// What is known of a project that is being entered is all there: the root, the
/// value of `HOME`, the source that was typed, the name and the source.
pub proof fn nothing_is_left_out_of_sight(e: Enter)
    ensures
        e.setting().root == e.store.root@,
        e.home matches Some(home) ==> e.setting().home == Some(home@),
        e.home is None ==> e.setting().home is None,
        e.arg matches Some(arg) ==> e.setting().arg == Some(arg@),
        e.arg is None ==> e.setting().arg is None,
        e.name matches Some(name) ==> e@.name == Some(name@),
        e.name is None ==> e@.name is None,
        e.source matches Some(source) ==> e@.source == Some(source@),
        e.source is None ==> e@.source is None,
{
}

/// What was typed is what entering starts with.
pub proof fn what_was_typed_is_taken(s: &str, path: FilePath)
    ensures
        chars_in(Some(s)) == Some(s@),
        chars_in(None) is None,
        bytes_in(Some(path)) == Some(path@),
        bytes_in(None) is None,
{
}

/// Sources that look alike are of one kind and from one place.
pub proof fn sources_that_look_alike_are_alike(a: Source, b: Source)
    requires
        a@ == b@,
    ensures
        match (a.0, b.0) {
            (Kind::Clone(u), Kind::Clone(v)) => u@ == v@,
            (Kind::Request(u), Kind::Request(v)) => u.repo_url@ == v.repo_url@ && u.remote_ref@
                == v.remote_ref@ && u.branch@ == v.branch@ && u.name@ == v.name@,
            (Kind::Worktree(u), Kind::Worktree(v)) => u@ == v@,
            (Kind::Link(u), Kind::Link(v)) => u@ == v@,
            _ => false,
        },
{
}

} // verus!
