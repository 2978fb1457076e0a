//! The command as a user meets it: what its arguments mean, and how a project
//! is entered.

use crate::error::Error;
use crate::order::views;
use crate::paths::{bytes_of, legible, tilde_text, tildify, FilePath};
use crate::source::{abandoning, creating, creation_ask, creation_next, is_source};
use crate::source::{a_bare_word_is_no_source, is_bare_word, is_complaint, looks_like_source};
use crate::source::{naming_failure, resolving, source_name, stage_ask, stage_next, Creation};
use crate::source::{CreationText, Resolver, Source, SourceText, Stage, StageText};
use crate::store::{clean_name, cleaned, project_path, Project, Store};
use crate::system::{fits, Ask, AskText, Reply};
use crate::text::debug_text;
use vstd::prelude::*;

verus! {

// ---------------------------------------------------------------------------
// Arguments
// ---------------------------------------------------------------------------

/// What was typed after the command.
pub struct Cli {
    /// Print the project root and exit.
    pub path: bool,
    /// Print the shell function to eval.
    pub init: Option<String>,
    /// A project name, a source, or a name followed by a source.
    pub args: Vec<String>,
}

/// What is to be done.
pub enum Command {
    /// Print the function for a shell.
    Init(String),
    /// Do something with the projects, once it is known where they are.
    Rooted(Rooted),
}

/// What is to be done with the projects.
pub enum Rooted {
    /// Print where they are.
    Path,
    /// Pick one of them.
    Browse,
    /// Enter the one of this name, or the one that the source implies, and
    /// create it from the source where it is not there yet.
    Enter { name: Option<String>, source: Option<String> },
    /// Nothing: the arguments make no sense.
    Refuse(Error),
}

/// Whether a text that may be missing is this one.
pub open spec fn says(s: Option<String>, text: Option<Seq<char>>) -> bool {
    match (s, text) {
        (Some(s), Some(text)) => s@ == text,
        (None, None) => true,
        _ => false,
    }
}

/// What some arguments ask for. A single one is a source where it looks like
/// one and a name otherwise; of two the name comes first and the source second.
pub open spec fn means(args: Seq<Seq<char>>, r: Rooted) -> bool {
    if args.len() == 0 {
        r is Browse
    } else if args.len() == 1 {
        r matches Rooted::Enter { name, source } && if is_source(args[0]) {
            says(name, None) && says(source, Some(args[0]))
        } else {
            says(name, Some(args[0])) && says(source, None)
        }
    } else if args.len() == 2 {
        if is_source(args[1]) {
            r matches Rooted::Enter { name, source } && says(name, Some(args[0])) && says(
                source,
                Some(args[1]),
            )
        } else if is_source(args[0]) {
            r matches Rooted::Refuse(Error::SourceFirst { first, second }) && first@ == args[0]
                && second@ == args[1]
        } else {
            r matches Rooted::Refuse(Error::NotASource { first, second }) && first@ == args[0]
                && second@ == args[1]
        }
    } else {
        r matches Rooted::Refuse(e) && e is TooMany
    }
}

impl Cli {
    /// What is to be done. Printing a shell function comes before everything
    /// else, and needs no root; printing the root comes before the arguments.
    pub fn command(&self) -> (r: Command)
        ensures
            match (self.init, r) {
                (Some(shell), Command::Init(asked)) => asked@ == shell@,
                (None, Command::Rooted(rooted)) => if self.path {
                    rooted is Path
                } else {
                    means(views(self.args@), rooted)
                },
                _ => false,
            },
    {
        if let Some(shell) = &self.init {
            return Command::Init(shell.clone());
        }
        if self.path {
            return Command::Rooted(Rooted::Path);
        }
        let n = self.args.len();
        if n == 0 {
            return Command::Rooted(Rooted::Browse);
        }
        let first = self.args[0].clone();
        proof {
            assert(views(self.args@)[0] == self.args@[0]@);
        }
        if n == 1 {
            let rooted = if looks_like_source(&first) {
                Rooted::Enter { name: None, source: Some(first) }
            } else {
                Rooted::Enter { name: Some(first), source: None }
            };
            return Command::Rooted(rooted);
        }
        if n > 2 {
            return Command::Rooted(Rooted::Refuse(Error::TooMany));
        }
        let second = self.args[1].clone();
        proof {
            assert(views(self.args@)[1] == self.args@[1]@);
        }
        let rooted = if looks_like_source(&second) {
            Rooted::Enter { name: Some(first), source: Some(second) }
        } else if looks_like_source(&first) {
            Rooted::Refuse(Error::SourceFirst { first, second })
        } else {
            Rooted::Refuse(Error::NotASource { first, second })
        };
        Command::Rooted(rooted)
    }
}

// ---------------------------------------------------------------------------
// Browsing
// ---------------------------------------------------------------------------

/// Whether there is anything to browse. Creating is what a name is for, so the
/// picker only ever selects.
pub fn browse(store: &Store, projects: &Vec<Project>) -> (r: Result<(), Error>)
    ensures
        match r {
            Ok(_) => projects@.len() > 0,
            Err(e) => projects@.len() == 0 && (e matches Error::NoProjects(root) && root@
                == legible(store@)),
        },
{
    if projects.len() == 0 {
        Err(Error::NoProjects(store.root.display()))
    } else {
        Ok(())
    }
}

/// The project that was picked. Dismissing the picker picks none.
pub fn picked(projects: &Vec<Project>, chosen: Option<usize>) -> (r: Result<FilePath, Error>)
    requires
        chosen matches Some(index) ==> index < projects@.len(),
    ensures
        match r {
            Ok(path) => chosen matches Some(index) && path@ == projects@[index as int].path@,
            Err(e) => chosen is None && e is Canceled,
        },
{
    match chosen {
        Some(index) => Ok(projects[index].path.clone()),
        None => Err(Error::Canceled),
    }
}

// ---------------------------------------------------------------------------
// Entering
// ---------------------------------------------------------------------------

/// How far a project has been entered.
pub enum EnterStage {
    /// The source is being resolved.
    Resolving(Resolver),
    /// The name is settled; it is to be seen whether it is taken.
    Finding,
    /// The name is free; the root is to be made.
    MakingRoot,
    /// An empty project is to be made.
    MakingDir,
    /// The project is being filled from its source.
    Filling(Creation),
    /// The project is there. The lines are for standard error.
    Entered(Vec<String>),
    /// It is not.
    Failed(Error),
}

/// A stage as texts and bytes.
pub enum EnterStageText {
    Resolving(StageText),
    Finding,
    MakingRoot,
    MakingDir,
    Filling(CreationText),
    Entered(Seq<Seq<char>>),
    Failed(Seq<char>),
}

impl View for EnterStage {
    type V = EnterStageText;

    open spec fn view(&self) -> EnterStageText {
        match *self {
            EnterStage::Resolving(resolver) => EnterStageText::Resolving(resolver.stage@),
            EnterStage::Finding => EnterStageText::Finding,
            EnterStage::MakingRoot => EnterStageText::MakingRoot,
            EnterStage::MakingDir => EnterStageText::MakingDir,
            EnterStage::Filling(creation) => EnterStageText::Filling(creation@),
            EnterStage::Entered(lines) => EnterStageText::Entered(views(lines@)),
            EnterStage::Failed(e) => EnterStageText::Failed(e.text()),
        }
    }
}

/// A project that is being entered.
pub struct Enter {
    pub store: Store,
    /// The value of `HOME`.
    pub home: Option<FilePath>,
    /// The source that was typed.
    pub arg: Option<String>,
    /// The name, once it is settled.
    pub name: Option<String>,
    /// The source, once it is resolved.
    pub source: Option<Source>,
    pub stage: EnterStage,
}

/// What does not change while a project is entered: the root, the value of
/// `HOME`, and the source that was typed.
pub struct Setting {
    pub root: Seq<u8>,
    pub home: Option<Seq<u8>>,
    pub arg: Option<Seq<char>>,
}

/// What changes while a project is entered.
pub struct EnterText {
    pub name: Option<Seq<char>>,
    pub source: Option<SourceText>,
    pub stage: EnterStageText,
}

impl View for Enter {
    type V = EnterText;

    open spec fn view(&self) -> EnterText {
        EnterText {
            name: match self.name {
                Some(name) => Some(name@),
                None => None,
            },
            source: match self.source {
                Some(source) => Some(source@),
                None => None,
            },
            stage: self.stage@,
        }
    }
}

/// Entering comes to nothing, for this reason.
pub open spec fn failing(t: EnterText, text: Seq<char>) -> EnterText {
    EnterText { stage: EnterStageText::Failed(text), ..t }
}

/// The source is known. Where no name was typed the source implies one, and it
/// is to be seen whether that is taken; a typed name is known to be free.
pub open spec fn sourced(t: EnterText, source: SourceText) -> EnterText {
    if t.name is Some {
        EnterText { source: Some(source), stage: EnterStageText::MakingRoot, ..t }
    } else {
        match source_name(source) {
            Some(name) => EnterText {
                name: Some(name),
                source: Some(source),
                stage: EnterStageText::Finding,
            },
            None => EnterText {
                source: Some(source),
                stage: EnterStageText::Failed(naming_failure(source)),
                ..t
            },
        }
    }
}

/// Resolving the source has come this far.
pub open spec fn resolved(t: EnterText, stage: StageText) -> EnterText {
    match stage {
        StageText::Done(source) => sourced(t, source),
        StageText::Failed(text) => failing(t, text),
        _ => EnterText { stage: EnterStageText::Resolving(stage), ..t },
    }
}

/// Where entering starts. A typed name is cleaned, and the source waits until it
/// is known that the name is free; without one the source has to be resolved
/// first.
pub open spec fn entering(setting: Setting, typed: Option<Seq<char>>) -> EnterText {
    let blank = EnterText { name: None, source: None, stage: EnterStageText::Finding };
    match typed {
        Some(raw) => if cleaned(raw).len() > 0 {
            EnterText { name: Some(cleaned(raw)), ..blank }
        } else {
            failing(blank, "invalid project name "@ + debug_text(raw))
        },
        None => resolved(blank, resolving(setting.arg->0, setting.home)),
    }
}

/// Where the project is.
pub open spec fn destination_of(setting: Setting, t: EnterText) -> Seq<u8> {
    project_path(setting.root, t.name->0)
}

/// What is said of a directory that could not be created.
pub open spec fn uncreatable(path: Seq<u8>, cause: Seq<char>) -> Seq<char> {
    "cannot create "@ + legible(path) + ": "@ + cause
}

/// What has to be found out or done next: nothing once the project is entered,
/// or known not to be.
pub open spec fn enter_ask(setting: Setting, t: EnterText) -> Option<AskText> {
    match t.stage {
        EnterStageText::Resolving(stage) => stage_ask(stage),
        EnterStageText::Finding => Some(AskText::Exists(destination_of(setting, t))),
        EnterStageText::MakingRoot => Some(AskText::MakeAll(setting.root)),
        EnterStageText::MakingDir => Some(AskText::MakeDir(destination_of(setting, t))),
        EnterStageText::Filling(creation) => creation_ask(creation),
        EnterStageText::Entered(_) => None,
        EnterStageText::Failed(_) => None,
    }
}

/// What is said of a source that goes unused because the name is taken. Landing
/// in an old project silently would make it look as though it had just been made
/// from what was typed.
pub open spec fn unused_note(name: Seq<char>, arg: Seq<char>) -> Seq<char> {
    name + " already exists, so "@ + arg + " was not used"@
}

/// The project was there before.
pub open spec fn found(setting: Setting, t: EnterText) -> EnterText {
    let lines = match setting.arg {
        Some(arg) => seq![unused_note(t.name->0, arg)],
        None => Seq::empty(),
    };
    EnterText { stage: EnterStageText::Entered(lines), ..t }
}

/// The project is there now.
pub open spec fn created(setting: Setting, t: EnterText) -> EnterText {
    EnterText {
        stage: EnterStageText::Entered(
            seq!["created "@ + tilde_text(destination_of(setting, t), setting.home)],
        ),
        ..t
    }
}

/// Filling the project has come this far.
pub open spec fn filled(setting: Setting, t: EnterText, creation: CreationText) -> EnterText {
    if creation_ask(creation) is Some {
        EnterText { stage: EnterStageText::Filling(creation), ..t }
    } else {
        match creation.failure {
            Some(text) => failing(t, text),
            None => created(setting, t),
        }
    }
}

/// How entering goes on.
pub open spec fn enter_next(setting: Setting, t: EnterText, reply: Reply) -> EnterText {
    match (t.stage, reply) {
        (EnterStageText::Resolving(stage), _) => resolved(
            t,
            stage_next(setting.arg->0, stage, reply),
        ),
        (EnterStageText::Finding, Reply::Present(present)) => if present {
            found(setting, t)
        } else if t.source is None && setting.arg is Some {
            resolved(t, resolving(setting.arg->0, setting.home))
        } else {
            EnterText { stage: EnterStageText::MakingRoot, ..t }
        },
        (EnterStageText::MakingRoot, Reply::Made(made)) => match (made, t.source) {
            (Err(cause), _) => failing(t, uncreatable(setting.root, cause@)),
            (Ok(_), Some(source)) => filled(
                setting,
                t,
                creating(source, destination_of(setting, t)),
            ),
            (Ok(_), None) => EnterText { stage: EnterStageText::MakingDir, ..t },
        },
        (EnterStageText::MakingDir, Reply::Made(made)) => match made {
            Err(cause) => filled(
                setting,
                t,
                abandoning(
                    destination_of(setting, t),
                    uncreatable(destination_of(setting, t), cause@),
                ),
            ),
            Ok(_) => created(setting, t),
        },
        (EnterStageText::Filling(creation), _) => filled(
            setting,
            t,
            creation_next(creation, reply),
        ),
        _ => t,
    }
}

impl Enter {
    /// What does not change.
    pub open spec fn setting(self) -> Setting {
        Setting {
            root: self.store@,
            home: match self.home {
                Some(home) => Some(home@),
                None => None,
            },
            arg: match self.arg {
                Some(arg) => Some(arg@),
                None => None,
            },
        }
    }

    /// Whether the project that is being entered holds together.
    pub open spec fn well_formed(self) -> bool {
        match self.stage {
            EnterStage::Resolving(resolver) => {
                &&& self.arg matches Some(arg) && arg@ == resolver.arg@
                &&& stage_ask(resolver.stage@) is Some
            },
            EnterStage::Finding => self.name is Some,
            EnterStage::MakingRoot => self.name is Some,
            EnterStage::MakingDir => self.name is Some,
            EnterStage::Filling(creation) => self.name is Some && creation.well_formed()
                && creation_ask(creation@) is Some,
            EnterStage::Entered(_) => self.name is Some,
            EnterStage::Failed(e) => !(e is Canceled),
        }
    }
}

/// A text that may be missing.
pub open spec fn chars_in(s: Option<&str>) -> Option<Seq<char>> {
    match s {
        Some(s) => Some(s@),
        None => None,
    }
}

/// A path that may be missing.
pub open spec fn bytes_in(path: Option<FilePath>) -> Option<Seq<u8>> {
    match path {
        Some(path) => Some(path@),
        None => None,
    }
}

impl Enter {
    /// Starts to enter a project by its name, its source, or both.
    pub fn start(
        store: Store,
        home: Option<FilePath>,
        name: Option<&str>,
        source: Option<&str>,
    ) -> (r: Enter)
        requires
            name is Some || source is Some,
        ensures
            r.well_formed(),
            r.setting() == (Setting {
                root: store@,
                home: bytes_in(home),
                arg: chars_in(source),
            }),
            r@ == entering(r.setting(), chars_in(name)),
    {
        let arg = match source {
            Some(arg) => Some(arg.to_owned()),
            None => None,
        };
        let mut enter = Enter {
            store,
            home,
            arg,
            name: None,
            source: None,
            stage: EnterStage::Finding,
        };
        match name {
            Some(raw) => {
                match clean_name(raw) {
                    Ok(name) => {
                        enter.name = Some(name);
                        enter.stage = EnterStage::Finding;
                    },
                    Err(e) => {
                        enter.stage = EnterStage::Failed(e);
                    },
                }
            },
            None => {
                enter.resolve();
            },
        }
        enter
    }

    /// Starts to resolve the source that was typed.
    fn resolve(&mut self)
        requires
            old(self).arg is Some,
        ensures
            final(self).well_formed(),
            final(self).setting() == old(self).setting(),
            final(self)@ == resolved(
                old(self)@,
                resolving(old(self).setting().arg->0, old(self).setting().home),
            ),
    {
        if let Some(arg) = &self.arg {
            let home = match &self.home {
                Some(home) => Some(home),
                None => None,
            };
            proof {
                assert(bytes_of(home) == self.setting().home);
            }
            let resolver = Source::resolve(arg, home);
            self.follow(resolver);
        }
    }

    /// Takes what resolving the source has come to.
    fn follow(&mut self, resolver: Resolver)
        requires
            old(self).arg matches Some(arg) && arg@ == resolver.arg@,
            is_complaint(resolver.stage),
        ensures
            final(self).well_formed(),
            final(self).setting() == old(self).setting(),
            final(self)@ == resolved(old(self)@, resolver.stage@),
    {
        let Resolver { arg, stage } = resolver;
        match stage {
            Stage::Done(source) => {
                if self.name.is_some() {
                    self.stage = EnterStage::MakingRoot;
                } else {
                    match source.name() {
                        Ok(name) => {
                            self.name = Some(name);
                            self.stage = EnterStage::Finding;
                        },
                        Err(e) => {
                            self.stage = EnterStage::Failed(e);
                        },
                    }
                }
                self.source = Some(source);
            },
            Stage::Failed(e) => {
                self.stage = EnterStage::Failed(e);
            },
            Stage::Look(path) => {
                self.stage = EnterStage::Resolving(Resolver { arg, stage: Stage::Look(path) });
            },
            Stage::Toplevel(path) => {
                self.stage = EnterStage::Resolving(Resolver { arg, stage: Stage::Toplevel(path) });
            },
            Stage::Bare(path) => {
                self.stage = EnterStage::Resolving(Resolver { arg, stage: Stage::Bare(path) });
            },
        }
    }

    /// Where the project is, once its name is settled.
    pub fn destination(&self) -> (r: Option<FilePath>)
        ensures
            match r {
                Some(path) => self.name is Some && path@ == destination_of(self.setting(), self@),
                None => self.name is None,
            },
    {
        match &self.name {
            Some(name) => Some(self.store.project(name)),
            None => None,
        }
    }

    /// What has to be found out or done next: nothing once the project is
    /// entered, or known not to be.
    pub fn ask(&self) -> (r: Option<Ask>)
        requires
            self.well_formed(),
        ensures
            match r {
                Some(ask) => enter_ask(self.setting(), self@) == Some(ask@),
                None => enter_ask(self.setting(), self@) is None,
            },
    {
        match &self.stage {
            EnterStage::Resolving(resolver) => resolver.ask(),
            EnterStage::Finding => match self.destination() {
                Some(path) => Some(Ask::Exists(path)),
                None => None,
            },
            EnterStage::MakingRoot => Some(Ask::MakeAll(self.store.root.clone())),
            EnterStage::MakingDir => match self.destination() {
                Some(path) => Some(Ask::MakeDir(path)),
                None => None,
            },
            EnterStage::Filling(creation) => creation.ask(),
            EnterStage::Entered(_) => None,
            EnterStage::Failed(_) => None,
        }
    }

    /// Takes the answer to what was asked.
    pub fn answer(&mut self, reply: Reply)
        requires
            old(self).well_formed(),
            enter_ask(old(self).setting(), old(self)@) is Some,
            fits(enter_ask(old(self).setting(), old(self)@)->0, reply),
        ensures
            final(self).well_formed(),
            final(self).setting() == old(self).setting(),
            final(self)@ == enter_next(old(self).setting(), old(self)@, reply),
    {
        let mut stage = EnterStage::Finding;
        std::mem::swap(&mut stage, &mut self.stage);
        match stage {
            EnterStage::Resolving(resolver) => {
                let mut resolver = resolver;
                resolver.answer(reply);
                self.follow(resolver);
            },
            EnterStage::Finding => {
                if let Reply::Present(present) = reply {
                    self.looked_up(present);
                }
            },
            EnterStage::MakingRoot => {
                if let Reply::Made(made) = reply {
                    self.made_root(made);
                }
            },
            EnterStage::MakingDir => {
                if let Reply::Made(made) = reply {
                    self.made_dir(made);
                }
            },
            EnterStage::Filling(creation) => {
                let mut creation = creation;
                creation.answer(reply);
                self.fill(creation);
            },
            _ => {},
        }
    }

    /// It is known whether the name is taken. An existing project wins outright.
    fn looked_up(&mut self, present: bool)
        requires
            old(self).stage is Finding,
            old(self).name is Some,
        ensures
            final(self).well_formed(),
            final(self).setting() == old(self).setting(),
            final(self)@ == enter_next(old(self).setting(), old(self)@, Reply::Present(present)),
    {
        if let Some(name) = &self.name {
            if self.store.find(name, present).is_some() {
                let mut lines: Vec<String> = Vec::new();
                if let Some(arg) = &self.arg {
                    lines.push(
                        name.clone().concat(" already exists, so ").concat(arg).concat(
                            " was not used",
                        ),
                    );
                }
                proof {
                    assert(views(lines@) =~= match self.setting().arg {
                        Some(arg) => seq![unused_note(self@.name->0, arg)],
                        None => Seq::empty(),
                    });
                }
                self.stage = EnterStage::Entered(lines);
                return;
            }
        }
        if self.source.is_none() && self.arg.is_some() {
            self.resolve();
        } else {
            self.stage = EnterStage::MakingRoot;
        }
    }

    /// The root was made, or was not.
    fn made_root(&mut self, made: Result<(), String>)
        requires
            old(self).name is Some,
        ensures
            final(self).well_formed(),
            final(self).setting() == old(self).setting(),
            final(self)@ == enter_next(
                old(self).setting(),
                (EnterText { stage: EnterStageText::MakingRoot, ..old(self)@ }),
                Reply::Made(made),
            ),
    {
        if let Some(name) = &self.name {
            match self.store.reserve(name, made) {
                Err(e) => {
                    self.stage = EnterStage::Failed(e);
                },
                Ok(path) => match &self.source {
                    Some(source) => {
                        let creation = source.create_at(&path);
                        self.fill(creation);
                    },
                    None => {
                        self.stage = EnterStage::MakingDir;
                    },
                },
            }
        }
    }

    /// The empty project was made, or was not.
    fn made_dir(&mut self, made: Result<(), String>)
        requires
            old(self).name is Some,
        ensures
            final(self).well_formed(),
            final(self).setting() == old(self).setting(),
            final(self)@ == enter_next(
                old(self).setting(),
                (EnterText { stage: EnterStageText::MakingDir, ..old(self)@ }),
                Reply::Made(made),
            ),
    {
        if let Some(name) = &self.name {
            match self.store.create_empty(name, Ok(()), made) {
                Err(e) => {
                    let creation = Creation::abandon(&self.store.project(name), e);
                    self.fill(creation);
                },
                Ok(_) => {
                    self.finish();
                },
            }
        }
    }

    /// Takes how far filling the project has come.
    fn fill(&mut self, creation: Creation)
        requires
            old(self).name is Some,
            creation.well_formed(),
        ensures
            final(self).well_formed(),
            final(self).setting() == old(self).setting(),
            final(self)@ == filled(old(self).setting(), old(self)@, creation@),
    {
        if creation.ask().is_some() {
            self.stage = EnterStage::Filling(creation);
            return;
        }
        match creation.outcome() {
            Err(e) => {
                self.stage = EnterStage::Failed(e);
            },
            Ok(_) => {
                self.finish();
            },
        }
    }

    /// The project is there now.
    fn finish(&mut self)
        requires
            old(self).name is Some,
        ensures
            final(self).well_formed(),
            final(self).setting() == old(self).setting(),
            final(self)@ == created(old(self).setting(), old(self)@),
    {
        if let Some(path) = self.destination() {
            let home = match &self.home {
                Some(home) => Some(home),
                None => None,
            };
            proof {
                assert(bytes_of(home) == self.setting().home);
            }
            let lines = vec!["created ".to_owned().concat(&tildify(&path, home))];
            proof {
                assert(views(lines@) =~= seq![
                    "created "@ + tilde_text(
                        destination_of(self.setting(), self@),
                        self.setting().home,
                    ),
                ]);
            }
            self.stage = EnterStage::Entered(lines);
        }
    }
}

// ---------------------------------------------------------------------------
// Laws of entering
// ---------------------------------------------------------------------------

/// Whether a question changes nothing on disk.
pub open spec fn only_looks(ask: AskText) -> bool {
    ask is Look || ask is Query || ask is Exists
}

/// What is asked while a project is entered, given the answers.
pub open spec fn asked(setting: Setting, t: EnterText, replies: Seq<Reply>) -> Seq<AskText>
    decreases replies.len(),
{
    if replies.len() == 0 || enter_ask(setting, t) is None {
        Seq::empty()
    } else {
        seq![enter_ask(setting, t)->0] + asked(
            setting,
            enter_next(setting, t, replies[0]),
            replies.drop_first(),
        )
    }
}

/// An existing project of a typed name wins outright: nothing is asked but
/// whether it is there, so the source is not even resolved, and where one was
/// typed it is said to be unused.
pub proof fn an_existing_project_wins(setting: Setting, raw: Seq<char>)
    requires
        cleaned(raw).len() > 0,
    ensures
        ({
            let t = entering(setting, Some(raw));
            let name = cleaned(raw);
            let path = project_path(setting.root, name);
            let end = enter_next(setting, t, Reply::Present(true));
            &&& enter_ask(setting, t) == Some(AskText::Exists(path))
            &&& end.stage == EnterStageText::Entered(
                match setting.arg {
                    Some(arg) => seq![unused_note(name, arg)],
                    None => Seq::empty(),
                },
            )
            &&& destination_of(setting, end) == path
            &&& enter_ask(setting, end) is None
        }),
{
}

/// Nothing is made, run or removed before the name is known to be free: unless
/// the answer was that nothing is there, only looking is asked for.
pub proof fn nothing_is_made_over_a_project(
    setting: Setting,
    typed: Option<Seq<char>>,
    replies: Seq<Reply>,
)
    requires
        typed is Some || setting.arg is Some,
        forall|i: int| 0 <= i < replies.len() ==> #[trigger] replies[i] != Reply::Present(false),
    ensures
        forall|i: int|
            0 <= i < asked(setting, entering(setting, typed), replies).len() ==> only_looks(
                #[trigger] asked(setting, entering(setting, typed), replies)[i],
            ),
{
    lemma_only_looks(setting, entering(setting, typed), replies);
}

/// Whether the name is not yet known to be free.
spec fn is_early(t: EnterText) -> bool {
    match t.stage {
        EnterStageText::Resolving(_) => t.name is None,
        EnterStageText::Finding => true,
        EnterStageText::Entered(_) => true,
        EnterStageText::Failed(_) => true,
        _ => false,
    }
}

proof fn lemma_only_looks(setting: Setting, t: EnterText, replies: Seq<Reply>)
    requires
        is_early(t),
        forall|i: int| 0 <= i < replies.len() ==> #[trigger] replies[i] != Reply::Present(false),
    ensures
        forall|i: int|
            0 <= i < asked(setting, t, replies).len() ==> only_looks(
                #[trigger] asked(setting, t, replies)[i],
            ),
    decreases replies.len(),
{
    if replies.len() > 0 && enter_ask(setting, t) is Some {
        let next = enter_next(setting, t, replies[0]);
        let rest = replies.drop_first();
        assert(replies[0] != Reply::Present(false));
        assert(is_early(next));
        assert forall|i: int| 0 <= i < rest.len() implies #[trigger] rest[i] != Reply::Present(
            false,
        ) by {
            assert(rest[i] == replies[i + 1]);
        }
        lemma_only_looks(setting, next, rest);
        let all = asked(setting, t, replies);
        let tail = asked(setting, next, rest);
        assert forall|i: int| 0 <= i < all.len() implies only_looks(#[trigger] all[i]) by {
            if i > 0 {
                assert(all[i] == tail[i - 1]);
            }
        }
    }
}

/// A name is an identity: entering by the same name asks after the same path,
/// whatever is typed around it and whatever source comes with it.
pub proof fn the_same_name_is_the_same_project(
    setting: Setting,
    other: Setting,
    raw: Seq<char>,
    again: Seq<char>,
)
    requires
        setting.root == other.root,
        cleaned(raw).len() > 0,
        cleaned(raw) == cleaned(again),
    ensures
        enter_ask(setting, entering(setting, Some(raw))) == enter_ask(
            other,
            entering(other, Some(again)),
        ),
        destination_of(setting, entering(setting, Some(raw))) == destination_of(
            other,
            entering(other, Some(again)),
        ),
{
}

/// A typed name always wins: whatever the source turns out to be, the project is
/// called by the name.
pub proof fn a_typed_name_wins(setting: Setting, t: EnterText, reply: Reply)
    requires
        t.name is Some,
    ensures
        enter_next(setting, t, reply).name == t.name,
{
}

/// An empty project that could not be made leaves nothing behind: whatever is at
/// its path is removed before the failure is told.
pub proof fn a_directory_that_was_not_made_is_removed(
    setting: Setting,
    t: EnterText,
    cause: String,
)
    requires
        t.stage is MakingDir,
    ensures
        ({
            let path = destination_of(setting, t);
            let first = enter_next(setting, t, Reply::Made(Err(cause)));
            let second = enter_next(setting, first, Reply::Passed);
            let last = enter_next(setting, second, Reply::Passed);
            &&& enter_ask(setting, first) == Some(AskText::RemoveFile(path))
            &&& enter_ask(setting, second) == Some(AskText::RemoveAll(path))
            &&& last.stage == EnterStageText::Failed(uncreatable(path, cause@))
        }),
{
}

/// Two bare words are read as a name and a source, so an unquoted name of two
/// words is an error and never a surprise.
pub proof fn two_names_are_refused(args: Seq<Seq<char>>, r: Rooted)
    requires
        args.len() == 2,
        is_bare_word(args[1]),
        means(args, r),
    ensures
        r is Refuse,
{
    a_bare_word_is_no_source(args[1]);
}

/// A bare word alone is entered as that name, and the same word behind `./` is
/// always a source: the two are never mistaken for each other.
pub proof fn a_name_and_a_path_are_told_apart(name: Seq<char>, r: Rooted, s: Rooted)
    requires
        is_bare_word(name),
        means(seq![name], r),
        means(seq!["./"@ + name], s),
    ensures
        r matches Rooted::Enter { name: typed, source } && says(typed, Some(name)) && says(
            source,
            None,
        ),
        s matches Rooted::Enter { name: typed, source } && says(typed, None) && says(
            source,
            Some("./"@ + name),
        ),
{
    a_bare_word_is_no_source(name);
}

} // verus!
