//! The command as a user meets it: the argument grammar, the exit codes, and
//! the descriptor protocol the shell function relies on.
//!
//! The world outside is a pretended one, so that nothing on disk is touched.

use std::collections::BTreeMap;

use trydir::browse::items_for;
use trydir::command::{browse, picked, Cli, Command, Enter, EnterStage, Rooted};
use trydir::error::Error;
use trydir::paths::FilePath;
use trydir::picker::Picker;
use trydir::shell::{descriptor, init, report, Report};
use trydir::store::{Entry, Listing, Meta, Store};
use trydir::system::{Ask, Exit, Reply, Said, Sight};

/// What stands at a path.
#[derive(Clone, Debug, PartialEq)]
enum Thing {
    Dir,
    Link(String),
}

/// The whole world the command runs in: a home directory, and whatever is made.
struct World {
    things: BTreeMap<String, Thing>,
    try_path: Option<String>,
    try_fd: Option<String>,
    /// The working trees of git, by their roots.
    repos: Vec<String>,
    /// Every git command that was run on the terminal.
    ran: Vec<String>,
    /// What git commands end with.
    exit: i32,
}

const HOME: &str = "/home/ada";
const ROOT: &str = "/home/ada/projects";

struct Run {
    code: i32,
    out: String,
    err: String,
    fd: String,
}

impl Run {
    fn ok(self) -> Self {
        assert_eq!(self.code, 0, "stderr: {}", self.err);
        self
    }

    fn failed(self) -> Self {
        assert_eq!(self.code, 1, "stderr: {}", self.err);
        self
    }

    fn out_line(&self) -> &str {
        self.out.trim_end()
    }
}

fn args(paths: &[FilePath]) -> Vec<String> {
    paths.iter().map(|p| p.display()).collect()
}

impl World {
    fn new() -> Self {
        let mut things = BTreeMap::new();
        things.insert(HOME.to_string(), Thing::Dir);
        Self {
            things,
            try_path: Some(ROOT.to_string()),
            try_fd: None,
            repos: vec![],
            ran: vec![],
            exit: 0,
        }
    }

    fn dir(&mut self, path: &str) {
        self.things.insert(path.to_string(), Thing::Dir);
    }

    fn at(&self, path: &str) -> Option<&Thing> {
        self.things.get(path)
    }

    fn answer(&mut self, ask: Ask) -> Reply {
        match ask {
            Ask::Look(p) => {
                let at = p.display();
                let sight = match self.at(&at) {
                    None => Sight::Missing,
                    Some(Thing::Dir) => Sight::Found {
                        is_dir: true,
                        is_symlink: false,
                    },
                    Some(Thing::Link(to)) => Sight::Found {
                        is_dir: self.things.contains_key(to),
                        is_symlink: true,
                    },
                };
                Reply::Seen { path: p, sight }
            }
            Ask::Query(line) => {
                let line = args(&line);
                assert_eq!((line[0].as_str(), line[2].as_str()), ("-C", "rev-parse"));
                let top = self.repos.iter().find(|root| line[1].starts_with(root.as_str()));
                let stdout = match (line[3].as_str(), top) {
                    ("--show-toplevel", Some(root)) => format!("{root}\n"),
                    _ => String::new(),
                };
                Reply::Said(Said::Output {
                    success: !stdout.is_empty(),
                    stdout: stdout.into_bytes(),
                })
            }
            Ask::Exists(p) => Reply::Present(self.at(&p.display()).is_some()),
            Ask::MakeAll(p) => {
                self.dir(&p.display());
                Reply::Made(Ok(()))
            }
            Ask::MakeDir(p) => {
                assert!(self.at(&p.display()).is_none());
                self.dir(&p.display());
                Reply::Made(Ok(()))
            }
            Ask::Git { args: line, .. } => {
                let line = args(&line);
                self.dir(line.last().unwrap());
                self.ran.push(line.join(" "));
                Reply::Exit(Exit::Code(self.exit))
            }
            Ask::Symlink { target, path } => {
                let target = Thing::Link(target.display());
                self.things.insert(path.display(), target);
                Reply::Made(Ok(()))
            }
            Ask::Housekeeping(_) => Reply::Passed,
            Ask::RemoveFile(p) | Ask::RemoveAll(p) => {
                self.things.remove(&p.display());
                Reply::Passed
            }
        }
    }

    fn listing(&self, root: &str) -> Listing {
        if !self.things.contains_key(root) {
            return Listing::Missing;
        }
        let meta = || {
            Some(Meta {
                is_dir: true,
                is_symlink: false,
                modified: Some(1),
            })
        };
        let prefix = format!("{root}/");
        let entries = self
            .things
            .keys()
            .filter_map(|path| path.strip_prefix(&prefix))
            .map(|name| {
                Ok(Entry {
                    name: FilePath::from_text(name),
                    target: meta(),
                    link: meta(),
                })
            })
            .collect();
        Listing::Entries(entries)
    }

    fn go(&mut self, words: &[&str], run: &mut Run) -> Result<(), Error> {
        let mut cli = Cli {
            path: false,
            init: None,
            args: vec![],
        };
        let mut words = words.iter();
        while let Some(word) = words.next() {
            match *word {
                "--path" => cli.path = true,
                "--init" => cli.init = words.next().map(|s| s.to_string()),
                arg => cli.args.push(arg.to_string()),
            }
        }
        let rooted = match cli.command() {
            Command::Init(shell) => {
                run.out = init(&shell)?;
                return Ok(());
            }
            Command::Rooted(rooted) => rooted,
        };
        let home = FilePath::from_text(HOME);
        let store = Store::open(self.try_path.as_deref(), Some(&home))?;
        let destination = match rooted {
            Rooted::Path => {
                run.out = format!("{}\n", store.root().display());
                return Ok(());
            }
            Rooted::Refuse(err) => return Err(err),
            Rooted::Browse => {
                let projects = store.list(self.listing(&store.root().display()))?;
                browse(&store, &projects)?;
                let days = vec![None; projects.len()];
                Picker::open(items_for(&projects, &days, 0), false)?;
                return Ok(());
            }
            Rooted::Enter { name, source } => {
                let mut enter =
                    Enter::start(store, Some(home), name.as_deref(), source.as_deref());
                while let Some(ask) = enter.ask() {
                    let reply = self.answer(ask);
                    enter.answer(reply);
                }
                let destination = enter.destination();
                match enter.stage {
                    EnterStage::Entered(lines) => {
                        for line in lines {
                            run.err.push_str(&format!("{line}\n"));
                        }
                    }
                    EnterStage::Failed(err) => return Err(err),
                    _ => panic!("entering stopped half way"),
                }
                destination.unwrap()
            }
        };
        let fd = descriptor(self.try_fd.as_deref());
        match report(&destination, fd.is_some(), false) {
            Report::Descriptor { line } => run.fd = line,
            Report::Stdout { line, notes } => {
                run.out = line;
                assert!(notes.is_empty());
            }
        }
        Ok(())
    }

    fn run(&mut self, words: &[&str]) -> Run {
        let mut run = Run {
            code: 0,
            out: String::new(),
            err: String::new(),
            fd: String::new(),
        };
        if let Err(err) = self.go(words, &mut run) {
            run.code = err.exit_code();
            if let Some(line) = err.complaint() {
                run.err.push_str(&line);
            }
        }
        run
    }
}

#[test]
fn path_prints_the_root() {
    let mut world = World::new();
    let run = world.run(&["--path"]).ok();
    assert_eq!(run.out_line(), ROOT);
}

/// Without TRY_PATH the root is ~/try, and printing it must not create it.
#[test]
fn cli_the_root_defaults_to_try_under_home() {
    let mut world = World::new();
    world.try_path = None;
    let run = world.run(&["--path"]).ok();
    assert_eq!(run.out_line(), "/home/ada/try");
    assert!(world.at("/home/ada/try").is_none());
}

#[test]
fn init_prints_a_shell_function() {
    let mut world = World::new();

    let fish = world.run(&["--init", "fish"]).ok();
    assert!(fish.out.contains("function try"), "{}", fish.out);

    for shell in ["bash", "zsh"] {
        let run = world.run(&["--init", shell]).ok();
        assert!(run.out.contains("try() {"), "{}", run.out);
        assert!(
            run.out.contains(&format!("try --init {shell}")),
            "{}",
            run.out
        );
    }
}

#[test]
fn init_refuses_a_shell_it_cannot_write() {
    let mut world = World::new();
    let run = world.run(&["--init", "nushell"]).failed();
    assert!(run.err.starts_with("try: "), "{}", run.err);
    assert!(run.err.contains("fish, bash, zsh"), "{}", run.err);
}

#[test]
fn a_name_creates_a_project_and_reports_it() {
    let mut world = World::new();
    let run = world.run(&["notes"]).ok();
    let project = format!("{ROOT}/notes");
    assert_eq!(
        world.at(&project),
        Some(&Thing::Dir),
        "the project directory is created"
    );
    assert_eq!(run.out_line(), project);
    assert!(run.err.contains("created"), "{}", run.err);
    assert_eq!(run.err, "created ~/projects/notes\n");
}

/// A name is an identity: the second time it is the same directory, and
/// nothing is created.
#[test]
fn the_same_name_enters_the_same_project() {
    let mut world = World::new();
    world.run(&["notes"]).ok();
    let again = world.run(&["notes"]).ok();
    assert_eq!(again.out_line(), format!("{ROOT}/notes"));
    assert_eq!(again.err, "", "nothing to report: no source was given");
}

#[test]
fn a_typed_name_is_cleaned_up() {
    let mut world = World::new();
    let run = world.run(&["My Notes"]).ok();
    let project = format!("{ROOT}/My-Notes");
    assert_eq!(world.at(&project), Some(&Thing::Dir));
    assert_eq!(run.out_line(), project);
}

#[test]
fn a_name_that_cleans_down_to_nothing_is_refused() {
    let mut world = World::new();
    let run = world.run(&["..."]).failed();
    assert!(run.err.contains("invalid project name"), "{}", run.err);
}

/// The name comes first and the source second. Getting it backwards is a
/// common slip, so it is named rather than reported as a bad name.
#[test]
fn a_source_typed_first_is_pointed_the_right_way_round() {
    let mut world = World::new();
    let run = world.run(&["./", "patch"]).failed();
    assert!(run.err.contains("the source goes last"), "{}", run.err);
    assert!(run.err.contains("try patch ./"), "{}", run.err);
    assert_eq!(
        run.err,
        "try: the source goes last: try `try patch ./`\n      (a name comes first, a URL or path \
         second)"
    );
}

#[test]
fn two_names_suggest_quoting() {
    let mut world = World::new();
    let run = world.run(&["my", "notes"]).failed();
    assert!(
        run.err.contains("expected a URL or a path"),
        "{}",
        run.err
    );
    assert!(run.err.contains(r#"try "my notes""#), "{}", run.err);
    assert_eq!(
        run.err,
        "try: expected a URL or a path as the second argument, but got \"notes\"\n      for a \
         multi-word name, quote it: try \"my notes\""
    );
}

#[test]
fn three_arguments_are_too_many() {
    let mut world = World::new();
    let run = world.run(&["a", "b", "c"]).failed();
    assert!(run.err.contains("too many arguments"), "{}", run.err);
    assert_eq!(
        run.err,
        "try: too many arguments: expected a name, a source, or a name and a source\n      for a \
         multi-word name, quote it or join it with dashes"
    );
}

/// Browsing an empty root has nothing to show, and says what to do instead.
#[test]
fn browsing_with_no_projects_says_how_to_make_one() {
    let mut world = World::new();
    let run = world.run(&[]).failed();
    assert!(run.err.contains("no projects in"), "{}", run.err);
    assert!(run.err.contains("try <name>"), "{}", run.err);
    assert_eq!(
        run.err,
        format!("try: no projects in {ROOT} yet — create one with: try <name>")
    );
}

/// The picker needs a terminal, and this world has none.
#[test]
fn browsing_without_a_terminal_says_so() {
    let mut world = World::new();
    world.run(&["notes"]).ok();
    let run = world.run(&[]).failed();
    assert!(run.err.contains("no terminal"), "{}", run.err);
}

/// The other half of the shell function: with TRY_FD set, the path goes to
/// that descriptor and stdout stays empty.
#[test]
fn the_path_is_reported_on_the_named_descriptor() {
    let mut world = World::new();
    world.try_fd = Some("3".to_string());
    let run = world.run(&["notes"]).ok();
    assert_eq!(run.out, "");
    assert_eq!(run.fd.trim_end(), format!("{ROOT}/notes"));
}

#[test]
fn a_local_directory_becomes_a_project_of_its_own_name() {
    let mut world = World::new();
    world.dir("/home/ada/scratch");
    let run = world.run(&["/home/ada/scratch"]).ok();
    let project = format!("{ROOT}/scratch");
    assert_eq!(
        world.at(&project),
        Some(&Thing::Link("/home/ada/scratch".to_string()))
    );
    assert_eq!(run.out_line(), project);
}

#[test]
fn a_typed_name_wins_over_the_one_the_source_implies() {
    let mut world = World::new();
    world.dir("/home/ada/scratch");
    world.run(&["patch", "/home/ada/scratch"]).ok();
    assert!(world.at(&format!("{ROOT}/patch")).is_some());
    assert!(world.at(&format!("{ROOT}/scratch")).is_none());
}

/// An existing project of that name wins outright, so the source is not used
/// and the project is left exactly as it was.
#[test]
fn an_existing_project_is_entered_rather_than_rebuilt() {
    let mut world = World::new();
    world.run(&["notes"]).ok();
    world.dir("/home/ada/scratch");
    let run = world.run(&["notes", "/home/ada/scratch"]).ok();
    let project = format!("{ROOT}/notes");
    assert_eq!(run.out_line(), project);
    assert_eq!(
        world.at(&project),
        Some(&Thing::Dir),
        "still the directory it was"
    );
    assert!(!run.err.contains("created"), "{}", run.err);
}

/// Landing in an old project silently would make it look as though it had just
/// been made from what was typed, so the unused source is named.
#[test]
fn entering_an_existing_project_says_the_source_went_unused() {
    let mut world = World::new();
    world.run(&["notes"]).ok();
    world.dir("/home/ada/scratch");
    let err = world.run(&["notes", "/home/ada/scratch"]).ok().err;
    assert!(err.contains("notes already exists"), "{err}");
    assert!(err.contains("/home/ada/scratch"), "{err}");
    assert!(err.contains("was not used"), "{err}");
    assert_eq!(
        err,
        "notes already exists, so /home/ada/scratch was not used\n"
    );
}

/// The source is not resolved at all when the name is taken, so one that could
/// not possibly work is not an error either. The name is what was asked for.
#[test]
fn a_source_is_not_resolved_when_the_name_is_taken() {
    let mut world = World::new();
    world.run(&["notes"]).ok();

    let run = world.run(&["notes", "/nowhere/at/all"]).ok();
    assert_eq!(run.out_line(), format!("{ROOT}/notes"));
    assert!(run.err.contains("was not used"), "{}", run.err);
    assert!(!run.err.contains("no such path"), "{}", run.err);
}

#[test]
fn a_source_that_is_not_there_is_reported() {
    let mut world = World::new();
    let run = world.run(&["/nowhere/at/all"]).failed();
    assert!(run.err.contains("no such path"), "{}", run.err);
    assert!(world.at(&format!("{ROOT}/all")).is_none());
}

/// The forms of the help text, one after another.
#[test]
fn every_form_in_the_help_does_what_it_says() {
    let mut world = World::new();
    world.repos.push("/src/goofansu/try".to_string());
    world.dir("/src/goofansu/try");
    world.dir("./");
    world.dir("../");
    let run = world.run(&["https://github.com/goofansu/try.git"]).ok();
    assert_eq!(run.out_line(), format!("{ROOT}/goofansu-try"));
    let run = world.run(&["git@github.com:goofansu/try.git"]).ok();
    assert_eq!(run.out_line(), format!("{ROOT}/goofansu-try"), "the same, over ssh");
    assert_eq!(
        run.err,
        "goofansu-try already exists, so git@github.com:goofansu/try.git was not used\n"
    );
    let run = world.run(&["https://github.com/goofansu/try/pull/123"]).ok();
    assert_eq!(run.out_line(), format!("{ROOT}/goofansu-try-pr-123"));
    let run = world.run(&["/src/goofansu/try"]).ok();
    assert_eq!(run.out_line(), format!("{ROOT}/try"));
    let run = world.run(&["patch", "/src/goofansu/try"]).ok();
    assert_eq!(run.out_line(), format!("{ROOT}/patch"));
    assert_eq!(
        world.ran.last().unwrap(),
        "-C /src/goofansu/try worktree add --detach /home/ada/projects/patch"
    );
}

/// What a failed clone left behind does not take the name.
#[test]
fn a_failed_clone_leaves_no_project() {
    let mut world = World::new();
    world.exit = 128;
    let run = world.run(&["https://h/ada/try.git"]).failed();
    assert_eq!(
        run.err,
        "try: git clone https://h/ada/try.git failed with exit code 128"
    );
    assert!(world.at(&format!("{ROOT}/ada-try")).is_none());
    world.exit = 0;
    let run = world.run(&["https://h/ada/try.git"]).ok();
    assert_eq!(run.err, "created ~/projects/ada-try\n");
}

/// Nothing is created where the source is no source, not even the root.
#[test]
fn a_bad_source_for_a_free_name_creates_nothing() {
    let mut world = World::new();
    let run = world.run(&["notes", "/nowhere/at/all"]).failed();
    assert_eq!(run.err, "try: no such path: /nowhere/at/all");
    assert!(world.at(ROOT).is_none());
    let run = world.run(&["notes", "file:///x"]).failed();
    assert!(run.err.contains("file:// URL"), "{}", run.err);
    let run = world.run(&["https://github.com"]).failed();
    assert!(run.err.contains("cannot work out a project name"), "{}", run.err);
    assert!(world.at(ROOT).is_none());
}

#[test]
fn a_directory_that_cannot_be_made_is_reported() {
    let start = || {
        Enter::start(
            Store::at(FilePath::from_text(ROOT)),
            None,
            Some("notes"),
            None,
        )
    };
    let mut enter = start();
    enter.answer(Reply::Present(false));
    enter.answer(Reply::Made(Err("denied".to_string())));
    assert!(enter.ask().is_none());
    assert!(matches!(
        &enter.stage,
        EnterStage::Failed(err) if err.message() == format!("cannot create {ROOT}: denied")
    ));
    let mut enter = start();
    enter.answer(Reply::Present(false));
    enter.answer(Reply::Made(Ok(())));
    enter.answer(Reply::Made(Err("full".to_string())));
    for _ in 0..2 {
        assert!(matches!(
            enter.ask(),
            Some(Ask::RemoveFile(path) | Ask::RemoveAll(path))
                if path.display() == format!("{ROOT}/notes")
        ));
        enter.answer(Reply::Passed);
    }
    assert!(enter.ask().is_none());
    assert!(matches!(
        &enter.stage,
        EnterStage::Failed(err) if err.message() == format!("cannot create {ROOT}/notes: full")
    ));
}

#[test]
fn options_come_before_arguments() {
    let mut world = World::new();
    let run = world.run(&["a", "b", "c", "--path"]).ok();
    assert_eq!(run.out_line(), ROOT);
    let run = world.run(&["--path", "--init", "fish"]).ok();
    assert!(run.out.contains("function try"));
}

#[test]
fn dismissing_the_picker_is_told_by_the_exit_code_alone() {
    let err = picked(&vec![], None).err().unwrap();
    assert_eq!(err.exit_code(), 130);
    assert_eq!(err.complaint(), None);
    assert_eq!(err.message(), "canceled");
    assert_eq!(Error::NoTerminal.exit_code(), 1);
    assert_eq!(
        Error::NoTerminal.complaint().unwrap(),
        "try: no terminal available for the picker"
    );
}

#[test]
fn what_was_picked_is_the_project_of_that_row() {
    let mut world = World::new();
    world.run(&["redis"]).ok();
    world.run(&["notes"]).ok();
    let store = Store::at(FilePath::from_text(ROOT));
    let projects = store.list(world.listing(ROOT)).ok().unwrap();
    assert!(browse(&store, &projects).is_ok());
    assert_eq!(
        picked(&projects, Some(1)).ok().unwrap().display(),
        format!("{ROOT}/redis")
    );
}
