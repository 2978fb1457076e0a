//! Where a new project's contents come from.

use trydir::error::Error;
use trydir::git::{one_line, repo_root, run};
use trydir::paths::FilePath;
use trydir::source::{basename_name, looks_like_source, Creation, Kind, Resolver, Source, Stage};
use trydir::system::{Ask, Exit, Reply, Said, Sight};
use trydir::url::{is_scp_style, name_from_repo_url, parse_request, url_path_segments, url_scheme};

fn path(s: &str) -> FilePath {
    FilePath::from_text(s)
}

fn resolve(arg: &str) -> Resolver {
    Source::resolve(arg, Some(&path("/home/ada")))
}

/// The source that an argument is, where that takes no looking.
fn remote(arg: &str) -> Source {
    match resolve(arg).stage {
        Stage::Done(source) => source,
        _ => panic!("{arg} is not known from the argument alone"),
    }
}

fn name_of(arg: &str) -> Result<String, String> {
    remote(arg).name().map_err(|err| err.message())
}

fn words(args: &[FilePath]) -> Vec<String> {
    args.iter().map(|arg| arg.display()).collect()
}

/// A step as one line.
fn told(ask: &Ask) -> String {
    match ask {
        Ask::Look(p) => format!("look {}", p.display()),
        Ask::Query(args) => format!("query {}", words(args).join(" ")),
        Ask::Exists(p) => format!("exists {}", p.display()),
        Ask::MakeAll(p) => format!("mkdir -p {}", p.display()),
        Ask::MakeDir(p) => format!("mkdir {}", p.display()),
        Ask::Git { what, args } => format!("[{what}] git {}", words(args).join(" ")),
        Ask::Symlink { target, path } => format!("ln -s {} {}", target.display(), path.display()),
        Ask::Housekeeping(args) => format!("quietly git {}", words(args).join(" ")),
        Ask::RemoveFile(p) => format!("rm {}", p.display()),
        Ask::RemoveAll(p) => format!("rm -r {}", p.display()),
    }
}

/// Runs a creation, with every git and symlink answered in turn.
fn play(mut creation: Creation, answers: Vec<Reply>) -> (Vec<String>, Result<(), String>) {
    let mut answers = answers.into_iter();
    let mut steps = Vec::new();
    while let Some(ask) = creation.ask() {
        steps.push(told(&ask));
        let reply = match ask {
            Ask::Git { .. } | Ask::Symlink { .. } => answers.next().unwrap(),
            _ => Reply::Passed,
        };
        creation.answer(reply);
    }
    assert!(answers.next().is_none(), "every answer was asked for");
    (steps, creation.outcome().map_err(|err| err.message()))
}

fn exit(code: i32) -> Reply {
    Reply::Exit(Exit::Code(code))
}

fn said(success: bool, stdout: &str) -> Reply {
    Reply::Said(Said::Output {
        success,
        stdout: stdout.as_bytes().to_vec(),
    })
}

fn seen(p: &str, is_dir: bool, is_symlink: bool) -> Reply {
    Reply::Seen {
        path: path(p),
        sight: Sight::Found { is_dir, is_symlink },
    }
}

// ---------------------------------------------------------------------------
// Telling a source from a name
// ---------------------------------------------------------------------------

#[test]
fn a_source_is_told_from_a_name() {
    for arg in [
        ".",
        "..",
        "./",
        "../",
        "./src",
        "../x",
        "/",
        "/srv",
        "~",
        "~/x",
        "~x",
        "https://github.com/goofansu/try.git",
        "FILE://x",
        "git+ssh://h/x",
        "git@github.com:goofansu/try.git",
        "a@b:c",
    ] {
        assert!(looks_like_source(arg), "{arg}");
    }
    for arg in [
        "", "src", "src/main.rs", ".hidden", "...", "..x", "a.b", "://x", "a b://c", "é://x",
        "a:b", "@h:p", "u@:p", "u@h:", "u@h/x:p", "u@h", "notes", "-",
    ] {
        assert!(!looks_like_source(arg), "{arg}");
    }
}

#[test]
fn schemes_are_read_in_lower_case() {
    assert_eq!(url_scheme("HTTPS://x").as_deref(), Some("https"));
    assert_eq!(url_scheme("git+ssh.2-x://").as_deref(), Some("git+ssh.2-x"));
    assert_eq!(url_scheme("a/b://c"), None);
    assert_eq!(url_scheme("://c"), None);
    assert_eq!(url_scheme("a:/b"), None);
    assert!(is_scp_style("git@host:path"));
    assert!(is_scp_style("a@b@c:d"));
    assert!(!is_scp_style("git@ho/st:path"));
}

#[test]
fn the_path_of_a_url_is_taken_apart() {
    let parts = |url: &str| -> Vec<String> {
        url_path_segments(url).iter().map(|part| part.iter().collect()).collect()
    };
    assert_eq!(parts("https://h/a//b/?x=/y#z"), ["a", "b"]);
    assert_eq!(parts("https://h"), Vec::<String>::new());
    assert_eq!(parts("https://h?x/y"), Vec::<String>::new());
    assert_eq!(parts("https://h#x/y"), Vec::<String>::new());
    assert_eq!(parts("https://example.com?next=/a/b"), Vec::<String>::new());
    assert_eq!(parts("git@h:a/b"), ["a", "b"]);
    assert_eq!(parts("git@h"), Vec::<String>::new());
    assert_eq!(parts("a/b#c"), ["a", "b"]);
}

/// Without a slash, only the dots, a tilde in front and an ssh address make a
/// source. With `./` in front every word does.
#[test]
fn a_bare_word_is_a_name() {
    for word in ["src", "", "a b", "-x-", "...", "v1.", "a:b", "a@b", ":@", "x~", "http:", "日本"] {
        assert!(!looks_like_source(word), "{word}");
        assert!(looks_like_source(&format!("./{word}")), "{word}");
    }
    for word in [".", "..", "~", "~x", "a@b:c"] {
        assert!(looks_like_source(word), "{word}");
    }
}

// ---------------------------------------------------------------------------
// Names
// ---------------------------------------------------------------------------

/// The table in the documentation, row by row.
#[test]
fn derived_names_are_what_the_documentation_says() {
    for (source, name) in [
        ("https://github.com/goofansu/try.git", "goofansu-try"),
        ("git@github.com:goofansu/try.git", "goofansu-try"),
        ("https://github.com/goofansu/try/pull/123", "goofansu-try-pr-123"),
        (
            "https://gitlab.com/group/repo/-/merge_requests/7",
            "group-repo-mr-7",
        ),
    ] {
        assert_eq!(name_of(source), Ok(name.to_string()), "{source}");
    }
}

#[test]
fn the_git_suffix_the_query_and_the_fragment_make_no_difference() {
    for url in [
        "https://h/ada/try",
        "https://h/ada/try.git",
        "https://h/ada/try/",
        "https://h/ada/try.git?depth=1",
        "https://h/ada/try#readme",
        "ssh://git@h:22/ada/try.git",
        "https://h/mirrors/of/ada/try.git",
    ] {
        assert_eq!(name_of(url), Ok("ada-try".to_string()), "{url}");
    }
    assert_eq!(name_of("https://h/try.git"), Ok("try".to_string()));
    assert_eq!(name_of("https://h/ada/try.git.git"), Ok("ada-try.git".to_string()));
}

/// The owner is kept so that two people's forks do not collide.
#[test]
fn forks_of_one_project_are_told_apart() {
    assert_ne!(name_of("https://h/ada/try.git"), name_of("https://h/eve/try.git"));
}

#[test]
fn a_url_without_a_name_says_so() {
    assert_eq!(
        name_of("https://github.com"),
        Err("cannot work out a project name from \"https://github.com\"".to_string())
    );
    assert_eq!(
        name_of("https://github.com/.git"),
        Err(
            "cannot work out a project name from \"https://github.com/.git\": invalid project \
             name \"\""
                .to_string()
        )
    );
    assert!(matches!(
        name_from_repo_url("https://h/"),
        Err(Error::UnnamedUrl(url)) if url == "https://h/"
    ));
    // What stands in a query names nothing.
    assert!(matches!(
        name_from_repo_url("https://example.com?next=/a/b"),
        Err(Error::UnnamedUrl(url)) if url == "https://example.com?next=/a/b"
    ));
    assert!(matches!(
        name_from_repo_url("https://h/./..."),
        Err(Error::UnnamedUrlBecause { url, name }) if url == "https://h/./..." && name == ".-..."
    ));
}

#[test]
fn a_local_directory_is_called_by_its_last_component() {
    let name = |p: &str| basename_name(&path(p)).map_err(|err| err.message());
    assert_eq!(name("/srv/thing"), Ok("thing".to_string()));
    assert_eq!(name("/srv/thing/"), Ok("thing".to_string()));
    assert_eq!(name("/srv/thing.git"), Ok("thing".to_string()));
    assert_eq!(name("/srv/My Thing"), Ok("My-Thing".to_string()));
    assert_eq!(
        name("/"),
        Err("cannot work out a project name from /".to_string())
    );
    assert_eq!(
        name("/srv/.git"),
        Err("invalid project name \"\"".to_string())
    );
    let worktree = Source(Kind::Worktree(path("/src/try")));
    assert_eq!(worktree.name().unwrap(), "try");
    let link = Source(Kind::Link(path("/home/ada/scratch")));
    assert_eq!(link.name().unwrap(), "scratch");
}

// ---------------------------------------------------------------------------
// Pull requests
// ---------------------------------------------------------------------------

#[test]
fn a_pull_request_is_read_out_of_its_page() {
    let request = parse_request("https://github.com/tobi/try/pull/139").unwrap();
    assert_eq!(request.repo_url, "https://github.com/tobi/try");
    assert_eq!(request.remote_ref, "refs/pull/139/head");
    assert_eq!(request.branch, "pr-139");
    assert_eq!(request.name, "tobi-try-pr-139");

    let request = parse_request(
        "HTTP://gitlab.com/group/sub/repo/-/merge_requests/007/diffs?tab=1#note",
    )
    .unwrap();
    assert_eq!(request.repo_url, "http://gitlab.com/group/sub/repo");
    assert_eq!(request.remote_ref, "refs/merge-requests/7/head");
    assert_eq!(request.branch, "mr-7");
    assert_eq!(request.name, "sub-repo-mr-7");
}

#[test]
fn the_marker_comes_after_a_host_an_owner_and_a_repository() {
    for arg in [
        "https://github.com/pull/123",
        "https://github.com/ada/pull/123",
        "https://github.com/ada/try/pull",
        "https://github.com/ada/try/pull/",
        "https://github.com/ada/try/pull/abc",
        "https://github.com/ada/try/pull/-1",
        "https://github.com/ada/try/pull/4294967296",
        "https://github.com/ada/try/issues/3",
        "https://gitlab.com/ada/try/-/issues/3",
        "https://gitlab.com/ada/try/-",
        "https://gitlab.com/ada/try/merge_requests/3",
        "ssh://github.com/ada/try/pull/3",
        "git@github.com:ada/try/pull/3",
        "https://github.com/ada/try?x=/pull/3",
    ] {
        assert!(parse_request(arg).is_none(), "{arg}");
    }
    // The repository may itself be called by a marker.
    let request = parse_request("https://github.com/ada/pull/pull/5").unwrap();
    assert_eq!(request.name, "ada-pull-pr-5");
    let request = parse_request("https://github.com/ada/try/pull/+5").unwrap();
    assert_eq!(request.branch, "pr-5");
}

/// A query, a fragment and the rest of the path make no difference.
#[test]
fn what_follows_the_number_of_a_request_is_ignored() {
    for page in [
        "https://github.com/tobi/try/pull/139",
        "HTTP://github.com//tobi/try///pull/+0139/",
        "https://gitlab.com/group/sub/repo/-/merge_requests/7",
        "https://github.com/tobi/try/pull/139?tab=files",
    ] {
        let plain = parse_request(page).unwrap();
        for tail in ["?x", "?x=/pull/3", "#note", "/", "/files", "/files?w=1#diff", "/pull/4"] {
            let request = parse_request(&format!("{page}{tail}")).unwrap();
            assert_eq!(request.repo_url, plain.repo_url, "{page}{tail}");
            assert_eq!(request.remote_ref, plain.remote_ref, "{page}{tail}");
            assert_eq!(request.branch, plain.branch, "{page}{tail}");
            assert_eq!(request.name, plain.name, "{page}{tail}");
        }
    }
}

/// The repository of a request is cloned, and so must not be a request itself.
#[test]
fn the_repository_of_a_request_is_no_request() {
    for page in [
        "https://github.com/tobi/try/pull/139",
        "https://github.com/ada/pull/pull/5/pull/6",
        "http://gitlab.com/group/-/repo/-/merge_requests/7",
    ] {
        let request = parse_request(page).unwrap();
        assert!(parse_request(&request.repo_url).is_none(), "{page}");
        let repo = name_from_repo_url(&request.repo_url).unwrap();
        assert_eq!(request.name, format!("{repo}-{}", request.branch), "{page}");
    }
}

// ---------------------------------------------------------------------------
// Resolving
// ---------------------------------------------------------------------------

#[test]
fn remote_sources_are_known_from_the_argument() {
    assert!(matches!(
        remote("https://h/ada/try.git").0,
        Kind::Clone(url) if url == "https://h/ada/try.git"
    ));
    assert!(matches!(remote("git@h:x").0, Kind::Clone(url) if url == "git@h:x"));
    assert!(matches!(
        remote("https://h/ada/try/pull/3").0,
        Kind::Request(request) if request.name == "ada-try-pr-3"
    ));
    assert!(resolve("https://h/x").ask().is_none());
}

#[test]
fn a_file_url_is_refused() {
    match resolve("FILE:///srv/x").stage {
        Stage::Failed(err) => assert_eq!(
            err.message(),
            "point at the path directly rather than through a file:// URL"
        ),
        _ => panic!("a file URL is no source"),
    }
}

#[test]
fn a_directory_in_a_repository_becomes_a_worktree_of_it() {
    let mut resolver = resolve("../");
    assert_eq!(told(&resolver.ask().unwrap()), "look ../");
    resolver.answer(seen("/src/try/src", true, false));
    assert_eq!(
        told(&resolver.ask().unwrap()),
        "query -C /src/try/src rev-parse --show-toplevel"
    );
    resolver.answer(said(true, " /src/try\n"));
    assert!(resolver.ask().is_none());
    match resolver.stage {
        Stage::Done(source) => {
            assert_eq!(source.name().unwrap(), "try");
            assert!(matches!(source.0, Kind::Worktree(root) if root.display() == "/src/try"));
        }
        _ => panic!("a repository is a source"),
    }
}

#[test]
fn a_bare_repository_is_its_own_root() {
    let mut resolver = resolve("~/thing.git");
    assert_eq!(told(&resolver.ask().unwrap()), "look /home/ada/thing.git");
    resolver.answer(seen("/home/ada/thing.git", true, false));
    resolver.answer(said(false, ""));
    assert_eq!(
        told(&resolver.ask().unwrap()),
        "query -C /home/ada/thing.git rev-parse --is-bare-repository"
    );
    resolver.answer(said(true, "true\n"));
    match resolver.stage {
        Stage::Done(source) => {
            assert_eq!(source.name().unwrap(), "thing");
            assert!(matches!(source.0, Kind::Worktree(_)));
        }
        _ => panic!("a bare repository is a source"),
    }
}

#[test]
fn any_other_directory_is_linked() {
    for (top, bare) in [
        (said(false, "/x"), said(false, "true")),
        (said(true, " \n"), said(true, "false\n")),
    ] {
        let mut resolver = resolve("/home/ada/scratch");
        resolver.answer(seen("/home/ada/scratch", true, true));
        resolver.answer(top);
        resolver.answer(bare);
        match resolver.stage {
            Stage::Done(source) => {
                assert!(matches!(source.0, Kind::Link(target) if target.display() == "/home/ada/scratch"));
            }
            _ => panic!("a directory is a source"),
        }
    }
}

fn failure(arg: &str, replies: Vec<Reply>) -> String {
    let mut resolver = resolve(arg);
    for reply in replies {
        resolver.answer(reply);
    }
    assert!(resolver.ask().is_none());
    match resolver.stage {
        Stage::Failed(err) => {
            assert_eq!(err.exit_code(), 1);
            err.message()
        }
        _ => panic!("{arg} was resolved"),
    }
}

#[test]
fn what_is_wrong_with_a_local_source_is_said() {
    let at = |sight: Sight| {
        vec![Reply::Seen {
            path: path("/x"),
            sight,
        }]
    };
    assert_eq!(failure("./x", at(Sight::Missing)), "no such path: ./x");
    assert_eq!(
        failure("./x", at(Sight::Unreadable("Permission denied".to_string()))),
        "cannot read ./x: Permission denied"
    );
    assert_eq!(
        failure("./x", vec![seen("/x", false, true)]),
        "./x is a broken symlink"
    );
    assert_eq!(
        failure("./x", vec![seen("/x", false, false)]),
        "./x is not a directory"
    );
    assert_eq!(
        failure(
            "./x",
            vec![Reply::Unresolved {
                shown: "\"./x\"".to_string(),
                cause: "no working directory".to_string(),
            }]
        ),
        "cannot resolve \"./x\": no working directory"
    );
    assert_eq!(
        failure("./x", vec![seen("/x", true, false), Reply::Said(Said::Missing)]),
        "git is required, but it is not on PATH"
    );
    assert_eq!(
        failure(
            "./x",
            vec![
                seen("/x", true, false),
                said(false, ""),
                Reply::Said(Said::Unrunnable("broken".to_string())),
            ]
        ),
        "cannot run git: broken"
    );
    match Source::resolve("~/x", None).stage {
        Stage::Failed(err) => assert!(matches!(err, Error::HomeUnset)),
        _ => panic!("there is no home"),
    }
}

// ---------------------------------------------------------------------------
// git
// ---------------------------------------------------------------------------

#[test]
fn a_line_of_git_is_trimmed() {
    let output = |success: bool, stdout: &[u8]| {
        one_line(Said::Output {
            success,
            stdout: stdout.to_vec(),
        })
        .unwrap()
    };
    assert_eq!(output(true, b"  a b \n"), Some("a b".to_string()));
    assert_eq!(output(true, b"\xff\n"), Some("\u{fffd}".to_string()));
    assert_eq!(output(true, b" \n"), None);
    assert_eq!(output(false, b"x"), None);
    let root = |top: Option<&str>, bare: Option<&str>| {
        repo_root(&path("/p"), top.map(String::from), bare.map(String::from)).map(|r| r.display())
    };
    assert_eq!(root(Some("/top"), None), Some("/top".to_string()));
    assert_eq!(root(Some("/top"), Some("true")), Some("/top".to_string()));
    assert_eq!(root(None, Some("true")), Some("/p".to_string()));
    assert_eq!(root(None, Some("false")), None);
    assert_eq!(root(None, None), None);
}

#[test]
fn how_git_ended_is_said() {
    let told = |exit: Exit| run("git clone x", exit).map_err(|err| err.message());
    assert_eq!(told(Exit::Code(0)), Ok(()));
    assert_eq!(
        told(Exit::Code(128)),
        Err("git clone x failed with exit code 128".to_string())
    );
    assert_eq!(
        told(Exit::Code(-1)),
        Err("git clone x failed with exit code -1".to_string())
    );
    assert_eq!(
        told(Exit::Signal),
        Err("git clone x was killed by a signal".to_string())
    );
    assert_eq!(
        told(Exit::Missing),
        Err("git is required, but it is not on PATH".to_string())
    );
    assert_eq!(
        told(Exit::Unrunnable("oops".to_string())),
        Err("cannot run git: oops".to_string())
    );
}

// ---------------------------------------------------------------------------
// Filling a directory
// ---------------------------------------------------------------------------

#[test]
fn a_repository_is_cloned() {
    let creation = remote("https://h/ada/try.git").create_at(&path("/r/ada-try"));
    let (steps, outcome) = play(creation, vec![exit(0)]);
    assert_eq!(
        steps,
        ["[git clone https://h/ada/try.git] git clone https://h/ada/try.git /r/ada-try"]
    );
    assert_eq!(outcome, Ok(()));
}

#[test]
fn a_request_is_cloned_fetched_and_switched_to() {
    let creation = remote("https://h/ada/try/pull/3").create_at(&path("/r/x"));
    let (steps, outcome) = play(creation, vec![exit(0), exit(0), exit(0)]);
    assert_eq!(
        steps,
        [
            "[git clone https://h/ada/try] git clone https://h/ada/try /r/x",
            "[git fetch refs/pull/3/head] git -C /r/x fetch origin refs/pull/3/head:pr-3",
            "[git switch pr-3] git -C /r/x switch pr-3",
        ]
    );
    assert_eq!(outcome, Ok(()));
}

#[test]
fn a_worktree_is_added_detached() {
    let creation = Source(Kind::Worktree(path("/src/try"))).create_at(&path("/r/try"));
    let (steps, outcome) = play(creation, vec![exit(0)]);
    assert_eq!(
        steps,
        [
            "quietly git -C /src/try worktree prune",
            "[git worktree add /r/try] git -C /src/try worktree add --detach /r/try",
        ]
    );
    assert_eq!(outcome, Ok(()));
}

#[test]
fn a_directory_is_symlinked() {
    let link = Source(Kind::Link(path("/home/ada/scratch")));
    let (steps, outcome) = play(link.create_at(&path("/r/scratch")), vec![Reply::Made(Ok(()))]);
    assert_eq!(steps, ["ln -s /home/ada/scratch /r/scratch"]);
    assert_eq!(outcome, Ok(()));

    let failed = vec![Reply::Made(Err("File exists".to_string()))];
    let (steps, outcome) = play(link.create_at(&path("/r/scratch")), failed);
    assert_eq!(
        steps,
        [
            "ln -s /home/ada/scratch /r/scratch",
            "rm /r/scratch",
            "rm -r /r/scratch",
        ]
    );
    assert_eq!(
        outcome,
        Err("cannot link /r/scratch to /home/ada/scratch: File exists".to_string())
    );
}

/// A half-made project never takes a name, whichever step failed.
#[test]
fn a_failed_creation_is_removed() {
    let request = remote("https://h/ada/try/pull/3");
    for failing in 0..3 {
        let mut answers: Vec<Reply> = (0..failing).map(|_| exit(0)).collect();
        answers.push(exit(1));
        let (steps, outcome) = play(request.create_at(&path("/r/x")), answers);
        assert_eq!(steps.len(), failing + 3);
        assert_eq!(steps[failing + 1], "rm /r/x");
        assert_eq!(steps[failing + 2], "rm -r /r/x");
        let what = ["git clone https://h/ada/try", "git fetch refs/pull/3/head", "git switch pr-3"];
        assert_eq!(
            outcome,
            Err(format!("{} failed with exit code 1", what[failing]))
        );
    }

    let worktree = Source(Kind::Worktree(path("/src/try"))).create_at(&path("/r/try"));
    let (steps, outcome) = play(worktree, vec![Reply::Exit(Exit::Signal)]);
    assert_eq!(
        steps[2..],
        [
            "rm /r/try",
            "rm -r /r/try",
            "quietly git -C /src/try worktree prune",
        ]
    );
    assert_eq!(
        outcome,
        Err("git worktree add /r/try was killed by a signal".to_string())
    );
}
