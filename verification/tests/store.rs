//! The project root and the directories inside it.

use trydir::error::Error;
use trydir::paths::FilePath;
use trydir::store::{clean_name, Entry, Listing, Meta, Project, Store};

#[test]
fn a_plain_name_is_left_alone() {
    assert_eq!(clean_name("redis").unwrap(), "redis");
    assert_eq!(clean_name("My Project").unwrap(), "My-Project");
    assert_eq!(clean_name("try_2").unwrap(), "try_2");
    assert_eq!(clean_name("réseau").unwrap(), "réseau");
}

#[test]
fn separators_become_dashes() {
    assert_eq!(clean_name("a/b").unwrap(), "a-b");
    assert_eq!(clean_name("a\\b").unwrap(), "a-b");
    assert_eq!(clean_name("a:b").unwrap(), "a-b");
    assert_eq!(clean_name("a b").unwrap(), "a-b");
    assert_eq!(clean_name("a\tb").unwrap(), "a-b");
}

#[test]
fn runs_of_separators_collapse() {
    assert_eq!(clean_name("a // b").unwrap(), "a-b");
    assert_eq!(clean_name("a---b").unwrap(), "a-b");
}

#[test]
fn leading_and_trailing_dashes_and_dots_are_dropped() {
    assert_eq!(clean_name("  redis  ").unwrap(), "redis");
    assert_eq!(clean_name("/redis/").unwrap(), "redis");
    assert_eq!(clean_name("--redis--").unwrap(), "redis");
    assert_eq!(clean_name(".redis").unwrap(), "redis");
    assert_eq!(clean_name("redis.git").unwrap(), "redis.git");
    assert_eq!(clean_name("redis.").unwrap(), "redis");
}

/// A name that cleans down to nothing would be a project directory with no
/// name, or worse, the root itself.
#[test]
fn a_name_that_is_all_separators_is_rejected() {
    for raw in ["", "   ", "/", "///", "---", "...", "./", "../"] {
        let err: Error = clean_name(raw).unwrap_err();
        let err = err.message();
        assert!(err.contains("invalid project name"), "{raw:?}: {err}");
    }
}

fn path(s: &str) -> FilePath {
    FilePath::from_text(s)
}

fn root_of(try_path: Option<&str>, home: Option<&str>) -> Result<String, Error> {
    let home = home.map(path);
    Store::open(try_path, home.as_ref()).map(|store| store.root().display())
}

fn store_at(root: &str) -> Store {
    Store::at(path(root))
}

fn dir(mtime: Option<i128>) -> Option<Meta> {
    Some(Meta {
        is_dir: true,
        is_symlink: false,
        modified: mtime,
    })
}

fn file() -> Option<Meta> {
    Some(Meta {
        is_dir: false,
        is_symlink: false,
        modified: Some(7),
    })
}

fn link(mtime: Option<i128>) -> Option<Meta> {
    Some(Meta {
        is_dir: false,
        is_symlink: true,
        modified: mtime,
    })
}

fn entry(name: &str, target: Option<Meta>, link: Option<Meta>) -> Result<Entry, String> {
    Ok(Entry {
        name: path(name),
        target,
        link,
    })
}

/// A directory that is no symlink.
fn plain(name: &str, mtime: Option<i128>) -> Result<Entry, String> {
    entry(name, dir(mtime), dir(mtime))
}

fn listed(entries: Vec<Result<Entry, String>>) -> Vec<Project> {
    store_at("/srv/projects")
        .list(Listing::Entries(entries))
        .unwrap()
}

fn names(projects: &[Project]) -> Vec<&str> {
    projects.iter().map(|p| p.name.as_str()).collect()
}

#[test]
fn store_the_root_defaults_to_try_under_home() {
    assert_eq!(root_of(None, Some("/home/ada")).unwrap(), "/home/ada/try");
}

#[test]
fn try_path_names_the_root() {
    assert_eq!(
        root_of(Some("/srv/projects"), Some("/home/ada")).unwrap(),
        "/srv/projects"
    );
}

#[test]
fn try_path_is_expanded_and_trimmed() {
    assert_eq!(
        root_of(Some("  ~/work  "), Some("/home/ada")).unwrap(),
        "/home/ada/work"
    );
}

/// An empty or blank TRY_PATH is someone unsetting it clumsily, not a request
/// to use the current directory.
#[test]
fn a_blank_try_path_falls_back_to_the_default() {
    assert_eq!(
        root_of(Some("   "), Some("/home/ada")).unwrap(),
        "/home/ada/try"
    );
    assert_eq!(
        root_of(Some(""), Some("/home/ada")).unwrap(),
        "/home/ada/try"
    );
}

/// The root is where projects will go; it does not have to be there yet.
#[test]
fn opening_does_not_require_the_root_to_exist() {
    assert!(root_of(Some("/nowhere/at/all"), Some("/home/ada")).is_ok());
}

#[test]
fn a_root_that_needs_a_home_fails_without_one() {
    for (try_path, home) in [
        (None, None),
        (None, Some("")),
        (Some("~"), None),
        (Some("~/x"), Some("")),
        (Some("  "), None),
    ] {
        assert!(
            matches!(root_of(try_path, home), Err(Error::HomeUnset)),
            "{try_path:?} {home:?}"
        );
    }
    assert_eq!(root_of(Some("/srv"), None).unwrap(), "/srv");
    assert_eq!(root_of(Some("~ada"), None).unwrap(), "~ada");
    assert_eq!(
        Error::HomeUnset.message(),
        "cannot determine home directory: HOME is unset"
    );
}

/// Only a root that was named may have been typed as a relative path.
#[test]
fn a_named_root_is_told_from_the_default_one() {
    let home = path("/home/ada");
    assert!(Store::open(Some(" work "), Some(&home)).unwrap().named);
    assert!(!Store::open(Some("  "), Some(&home)).unwrap().named);
    assert!(!Store::open(None, Some(&home)).unwrap().named);
}

#[test]
fn find_returns_an_existing_project() {
    let store = store_at("/srv/projects");
    assert_eq!(
        store.find("redis", true).map(|p| p.display()),
        Some("/srv/projects/redis".to_string())
    );
}

#[test]
fn find_returns_nothing_for_a_name_that_is_not_there() {
    assert!(store_at("/srv/projects").find("redis", false).is_none());
}

/// A broken symlink is still a name that is taken, so entering it is better
/// than silently cloning over it.
#[test]
fn find_counts_a_broken_symlink() {
    assert_eq!(
        store_at("/srv/projects").find("ghost", true).map(|p| p.bytes),
        Some(b"/srv/projects/ghost".to_vec())
    );
}

#[test]
fn reserve_makes_the_root_but_not_the_project() {
    let store = store_at("/srv/root");
    let made = store.reserve("redis", Ok(())).unwrap();
    assert_eq!(made.display(), "/srv/root/redis");
    let err = store
        .reserve("redis", Err("Permission denied (os error 13)".to_string()))
        .err()
        .unwrap();
    assert_eq!(
        err.message(),
        "cannot create /srv/root: Permission denied (os error 13)"
    );
}

#[test]
fn create_empty_makes_the_project_directory() {
    let made = store_at("/srv/root").create_empty("notes", Ok(()), Ok(()));
    assert_eq!(made.ok().unwrap().display(), "/srv/root/notes");
}

#[test]
fn create_empty_fails_when_the_name_is_taken() {
    let store = store_at("/srv/projects");
    assert!(store.create_empty("notes", Ok(()), Ok(())).is_ok());
    let taken = Err("File exists (os error 17)".to_string());
    let err = store.create_empty("notes", Ok(()), taken).err().unwrap();
    assert_eq!(
        err.message(),
        "cannot create /srv/projects/notes: File exists (os error 17)"
    );
    let err = store
        .create_empty("notes", Err("read-only".to_string()), Err("x".to_string()))
        .err()
        .unwrap();
    assert_eq!(err.message(), "cannot create /srv/projects: read-only");
}

/// Nothing has been created yet, which is not an error: there are simply no
/// projects.
#[test]
fn listing_a_root_that_is_not_there_finds_nothing() {
    let store = store_at("/srv/root");
    assert!(store.list(Listing::Missing).ok().unwrap().is_empty());
}

#[test]
fn listing_finds_directories_only() {
    let projects = listed(vec![
        plain("redis", Some(1)),
        entry("notes.txt", file(), file()),
        plain(".hidden", Some(2)),
        entry(".dotfile", file(), file()),
    ]);
    assert_eq!(names(&projects), vec!["redis".to_string()]);
}

#[test]
fn listing_follows_a_symlinked_project() {
    let projects = listed(vec![entry("linked", dir(Some(3)), link(Some(9)))]);
    assert_eq!(projects.len(), 1);
    assert_eq!(projects[0].name, "linked");
    assert_eq!(projects[0].mtime, Some(3), "the time of what it leads to");
}

/// A broken link is listed rather than dropped, so it is visible as something
/// to fix instead of quietly missing.
#[test]
fn listing_keeps_a_broken_symlink() {
    let projects = listed(vec![
        entry("ghost", None, link(Some(2))),
        entry("gone.txt", None, link(Some(1))),
        entry("vanished", None, None),
        entry("odd", None, dir(Some(3))),
    ]);
    let mut found = names(&projects);
    found.sort();
    assert_eq!(found, vec!["ghost".to_string(), "gone.txt".to_string()]);
    assert_eq!(projects[0].mtime, Some(2), "the time of the link itself");
}

#[test]
fn listing_puts_the_most_recent_first() {
    let projects = listed(vec![
        plain("old", Some(1_000)),
        plain("newest", Some(3_000)),
        plain("middle", Some(2_000)),
    ]);
    assert_eq!(names(&projects), vec!["newest", "middle", "old"]);
}

/// Directory order is whatever the filesystem feels like, so projects touched
/// at the same moment need a tiebreak of their own.
#[test]
fn projects_of_the_same_age_are_ordered_by_name() {
    let projects = listed(vec![
        plain("charlie", Some(1_000)),
        plain("alpha", Some(1_000)),
        plain("bravo", Some(1_000)),
    ]);
    assert_eq!(names(&projects), vec!["alpha", "bravo", "charlie"]);
}

#[test]
fn a_listed_project_carries_its_path_and_time() {
    let projects = listed(vec![plain("redis", Some(1_234_000_000_000))]);
    assert_eq!(projects[0].path.display(), "/srv/projects/redis");
    assert_eq!(projects[0].mtime, Some(1_234_000_000_000));
}

#[test]
fn undated_projects_come_last() {
    let projects = listed(vec![
        plain("nowhen", None),
        plain("before", Some(-5)),
        plain("anytime", None),
        plain("after", Some(5)),
    ]);
    assert_eq!(names(&projects), vec!["after", "before", "anytime", "nowhen"]);
}

/// The same entries in another order are listed alike.
#[test]
fn the_order_of_the_directory_does_not_show() {
    let all = [
        ("a", Some(1)),
        ("b", Some(2)),
        ("c", Some(1)),
        ("B", None),
        ("é", None),
        ("bb", Some(2)),
    ];
    let first = listed(all.iter().map(|(n, t)| plain(n, *t)).collect());
    let second = listed(all.iter().rev().map(|(n, t)| plain(n, *t)).collect());
    assert_eq!(names(&first), names(&second));
    assert_eq!(names(&first), vec!["b", "bb", "a", "c", "B", "é"]);
}

#[test]
fn a_root_that_cannot_be_read_is_reported() {
    let store = store_at("/srv/projects");
    let err = store
        .list(Listing::Unreadable("Permission denied".to_string()))
        .err()
        .unwrap();
    assert_eq!(
        err.message(),
        "cannot read /srv/projects: Permission denied"
    );
    let err = store
        .list(Listing::Entries(vec![
            plain("redis", Some(1)),
            Err("first".to_string()),
            Err("second".to_string()),
        ]))
        .err()
        .unwrap();
    assert_eq!(err.message(), "cannot read /srv/projects: first");
}

/// File names are bytes, and a name that is no text is still listed.
#[test]
fn a_name_that_is_no_text_is_shown_as_far_as_it_goes() {
    let odd = Entry {
        name: FilePath {
            bytes: vec![b'a', 0xff, b'z'],
        },
        target: dir(Some(1)),
        link: dir(Some(1)),
    };
    let projects = listed(vec![Ok(odd)]);
    assert_eq!(projects[0].name, "a\u{fffd}z");
    assert_eq!(projects[0].path.bytes, b"/srv/projects/a\xffz");
}

// ---------------------------------------------------------------------------
// Names
// ---------------------------------------------------------------------------

#[test]
fn cleaning_a_name_twice_is_cleaning_it_once() {
    for raw in ["My Notes", "--a..b--", " . x - y . ", "~x", "a:-/b", "été\u{3000}2"] {
        let once = clean_name(raw).unwrap();
        assert_eq!(clean_name(&once).unwrap(), once, "{raw:?}");
    }
}

#[test]
fn the_names_in_the_documentation_come_out_as_it_says() {
    assert_eq!(clean_name("my cool idea").unwrap(), "my-cool-idea");
    assert_eq!(clean_name("a.-.b").unwrap(), "a.-.b");
    assert_eq!(clean_name("-.-a-.-").unwrap(), "a");
    assert_eq!(clean_name("\u{a0}a\u{2003}\u{85}b\u{a0}").unwrap(), "a-b");
}

#[test]
fn an_invalid_name_is_quoted() {
    assert_eq!(
        clean_name("..\t").unwrap_err().message(),
        "invalid project name \"..\\t\""
    );
}

#[test]
fn different_names_are_different_paths() {
    let store = store_at("/srv/projects");
    assert_eq!(store.project("a").display(), "/srv/projects/a");
    assert_eq!(store.project("b").display(), "/srv/projects/b");
    assert_eq!(store_at("/").project("a").display(), "/a");
    assert_eq!(
        store.project("a").file_name().unwrap().display(),
        "a",
        "a direct child of the root"
    );
}
