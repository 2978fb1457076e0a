//! Paths, compared with what the standard library makes of the same ones.

use std::path::Path;

use trydir::error::Error;
use trydir::paths::{expand, home, same_bytes, tildify, FilePath};

fn path(s: &str) -> FilePath {
    FilePath::from_text(s)
}

const PATHS: [&str; 27] = [
    "", "/", "//", ".", "./", "..", "../", "a", "a/", "/a", "/a/", "a/b", "a//b", "a/./b", "./a",
    "/./a", "a/.", "a/..", "/..", "a/../b", ".a", "..a", "/a/b.git", "/home/ada/try", "./.", "a/./",
    "réseau/日本",
];

#[test]
fn joining_agrees_with_the_standard_library() {
    for base in PATHS {
        for rest in PATHS {
            let expected = Path::new(base).join(rest);
            assert_eq!(
                path(base).join(&path(rest)).display(),
                expected.to_str().unwrap(),
                "{base:?} {rest:?}"
            );
        }
    }
}

#[test]
fn the_last_component_agrees_with_the_standard_library() {
    for p in PATHS {
        let expected = Path::new(p).file_name().map(|n| n.to_str().unwrap().to_string());
        assert_eq!(path(p).file_name().map(|n| n.display()), expected, "{p:?}");
        assert_eq!(
            path(p).find_components().len(),
            Path::new(p).components().count(),
            "{p:?}"
        );
    }
}

#[test]
fn shortening_agrees_with_the_standard_library() {
    for h in PATHS {
        for p in PATHS {
            let (whole, base) = (Path::new(p), Path::new(h));
            let expected = if h.is_empty() {
                p.to_string()
            } else if whole == base {
                "~".to_string()
            } else {
                match whole.strip_prefix(base) {
                    Ok(rest) => format!("~/{}", rest.display()),
                    Err(_) => p.to_string(),
                }
            };
            assert_eq!(tildify(&path(p), Some(&path(h))), expected, "{p:?} {h:?}");
        }
    }
}

#[test]
fn a_path_is_shortened_at_a_boundary_only() {
    let home = path("/Users/jamie");
    let show = |p: &str| tildify(&path(p), Some(&home));
    assert_eq!(show("/Users/jamie"), "~");
    assert_eq!(show("/Users/jamie/"), "~");
    assert_eq!(show("/Users/jamie/try/redis"), "~/try/redis");
    assert_eq!(show("/Users/jamie/try//redis/"), "~/try//redis");
    assert_eq!(show("/Users/jamies"), "/Users/jamies");
    assert_eq!(show("/Users/james"), "/Users/james");
    assert_eq!(show("/Users"), "/Users");
    assert_eq!(tildify(&path("/x"), None), "/x");
    assert_eq!(tildify(&path("/x"), Some(&path(""))), "/x");
}

#[test]
fn a_tilde_stands_for_the_home_directory() {
    let ada = path("/home/ada");
    let expanded = |raw: &str| expand(raw, Some(&ada)).unwrap().display();
    assert_eq!(expanded("~"), "/home/ada");
    assert_eq!(expanded("~/work"), "/home/ada/work");
    assert_eq!(expanded("~/"), "/home/ada/");
    assert_eq!(expanded("~//etc"), "/etc");
    assert_eq!(expanded("~ada"), "~ada");
    assert_eq!(expanded("./~"), "./~");
    assert_eq!(expanded(""), "");
    assert!(matches!(expand("~", None), Err(Error::HomeUnset)));
    assert!(matches!(expand("~/x", Some(&path(""))), Err(Error::HomeUnset)));
    assert_eq!(expand("x", None).unwrap().display(), "x");
}

/// What is shown of an absolute path can be typed.
#[test]
fn expanding_what_is_shown_gives_the_path_back() {
    for h in ["", "/", "/home/ada", "/home//ada/.", "/home/ada/", "ada", "."] {
        let home = path(h);
        for p in [
            "/", "//", "/home/ada", "/home/ada/", "/home/ada/try", "/home/ada//try/./redis/",
            "/home/./ada/réseau/日本", "/home/adam", "/etc", "/home/ada/..", "/~/x", "/home/ada/~",
        ] {
            let shown = tildify(&path(p), Some(&home));
            let back = expand(&shown, Some(&home)).unwrap().display();
            assert_eq!(Path::new(&back), Path::new(p), "{h:?} {p:?} {shown:?}");
        }
    }
    let shown = tildify(&path("/home/ada/try"), None);
    assert_eq!(expand(&shown, None).unwrap().display(), "/home/ada/try");
}

#[test]
fn an_empty_home_is_no_home() {
    assert_eq!(home(Some(&path("/home/ada"))).unwrap().display(), "/home/ada");
    assert!(matches!(home(Some(&path(""))), Err(Error::HomeUnset)));
    assert!(matches!(home(None), Err(Error::HomeUnset)));
}

#[test]
fn bytes_that_are_no_text_are_shown_as_far_as_they_go() {
    let odd = FilePath {
        bytes: b"/h/\xff\xfea/\xe2\x82".to_vec(),
    };
    assert_eq!(odd.display(), String::from_utf8_lossy(&odd.bytes));
    assert_eq!(odd.display(), "/h/\u{fffd}\u{fffd}a/\u{fffd}");
    assert_eq!(tildify(&odd, Some(&path("/h"))), "~/\u{fffd}\u{fffd}a/\u{fffd}");
    assert!(same_bytes(b"ab", b"ab"));
    assert!(!same_bytes(b"ab", b"a"));
    assert!(!same_bytes(b"ab", b"ac"));
}
