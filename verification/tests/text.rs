//! Text, numbers and order.

use trydir::number::{parse_u32, push_decimal, push_signed};
use trydir::order::{distinct, is_alphabetical};
use trydir::text::{
    begins_with, chars_of, drop_ending, ends_with, find_word, is_whitespace, join, part,
    replace_word, same, segments_of, string_of, trim, Edge,
};

fn cs(s: &str) -> Vec<char> {
    s.chars().collect()
}

/// Every character there is, compared with what the standard library says.
#[test]
fn white_space_is_what_unicode_says_it_is() {
    for c in '\0'..=char::MAX {
        assert_eq!(is_whitespace(c), c.is_whitespace(), "{c:?}");
    }
}

#[test]
fn trimming_takes_off_both_ends() {
    for s in ["", "  ", " a ", "a", "\t a b\u{3000}", "\u{200b}x"] {
        assert_eq!(string_of(trim(&cs(s), Edge::Blank)), s.trim(), "{s:?}");
    }
    for s in ["", "-", ".-.", "-a.", "a-.b", "..a"] {
        let expected = s.trim_matches(|c| c == '-' || c == '.');
        assert_eq!(string_of(trim(&cs(s), Edge::Mark)), expected, "{s:?}");
    }
}

#[test]
fn characters_go_in_and_come_out() {
    for s in ["", "réseau", "a\u{301}", "日本"] {
        assert_eq!(chars_of(s), cs(s));
        assert_eq!(string_of(&cs(s)), s);
    }
    assert!(same(&cs("ab"), &cs("ab")));
    assert!(!same(&cs("ab"), &cs("ac")));
    assert!(!same(&cs("ab"), &cs("a")));
}

#[test]
fn searching_agrees_with_the_standard_library() {
    for s in ["", "://", "a://b", "ab:/:///", "::://", "a:/"] {
        assert_eq!(find_word(&cs(s), "://"), s.find("://"), "{s:?}");
        assert_eq!(begins_with(&cs(s), "a:"), s.starts_with("a:"), "{s:?}");
        assert_eq!(ends_with(&cs(s), "/"), s.ends_with("/"), "{s:?}");
    }
    assert_eq!(string_of(drop_ending(&cs("x.git.git"), ".git")), "x.git");
    assert_eq!(string_of(drop_ending(&cs("xgit"), ".git")), "xgit");
    assert!(part(&cs("abc"), '@').is_none());
    let parts = cs("a@b@c");
    let (head, tail) = part(&parts, '@').unwrap();
    assert_eq!((string_of(head), string_of(tail)), ("a".to_string(), "b@c".to_string()));
}

#[test]
fn segments_leave_out_what_is_empty() {
    for s in ["", "/", "a", "/a//b/", "a/b/c", "///"] {
        let expected: Vec<Vec<char>> = s.split('/').filter(|p| !p.is_empty()).map(cs).collect();
        assert_eq!(segments_of(&cs(s)), expected, "{s:?}");
    }
    assert_eq!(join(&[cs("a"), cs(""), cs("b")], '-'), cs("a--b"));
    assert_eq!(join(&[], '-'), cs(""));
}

#[test]
fn replacing_agrees_with_the_standard_library() {
    for s in ["", "{x}", "a{x}b{x}", "{{x}", "{x", "xx"] {
        assert_eq!(replace_word(s, "{x}", "{x}!"), s.replace("{x}", "{x}!"), "{s:?}");
    }
    assert_eq!(replace_word("aaaa", "aa", "b"), "bb");
    assert_eq!(replace_word("aaa", "aa", "b"), "ba");
}

#[test]
fn numbers_are_written_as_the_standard_library_writes_them() {
    for n in [0u64, 9, 10, 109, 4_294_967_295, u64::MAX] {
        let mut out = String::from("#");
        push_decimal(&mut out, n);
        assert_eq!(out, format!("#{n}"));
    }
    for n in [i64::MIN, -10, -1, 0, 1, i64::MAX] {
        let mut out = String::new();
        push_signed(&mut out, n);
        assert_eq!(out, n.to_string());
    }
}

#[test]
fn numbers_are_read_as_the_standard_library_reads_them() {
    for s in [
        "", "0", "123", "+123", "-0", "-1", "+", "00139", "4294967295", "4294967296", "1x", "٣",
        "99999999999999999999", " 1",
    ] {
        assert_eq!(parse_u32(&cs(s)), s.parse::<u32>().ok(), "{s:?}");
    }
    for n in [0u32, 7, 123, u32::MAX] {
        let mut out = String::new();
        push_decimal(&mut out, n as u64);
        assert_eq!(parse_u32(&cs(&out)), Some(n), "what is written reads back");
    }
}

#[test]
fn text_is_ordered_as_strings_are() {
    let words = ["", "a", "ab", "b", "B", "é", "\u{ffff}", "\u{10000}", "日本"];
    for a in words {
        for b in words {
            assert_eq!(is_alphabetical(&cs(a), &cs(b)), a <= b, "{a:?} {b:?}");
        }
    }
}

#[test]
fn repeated_numbers_are_kept_once_and_in_order() {
    assert_eq!(distinct(&[3, 1, 3, 2, 1]), [1, 2, 3]);
    assert_eq!(distinct(&[]), Vec::<u32>::new());
    assert_eq!(distinct(&[u32::MAX, 0]), [0, u32::MAX]);
}
