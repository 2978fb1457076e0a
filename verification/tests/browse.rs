//! The age of a project, in words.

use trydir::browse::{age, items_for, plural};
use trydir::paths::FilePath;
use trydir::store::Project;

#[test]
fn ages_are_told_in_words() {
    let today = 739_000;
    for (days, text) in [
        (-3, "today"),
        (0, "today"),
        (1, "yesterday"),
        (2, "2 days ago"),
        (29, "29 days ago"),
        (30, "1 month ago"),
        (59, "1 month ago"),
        (60, "2 months ago"),
        (364, "12 months ago"),
        (365, "1 year ago"),
        (729, "1 year ago"),
        (730, "2 years ago"),
        (4000, "10 years ago"),
    ] {
        assert_eq!(age(Some(today - days), today), text, "{days}");
    }
    assert_eq!(age(None, today), "");
    assert_eq!(age(Some(i32::MIN), i32::MAX), "11767033 years ago");
    assert_eq!(age(Some(i32::MAX), i32::MIN), "today");
}

#[test]
fn one_of_a_unit_is_singular() {
    assert_eq!(plural(1, "month"), "1 month ago");
    assert_eq!(plural(2, "month"), "2 months ago");
    assert_eq!(plural(0, "year"), "0 years ago");
    assert_eq!(plural(-1, "year"), "-1 years ago");
}

#[test]
fn a_row_is_a_name_and_an_age() {
    let project = |name: &str| Project {
        name: name.to_string(),
        path: FilePath::from_text(name),
        mtime: Some(5),
    };
    let rows = items_for(&[project("redis"), project("notes")], &[Some(99), None], 100);
    let rows: Vec<(&str, &str)> = rows
        .iter()
        .map(|row| (row.label.as_str(), row.hint.as_str()))
        .collect();
    assert_eq!(rows, [("redis", "yesterday"), ("notes", "")]);
}
