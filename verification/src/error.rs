//! Everything that can go wrong, and how it is said.

use crate::number::{push_signed, signed};
use crate::text::{debug_of, debug_text};
use vstd::prelude::*;

verus! {

/// Why a command failed. A `cause` is what the operating system said.
#[derive(Debug)]
pub enum Error {
    /// The name cleans down to nothing.
    InvalidName(String),
    /// The URL has no path to take a name from.
    UnnamedUrl(String),
    /// The path of the URL cleans down to nothing.
    UnnamedUrlBecause { url: String, name: String },
    /// The path has no last component.
    UnnamedPath(String),
    /// A `file://` URL.
    FileUrl,
    /// Nothing is at the path.
    NoSuchPath(String),
    /// The path, or the project root, cannot be read.
    Unreadable { what: String, cause: String },
    /// The path is something other than a directory.
    NotADirectory(String),
    /// The path is a symlink to nothing.
    BrokenLink(String),
    /// `HOME` is needed and says nothing.
    HomeUnset,
    /// The path cannot be made absolute.
    Unresolvable { path: String, cause: String },
    /// The two arguments stand the wrong way round.
    SourceFirst { first: String, second: String },
    /// The second of two arguments is no source.
    NotASource { first: String, second: String },
    /// More than two arguments.
    TooMany,
    /// There is nothing to browse.
    NoProjects(String),
    /// The picker has nothing to draw on.
    NoTerminal,
    /// The picker was dismissed.
    Canceled,
    /// There is no shell function for this shell.
    UnsupportedShell(String),
    /// git is not installed.
    GitMissing,
    /// git could not be started.
    GitUnrunnable(String),
    /// git said no.
    GitFailed { what: String, code: i32 },
    /// git was stopped.
    GitKilled(String),
    /// A directory cannot be created.
    Uncreatable { path: String, cause: String },
    /// A symlink cannot be created.
    Unlinkable { path: String, target: String, cause: String },
}

impl Error {
    /// What the user is told.
    pub open spec fn text(self) -> Seq<char> {
        match self {
            Error::InvalidName(raw) => "invalid project name "@ + debug_text(raw@),
            Error::UnnamedUrl(url) => "cannot work out a project name from "@ + debug_text(url@),
            Error::UnnamedUrlBecause { url, name } => "cannot work out a project name from "@
                + debug_text(url@) + ": invalid project name "@ + debug_text(name@),
            Error::UnnamedPath(path) => "cannot work out a project name from "@ + path@,
            Error::FileUrl => "point at the path directly rather than through a file:// URL"@,
            Error::NoSuchPath(path) => "no such path: "@ + path@,
            Error::Unreadable { what, cause } => "cannot read "@ + what@ + ": "@ + cause@,
            Error::NotADirectory(path) => path@ + " is not a directory"@,
            Error::BrokenLink(path) => path@ + " is a broken symlink"@,
            Error::HomeUnset => "cannot determine home directory: HOME is unset"@,
            Error::Unresolvable { path, cause } => "cannot resolve "@ + path@ + ": "@ + cause@,
            Error::SourceFirst { first, second } => "the source goes last: try `try "@ + second@
                + " "@ + first@ + "`\n      (a name comes first, a URL or path second)"@,
            Error::NotASource { first, second } =>
            "expected a URL or a path as the second argument, but got "@ + debug_text(second@)
                + "\n      for a multi-word name, quote it: try \""@ + first@ + " "@ + second@
                + "\""@,
            Error::TooMany =>
            "too many arguments: expected a name, a source, or a name and a source\n      for a multi-word name, quote it or join it with dashes"@,
            Error::NoProjects(root) => "no projects in "@ + root@
                + " yet — create one with: try <name>"@,
            Error::NoTerminal => "no terminal available for the picker"@,
            Error::Canceled => "canceled"@,
            Error::UnsupportedShell(shell) => "cannot generate shell integration for "@
                + debug_text(shell@) + "; supported: fish, bash, zsh"@,
            Error::GitMissing => "git is required, but it is not on PATH"@,
            Error::GitUnrunnable(cause) => "cannot run git: "@ + cause@,
            Error::GitFailed { what, code } => what@ + " failed with exit code "@ + signed(
                code as int,
            ),
            Error::GitKilled(what) => what@ + " was killed by a signal"@,
            Error::Uncreatable { path, cause } => "cannot create "@ + path@ + ": "@ + cause@,
            Error::Unlinkable { path, target, cause } => "cannot link "@ + path@ + " to "@ + target@
                + ": "@ + cause@,
        }
    }

    /// What the user is told.
    pub fn message(&self) -> (r: String)
        ensures
            r@ == self.text(),
    {
        match self {
            Error::InvalidName(raw) => "invalid project name ".to_owned().concat(&debug_of(raw)),
            Error::UnnamedUrl(url) => "cannot work out a project name from ".to_owned().concat(
                &debug_of(url),
            ),
            Error::UnnamedUrlBecause { url, name } =>
            "cannot work out a project name from ".to_owned().concat(&debug_of(url)).concat(
                ": invalid project name ",
            ).concat(&debug_of(name)),
            Error::UnnamedPath(path) => "cannot work out a project name from ".to_owned().concat(
                path,
            ),
            Error::FileUrl =>
            "point at the path directly rather than through a file:// URL".to_owned(),
            Error::NoSuchPath(path) => "no such path: ".to_owned().concat(path),
            Error::Unreadable { what, cause } => "cannot read ".to_owned().concat(what).concat(
                ": ",
            ).concat(cause),
            Error::NotADirectory(path) => path.clone().concat(" is not a directory"),
            Error::BrokenLink(path) => path.clone().concat(" is a broken symlink"),
            Error::HomeUnset => "cannot determine home directory: HOME is unset".to_owned(),
            Error::Unresolvable { path, cause } => "cannot resolve ".to_owned().concat(path).concat(
                ": ",
            ).concat(cause),
            Error::SourceFirst { first, second } =>
            "the source goes last: try `try ".to_owned().concat(second).concat(" ").concat(
                first,
            ).concat("`\n      (a name comes first, a URL or path second)"),
            Error::NotASource { first, second } =>
            "expected a URL or a path as the second argument, but got ".to_owned().concat(
                &debug_of(second),
            ).concat("\n      for a multi-word name, quote it: try \"").concat(first).concat(
                " ",
            ).concat(second).concat("\""),
            Error::TooMany =>
            "too many arguments: expected a name, a source, or a name and a source\n      for a multi-word name, quote it or join it with dashes".to_owned(),
            Error::NoProjects(root) => "no projects in ".to_owned().concat(root).concat(
                " yet — create one with: try <name>",
            ),
            Error::NoTerminal => "no terminal available for the picker".to_owned(),
            Error::Canceled => "canceled".to_owned(),
            Error::UnsupportedShell(shell) =>
            "cannot generate shell integration for ".to_owned().concat(&debug_of(shell)).concat(
                "; supported: fish, bash, zsh",
            ),
            Error::GitMissing => "git is required, but it is not on PATH".to_owned(),
            Error::GitUnrunnable(cause) => "cannot run git: ".to_owned().concat(cause),
            Error::GitFailed { what, code } => {
                let mut out = what.clone().concat(" failed with exit code ");
                push_signed(&mut out, *code as i64);
                out
            },
            Error::GitKilled(what) => what.clone().concat(" was killed by a signal"),
            Error::Uncreatable { path, cause } => "cannot create ".to_owned().concat(path).concat(
                ": ",
            ).concat(cause),
            Error::Unlinkable { path, target, cause } => "cannot link ".to_owned().concat(
                path,
            ).concat(" to ").concat(target).concat(": ").concat(cause),
        }
    }

    /// The line printed on standard error. Dismissing the picker is no failure
    /// to complain about.
    pub fn complaint(&self) -> (r: Option<String>)
        ensures
            match r {
                Some(line) => !(self is Canceled) && line@ == "try: "@ + self.text(),
                None => self is Canceled,
            },
    {
        match self {
            Error::Canceled => None,
            _ => Some("try: ".to_owned().concat(&self.message())),
        }
    }

    /// The exit code of the process.
    pub fn exit_code(&self) -> (r: i32)
        ensures
            r == (if self is Canceled {
                130int
            } else {
                1int
            }),
    {
        match self {
            Error::Canceled => 130,
            _ => 1,
        }
    }
}

/// Every failure that concerns something names it as it was given, and gives the
/// cause where there is one.
pub proof fn a_failure_names_what_it_concerns(s: String, t: String, u: String, code: i32)
    ensures
        Error::InvalidName(s).text() == "invalid project name "@ + debug_text(s@),
        Error::UnnamedUrl(s).text() == "cannot work out a project name from "@ + debug_text(s@),
        (Error::UnnamedUrlBecause { url: s, name: t }).text() == Error::UnnamedUrl(s).text() + ": "@
            + Error::InvalidName(t).text(),
        Error::UnnamedPath(s).text() == "cannot work out a project name from "@ + s@,
        Error::NoSuchPath(s).text() == "no such path: "@ + s@,
        (Error::Unreadable { what: s, cause: t }).text() == "cannot read "@ + s@ + ": "@ + t@,
        Error::NotADirectory(s).text() == s@ + " is not a directory"@,
        Error::BrokenLink(s).text() == s@ + " is a broken symlink"@,
        (Error::Unresolvable { path: s, cause: t }).text() == "cannot resolve "@ + s@ + ": "@ + t@,
        Error::GitUnrunnable(s).text() == "cannot run git: "@ + s@,
        (Error::GitFailed { what: s, code }).text() == s@ + " failed with exit code "@ + signed(
            code as int,
        ),
        Error::GitKilled(s).text() == s@ + " was killed by a signal"@,
        (Error::Uncreatable { path: s, cause: t }).text() == "cannot create "@ + s@ + ": "@ + t@,
        (Error::Unlinkable { path: s, target: t, cause: u }).text() == "cannot link "@ + s@ + " to "@
            + t@ + ": "@ + u@,
        Error::UnsupportedShell(s).text() == "cannot generate shell integration for "@ + debug_text(
            s@,
        ) + "; supported: fish, bash, zsh"@,
        (Error::SourceFirst { first: s, second: t }).text() == "the source goes last: try `try "@ + t@
            + " "@ + s@ + "`\n      (a name comes first, a URL or path second)"@,
        (Error::NotASource { first: s, second: t }).text()
            == "expected a URL or a path as the second argument, but got "@ + debug_text(t@)
            + "\n      for a multi-word name, quote it: try \""@ + s@ + " "@ + t@ + "\""@,
        Error::NoProjects(s).text() == "no projects in "@ + s@
            + " yet — create one with: try <name>"@,
{
    reveal_strlit(": ");
    reveal_strlit("invalid project name ");
    reveal_strlit(": invalid project name ");
    assert(": invalid project name "@ =~= ": "@ + "invalid project name "@);
    assert((Error::UnnamedUrlBecause { url: s, name: t }).text() =~= Error::UnnamedUrl(s).text()
        + ": "@ + Error::InvalidName(t).text());
}

} // verus!
