//! What is asked of the operating system, and what it answers.
//!
//! Nothing in this library touches the disk or starts a process. Where a
//! decision needs one of these, a question goes out and an answer comes back.

use crate::order::views;
use crate::paths::FilePath;
use vstd::prelude::*;

verus! {

/// Something to find out or to do.
pub enum Ask {
    /// Make the path absolute, and look at what is there.
    Look(FilePath),
    /// Run git with these arguments and keep what it prints.
    Query(Vec<FilePath>),
    /// Tell whether anything is at the path, a broken symlink too.
    Exists(FilePath),
    /// Create the directory and those that it stands in, where missing.
    MakeAll(FilePath),
    /// Create the directory.
    MakeDir(FilePath),
    /// Run git with these arguments on the user's terminal.
    Git { what: String, args: Vec<FilePath> },
    /// Create a symlink at `path` that leads to `target`.
    Symlink { target: FilePath, path: FilePath },
    /// Run git with these arguments; whatever comes of it is ignored.
    Housekeeping(Vec<FilePath>),
    /// Remove the file, if there is one.
    RemoveFile(FilePath),
    /// Remove the directory and all that is in it, if there is one.
    RemoveAll(FilePath),
}

/// A question as bytes and characters.
pub enum AskText {
    Look(Seq<u8>),
    Query(Seq<Seq<u8>>),
    Exists(Seq<u8>),
    MakeAll(Seq<u8>),
    MakeDir(Seq<u8>),
    Git { what: Seq<char>, args: Seq<Seq<u8>> },
    Symlink { target: Seq<u8>, path: Seq<u8> },
    Housekeeping(Seq<Seq<u8>>),
    RemoveFile(Seq<u8>),
    RemoveAll(Seq<u8>),
}

impl View for Ask {
    type V = AskText;

    open spec fn view(&self) -> AskText {
        match *self {
            Ask::Look(path) => AskText::Look(path@),
            Ask::Query(args) => AskText::Query(views(args@)),
            Ask::Exists(path) => AskText::Exists(path@),
            Ask::MakeAll(path) => AskText::MakeAll(path@),
            Ask::MakeDir(path) => AskText::MakeDir(path@),
            Ask::Git { what, args } => AskText::Git { what: what@, args: views(args@) },
            Ask::Symlink { target, path } => AskText::Symlink { target: target@, path: path@ },
            Ask::Housekeeping(args) => AskText::Housekeeping(views(args@)),
            Ask::RemoveFile(path) => AskText::RemoveFile(path@),
            Ask::RemoveAll(path) => AskText::RemoveAll(path@),
        }
    }
}

/// What was seen at a path.
pub enum Sight {
    /// Nothing is there.
    Missing,
    /// It cannot be looked at, for this cause.
    Unreadable(String),
    /// Something is there. `is_dir` follows symlinks, `is_symlink` does not.
    Found { is_dir: bool, is_symlink: bool },
}

/// What git printed.
pub enum Said {
    /// git is not installed.
    Missing,
    /// git could not be started, for this cause.
    Unrunnable(String),
    /// git ran.
    Output { success: bool, stdout: Vec<u8> },
}

/// How git ended.
pub enum Exit {
    /// git is not installed.
    Missing,
    /// git could not be started, for this cause.
    Unrunnable(String),
    /// git ended with this exit code.
    Code(i32),
    /// git was stopped by a signal.
    Signal,
}

/// An answer.
pub enum Reply {
    /// To `Look`: the path cannot be made absolute. It is shown as it is quoted
    /// in the message.
    Unresolved { shown: String, cause: String },
    /// To `Look`: the absolute path, and what is there.
    Seen { path: FilePath, sight: Sight },
    /// To `Query`.
    Said(Said),
    /// To `Exists`.
    Present(bool),
    /// To `MakeAll`, `MakeDir` and `Symlink`: the cause where it failed.
    Made(Result<(), String>),
    /// To `Git`.
    Exit(Exit),
    /// To `Housekeeping`, `RemoveFile` and `RemoveAll`.
    Passed,
}

/// Whether an answer is one to this question.
pub open spec fn fits(ask: AskText, reply: Reply) -> bool {
    match ask {
        AskText::Look(_) => reply is Unresolved || reply is Seen,
        AskText::Query(_) => reply is Said,
        AskText::Exists(_) => reply is Present,
        AskText::MakeAll(_) => reply is Made,
        AskText::MakeDir(_) => reply is Made,
        AskText::Git { .. } => reply is Exit,
        AskText::Symlink { .. } => reply is Made,
        AskText::Housekeeping(_) => reply is Passed,
        AskText::RemoveFile(_) => reply is Passed,
        AskText::RemoveAll(_) => reply is Passed,
    }
}

/// Copies some paths.
pub fn copy_paths(paths: &Vec<FilePath>) -> (r: Vec<FilePath>)
    ensures
        views(r@) == views(paths@),
{
    let mut out: Vec<FilePath> = Vec::new();
    for i in 0..paths.len()
        invariant
            views(out@) == views(paths@.take(i as int)),
    {
        let ghost was = out@;
        out.push(paths[i].clone());
        proof {
            assert(views(out@) =~= views(was).push(paths@[i as int]@));
            assert(views(paths@.take(i + 1)) =~= views(paths@.take(i as int)).push(
                paths@[i as int]@,
            ));
        }
    }
    proof {
        assert(paths@.take(paths@.len() as int) =~= paths@);
    }
    out
}

impl Ask {
    /// Copies a question.
    pub fn copy(&self) -> (r: Ask)
        ensures
            r@ == self@,
    {
        match self {
            Ask::Look(path) => Ask::Look(path.clone()),
            Ask::Query(args) => Ask::Query(copy_paths(args)),
            Ask::Exists(path) => Ask::Exists(path.clone()),
            Ask::MakeAll(path) => Ask::MakeAll(path.clone()),
            Ask::MakeDir(path) => Ask::MakeDir(path.clone()),
            Ask::Git { what, args } => Ask::Git { what: what.clone(), args: copy_paths(args) },
            Ask::Symlink { target, path } => Ask::Symlink {
                target: target.clone(),
                path: path.clone(),
            },
            Ask::Housekeeping(args) => Ask::Housekeeping(copy_paths(args)),
            Ask::RemoveFile(path) => Ask::RemoveFile(path.clone()),
            Ask::RemoveAll(path) => Ask::RemoveAll(path.clone()),
        }
    }
}

} // verus!
