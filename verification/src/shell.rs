//! How the binary talks to the shell.
//!
//! A process cannot change its parent shell's directory, so the destination is
//! reported on a descriptor the shell function opened for it, and the function
//! itself is printed by `--init`. Both halves of that protocol live here so
//! neither can drift from the other.

use crate::error::Error;
use crate::number::{descriptor_of, parse_descriptor};
use crate::paths::{a_text_is_shown_as_it_is, components, is_component, joined_path};
use crate::paths::{joining_adds_one_component, last_name, legible, lemma_encode_concat};
use crate::paths::{FilePath, DOT, SLASH};
use crate::text::{chars_of, is_word, replace_word, replaced};
use crate::url::lowered;
use vstd::prelude::*;
use vstd::utf8::{encode_utf8, is_ascii_chars};

verus! {

/// The function for fish.
///
/// Each function shadows the binary it calls, which is fine: fish's `command -s`
/// and the POSIX `command` builtin both skip functions, so there is no
/// recursion.
pub const FISH_INIT: &'static str = r#"# try shell integration — add to ~/.config/fish/config.fish:
#   try --init fish | source
function try --description "Find, create and jump into projects"
    set -l bin (command -s try)
    if test -z "$bin"
        echo "try: the try binary is not on PATH" >&2
        return 127
    end
    set -l dest (mktemp)
    env TRY_FD=3 $bin $argv 3>$dest
    set -l code $status
    set -l dir (cat $dest 2>/dev/null)
    rm -f $dest
    if test $code -ne 0
        return $code
    end
    if test -n "$dir" -a -d "$dir"
        cd $dir
    end
    return 0
end
"#;

/// The function for POSIX shells, with a placeholder for the shell's name.
pub const POSIX_INIT: &'static str = r#"# try shell integration — add to ~/.bashrc or ~/.zshrc:
#   eval "$(try --init {shell})"
try() {
  local dest dir code
  dest="$(mktemp)" || return $?
  TRY_FD=3 command try "$@" 3>"$dest"
  code=$?
  dir="$(cat "$dest" 2>/dev/null)"
  rm -f "$dest"
  if [ "$code" -ne 0 ]; then
    return "$code"
  fi
  if [ -n "$dir" ] && [ -d "$dir" ]; then
    cd "$dir" || return $?
  fi
  return 0
}
"#;

/// What `str::to_lowercase` makes of a text that is not ASCII.
pub uninterp spec fn lowercase(s: Seq<char>) -> Seq<char>;

/// A text in small letters.
pub open spec fn in_small_letters(s: Seq<char>) -> Seq<char> {
    if is_ascii_chars(s) {
        lowered(s)
    } else {
        lowercase(s)
    }
}

/// `str::to_lowercase`: each of the letters A to Z becomes the small one where
/// the text is ASCII, and otherwise the result depends on the text alone.
#[verifier::external_body]
fn to_lowercase(s: &str) -> (r: String)
    ensures
        r@ == (if is_ascii_chars(s@) {
            lowered(s@)
        } else {
            lowercase(s@)
        }),
{
    s.to_lowercase()
}

/// The function for a shell of this name, where there is one.
pub open spec fn script_of(name: Seq<char>) -> Option<Seq<char>> {
    if name == "fish"@ {
        Some(FISH_INIT@)
    } else if name == "bash"@ || name == "zsh"@ {
        Some(replaced(POSIX_INIT@, "{shell}"@, name))
    } else {
        None
    }
}

/// The function for a shell of this name.
pub fn script_for(name: &str) -> (r: Option<String>)
    ensures
        match r {
            Some(script) => script_of(name@) == Some(script@),
            None => script_of(name@) is None,
        },
{
    let word = chars_of(name);
    if is_word(&word, "fish") {
        Some(FISH_INIT.to_owned())
    } else if is_word(&word, "bash") || is_word(&word, "zsh") {
        proof {
            reveal_strlit("{shell}");
        }
        Some(replace_word(POSIX_INIT, "{shell}", name))
    } else {
        None
    }
}

/// What a shell is called, from its name or its path, in small letters.
pub open spec fn shell_name(shell: Seq<char>) -> Seq<char> {
    match last_name(encode_utf8(shell)) {
        Some(name) => in_small_letters(legible(name)),
        None => Seq::empty(),
    }
}

/// The shell function to eval. A shell may be given by its path, as in `$SHELL`.
pub fn init(shell: &str) -> (r: Result<String, Error>)
    ensures
        match r {
            Ok(script) => script_of(shell_name(shell@)) == Some(script@),
            Err(e) => script_of(shell_name(shell@)) is None && (e matches Error::UnsupportedShell(
                shown,
            ) && shown@ == shell@),
        },
{
    let name = match FilePath::from_text(shell).file_name() {
        Some(name) => to_lowercase(&name.display()),
        None => String::new(),
    };
    match script_for(&name) {
        Some(script) => Ok(script),
        None => Err(Error::UnsupportedShell(shell.to_owned())),
    }
}

// ---------------------------------------------------------------------------
// Reporting the destination
// ---------------------------------------------------------------------------

/// Where the destination goes and what is printed there.
pub enum Report {
    /// A line on the descriptor that the shell function opened.
    Descriptor { line: String },
    /// A line on standard output, and lines on standard error that say that
    /// nobody is listening.
    Stdout { line: String, notes: Vec<String> },
}

/// The descriptor that `TRY_FD` names, where it names one.
pub open spec fn named_descriptor(try_fd: Option<&str>) -> Option<u32> {
    match try_fd {
        Some(raw) => descriptor_of(raw@),
        None => None,
    }
}

/// The descriptor that `TRY_FD` names. Whether it is open is another question.
pub fn descriptor(try_fd: Option<&str>) -> (r: Option<u32>)
    ensures
        r == named_descriptor(try_fd),
{
    match try_fd {
        Some(raw) => parse_descriptor(&chars_of(raw)),
        None => None,
    }
}

/// Reports the destination for the shell function to consume.
///
/// It goes to the descriptor named by `TRY_FD` when the shell function provides
/// one, which keeps it off standard output. Without one there is no shell
/// function listening, so it falls back to standard output and, on a terminal,
/// says so.
pub fn report(path: &FilePath, listening: bool, terminal: bool) -> (r: Report)
    ensures
        match r {
            Report::Descriptor { line } => listening && line@ == legible(path@) + "\n"@,
            Report::Stdout { line, notes } => {
                &&& !listening
                &&& line@ == legible(path@) + "\n"@
                &&& notes@.len() == if terminal {
                    2int
                } else {
                    0int
                }
                &&& terminal ==> notes@[0]@
                    == "note: shell integration is not active, so this shell stayed put."@
                    && notes@[1]@ == "      run `try --init fish` to see how to enable it."@
            },
        },
{
    let line = path.display().concat("\n");
    if listening {
        return Report::Descriptor { line };
    }
    let mut notes: Vec<String> = Vec::new();
    if terminal {
        notes.push("note: shell integration is not active, so this shell stayed put.".to_owned());
        notes.push("      run `try --init fish` to see how to enable it.".to_owned());
    }
    Report::Stdout { line, notes }
}

// ---------------------------------------------------------------------------
// Laws of the shell
// ---------------------------------------------------------------------------

/// Whether a text can be the file name of a shell: ASCII, with no slash in it,
/// and neither `.` nor `..`.
pub open spec fn is_program(name: Seq<char>) -> bool {
    &&& name.len() > 0
    &&& is_ascii_chars(name)
    &&& !name.contains('/')
    &&& name != "."@
    &&& name != ".."@
}

/// A shell may be given by its path or in capitals: what counts is the last
/// component, in small letters.
pub proof fn a_shell_is_known_by_its_file_name(dir: Seq<char>, name: Seq<char>)
    requires
        is_program(name),
    ensures
        shell_name(name) == lowered(name),
        shell_name(dir + "/"@ + name) == lowered(name),
{
    reveal_strlit("/");
    reveal_strlit(".");
    reveal_strlit("..");
    let n = encode_utf8(name);
    let one = seq!['/'];
    vstd::utf8::is_ascii_chars_encode_utf8(name);
    vstd::utf8::is_ascii_chars_encode_utf8(one);
    assert(encode_utf8(one) =~= seq![SLASH]);
    assert(n.len() == name.len());
    assert forall|i: int| 0 <= i < n.len() implies #[trigger] n[i] != SLASH by {
        assert(name.contains(name[i]));
        assert(name[i] != '/');
    }
    if n == seq![DOT] {
        assert(n[0] == DOT);
        assert(name =~= "."@);
    }
    if n == seq![DOT, DOT] {
        assert(n[0] == DOT && n[1] == DOT);
        assert(name =~= ".."@);
    }
    assert(is_component(n));
    assert(n != seq![SLASH]) by {
        assert(n[0] != SLASH);
    }
    a_text_is_shown_as_it_is(name);

    let none = Seq::<u8>::empty();
    joining_adds_one_component(none, n);
    assert(joined_path(none, n) =~= n);
    assert(components(n).last() == n);

    let front = encode_utf8(dir + one);
    lemma_encode_concat(dir, one);
    assert(front.last() == SLASH);
    lemma_encode_concat(dir + one, name);
    assert(dir + "/"@ + name =~= dir + one + name);
    joining_adds_one_component(front, n);
    assert(joined_path(front, n) == front + n);
    assert(components(front + n).last() == n);
}

/// Each shell gets its own function, however it is given: fish the one for fish,
/// and bash and zsh the one for POSIX shells with their own name in it. No other
/// shell gets any.
pub proof fn a_shell_gets_its_own_function(dir: Seq<char>, name: Seq<char>)
    requires
        is_program(name),
    ensures
        ({
            let small = lowered(name);
            let script = script_of(shell_name(dir + "/"@ + name));
            &&& script_of(shell_name(name)) == script
            &&& small == "fish"@ ==> script == Some(FISH_INIT@)
            &&& small == "bash"@ || small == "zsh"@ ==> script == Some(
                replaced(POSIX_INIT@, "{shell}"@, small),
            )
            &&& script is Some ==> small == "fish"@ || small == "bash"@ || small == "zsh"@
        }),
{
    reveal_strlit("fish");
    reveal_strlit("bash");
    reveal_strlit("zsh");
    a_shell_is_known_by_its_file_name(dir, name);
    assert("fish"@[0] != "bash"@[0]);
    assert("fish"@.len() != "zsh"@.len());
}

} // verus!
