//! How the binary talks to the shell.

use trydir::error::Error;
use trydir::paths::FilePath;
use trydir::shell::{descriptor, init, report, script_for, Report, FISH_INIT, POSIX_INIT};

/// The line that goes to the descriptor, if it goes there.
fn to_descriptor(report: Report) -> Option<String> {
    match report {
        Report::Descriptor { line } => Some(line),
        Report::Stdout { .. } => None,
    }
}

/// What goes to standard output and standard error, if it goes there.
fn to_stdout(report: Report) -> Option<(String, Vec<String>)> {
    match report {
        Report::Descriptor { .. } => None,
        Report::Stdout { line, notes } => Some((line, notes)),
    }
}

#[test]
fn every_supported_shell_has_an_init() {
    for shell in ["fish", "bash", "zsh"] {
        assert!(init(shell).is_ok(), "{shell}");
    }
}

/// `$SHELL` is a path, and people type `try --init $SHELL`.
#[test]
fn a_shell_may_be_given_as_a_path_or_in_capitals() {
    assert!(init("/usr/local/bin/fish").is_ok());
    assert!(init("/bin/BASH").is_ok());
    assert!(init("Zsh").is_ok());
}

#[test]
fn an_unsupported_shell_says_which_ones_work() {
    let err = init("nushell").unwrap_err().message();
    assert!(err.contains("nushell"), "{err}");
    assert!(err.contains("fish, bash, zsh"), "{err}");
    assert!(init("").is_err());
}

/// Both halves of the protocol live in one module so they cannot drift: the
/// function has to pass the descriptor the binary reads.
#[test]
fn both_shell_functions_speak_the_protocol() {
    for script in [FISH_INIT, POSIX_INIT] {
        assert!(script.contains("TRY_FD=3"), "{script}");
        assert!(script.contains("3>"), "{script}");
        assert!(script.contains("cd "), "{script}");
    }
}

/// Each function shadows the binary it calls, so it has to reach past itself:
/// fish resolves the path first, POSIX shells use `command`.
#[test]
fn neither_shell_function_calls_itself() {
    assert!(FISH_INIT.contains("command -s try"));
    assert!(POSIX_INIT.contains("command try"));
}

#[test]
fn the_posix_function_names_the_shell_it_was_asked_for() {
    assert!(POSIX_INIT.contains("{shell}"), "the placeholder is there");
    let bash = POSIX_INIT.replace("{shell}", "bash");
    assert!(bash.contains(r#"eval "$(try --init bash)""#), "{bash}");
    assert!(!bash.contains("{shell}"));
    assert_eq!(init("bash").unwrap(), bash);
}

#[test]
fn report_writes_the_path_to_the_descriptor() {
    let path = FilePath::from_text("/home/ada/try/redis");
    assert_eq!(descriptor(Some("3")), Some(3));
    assert_eq!(
        to_descriptor(report(&path, true, true)),
        Some("/home/ada/try/redis\n".to_string())
    );
}

/// Without the shell function there is no descriptor listening, so the path
/// goes to stdout instead of being lost.
#[test]
fn report_falls_back_to_stdout_without_a_descriptor() {
    assert_eq!(descriptor(None), None);
    let path = FilePath::from_text("/home/ada/try/redis");
    assert_eq!(
        to_stdout(report(&path, false, false)),
        Some(("/home/ada/try/redis\n".to_string(), vec![]))
    );
}

/// The last is a descriptor like any other; that it is not open is found out
/// when it is tried.
#[test]
fn report_falls_back_when_the_descriptor_is_unusable() {
    for raw in ["", "  ", "not-a-number", "-1"] {
        assert_eq!(descriptor(Some(raw)), None, "{raw:?}");
    }
    assert_eq!(descriptor(Some("1024")), Some(1024));
    let path = FilePath::from_text("/home/ada/try/redis");
    assert!(to_stdout(report(&path, false, false)).is_some());
}

#[test]
fn a_descriptor_may_be_written_with_surrounding_space() {
    assert_eq!(descriptor(Some(" 3 ")), Some(3));
    assert_eq!(
        to_descriptor(report(&FilePath::from_text("/tmp/x"), true, false)),
        Some("/tmp/x\n".to_string())
    );
}

#[test]
fn a_terminal_is_told_that_nobody_listens() {
    let (line, notes) = to_stdout(report(&FilePath::from_text("/tmp/x"), false, true)).unwrap();
    assert_eq!(line, "/tmp/x\n");
    assert_eq!(
        notes,
        [
            "note: shell integration is not active, so this shell stayed put.",
            "      run `try --init fish` to see how to enable it.",
        ]
    );
}

/// What a descriptor may look like is what an `i32` may, as long as it is not
/// negative.
#[test]
fn descriptors_are_read_like_integers() {
    for raw in [
        "0",
        "+7",
        "-0",
        "-00",
        "007",
        "2147483647",
        "2147483648",
        "99999999999999999999",
        "-",
        "+",
        "+-1",
        "--1",
        "1 2",
        "３",
        "-5",
        "\u{a0}12\n",
        "0x10",
    ] {
        let expected = raw.trim().parse::<i32>().ok().filter(|fd| *fd >= 0);
        assert_eq!(descriptor(Some(raw)), expected.map(|fd| fd as u32), "{raw:?}");
    }
}

#[test]
fn each_shell_has_its_script() {
    assert_eq!(init("fish").unwrap(), FISH_INIT);
    assert_eq!(script_for("fish").unwrap(), FISH_INIT);
    assert_eq!(
        init("/opt/bin/ZSH").unwrap(),
        POSIX_INIT.replace("{shell}", "zsh")
    );
    assert!(script_for("FISH").is_none(), "the name is in small letters by then");
    // Letters outside ASCII are put in small letters too: the Kelvin sign is a k.
    assert!(init("fis\u{212a}").is_err());
    for shell in ["/", ".", "..", "/bin/..", "fish/x"] {
        let err = init(shell).unwrap_err();
        assert!(matches!(&err, Error::UnsupportedShell(shown) if shown == shell));
    }
    assert_eq!(
        init("tcsh").unwrap_err().message(),
        "cannot generate shell integration for \"tcsh\"; supported: fish, bash, zsh"
    );
}
