use tinysh::{Command, FileMode, ParseError, ParsedCommand, RedirectKind};

fn words(v: &[&str]) -> Vec<String> {
    v.iter().map(|s| s.to_string()).collect()
}

fn parse(v: &[&str]) -> ParsedCommand {
    match ParsedCommand::new(words(v)) {
        Ok(p) => p,
        Err(_) => panic!("expected a command"),
    }
}

#[test]
fn empty_line_is_no_command() {
    let r = ParsedCommand::new(Vec::new());
    assert!(matches!(r, Err(ParseError::Empty)));
    if let Err(e) = r {
        assert_eq!(e.diagnostic(), None);
    }
}

#[test]
fn builtins_are_recognised() {
    assert!(matches!(parse(&["exit"]).cmd, Command::Exit));
    assert!(matches!(parse(&["pwd"]).cmd, Command::Pwd));
    assert!(matches!(parse(&["jobs"]).cmd, Command::Jobs));
    match parse(&["echo", "a", "b"]).cmd {
        Command::Echo(a) => assert_eq!(a, words(&["a", "b"])),
        _ => panic!("expected echo"),
    }
    match parse(&["cd"]).cmd {
        Command::Cd(a) => assert!(a.is_empty()),
        _ => panic!("expected cd"),
    }
    match parse(&["type", "ls"]).cmd {
        Command::Type(a) => assert_eq!(a, words(&["ls"])),
        _ => panic!("expected type"),
    }
    match parse(&["complete", "-p", "git"]).cmd {
        Command::Complete(a) => assert_eq!(a, words(&["-p", "git"])),
        _ => panic!("expected complete"),
    }
}

#[test]
fn external_command_in_background() {
    match parse(&["sleep", "5", "&"]).cmd {
        Command::External { bin, args, background } => {
            assert_eq!(bin, "sleep");
            assert_eq!(args, words(&["5"]));
            assert!(background);
        }
        _ => panic!("expected an external command"),
    }
    match parse(&["ls", "-l"]).cmd {
        Command::External { bin, args, background } => {
            assert_eq!(bin, "ls");
            assert_eq!(args, words(&["-l"]));
            assert!(!background);
        }
        _ => panic!("expected an external command"),
    }
}

#[test]
fn trailing_ampersand_dropped_for_builtins() {
    match parse(&["echo", "hi", "&"]).cmd {
        Command::Echo(a) => assert_eq!(a, words(&["hi"])),
        _ => panic!("expected echo"),
    }
}

#[test]
fn stdout_redirects() {
    let p = parse(&["echo", "hi", ">", "out.txt"]);
    let r = p.stdout_redirect.expect("redirected");
    assert_eq!(r.path, "out.txt");
    assert!(matches!(r.mode, FileMode::Truncate));
    assert!(p.stderr_redirect.is_none());
    match p.cmd {
        Command::Echo(a) => assert_eq!(a, words(&["hi"])),
        _ => panic!("expected echo"),
    }
    let p = parse(&["echo", "hi", "1>>", "log"]);
    let r = p.stdout_redirect.expect("redirected");
    assert_eq!(r.path, "log");
    assert!(matches!(r.mode, FileMode::Append));
}

#[test]
fn append_wins_over_truncate() {
    let p = parse(&["ls", ">", "a", ">>", "b"]);
    let r = p.stdout_redirect.expect("redirected");
    assert_eq!(r.path, "b");
    assert!(matches!(r.mode, FileMode::Append));
    match p.cmd {
        Command::External { args, .. } => assert!(args.is_empty()),
        _ => panic!("expected an external command"),
    }
}

#[test]
fn stderr_redirects() {
    let p = parse(&["ls", "x", "2>", "err", "2>>", "err2"]);
    let r = p.stderr_redirect.expect("redirected");
    assert_eq!(r.path, "err2");
    assert!(matches!(r.mode, FileMode::Append));
    assert!(p.stdout_redirect.is_none());
    let p = parse(&["ls", "2>", "e"]);
    let r = p.stderr_redirect.expect("redirected");
    assert_eq!(r.path, "e");
    assert!(matches!(r.mode, FileMode::Truncate));
}

#[test]
fn only_first_operator_of_a_kind_is_taken() {
    let p = parse(&["echo", ">", "a", "b", ">", "c"]);
    assert_eq!(p.stdout_redirect.expect("redirected").path, "a");
    match p.cmd {
        Command::Echo(a) => assert_eq!(a, words(&["b", ">", "c"])),
        _ => panic!("expected echo"),
    }
}

#[test]
fn missing_filename_is_an_error() {
    for (op, kind_shown) in [(">", ">"), ("1>", ">"), (">>", ">>"), ("2>", "2>"), ("2>>", "2>>")] {
        match ParsedCommand::new(words(&["echo", "x", op])) {
            Err(e) => {
                assert_eq!(
                    e.diagnostic(),
                    Some(format!("syntax error: expected filename after `{}`", kind_shown))
                );
            }
            Ok(_) => panic!("expected an error"),
        }
    }
    match ParsedCommand::new(words(&["ls", "2>>"])) {
        Err(ParseError::MissingFilename(RedirectKind::StderrAppend)) => {}
        _ => panic!("expected a missing file name"),
    }
}

#[test]
fn operator_names() {
    assert_eq!(RedirectKind::Stdout.operator(), ">");
    assert_eq!(RedirectKind::StdoutAppend.operator(), ">>");
    assert_eq!(RedirectKind::Stderr.operator(), "2>");
    assert_eq!(RedirectKind::StderrAppend.operator(), "2>>");
}

#[test]
fn plain_words_are_arguments() {
    let p = parse(&["grep", "-n", "x", "file"]);
    assert!(p.stdout_redirect.is_none());
    assert!(p.stderr_redirect.is_none());
    match p.cmd {
        Command::External { bin, args, background } => {
            assert_eq!(bin, "grep");
            assert_eq!(args, words(&["-n", "x", "file"]));
            assert!(!background);
        }
        _ => panic!("expected an external command"),
    }
}
