use vstd::prelude::*;

use crate::env::is_builtin_name;
use crate::text::{same_text, views};

verus! {

/// What the shell does with a parsed command line.
pub enum Command {
    Exit,
    Echo(Vec<String>),
    Type(Vec<String>),
    Pwd,
    Cd(Vec<String>),
    Complete(Vec<String>),
    Jobs,
    External { bin: String, args: Vec<String>, background: bool },
}

/// How a redirected stream opens its file.
pub enum FileMode {
    Truncate,
    Append,
}

/// A stream sent to a file.
pub struct Redirect {
    pub path: String,
    pub mode: FileMode,
}

/// A command with its output and error streams' destinations.
pub struct ParsedCommand {
    pub cmd: Command,
    pub stdout_redirect: Option<Redirect>,
    pub stderr_redirect: Option<Redirect>,
}

/// The four redirection operators, in the order they are looked for.
pub enum RedirectKind {
    /// `>` or `1>`
    Stdout,
    /// `>>` or `1>>`
    StdoutAppend,
    /// `2>`
    Stderr,
    /// `2>>`
    StderrAppend,
}

/// Why a list of words is not a command.
pub enum ParseError {
    /// There are no words.
    Empty,
    /// A redirection operator is the last word.
    MissingFilename(RedirectKind),
}

/// Whether the word `w` is a redirection operator of the given kind.
pub open spec fn is_operator(kind: RedirectKind, w: Seq<char>) -> bool {
    match kind {
        RedirectKind::Stdout => w == ">"@ || w == "1>"@,
        RedirectKind::StdoutAppend => w == ">>"@ || w == "1>>"@,
        RedirectKind::Stderr => w == "2>"@,
        RedirectKind::StderrAppend => w == "2>>"@,
    }
}

/// Whether position `i` holds the first operator of the given kind.
pub open spec fn first_operator_at(ws: Seq<Seq<char>>, kind: RedirectKind, i: int) -> bool {
    &&& 0 <= i < ws.len()
    &&& is_operator(kind, ws[i])
    &&& forall|j: int| 0 <= j < i ==> !is_operator(kind, #[trigger] ws[j])
}

/// The words with the first operator of the given kind and the word after it
/// taken out, and that word; the words unchanged and nothing where there is
/// no such operator; an error where the operator is the last word.
pub open spec fn take_redirect_spec(ws: Seq<Seq<char>>, kind: RedirectKind) -> Result<
    (Seq<Seq<char>>, Option<Seq<char>>),
    RedirectKind,
> {
    if exists|i: int| first_operator_at(ws, kind, i) {
        let i = choose|i: int| first_operator_at(ws, kind, i);
        if i + 1 < ws.len() {
            Ok((ws.remove(i + 1).remove(i), Some(ws[i + 1])))
        } else {
            Err(kind)
        }
    } else {
        Ok((ws, None))
    }
}

/// A destination, by its path's characters and its mode.
pub open spec fn redirect_view(r: Option<Redirect>) -> Option<(Seq<char>, FileMode)> {
    match r {
        Some(d) => Some((d.path@, d.mode)),
        None => None,
    }
}

/// The destination chosen by a truncating and an appending operator: the
/// appending one wins where both are given.
pub open spec fn destination(truncate: Option<Seq<char>>, append: Option<Seq<char>>) -> Option<
    (Seq<char>, FileMode),
> {
    match append {
        Some(p) => Some((p, FileMode::Append)),
        None => match truncate {
            Some(p) => Some((p, FileMode::Truncate)),
            None => None,
        },
    }
}

/// The arguments after the redirections are taken out, and the destinations
/// of the output and error streams; or the kind of the operator that lacks
/// its file name.
pub open spec fn redirects_spec(rest: Seq<Seq<char>>) -> Result<
    (Seq<Seq<char>>, Option<(Seq<char>, FileMode)>, Option<(Seq<char>, FileMode)>),
    RedirectKind,
> {
    match take_redirect_spec(rest, RedirectKind::Stdout) {
        Err(k) => Err(k),
        Ok((r1, out_t)) => match take_redirect_spec(r1, RedirectKind::StdoutAppend) {
            Err(k) => Err(k),
            Ok((r2, out_a)) => match take_redirect_spec(r2, RedirectKind::Stderr) {
                Err(k) => Err(k),
                Ok((r3, err_t)) => match take_redirect_spec(r3, RedirectKind::StderrAppend) {
                    Err(k) => Err(k),
                    Ok((r4, err_a)) => Ok(
                        (r4, destination(out_t, out_a), destination(err_t, err_a)),
                    ),
                },
            },
        },
    }
}

/// Whether the arguments end with a lone `&`.
pub open spec fn in_background(args: Seq<Seq<char>>) -> bool {
    args.len() > 0 && args.last() == "&"@
}

/// The arguments without a trailing `&`.
pub open spec fn foreground_args(args: Seq<Seq<char>>) -> Seq<Seq<char>> {
    if in_background(args) {
        args.drop_last()
    } else {
        args
    }
}

/// Whether `cmd` is the command named `first` with the arguments `rest`
/// (redirections already taken out).
pub open spec fn command_agrees(cmd: Command, first: Seq<char>, rest: Seq<Seq<char>>) -> bool {
    let args = foreground_args(rest);
    match cmd {
        Command::Exit => first == "exit"@,
        Command::Echo(a) => first == "echo"@ && views(a@) == args,
        Command::Type(a) => first == "type"@ && views(a@) == args,
        Command::Pwd => first == "pwd"@,
        Command::Cd(a) => first == "cd"@ && views(a@) == args,
        Command::Complete(a) => first == "complete"@ && views(a@) == args,
        Command::Jobs => first == "jobs"@,
        Command::External { bin, args: a, background } => {
            &&& !is_builtin_name(first)
            &&& bin@ == first
            &&& views(a@) == args
            &&& background == in_background(rest)
        },
    }
}

impl RedirectKind {
    /// The operator as the user writes it in messages.
    pub fn operator(&self) -> (r: String)
        ensures
            r@ == self.operator_spec(),
    {
        match self {
            RedirectKind::Stdout => ">".to_owned(),
            RedirectKind::StdoutAppend => ">>".to_owned(),
            RedirectKind::Stderr => "2>".to_owned(),
            RedirectKind::StderrAppend => "2>>".to_owned(),
        }
    }

    /// Whether `w` is an operator of this kind.
    pub fn matches(&self, w: &String) -> (r: bool)
        ensures
            r == is_operator(*self, w@),
    {
        match self {
            RedirectKind::Stdout => same_text(w.as_str(), ">") || same_text(w.as_str(), "1>"),
            RedirectKind::StdoutAppend => same_text(w.as_str(), ">>") || same_text(
                w.as_str(),
                "1>>",
            ),
            RedirectKind::Stderr => same_text(w.as_str(), "2>"),
            RedirectKind::StderrAppend => same_text(w.as_str(), "2>>"),
        }
    }

    fn copy(&self) -> (r: RedirectKind)
        ensures
            r == *self,
    {
        match self {
            RedirectKind::Stdout => RedirectKind::Stdout,
            RedirectKind::StdoutAppend => RedirectKind::StdoutAppend,
            RedirectKind::Stderr => RedirectKind::Stderr,
            RedirectKind::StderrAppend => RedirectKind::StderrAppend,
        }
    }
}

impl ParseError {
    /// The message the shell prints for this error, if any.
    pub fn diagnostic(&self) -> (r: Option<String>)
        ensures
            match self {
                ParseError::Empty => r is None,
                ParseError::MissingFilename(k) => r matches Some(m) && m@ == "syntax error: expected filename after `"@
                    + k.operator_spec() + "`"@,
            },
    {
        match self {
            ParseError::Empty => None,
            ParseError::MissingFilename(k) => {
                let mut m = "syntax error: expected filename after `".to_owned();
                let op = k.operator();
                m.append(op.as_str());
                m.append("`");
                Some(m)
            },
        }
    }
}

impl RedirectKind {
    /// The operator as the user writes it in messages.
    pub open spec fn operator_spec(self) -> Seq<char> {
        match self {
            RedirectKind::Stdout => ">"@,
            RedirectKind::StdoutAppend => ">>"@,
            RedirectKind::Stderr => "2>"@,
            RedirectKind::StderrAppend => "2>>"@,
        }
    }
}

/// Whether `w` is any of the redirection operators.
pub open spec fn is_any_operator(w: Seq<char>) -> bool {
    ||| is_operator(RedirectKind::Stdout, w)
    ||| is_operator(RedirectKind::StdoutAppend, w)
    ||| is_operator(RedirectKind::Stderr, w)
    ||| is_operator(RedirectKind::StderrAppend, w)
}

proof fn lemma_no_operator_of_kind(ws: Seq<Seq<char>>, kind: RedirectKind)
    requires
        forall|i: int| 0 <= i < ws.len() ==> !is_any_operator(#[trigger] ws[i]),
    ensures
        take_redirect_spec(ws, kind) == Ok::<(Seq<Seq<char>>, Option<Seq<char>>), RedirectKind>(
            (ws, None),
        ),
{
    assert forall|i: int| !first_operator_at(ws, kind, i) by {
        if 0 <= i < ws.len() {
            assert(!is_any_operator(ws[i]));
        }
    }
}

/// Words with no redirection operator among them are all arguments, and
/// neither stream is redirected.
pub proof fn law_plain_words_are_arguments(rest: Seq<Seq<char>>)
    requires
        forall|i: int| 0 <= i < rest.len() ==> !is_any_operator(#[trigger] rest[i]),
    ensures
        redirects_spec(rest) == Ok::<
            (Seq<Seq<char>>, Option<(Seq<char>, FileMode)>, Option<(Seq<char>, FileMode)>),
            RedirectKind,
        >((rest, None, None)),
{
    lemma_no_operator_of_kind(rest, RedirectKind::Stdout);
    lemma_no_operator_of_kind(rest, RedirectKind::StdoutAppend);
    lemma_no_operator_of_kind(rest, RedirectKind::Stderr);
    lemma_no_operator_of_kind(rest, RedirectKind::StderrAppend);
}

/// A lone `&` at the end of the arguments, whatever comes before it, asks
/// for the background and is not itself an argument.
pub proof fn law_trailing_ampersand_means_background(rest: Seq<Seq<char>>)
    requires
        rest.len() >= 1,
        rest.last() == "&"@,
    ensures
        in_background(rest),
        foreground_args(rest) == rest.drop_last(),
        foreground_args(rest).len() + 1 == rest.len(),
{
}

/// Arguments that do not end with a lone `&` are all kept and ask for the
/// foreground.
pub proof fn law_no_ampersand_means_foreground(rest: Seq<Seq<char>>)
    requires
        rest.len() == 0 || rest.last() != "&"@,
    ensures
        !in_background(rest),
        foreground_args(rest) == rest,
{
}

/// A program named alone with `&` runs in the background with no
/// arguments; more generally, a program whose arguments end in `&` gets the
/// arguments before it and runs in the background.
pub proof fn law_program_with_ampersand(cmd: Command, first: Seq<char>, rest: Seq<Seq<char>>)
    requires
        !is_builtin_name(first),
        rest.len() >= 1,
        rest.last() == "&"@,
        command_agrees(cmd, first, rest),
    ensures
        cmd matches Command::External { bin, args, background } && bin@ == first && background
            && views(args@) == rest.drop_last(),
{
    reveal_strlit("exit");
    reveal_strlit("echo");
    reveal_strlit("type");
    reveal_strlit("pwd");
    reveal_strlit("cd");
    reveal_strlit("complete");
    reveal_strlit("jobs");
    assert(crate::env::builtin_names()[0] == "exit"@);
    assert(crate::env::builtin_names()[1] == "echo"@);
    assert(crate::env::builtin_names()[2] == "type"@);
    assert(crate::env::builtin_names()[3] == "pwd"@);
    assert(crate::env::builtin_names()[4] == "cd"@);
    assert(crate::env::builtin_names()[5] == "complete"@);
    assert(crate::env::builtin_names()[6] == "jobs"@);
}

/// Takes the first operator of the given kind and the word after it out of
/// `ws`, and returns that word.
fn take_redirect(ws: &mut Vec<String>, kind: &RedirectKind) -> (r: Result<Option<String>, RedirectKind>)
    ensures
        match take_redirect_spec(views(old(ws)@), *kind) {
            Ok((rest, target)) => r matches Ok(t) && views(final(ws)@) == rest && match t {
                Some(s) => target == Some(s@),
                None => target is None,
            },
            Err(k) => r matches Err(k2) && k2 == k,
        },
{
    let ghost w0 = views(ws@);
    let n = ws.len();
    let mut i: usize = 0;
    while i < n
        invariant
            n == ws@.len(),
            w0 == views(ws@),
            w0 == views(old(ws)@),
            i <= n,
            forall|j: int| 0 <= j < i ==> !is_operator(*kind, #[trigger] w0[j]),
        decreases n - i,
    {
        if kind.matches(&ws[i]) {
            assert(first_operator_at(w0, *kind, i as int));
            proof {
                let c = choose|c: int| first_operator_at(w0, *kind, c);
                if c < i {
                    assert(!is_operator(*kind, w0[c]));
                } else if c > i {
                    assert(!is_operator(*kind, w0[i as int]));
                }
                assert(c == i);
            }
            if i + 1 < n {
                let target = ws.remove(i + 1);
                ws.remove(i);
                assert(views(ws@) =~= w0.remove(i + 1).remove(i as int));
                return Ok(Some(target));
            } else {
                return Err(kind.copy());
            }
        }
        i = i + 1;
    }
    assert forall|c: int| !first_operator_at(w0, *kind, c) by {
        if 0 <= c < w0.len() {
            assert(!is_operator(*kind, w0[c]));
        }
    }
    Ok(None)
}

/// Both destinations chosen by a pair of operators.
fn choose_destination(truncate: Option<String>, append: Option<String>) -> (r: Option<Redirect>)
    ensures
        redirect_view(r) == destination(
            match truncate {
                Some(s) => Some(s@),
                None => None,
            },
            match append {
                Some(s) => Some(s@),
                None => None,
            },
        ),
{
    match append {
        Some(path) => Some(Redirect { path, mode: FileMode::Append }),
        None => match truncate {
            Some(path) => Some(Redirect { path, mode: FileMode::Truncate }),
            None => None,
        },
    }
}

impl ParsedCommand {
    /// Reads a list of words as a command: the first word names it; the
    /// operators `>`/`1>` and `>>`/`1>>` (the appending one wins when both are
    /// given), and `2>` and `2>>` (likewise), each with the word after it,
    /// send the output and error streams to files; a last word `&` asks for
    /// the command to run in the background, and is dropped from the
    /// arguments of every command.
    pub fn new(words: Vec<String>) -> (r: Result<ParsedCommand, ParseError>)
        ensures
            words@.len() == 0 ==> r matches Err(ParseError::Empty),
            words@.len() > 0 ==> match redirects_spec(views(words@).drop_first()) {
                Err(k) => r matches Err(ParseError::MissingFilename(k2)) && k2 == k,
                Ok((rest, out, err)) => r matches Ok(p) && redirect_view(p.stdout_redirect)
                    == out && redirect_view(p.stderr_redirect) == err && command_agrees(
                    p.cmd,
                    views(words@)[0],
                    rest,
                ),
            },
    {
        if words.len() == 0 {
            return Err(ParseError::Empty);
        }
        let ghost w = views(words@);
        let mut remaining = words;
        let first = remaining.remove(0);
        assert(views(remaining@) =~= w.drop_first());
        let out_t = match take_redirect(&mut remaining, &RedirectKind::Stdout) {
            Ok(t) => t,
            Err(k) => return Err(ParseError::MissingFilename(k)),
        };
        let out_a = match take_redirect(&mut remaining, &RedirectKind::StdoutAppend) {
            Ok(t) => t,
            Err(k) => return Err(ParseError::MissingFilename(k)),
        };
        let err_t = match take_redirect(&mut remaining, &RedirectKind::Stderr) {
            Ok(t) => t,
            Err(k) => return Err(ParseError::MissingFilename(k)),
        };
        let err_a = match take_redirect(&mut remaining, &RedirectKind::StderrAppend) {
            Ok(t) => t,
            Err(k) => return Err(ParseError::MissingFilename(k)),
        };
        let stdout_redirect = choose_destination(out_t, out_a);
        let stderr_redirect = choose_destination(err_t, err_a);
        let ghost rest = views(remaining@);
        let n = remaining.len();
        let background = n > 0 && same_text(remaining[n - 1].as_str(), "&");
        if background {
            remaining.pop();
            assert(views(remaining@) =~= rest.drop_last());
        }
        let cmd = if same_text(first.as_str(), "exit") {
            Command::Exit
        } else if same_text(first.as_str(), "echo") {
            Command::Echo(remaining)
        } else if same_text(first.as_str(), "type") {
            Command::Type(remaining)
        } else if same_text(first.as_str(), "pwd") {
            Command::Pwd
        } else if same_text(first.as_str(), "cd") {
            Command::Cd(remaining)
        } else if same_text(first.as_str(), "complete") {
            Command::Complete(remaining)
        } else if same_text(first.as_str(), "jobs") {
            Command::Jobs
        } else {
            Command::External { bin: first, args: remaining, background }
        };
        Ok(ParsedCommand { cmd, stdout_redirect, stderr_redirect })
    }
}

} // verus!
