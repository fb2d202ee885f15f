use vstd::prelude::*;

use crate::complete_db::{with_script, CompleteDb};
use crate::env::{is_builtin, is_builtin_name};
use crate::text::{join_spec, join_strings, push_char, same_text, views};

verus! {

/// The decimal digit for `d`.
pub open spec fn digit_char(d: nat) -> char {
    if d == 0 {
        '0'
    } else if d == 1 {
        '1'
    } else if d == 2 {
        '2'
    } else if d == 3 {
        '3'
    } else if d == 4 {
        '4'
    } else if d == 5 {
        '5'
    } else if d == 6 {
        '6'
    } else if d == 7 {
        '7'
    } else if d == 8 {
        '8'
    } else {
        '9'
    }
}

/// `n` written in decimal, without leading zeros.
pub open spec fn decimal(n: nat) -> Seq<char>
    decreases n,
{
    if n < 10 {
        seq![digit_char(n)]
    } else {
        decimal(n / 10).push(digit_char(n % 10))
    }
}

fn digit(d: u64) -> (r: char)
    requires
        d < 10,
    ensures
        r == digit_char(d as nat),
{
    if d == 0 {
        '0'
    } else if d == 1 {
        '1'
    } else if d == 2 {
        '2'
    } else if d == 3 {
        '3'
    } else if d == 4 {
        '4'
    } else if d == 5 {
        '5'
    } else if d == 6 {
        '6'
    } else if d == 7 {
        '7'
    } else if d == 8 {
        '8'
    } else {
        '9'
    }
}

/// Appends `n` in decimal to `s`.
fn push_decimal(s: &mut String, n: u64)
    ensures
        final(s)@ == old(s)@ + decimal(n as nat),
    decreases n,
{
    if n >= 10 {
        push_decimal(s, n / 10);
    }
    push_char(s, digit(n % 10));
    proof {
        if n < 10 {
            assert(old(s)@ + decimal(n as nat) =~= old(s)@.push(digit_char(n as nat)));
        } else {
            assert(old(s)@ + decimal(n as nat) =~= (old(s)@ + decimal((n / 10) as nat)).push(
                digit_char((n % 10) as nat),
            ));
        }
    }
}

/// `n` in decimal.
pub fn decimal_string(n: u64) -> (r: String)
    ensures
        r@ == decimal(n as nat),
{
    let mut s = String::new();
    push_decimal(&mut s, n);
    assert(Seq::<char>::empty() + decimal(n as nat) =~= decimal(n as nat));
    s
}

/// `s` followed by spaces up to `width` characters, as `{:<width}` writes it.
pub open spec fn padded(s: Seq<char>, width: nat) -> Seq<char> {
    if s.len() >= width {
        s
    } else {
        s + Seq::new((width - s.len()) as nat, |i: int| ' ')
    }
}

/// `s` padded with spaces to `width` characters.
fn pad(s: &str, width: usize) -> (r: String)
    ensures
        r@ == padded(s@, width as nat),
{
    let mut r = s.to_owned();
    let n = crate::text::chars_of(s).len();
    let mut k = n;
    while k < width
        invariant
            n == s@.len(),
            n <= k <= width || (k == n && n >= width),
            r@ == s@ + Seq::new((k - n) as nat, |i: int| ' '),
        decreases width - k,
    {
        push_char(&mut r, ' ');
        assert(r@ =~= s@ + Seq::new((k + 1 - n) as nat, |i: int| ' '));
        k = k + 1;
    }
    assert(r@ =~= padded(s@, width as nat));
    r
}

/// A line of the jobs table: `[id]`, the marker, two spaces, the status
/// padded to 24 characters, and the command.
pub open spec fn job_line_spec(id: nat, marker: char, status: Seq<char>, command: Seq<char>) -> Seq<
    char,
> {
    "["@ + decimal(id) + "]"@ + seq![marker] + "  "@ + padded(status, 24) + command
}

/// A line of the jobs table.
pub fn job_line(id: usize, marker: char, status: &str, command: &str) -> (r: String)
    ensures
        r@ == job_line_spec(id as nat, marker, status@, command@),
{
    let mut r = "[".to_owned();
    r.append(decimal_string(id as u64).as_str());
    r.append("]");
    push_char(&mut r, marker);
    r.append("  ");
    r.append(pad(status, 24).as_str());
    r.append(command);
    r
}

/// The marker of the job at position `i` of `n`: `+` for the newest, `-`
/// for the one before it, a space for the others.
pub open spec fn job_marker(i: int, n: int) -> char {
    if i == n - 1 {
        '+'
    } else if i == n - 2 {
        '-'
    } else {
        ' '
    }
}

/// In a table of `n` jobs, the newest is marked `+`, the one before it `-`,
/// and every older one with a space.
pub proof fn law_job_markers(n: int)
    requires
        n >= 1,
    ensures
        job_marker(n - 1, n) == '+',
        n >= 2 ==> job_marker(n - 2, n) == '-',
        forall|i: int| 0 <= i < n - 2 ==> #[trigger] job_marker(i, n) == ' ',
        forall|i: int| 0 <= i < n ==> (#[trigger] job_marker(i, n) == '+' <==> i == n - 1),
        forall|i: int| 0 <= i < n ==> (#[trigger] job_marker(i, n) == '-' <==> i == n - 2),
{
}

/// The lines that `jobs` prints for running jobs with the given ids and
/// command lines, oldest first.
pub fn jobs_listing(ids: &Vec<usize>, commands: &Vec<String>) -> (r: Vec<String>)
    requires
        ids@.len() == commands@.len(),
    ensures
        r@.len() == ids@.len(),
        forall|i: int|
            0 <= i < r@.len() ==> #[trigger] r@[i]@ == job_line_spec(
                ids@[i] as nat,
                job_marker(i, ids@.len() as int),
                "Running"@,
                commands@[i]@,
            ),
{
    let mut r: Vec<String> = Vec::new();
    let n = ids.len();
    for i in 0..n
        invariant
            n == ids@.len(),
            n == commands@.len(),
            r@.len() == i,
            forall|k: int|
                0 <= k < i ==> #[trigger] r@[k]@ == job_line_spec(
                    ids@[k] as nat,
                    job_marker(k, n as int),
                    "Running"@,
                    commands@[k]@,
                ),
    {
        let marker = if i == n - 1 {
            '+'
        } else if i + 2 == n {
            '-'
        } else {
            ' '
        };
        r.push(job_line(ids[i], marker, "Running", commands[i].as_str()));
    }
    r
}

/// The line printed when a background job has finished.
pub fn done_line(id: usize, command: &str) -> (r: String)
    ensures
        r@ == job_line_spec(id as nat, ' ', "Done"@, command@),
{
    job_line(id, ' ', "Done", command)
}

/// The line printed when a job starts in the background: `[id] pid`.
pub fn launch_line(id: usize, pid: u32) -> (r: String)
    ensures
        r@ == "["@ + decimal(id as nat) + "] "@ + decimal(pid as nat),
{
    let mut r = "[".to_owned();
    r.append(decimal_string(id as u64).as_str());
    r.append("] ");
    r.append(decimal_string(pid as u64).as_str());
    r
}

/// The id for a new job: one more than the largest id in use, or 1.
pub fn next_job_id(ids: &Vec<usize>) -> (r: usize)
    requires
        forall|i: int| 0 <= i < ids@.len() ==> #[trigger] ids@[i] < usize::MAX,
    ensures
        forall|i: int| 0 <= i < ids@.len() ==> #[trigger] ids@[i] < r,
        ids@.len() == 0 ==> r == 1,
        ids@.len() > 0 ==> exists|i: int| 0 <= i < ids@.len() && #[trigger] ids@[i] + 1 == r,
{
    let mut max: usize = 0;
    let n = ids.len();
    for i in 0..n
        invariant
            n == ids@.len(),
            forall|k: int| 0 <= k < ids@.len() ==> #[trigger] ids@[k] < usize::MAX,
            forall|k: int| 0 <= k < i ==> #[trigger] ids@[k] <= max,
            i == 0 ==> max == 0,
            i > 0 ==> exists|k: int| 0 <= k < i && #[trigger] ids@[k] == max,
            max < usize::MAX,
    {
        if ids[i] > max {
            max = ids[i];
        }
    }
    max + 1
}

/// The command line shown for a background job: the program, its
/// arguments, and `&`, separated by spaces.
pub fn background_command_line(bin: &str, args: &Vec<String>) -> (r: String)
    ensures
        r@ == bin@ + " "@ + join_spec(views(args@), " "@) + " &"@,
{
    let mut r = bin.to_owned();
    r.append(" ");
    r.append(join_strings(args, " ").as_str());
    r.append(" &");
    r
}

/// What `echo` prints: its arguments separated by spaces.
pub fn echo_line(args: &Vec<String>) -> (r: String)
    ensures
        r@ == join_spec(views(args@), " "@),
{
    join_strings(args, " ")
}

/// What `type` prints for `name`: that it is a builtin; else where it was
/// found on the search path (`resolved`); else that it was not found.
pub fn type_line(name: &str, resolved: Option<&str>) -> (r: String)
    ensures
        r@ == if is_builtin_name(name@) {
            name@ + " is a shell builtin"@
        } else {
            match resolved {
                Some(p) => name@ + " is "@ + p@,
                None => name@ + ": not found"@,
            }
        },
{
    let mut r = name.to_owned();
    if is_builtin(name) {
        r.append(" is a shell builtin");
    } else {
        match resolved {
            Some(p) => {
                r.append(" is ");
                r.append(p);
            },
            None => r.append(": not found"),
        }
    }
    r
}

/// Where `cd` goes: its first argument, else `home`; the error message when
/// there is neither.
pub fn cd_target(args: &Vec<String>, home: Option<&str>) -> (r: Result<String, String>)
    ensures
        args@.len() > 0 ==> (r matches Ok(t) && t@ == args@[0]@),
        args@.len() == 0 ==> match home {
            Some(h) => r matches Ok(t) && t@ == h@,
            None => r matches Err(m) && m@ == "cd: HOME not set"@,
        },
{
    if args.len() > 0 {
        Ok(args[0].clone())
    } else {
        match home {
            Some(h) => Ok(h.to_owned()),
            None => Err("cd: HOME not set".to_owned()),
        }
    }
}

/// The message `cd` prints when it cannot enter `path`.
pub fn cd_failure(path: &str) -> (r: String)
    ensures
        r@ == "cd: "@ + path@ + ": No such file or directory"@,
{
    let mut r = "cd: ".to_owned();
    r.append(path);
    r.append(": No such file or directory");
    r
}

/// The message printed when no program of that name is on the search path.
pub fn command_not_found(bin: &str) -> (r: String)
    ensures
        r@ == bin@ + ": command not found"@,
{
    let mut r = bin.to_owned();
    r.append(": command not found");
    r
}

/// What a `complete` command prints, without line ends.
pub struct CompleteReply {
    pub stdout: Option<String>,
    pub stderr: Option<String>,
}

/// Whether `complete` can act on the arguments: there is at least one; the
/// first is `-p`, `-C` or `-r`; `-C` has a script before the name; `-p` of
/// a name with nothing registered has a second argument to name in its
/// message.
pub open spec fn complete_args_valid(db: Map<Seq<char>, Seq<Seq<char>>>, args: Seq<Seq<char>>) -> bool {
    &&& args.len() >= 1
    &&& {
        ||| args[0] == "-p"@ && (db.contains_key(args.last()) || args.len() >= 2)
        ||| args[0] == "-C"@ && args.len() >= 2
        ||| args[0] == "-r"@
    }
}

/// Whether `complete` can act on the arguments.
pub fn complete_args_ok(db: &CompleteDb, args: &Vec<String>) -> (r: bool)
    ensures
        r == complete_args_valid(db@, views(args@)),
{
    let n = args.len();
    if n == 0 {
        return false;
    }
    assert(views(args@)[0] == args@[0]@);
    assert(views(args@).last() == args@[n - 1]@);
    let op = args[0].as_str();
    proof {
        reveal_strlit("-p");
        reveal_strlit("-C");
        reveal_strlit("-r");
        assert("-p"@[1] != "-C"@[1]);
        assert("-p"@[1] != "-r"@[1]);
        assert("-C"@[1] != "-r"@[1]);
    }
    if same_text(op, "-p") {
        db.get(args[n - 1].as_str()).is_some() || n >= 2
    } else if same_text(op, "-C") {
        n >= 2
    } else {
        same_text(op, "-r")
    }
}

/// Runs `complete`: `-p name` prints the script registered for `name` (the
/// first one) or an error naming the second argument; `-C script name`
/// registers `script` (the argument before the last) for `name` (the last);
/// `-r name` forgets `name`.
pub fn complete_builtin(db: &mut CompleteDb, args: &Vec<String>) -> (r: CompleteReply)
    requires
        complete_args_valid(old(db)@, views(args@)),
    ensures
        ({
            let a = views(args@);
            let name = a.last();
            if a[0] == "-p"@ {
                &&& final(db)@ == old(db)@
                &&& if old(db)@.contains_key(name) {
                    &&& r.stdout matches Some(o) && o@ == "complete -C '"@ + old(db)@[name][0]
                        + "' "@ + name
                    &&& r.stderr is None
                } else {
                    &&& r.stdout is None
                    &&& r.stderr matches Some(e) && e@ == "complete: "@ + a[1]
                        + ": no completion specification"@
                }
            } else if a[0] == "-C"@ {
                &&& final(db)@ == with_script(old(db)@, name, a[a.len() - 2])
                &&& r.stdout is None
                &&& r.stderr is None
            } else {
                &&& final(db)@ == old(db)@.remove(name)
                &&& r.stdout is None
                &&& r.stderr is None
            }
        }),
{
    let n = args.len();
    let ghost a = views(args@);
    assert(a[0] == args@[0]@);
    assert(a.last() == args@[n - 1]@);
    let key = &args[n - 1];
    let op = args[0].as_str();
    proof {
        reveal_strlit("-p");
        reveal_strlit("-C");
        reveal_strlit("-r");
        assert("-p"@[1] != "-C"@[1]);
        assert("-p"@[1] != "-r"@[1]);
        assert("-C"@[1] != "-r"@[1]);
    }
    if same_text(op, "-p") {
        match db.get(key.as_str()) {
            Some(scripts) => {
                assert(views(scripts@)[0] == scripts@[0]@);
                let mut o = "complete -C '".to_owned();
                o.append(scripts[0].as_str());
                o.append("' ");
                o.append(key.as_str());
                CompleteReply { stdout: Some(o), stderr: None }
            },
            None => {
                assert(a[1] == args@[1]@);
                let mut e = "complete: ".to_owned();
                e.append(args[1].as_str());
                e.append(": no completion specification");
                CompleteReply { stdout: None, stderr: Some(e) }
            },
        }
    } else if same_text(op, "-C") {
        assert(a[n - 2] == args@[n - 2]@);
        db.register(key.clone(), args[n - 2].clone());
        CompleteReply { stdout: None, stderr: None }
    } else {
        db.remove(key.as_str());
        CompleteReply { stdout: None, stderr: None }
    }
}

} // verus!
