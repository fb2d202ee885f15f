use vstd::prelude::*;

use crate::text::{chars_of, same_text, split_chars, split_spec, views};

verus! {

/// The names of the commands that the shell runs itself.
pub open spec fn builtin_names() -> Seq<Seq<char>> {
    seq!["exit"@, "echo"@, "type"@, "pwd"@, "cd"@, "complete"@, "jobs"@]
}

/// Whether `w` names a command that the shell runs itself.
pub open spec fn is_builtin_name(w: Seq<char>) -> bool {
    builtin_names().contains(w)
}

/// The names of the commands that the shell runs itself, in a fixed order.
pub fn builtins() -> (r: Vec<String>)
    ensures
        views(r@) == builtin_names(),
{
    let r = vec![
        "exit".to_owned(),
        "echo".to_owned(),
        "type".to_owned(),
        "pwd".to_owned(),
        "cd".to_owned(),
        "complete".to_owned(),
        "jobs".to_owned(),
    ];
    assert(views(r@) =~= builtin_names());
    r
}

/// Whether `name` is a command that the shell runs itself.
pub fn is_builtin(name: &str) -> (r: bool)
    ensures
        r == is_builtin_name(name@),
{
    let names = builtins();
    let n = names.len();
    for i in 0..n
        invariant
            n == names@.len(),
            views(names@) == builtin_names(),
            forall|j: int| 0 <= j < i ==> builtin_names()[j] != name@,
    {
        if same_text(names[i].as_str(), name) {
            assert(builtin_names()[i as int] == name@);
            return true;
        }
    }
    false
}

/// The directories of a `PATH`-style list: the pieces between the colons.
pub fn split_path_list(pathenv: &str) -> (r: Vec<String>)
    ensures
        views(r@) == split_spec(pathenv@, ':'),
{
    split_chars(&chars_of(pathenv), ':')
}

/// Whether a directory entry can be run as a program: it is a regular file
/// with an execute bit set for someone.
pub fn is_executable(is_file: bool, mode: u32) -> (r: bool)
    ensures
        r == (is_file && mode & 0o111u32 != 0),
{
    is_file && (mode & 0o111) != 0
}

} // verus!
