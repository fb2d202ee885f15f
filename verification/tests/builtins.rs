use tinysh::{
    background_command_line, builtins, cd_failure, command_not_found, cd_target, complete_args_ok, complete_builtin,
    decimal_string, done_line, echo_line, is_builtin, is_executable, jobs_listing, launch_line,
    next_job_id, split_path_list, type_line, CompleteDb,
};

fn words(v: &[&str]) -> Vec<String> {
    v.iter().map(|s| s.to_string()).collect()
}

#[test]
fn builtin_names() {
    assert_eq!(
        builtins(),
        words(&["exit", "echo", "type", "pwd", "cd", "complete", "jobs"])
    );
    assert!(is_builtin("cd"));
    assert!(!is_builtin("ls"));
    assert!(!is_builtin("ech"));
}

#[test]
fn path_list_split() {
    assert_eq!(split_path_list("/usr/bin:/bin"), words(&["/usr/bin", "/bin"]));
    assert_eq!(split_path_list(""), words(&[""]));
    assert_eq!(split_path_list("a::b:"), words(&["a", "", "b", ""]));
}

#[test]
fn executable_check() {
    assert!(is_executable(true, 0o755));
    assert!(is_executable(true, 0o001));
    assert!(!is_executable(true, 0o644));
    assert!(!is_executable(false, 0o755));
}

#[test]
fn echo_joins_with_spaces() {
    assert_eq!(echo_line(&words(&["a", "b", "c"])), "a b c");
    assert_eq!(echo_line(&Vec::new()), "");
}

#[test]
fn type_reports() {
    assert_eq!(type_line("echo", None), "echo is a shell builtin");
    assert_eq!(type_line("echo", Some("/bin/echo")), "echo is a shell builtin");
    assert_eq!(type_line("ls", Some("/bin/ls")), "ls is /bin/ls");
    assert_eq!(type_line("nope", None), "nope: not found");
}

#[test]
fn cd_targets() {
    assert_eq!(cd_target(&words(&["/tmp"]), Some("/home/u")), Ok("/tmp".to_string()));
    assert_eq!(cd_target(&Vec::new(), Some("/home/u")), Ok("/home/u".to_string()));
    assert_eq!(cd_target(&Vec::new(), None), Err("cd: HOME not set".to_string()));
    assert_eq!(cd_failure("/nope"), "cd: /nope: No such file or directory");
}

#[test]
fn complete_register_print_remove() {
    let mut db = CompleteDb::new();
    let args = words(&["-p", "git"]);
    assert!(complete_args_ok(&db, &args));
    let r = complete_builtin(&mut db, &args);
    assert_eq!(r.stdout, None);
    assert_eq!(r.stderr, Some("complete: git: no completion specification".to_string()));

    let r = complete_builtin(&mut db, &words(&["-C", "/bin/gc", "git"]));
    assert_eq!(r.stdout, None);
    assert_eq!(r.stderr, None);
    let r = complete_builtin(&mut db, &words(&["-C", "/bin/other", "git"]));
    assert_eq!(r.stdout, None);
    assert_eq!(db.get("git"), Some(&words(&["/bin/gc", "/bin/other"])));

    let r = complete_builtin(&mut db, &args);
    assert_eq!(r.stdout, Some("complete -C '/bin/gc' git".to_string()));
    assert_eq!(r.stderr, None);

    complete_builtin(&mut db, &words(&["-r", "git"]));
    assert_eq!(db.get("git"), None);
}

#[test]
fn complete_argument_checks() {
    let db = CompleteDb::new();
    assert!(!complete_args_ok(&db, &Vec::new()));
    assert!(!complete_args_ok(&db, &words(&["-x", "git"])));
    assert!(!complete_args_ok(&db, &words(&["-C"])));
    assert!(!complete_args_ok(&db, &words(&["-p"])));
    assert!(complete_args_ok(&db, &words(&["-r"])));
    assert!(complete_args_ok(&db, &words(&["-C", "s", "git"])));
}

#[test]
fn decimals() {
    assert_eq!(decimal_string(0), "0");
    assert_eq!(decimal_string(7), "7");
    assert_eq!(decimal_string(10), "10");
    assert_eq!(decimal_string(12345), "12345");
    assert_eq!(decimal_string(u64::MAX), u64::MAX.to_string());
}

#[test]
fn job_lines() {
    let ids = vec![1, 2, 3];
    let cmds = words(&["sleep 5 &", "sleep 6 &", "sleep 7 &"]);
    let lines = jobs_listing(&ids, &cmds);
    assert_eq!(lines[0], format!("[1]   {:<24}sleep 5 &", "Running"));
    assert_eq!(lines[1], format!("[2]-  {:<24}sleep 6 &", "Running"));
    assert_eq!(lines[2], format!("[3]+  {:<24}sleep 7 &", "Running"));
    let one = jobs_listing(&vec![4], &words(&["x &"]));
    assert_eq!(one, vec![format!("[4]+  {:<24}x &", "Running")]);
    assert_eq!(done_line(2, "sleep 6 &"), format!("[2]   {:<24}sleep 6 &", "Done"));
    assert_eq!(launch_line(3, 4242), "[3] 4242");
}

#[test]
fn job_ids() {
    assert_eq!(next_job_id(&Vec::new()), 1);
    assert_eq!(next_job_id(&vec![1, 3, 2]), 4);
    assert_eq!(background_command_line("sleep", &words(&["5"])), "sleep 5 &");
    assert_eq!(background_command_line("ls", &Vec::new()), "ls  &");
}

#[test]
fn split_then_join_gives_back_text() {
    for text in ["", "a", "/usr/bin:/bin", "::x:"] {
        assert_eq!(split_path_list(text).join(":"), text);
        assert!(split_path_list(text).iter().all(|p| !p.contains(':')));
    }
}

#[test]
fn not_found_message() {
    assert_eq!(command_not_found("frob"), "frob: command not found");
}
