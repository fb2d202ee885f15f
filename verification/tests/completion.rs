use tinysh::{
    complete_from_listing, completer_argv, decide, lcp, listing_of, parse_script_output,
    CompCandidate, CompleteDb, Completion, CompletionEngine, ListingSource, TrieNode,
};

fn strings(v: &[&str]) -> Vec<String> {
    v.iter().map(|s| s.to_string()).collect()
}

fn sorted(mut v: Vec<String>) -> Vec<String> {
    v.sort();
    v
}

#[test]
fn test_lcp() {
    assert_eq!(
        lcp(&[
            "alex".to_string(),
            "alexandra".to_string(),
            "alexis".to_string()
        ]),
        "alex".to_string()
    );
}

#[test]
fn lcp_of_one_word_is_the_word() {
    assert_eq!(lcp(&["git".to_string()]), "git");
}

#[test]
fn lcp_of_disjoint_words_is_empty() {
    assert_eq!(lcp(&strings(&["abc", "xyz"])), "");
}

#[test]
fn trie_search_finds_words_with_prefix() {
    let mut t = TrieNode::new();
    for w in ["git", "gitk", "grep", "go", "ls"] {
        t.insert(w.to_string());
    }
    assert_eq!(sorted(t.search("gi")), strings(&["git", "gitk"]));
    assert_eq!(sorted(t.search("g")), strings(&["git", "gitk", "go", "grep"]));
    assert!(t.search("x").is_empty());
    assert!(t.search("gitkx").is_empty());
}

#[test]
fn trie_empty_search_finds_all() {
    let mut t = TrieNode::new();
    for w in ["b", "a", "ab"] {
        t.insert(w.to_string());
    }
    assert_eq!(sorted(t.search("")), strings(&["a", "ab", "b"]));
}

#[test]
fn trie_insert_is_idempotent() {
    let mut t = TrieNode::new();
    t.insert("cat".to_string());
    t.insert("cat".to_string());
    assert_eq!(t.search("c"), strings(&["cat"]));
}

#[test]
fn trie_inserted_word_found_by_each_prefix() {
    let mut t = TrieNode::new();
    t.insert("héllo".to_string());
    for p in ["", "h", "hé", "hél", "héll", "héllo"] {
        assert_eq!(t.search(p), strings(&["héllo"]));
    }
}

#[test]
fn empty_word_is_stored() {
    let mut t = TrieNode::new();
    t.insert(String::new());
    assert_eq!(t.search(""), strings(&[""]));
}

#[test]
fn decide_nothing() {
    assert!(matches!(decide(Vec::new(), "x"), CompCandidate::Nothing));
}

#[test]
fn decide_single_word() {
    match decide(strings(&["echo"]), "ec") {
        CompCandidate::ExpandBuffer { suffix, append_space } => {
            assert_eq!(suffix, "ho");
            assert!(append_space);
        }
        _ => panic!("expected an expansion"),
    }
}

#[test]
fn decide_single_directory() {
    match decide(strings(&["src/"]), "s") {
        CompCandidate::ExpandBuffer { suffix, append_space } => {
            assert_eq!(suffix, "rc/");
            assert!(!append_space);
        }
        _ => panic!("expected an expansion"),
    }
}

#[test]
fn decide_common_prefix_extends() {
    match decide(strings(&["alexis", "alexandra", "alex"]), "al") {
        CompCandidate::ExpandBuffer { suffix, append_space } => {
            assert_eq!(suffix, "ex");
            assert!(!append_space);
        }
        _ => panic!("expected an expansion"),
    }
}

#[test]
fn decide_lists_sorted() {
    match decide(strings(&["xyz_foo", "xyz_bar", "xyz_baz"]), "xyz_") {
        CompCandidate::ListCandidates { candidates } => {
            assert_eq!(candidates, strings(&["xyz_bar", "xyz_baz", "xyz_foo"]));
        }
        _ => panic!("expected a list"),
    }
}

#[test]
fn decide_sorts_by_code_point() {
    match decide(strings(&["b", "B", "é", "a"]), "") {
        CompCandidate::ListCandidates { candidates } => {
            assert_eq!(candidates, sorted(strings(&["b", "B", "é", "a"])));
        }
        _ => panic!("expected a list"),
    }
}

#[test]
fn listing_filters_by_prefix() {
    match complete_from_listing(strings(&["main.rs", "lib.rs", "mod.rs"]), "ma") {
        CompCandidate::ExpandBuffer { suffix, append_space } => {
            assert_eq!(suffix, "in.rs");
            assert!(append_space);
        }
        _ => panic!("expected an expansion"),
    }
    assert!(matches!(
        complete_from_listing(strings(&["main.rs"]), "x"),
        CompCandidate::Nothing
    ));
}

#[test]
fn script_output_is_trimmed_and_split() {
    assert_eq!(parse_script_output("  add\ncommit\n\n"), strings(&["add", "commit"]));
    assert_eq!(parse_script_output("one"), strings(&["one"]));
    assert_eq!(parse_script_output(" \t\n"), strings(&[""]));
    assert_eq!(parse_script_output("a\n\nb"), strings(&["a", "", "b"]));
}

#[test]
fn completer_arguments() {
    assert_eq!(completer_argv(&strings(&["git", "co"])), strings(&["git", "co", "git"]));
    assert_eq!(
        completer_argv(&strings(&["git", "commit", "-m"])),
        strings(&["git", "-m", "commit"])
    );
    assert_eq!(completer_argv(&strings(&["git"])), strings(&[""]));
    assert_eq!(completer_argv(&strings(&["a", "b", "c", "d"])), strings(&[""]));
}

#[test]
fn directory_listing_marks_directories() {
    let entries = vec![
        ("a.txt".to_string(), true, false),
        ("src".to_string(), false, true),
        ("sock".to_string(), false, false),
    ];
    assert_eq!(listing_of(entries), strings(&["a.txt", "src/"]));
}

fn engine() -> CompletionEngine {
    CompletionEngine::new(strings(&["git", "gitk", "grep"]))
}

#[test]
fn engine_completes_commands_and_builtins() {
    let e = engine();
    let db = CompleteDb::new();
    match e.find_matches("gre", None, &db) {
        Completion::Ready(CompCandidate::ExpandBuffer { suffix, append_space }) => {
            assert_eq!(suffix, "p");
            assert!(append_space);
        }
        _ => panic!("expected an expansion"),
    }
    match e.find_matches("ech", None, &db) {
        Completion::Ready(CompCandidate::ExpandBuffer { suffix, append_space }) => {
            assert_eq!(suffix, "o");
            assert!(append_space);
        }
        _ => panic!("expected an expansion"),
    }
    match e.find_matches("g", None, &db) {
        Completion::Ready(CompCandidate::ListCandidates { candidates }) => {
            assert_eq!(candidates, strings(&["git", "gitk", "grep"]));
        }
        _ => panic!("expected candidates"),
    }
    assert!(matches!(
        e.find_matches("", None, &db),
        Completion::Ready(CompCandidate::Nothing)
    ));
    assert!(matches!(
        e.find_matches("zz", None, &db),
        Completion::Ready(CompCandidate::Nothing)
    ));
}

#[test]
fn engine_asks_for_directory_listing() {
    let e = engine();
    let db = CompleteDb::new();
    match e.find_matches("cat src/ma", None, &db) {
        Completion::NeedListing { source: ListingSource::Directory { dir }, prefix } => {
            assert_eq!(dir, "./src");
            assert_eq!(prefix, "ma");
        }
        _ => panic!("expected a directory listing"),
    }
    match e.find_matches("cat src/", None, &db) {
        Completion::NeedListing { source: ListingSource::Directory { dir }, prefix } => {
            assert_eq!(dir, "./src/");
            assert_eq!(prefix, "");
        }
        _ => panic!("expected a directory listing"),
    }
    match e.find_matches("cat ", None, &db) {
        Completion::NeedListing { source: ListingSource::Directory { dir }, prefix } => {
            assert_eq!(dir, ".");
            assert_eq!(prefix, "");
        }
        _ => panic!("expected a directory listing"),
    }
    match e.find_matches("cat fi", None, &db) {
        Completion::NeedListing { source: ListingSource::Directory { dir }, prefix } => {
            assert_eq!(dir, ".");
            assert_eq!(prefix, "fi");
        }
        _ => panic!("expected a directory listing"),
    }
}

#[test]
fn engine_asks_for_script_output() {
    let e = engine();
    let mut db = CompleteDb::new();
    db.register("git".to_string(), "/bin/git-complete".to_string());
    db.register("git".to_string(), "/bin/other".to_string());
    match e.find_matches("git co", None, &db) {
        Completion::NeedListing {
            source: ListingSource::Script { script, argv, comp_line, comp_point },
            prefix,
        } => {
            assert_eq!(script, "/bin/git-complete");
            assert_eq!(argv, strings(&["git", "co", "git"]));
            assert_eq!(comp_line, "git co");
            assert_eq!(comp_point, 6);
            assert_eq!(prefix, "co");
        }
        _ => panic!("expected a script run"),
    }
}

#[test]
fn outcome_independent_of_order() {
    let orders = [
        strings(&["gamma", "alpha", "beta"]),
        strings(&["beta", "gamma", "alpha"]),
        strings(&["alpha", "beta", "gamma"]),
    ];
    for ws in orders {
        match decide(ws, "") {
            CompCandidate::ListCandidates { candidates } => {
                assert_eq!(candidates, strings(&["alpha", "beta", "gamma"]));
            }
            _ => panic!("expected a list"),
        }
    }
    for ws in [strings(&["abx", "aby"]), strings(&["aby", "abx"])] {
        match decide(ws, "a") {
            CompCandidate::ExpandBuffer { suffix, append_space } => {
                assert_eq!(suffix, "b");
                assert!(!append_space);
            }
            _ => panic!("expected an expansion"),
        }
    }
}

#[test]
fn duplicate_listing_entries_expand() {
    match complete_from_listing(strings(&["add", "add"]), "a") {
        CompCandidate::ExpandBuffer { suffix, append_space } => {
            assert_eq!(suffix, "dd");
            assert!(!append_space);
        }
        _ => panic!("expected an expansion"),
    }
}

#[test]
fn trim_line_strips_white_space() {
    assert_eq!(tinysh::trim_line("  echo hi \t"), "echo hi");
    assert_eq!(tinysh::trim_line("   "), "");
}

#[test]
fn rec_search_appends_prefixed_words() {
    let mut t = TrieNode::new();
    for w in ["a", "bc", ""] {
        t.insert(w.to_string());
    }
    let mut results = strings(&["kept"]);
    t.rec_search(&"pre".to_string(), &mut results);
    assert_eq!(results[0], "kept");
    assert_eq!(results.len(), 4);
    assert_eq!(sorted(results[1..].to_vec()), strings(&["pre", "prea", "prebc"]));
}
