use tinysh::tokenize;

#[test]
fn test_tokenize() {
    assert_eq!(tokenize("ls ", None), ["ls".to_string()]);
    assert_eq!(
        tokenize("complete -p git", None),
        ["complete".to_string(), "-p".to_string(), "git".to_string()]
    );
    assert_eq!(
        tokenize(r#"cat "my ""#, None),
        ["cat".to_string(), "my ".to_string()]
    );
    assert_eq!(
        tokenize(r#"cat "\i""#, None),
        ["cat".to_string(), r"\i".to_string()]
    );
    assert_eq!(
        tokenize("cat file.txt | echo", None),
        ["cat", "file.txt", "|", "echo"]
    );
    assert_eq!(
        tokenize("cat /tmp/ant/file-32 | wc", None),
        ["cat", "/tmp/ant/file-32", "|", "wc"]
    );
}

#[test]
fn test_tilde() {
    let command = "cd ~/Downloads/books";
    assert_eq!(
        tokenize(command, Some("/Users/nashjr")),
        Vec::from([
            String::from("cd"),
            String::from("/Users/nashjr/Downloads/books")
        ])
    );
}

#[test]
fn test_backslash() {
    let command = "cd \\~/Downloads/books";
    assert_eq!(
        tokenize(command, Some("/Users/nashjr")),
        Vec::from([String::from("cd"), String::from("~/Downloads/books")])
    );
}

#[test]
fn tilde_without_home_stays() {
    assert_eq!(tokenize("cd ~/x", None), ["cd", "~/x"]);
}

#[test]
fn tilde_inside_word_stays() {
    assert_eq!(tokenize("echo a~b", Some("/h")), ["echo", "a~b"]);
}

#[test]
fn single_quotes_keep_text() {
    assert_eq!(tokenize("echo 'a  b\\c'", None), ["echo", "a  b\\c"]);
}

#[test]
fn empty_quotes_make_a_word() {
    assert_eq!(tokenize("echo '' \"\"", None), ["echo", "", ""]);
}

#[test]
fn double_quote_escapes() {
    assert_eq!(tokenize(r#"echo "a\"b\$c\\d\x""#, None), ["echo", r#"a"b$c\d\x"#]);
}

#[test]
fn backslash_makes_literal() {
    assert_eq!(tokenize("\\ ", None), [" "]);
    assert_eq!(tokenize("a\\ b", None), ["a b"]);
}

#[test]
fn spaces_only() {
    assert!(tokenize("   ", None).is_empty());
    assert!(tokenize("", None).is_empty());
}

#[test]
fn quoted_parts_join_words() {
    assert_eq!(tokenize("a'b'\"c\"d", None), ["abcd"]);
}
