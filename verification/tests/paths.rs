use std::path::Path;

use tinysh::{file_name, join_path, white_space};

const SAMPLES: &[&str] = &[
    "", ".", "..", "/", "//", "a", "a/", "a/b", "a//b", "/a", "/a/", "./a", "a/.", "a/./",
    "a/..", "../a", ".hidden", "a/.hidden", "~", "x y/z", "./", "/..", "a/b/c.txt", "é/ü",
];

#[test]
fn join_matches_std() {
    for base in SAMPLES {
        for p in SAMPLES {
            let expected = Path::new(base).join(p).to_string_lossy().into_owned();
            assert_eq!(join_path(base, p), expected, "join of {:?} and {:?}", base, p);
        }
    }
}

#[test]
fn join_examples() {
    assert_eq!(join_path(".", "src"), "./src");
    assert_eq!(join_path(".", ""), "./");
    assert_eq!(join_path(".", "/tmp/x"), "/tmp/x");
    assert_eq!(join_path("/usr/bin", "ls"), "/usr/bin/ls");
    assert_eq!(join_path("/usr/bin/", "ls"), "/usr/bin/ls");
    assert_eq!(join_path("", "ls"), "ls");
}

#[test]
fn file_name_matches_std() {
    for p in SAMPLES {
        let expected = Path::new(p)
            .file_name()
            .map(|f| f.to_string_lossy().into_owned());
        assert_eq!(file_name(p), expected, "file name of {:?}", p);
    }
}

#[test]
fn white_space_matches_std() {
    for n in 0u32..=0x10FFFF {
        if let Some(c) = char::from_u32(n) {
            assert_eq!(white_space(c), c.is_whitespace(), "character {:#x}", n);
        }
    }
}
