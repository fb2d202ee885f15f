use tinysh::{Buffer, CompCandidate, EditorAction, LineEditor};

fn type_str(e: &mut LineEditor, s: &str) {
    for b in s.bytes() {
        e.on_byte(b);
    }
}

#[test]
fn buffer_starts_empty() {
    assert_eq!(Buffer::new().text(), "");
}

#[test]
fn typing_and_erasing() {
    let mut e = LineEditor::new();
    match e.on_byte(b'l') {
        EditorAction::Echo(s) => assert_eq!(s, "l"),
        _ => panic!("expected an echo"),
    }
    type_str(&mut e, "s");
    assert_eq!(e.text(), "ls");
    assert!(matches!(e.on_byte(0x7f), EditorAction::Erase));
    assert_eq!(e.text(), "l");
    assert!(matches!(e.on_byte(0x7f), EditorAction::Erase));
    assert!(matches!(e.on_byte(0x7f), EditorAction::Ignore));
    assert_eq!(e.text(), "");
}

#[test]
fn enter_submits() {
    let mut e = LineEditor::new();
    type_str(&mut e, "echo hi");
    match e.on_byte(0x0a) {
        EditorAction::Submit(s) => assert_eq!(s, "echo hi"),
        _ => panic!("expected a submit"),
    }
}

#[test]
fn tab_asks_for_completion() {
    let mut e = LineEditor::new();
    type_str(&mut e, "ec");
    assert!(matches!(e.on_byte(0x09), EditorAction::Complete));
    match e.on_completion(CompCandidate::ExpandBuffer { suffix: "ho".to_string(), append_space: true }) {
        EditorAction::Echo(s) => assert_eq!(s, "ho "),
        _ => panic!("expected an echo"),
    }
    assert_eq!(e.text(), "echo ");
    assert!(matches!(e.on_completion(CompCandidate::Nothing), EditorAction::Bell));
}

#[test]
fn second_tab_lists_candidates() {
    let mut e = LineEditor::new();
    type_str(&mut e, "g");
    let list = || CompCandidate::ListCandidates {
        candidates: vec!["git".to_string(), "grep".to_string()],
    };
    assert!(matches!(e.on_completion(list()), EditorAction::Bell));
    match e.on_completion(list()) {
        EditorAction::ShowCandidates { listing, line } => {
            assert_eq!(listing, "git  grep");
            assert_eq!(line, "g");
        }
        _ => panic!("expected a listing"),
    }
    assert!(matches!(e.on_completion(list()), EditorAction::Bell));
    e.on_byte(b'i');
    assert!(matches!(e.on_completion(list()), EditorAction::Bell));
}
