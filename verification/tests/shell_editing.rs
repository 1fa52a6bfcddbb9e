use initfs::shell::{
    dispatch, get_tokens, is_whitespace, Command, Shell, ShellAction, TouchAction, TouchEditor,
    BS, CR, DL, LF,
};

#[test]
fn tokens_split_on_whitespace() {
    assert_eq!(get_tokens("cat  file.txt\0".to_string()), vec!["cat", "file.txt\0"]);
    assert_eq!(get_tokens("  a\tb \n c  ".to_string()), vec!["a", "b", "c"]);
    assert!(get_tokens("   ".to_string()).is_empty());
    assert!(get_tokens(String::new()).is_empty());
    assert_eq!(get_tokens("x\u{3000}y\u{a0}z".to_string()), vec!["x", "y", "z"]);
    assert_eq!(get_tokens("héllo wörld".to_string()), vec!["héllo", "wörld"]);
}

#[test]
fn whitespace_matches_std() {
    for x in 0u32..0x3100 {
        if let Some(c) = char::from_u32(x) {
            assert_eq!(is_whitespace(c), c.is_whitespace(), "char {:x}", x);
        }
    }
}

#[test]
fn dispatch_by_first_word() {
    match dispatch(&"touch notes.txt\0".to_string()) {
        Command::Touch(p) => assert_eq!(p, "notes.txt\0"),
        _ => panic!("expected touch"),
    }
    match dispatch(&"cat a b\0".to_string()) {
        Command::Cat(p) => assert_eq!(p, "a"),
        _ => panic!("expected cat"),
    }
    assert!(matches!(dispatch(&"touch\0".to_string()), Command::Exec));
    assert!(matches!(dispatch(&"ls\0".to_string()), Command::Exec));
    match dispatch(&"touch \0".to_string()) {
        Command::Touch(p) => assert_eq!(p, "\0"),
        _ => panic!("expected touch"),
    }
}

#[test]
fn shell_line_editing() {
    let mut sh = Shell::new();
    assert!(matches!(sh.feed(LF), ShellAction::Enter(None)));
    assert!(matches!(sh.feed(BS), ShellAction::Nothing));
    assert!(matches!(sh.feed(b'l'), ShellAction::Echo('l')));
    assert!(matches!(sh.feed(b's'), ShellAction::Echo('s')));
    assert!(matches!(sh.feed(b'x'), ShellAction::Echo('x')));
    assert!(matches!(sh.feed(DL), ShellAction::Erase));
    match sh.feed(CR) {
        ShellAction::Enter(Some(line)) => assert_eq!(line, "ls\0"),
        _ => panic!("expected a line"),
    }
    assert!(matches!(sh.feed(LF), ShellAction::Enter(None)));
}

#[test]
fn shell_bytes_read_as_latin1() {
    let mut sh = Shell::new();
    assert!(matches!(sh.feed(0xe9), ShellAction::Echo('\u{e9}')));
    match sh.feed(LF) {
        ShellAction::Enter(Some(line)) => assert_eq!(line, "\u{e9}\0"),
        _ => panic!("expected a line"),
    }
}

#[test]
fn touch_saves_after_empty_line() {
    let mut ed = TouchEditor::new();
    for b in b"hi" {
        assert!(matches!(ed.feed(*b), TouchAction::Echo(_)));
    }
    assert!(matches!(ed.feed(LF), TouchAction::NewLine));
    assert!(matches!(ed.feed(b'y'), TouchAction::Echo('y')));
    assert!(matches!(ed.feed(b'o'), TouchAction::Echo('o')));
    assert!(matches!(ed.feed(BS), TouchAction::Erase));
    assert!(matches!(ed.feed(CR), TouchAction::NewLine));
    match ed.feed(LF) {
        TouchAction::Save(text) => assert_eq!(text, "hi\ny\n"),
        _ => panic!("expected save"),
    }
}

#[test]
fn touch_backspace_cancels_line_end() {
    let mut ed = TouchEditor::new();
    assert!(matches!(ed.feed(b'a'), TouchAction::Echo('a')));
    assert!(matches!(ed.feed(LF), TouchAction::NewLine));
    assert!(matches!(ed.feed(BS), TouchAction::Nothing));
    assert!(matches!(ed.feed(LF), TouchAction::NewLine));
    match ed.feed(LF) {
        TouchAction::Save(text) => assert_eq!(text, "a\n\n"),
        _ => panic!("expected save"),
    }
}

#[test]
fn touch_empty_file() {
    let mut ed = TouchEditor::new();
    assert!(matches!(ed.feed(LF), TouchAction::NewLine));
    match ed.feed(LF) {
        TouchAction::Save(text) => assert_eq!(text, "\n"),
        _ => panic!("expected save"),
    }
}
