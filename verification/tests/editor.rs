use llmcli::editor::{char_width, display_width, utf8_seq_len, LineEditor};

fn editor_with(s: &str) -> LineEditor {
    let mut ed = LineEditor::new("> ");
    ed.insert(s.as_bytes());
    ed
}

#[test]
fn sequence_length_by_first_byte() {
    assert_eq!(utf8_seq_len(b'a'), 1);
    assert_eq!(utf8_seq_len(0x7F), 1);
    assert_eq!(utf8_seq_len(0x80), 2);
    assert_eq!(utf8_seq_len(0xC3), 2);
    assert_eq!(utf8_seq_len(0xDF), 2);
    assert_eq!(utf8_seq_len(0xE0), 3);
    assert_eq!(utf8_seq_len(0xEA), 3);
    assert_eq!(utf8_seq_len(0xF0), 4);
    assert_eq!(utf8_seq_len(0xFF), 4);
}

#[test]
fn wide_characters_take_two_columns() {
    for c in ['가', '힣', '漢', 'ア', 'ꀀ', '！', '￦', '豈', '\u{1100}', '\u{303E}', '\u{FE10}'] {
        assert_eq!(char_width(c), 2, "{:?}", c);
    }
    for c in ['a', 'é', '\u{10FF}', '\u{1160}', '\u{303F}', '\u{FF61}', '\u{1F600}', '\u{FFE7}'] {
        assert_eq!(char_width(c), 1, "{:?}", c);
    }
    for c in [
        '\u{A960}', '\u{1AFF0}', '\u{1AFFF}', '\u{1B000}', '\u{1F200}', '\u{1F2FF}',
        '\u{20000}', '\u{2A6DF}', '\u{3134A}', '\u{3FFFD}',
    ] {
        assert_eq!(char_width(c), 2, "{:?}", c);
    }
    for c in ['\u{1FFFD}', '\u{40000}', '\u{A980}'] {
        assert_eq!(char_width(c), 1, "{:?}", c);
    }
    assert_eq!(display_width(""), 0);
    assert_eq!(display_width("\u{20000}"), 2);
    assert_eq!(display_width("a한글b"), 6);
}

#[test]
fn backspace_erases_one_character() {
    let mut ed = editor_with("a한é\u{1F600}");
    assert!(ed.backspace());
    assert_eq!(ed.as_str(), "a한é");
    assert!(ed.backspace());
    assert_eq!(ed.as_str(), "a한");
    assert!(ed.backspace());
    assert_eq!(ed.as_str(), "a");
    assert!(ed.backspace());
    assert!(!ed.backspace());
    assert!(ed.is_empty());
}

#[test]
fn backspace_undoes_an_insertion() {
    let mut ed = editor_with("ab");
    ed.move_left();
    ed.insert("글".as_bytes());
    assert_eq!(ed.as_str(), "a글b");
    assert!(ed.backspace());
    assert_eq!(ed.as_str(), "ab");
}

#[test]
fn moves_go_by_characters_and_undo_each_other() {
    let mut ed = editor_with("한b글");
    assert!(ed.at_end());
    assert!(!ed.move_right());
    assert!(ed.move_left());
    assert!(ed.move_left());
    ed.insert(b"x");
    assert_eq!(ed.as_str(), "한xb글");
    assert!(ed.move_right());
    assert!(ed.move_left());
    ed.insert(b"y");
    assert_eq!(ed.as_str(), "한xyb글");
    for _ in 0..3 {
        assert!(ed.move_left());
    }
    assert!(!ed.move_left());
    assert_eq!(ed.as_str(), "한xyb글");
}

#[test]
fn delete_erases_behind_the_cursor() {
    let mut ed = editor_with("a한b");
    assert!(!ed.delete());
    ed.move_left();
    ed.move_left();
    assert!(ed.delete());
    assert_eq!(ed.as_str(), "ab");
    assert!(ed.delete());
    assert!(!ed.delete());
    assert_eq!(ed.as_str(), "a");
}

#[test]
fn a_backslash_before_the_cursor_continues() {
    let mut ed = editor_with("one\\");
    assert!(ed.continue_line());
    assert_eq!(ed.as_str(), "one\n");
    assert!(!ed.continue_line());
    assert!(!LineEditor::new("").continue_line());

    let mut inside = editor_with("a\\b");
    assert!(!inside.continue_line());
    inside.move_left();
    assert!(inside.continue_line());
    assert_eq!(inside.as_str(), "a\nb");
    assert!(inside.backspace());
    assert_eq!(inside.as_str(), "ab");

    let mut wide = editor_with("가\\");
    wide.move_left();
    assert!(!wide.continue_line());
    assert_eq!(wide.as_str(), "가\\");

    let mut front = editor_with("\\");
    front.move_left();
    assert!(!front.continue_line());
    assert_eq!(front.as_str(), "\\");
}

#[test]
fn redraw_at_the_end_of_one_line() {
    let mut ed = editor_with("한a");
    assert_eq!(ed.redraw(), "\r\x1b[J> 한a");
}

#[test]
fn redraw_goes_back_to_the_cursor() {
    let mut ed = editor_with("a한글");
    ed.move_left();
    ed.move_left();
    assert_eq!(ed.redraw(), "\r\x1b[J> a한글\x1b[4D");
}

#[test]
fn redraw_of_several_lines() {
    let mut ed = editor_with("x\ny\nzz");
    assert_eq!(ed.redraw(), "\r\x1b[J> x\r\ny\r\nzz");
    for _ in 0..4 {
        ed.move_left();
    }
    assert_eq!(ed.redraw(), "\x1b[2A\r\x1b[J> x\r\ny\r\nzz\x1b[1A\r");
    assert_eq!(ed.redraw(), "\x1b[1A\r\x1b[J> x\r\ny\r\nzz\x1b[1A\r");
    ed.move_right();
    assert_eq!(ed.redraw(), "\x1b[1A\r\x1b[J> x\r\ny\r\nzz\x1b[1A\ry");
    for _ in 0..2 {
        ed.move_left();
    }
    assert_eq!(ed.redraw(), "\x1b[1A\r\x1b[J> x\r\ny\r\nzz\x1b[2A\r> x");
    assert_eq!(ed.redraw(), "\r\x1b[J> x\r\ny\r\nzz\x1b[2A\r> x");
    assert_eq!(ed.as_str(), "x\ny\nzz");
}
