use llmcli::input::{LineReader, LineResult, Next};

/// Feeds bytes until the line is complete; gives the result, if any, and all that was written.
fn feed(reader: &mut LineReader, bytes: &[u8]) -> (Option<LineResult>, String) {
    let mut out = String::new();
    for b in bytes {
        let step = reader.step(Some(*b));
        out.push_str(&step.output);
        if let Next::Done(result) = step.next {
            return (Some(result), out);
        }
    }
    (None, out)
}

fn read(bytes: &[u8]) -> String {
    let mut reader = LineReader::new("> ");
    match feed(&mut reader, bytes).0 {
        Some(LineResult::Line(s)) => s,
        other => panic!("no line: {:?}", other),
    }
}

#[test]
fn an_entered_line_is_read() {
    assert_eq!(read(b"hello\r"), "hello");
    assert_eq!(read(b"hello\n"), "hello");
    assert_eq!(read("안녕, né \u{1F600}\r".as_bytes()), "안녕, né \u{1F600}");
    assert_eq!(read(b"\r"), "");
}

#[test]
fn typing_is_echoed() {
    let mut reader = LineReader::new("> ");
    let (result, out) = feed(&mut reader, "a한\r".as_bytes());
    assert!(matches!(result, Some(LineResult::Line(_))));
    assert_eq!(out, "a한\r\n");
}

#[test]
fn typing_inside_the_line_redraws() {
    let mut reader = LineReader::new("> ");
    let (_, out) = feed(&mut reader, b"ac\x1b[Db");
    assert_eq!(out, "ac\r\x1b[J> ac\x1b[1Db\r\x1b[J> abc\x1b[1D");
    let (result, _) = feed(&mut reader, b"\r");
    assert!(matches!(result, Some(LineResult::Line(s)) if s == "abc"));
}

#[test]
fn backspace_keys_erase() {
    assert_eq!(read("한글\x7f자\x08!\r".as_bytes()), "한!");
    let mut reader = LineReader::new("> ");
    let (_, out) = feed(&mut reader, b"\x7f");
    assert_eq!(out, "");
}

#[test]
fn cursor_keys_move_and_delete() {
    assert_eq!(read("나라\x1b[D\x1b[D가\x1b[C다\r".as_bytes()), "가나다라");
    assert_eq!(read("abc\x1b[D\x1b[D\x1b[3~\r".as_bytes()), "ac");
    assert_eq!(read("abc\x1b[3~\x1b[C\r".as_bytes()), "abc");
    assert_eq!(read("abc\x1b[A\x1b[B\r".as_bytes()), "abc");
    assert_eq!(read("abc\x1b[3x\r".as_bytes()), "abc");
}

#[test]
fn other_sequences_are_passed_over() {
    assert_eq!(read(b"a\x1b[5~b\x1b[45~c\x1b[21~d\r"), "abcd");
    assert_eq!(read(b"a\x1b[15~b\r"), "a5~b");
    assert_eq!(read(b"a\x1bxb\r"), "ab");
    assert_eq!(read(b"a\x1b[Zb\r"), "ab");
    assert_eq!(read(b"a\x01\x09b\r"), "ab");
}

#[test]
fn control_keys_end_the_line() {
    let mut reader = LineReader::new("> ");
    let (result, out) = feed(&mut reader, b"abc\x03");
    assert!(matches!(result, Some(LineResult::Interrupted)));
    assert_eq!(out, "abc\r\n");

    let mut reader = LineReader::new("> ");
    let (result, out) = feed(&mut reader, b"\x04");
    assert!(matches!(result, Some(LineResult::Eof)));
    assert_eq!(out, "\r\n");

    assert_eq!(read(b"abc\x04\r"), "abc");
}

#[test]
fn a_backslash_continues_the_line() {
    assert_eq!(read(b"one\\\rtwo\r"), "one\ntwo");
    assert_eq!(read("하나\\\n둘\\\r셋\r".as_bytes()), "하나\n둘\n셋");
    assert_eq!(read("가\\\x1b[D\r".as_bytes()), "가\\");
    assert_eq!(read(b"a\\b\x1b[D\rc\r"), "a\ncb");
}

#[test]
fn a_paste_is_inserted_whole() {
    assert_eq!(read(b"<\x1b[200~a\rb\x03\x7f\x1b[201~>\r"), "<a\nb\x03\x7f>");
    assert_eq!(read(b"\x1b[200~x\x1b[1~y\x1bz\x1b[201~\r"), "x\x1b[1~y\x1bz");
    assert_eq!(read("a\x1b[200~한\r\n글\x1b[201~\r".as_bytes()), "a한\n\n글");
    assert_eq!(read(b"a\x1b[200~\xff\x1b[201~b\r"), "ab");
    assert_eq!(read(b"\x1b[200~a\x1b[mb\x1b[201~\r"), "a\x1b[mb");
    assert_eq!(read(b"\x1b[200~\x1b\x1b[20\x1b[201x\x1b[2\r\x1b[201~\r"), "\x1b\x1b[20\x1b[201x\x1b[2\r");
    assert_eq!(read(b"\x1b[200~\x1b\r\r\x1b[201~\r"), "\x1b\r\n");
}

#[test]
fn invalid_utf8_is_dropped() {
    assert_eq!(read(b"a\xc3\x28b\r"), "ab");
    assert_eq!(read(b"a\x80\x80b\r"), "ab");
    assert_eq!(read(b"a\xed\xa0\x80b\r"), "ab");
    assert_eq!(read(b"a\xf8\x88\x80\x80b\r"), "ab");
}

#[test]
fn escape_asks_for_a_byte_at_once() {
    let mut reader = LineReader::new("> ");
    assert!(matches!(reader.step(Some(0x1b)).next, Next::ReadSoon));
    assert!(matches!(reader.step(None).next, Next::Read));
    let (result, _) = feed(&mut reader, b"ok\r");
    assert!(matches!(result, Some(LineResult::Line(s)) if s == "ok"));
}

#[test]
fn failed_input_ends_the_line_from_any_state() {
    for bytes in [
        &b""[..], b"ab", b"\x1b", b"\x1b[", b"\x1b[3", b"\x1b[20", b"\x1b[5", b"\xea\xb0",
        b"\x1b[200~x", b"\x1b[200~x\x1b", b"\x1b[200~x\x1b[20",
    ] {
        let mut reader = LineReader::new("> ");
        let (result, _) = feed(&mut reader, bytes);
        assert!(result.is_none());
        let ended = (0..3).any(|_| matches!(reader.step(None).next, Next::Done(LineResult::Eof)));
        assert!(ended, "{:?}", bytes);
    }
}

#[test]
fn a_failed_read_in_a_paste_is_a_zero_or_its_end() {
    let mut reader = LineReader::new("> ");
    feed(&mut reader, b"\x1b[200~x\x1b[20");
    assert!(matches!(reader.step(None).next, Next::Read));
    feed(&mut reader, b"y\r");
    assert!(matches!(reader.step(None).next, Next::Read));
    let (result, _) = feed(&mut reader, b"\r");
    assert!(matches!(result, Some(LineResult::Line(s)) if s == "x\x1b[20\0y\n"));
}

#[test]
fn a_redraw_goes_up_to_the_prompt() {
    let mut reader = LineReader::new("> ");
    feed(&mut reader, b"a\\\rb\\\rc");
    let (_, out) = feed(&mut reader, b"d\x7f");
    assert_eq!(out, "d\x1b[2A\r\x1b[J> a\r\nb\r\nc");
    feed(&mut reader, b"\x7f\x7f");
    let (_, out) = feed(&mut reader, b"\x7f");
    assert_eq!(out, "\x1b[1A\r\x1b[J> a\r\n");
}
