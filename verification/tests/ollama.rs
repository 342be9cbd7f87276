use llmcli::ollama::{
    api_error, chat_request, unload_request, ChatStream, ChunkMessage, Message, StreamChunk, Token,
};

fn lines(pieces: &[&[u8]]) -> Vec<String> {
    let mut stream = ChatStream::new();
    let mut found = Vec::new();
    for piece in pieces {
        stream.receive(piece);
        while let Some(line) = stream.next_line() {
            found.push(String::from_utf8(line).unwrap());
        }
    }
    found
}

fn chunk(thinking: Option<&str>, content: Option<&str>, done: Option<bool>) -> StreamChunk {
    StreamChunk {
        message: Some(ChunkMessage {
            content: content.map(|s| s.to_string()),
            thinking: thinking.map(|s| s.to_string()),
        }),
        done,
    }
}

fn shown(tokens: Vec<Token>) -> Vec<String> {
    tokens
        .into_iter()
        .map(|t| match t {
            Token::Think(s) => format!("<{}>", s),
            Token::ThinkEnd => "</think>".to_string(),
            Token::Content(s) => s,
        })
        .collect()
}

#[test]
fn lines_are_complete_trimmed_and_not_blank() {
    assert_eq!(lines(&[b"{1}\n\r\n  {2}\t\r\n\n{3"]), vec!["{1}", "{2}"]);
    assert_eq!(lines(&[b""]), Vec::<String>::new());
    assert_eq!(lines(&[b"\n \n"]), Vec::<String>::new());
    assert_eq!(lines(&[b"a\x0b\n"]), vec!["a\x0b"]);
}

#[test]
fn lines_do_not_depend_on_the_pieces() {
    let all = "{\"한\":1}\n \n{\"b\":2}\r\n{3}\n{4".as_bytes();
    let whole = lines(&[all]);
    assert_eq!(whole, vec!["{\"한\":1}", "{\"b\":2}", "{3}"]);
    for i in 0..=all.len() {
        assert_eq!(lines(&[&all[..i], &all[i..]]), whole);
    }
    let bytes: Vec<&[u8]> = all.chunks(1).collect();
    assert_eq!(lines(&bytes), whole);
}

#[test]
fn thinking_is_shown_part_by_part_and_ends_with_the_answer() {
    let mut s = ChatStream::new();
    assert_eq!(shown(s.accept(Some(chunk(Some(""), Some(""), None)))), Vec::<String>::new());
    assert_eq!(shown(s.accept(Some(chunk(Some("hm"), None, None)))), vec!["<hm>"]);
    assert_eq!(shown(s.accept(Some(chunk(Some("so"), Some(""), None)))), vec!["<so>"]);
    assert_eq!(shown(s.accept(Some(chunk(None, Some("He"), None)))), vec!["</think>", "He"]);
    assert_eq!(shown(s.accept(Some(chunk(Some("more"), Some("llo"), None)))), vec!["<more>", "llo"]);
    assert_eq!(shown(s.accept(None)), Vec::<String>::new());
    assert_eq!(
        shown(s.accept(Some(StreamChunk { message: None, done: Some(false) }))),
        Vec::<String>::new()
    );
    assert_eq!(s.into_content(), "Hello");
}

#[test]
fn thinking_and_answer_in_one_part() {
    let mut s = ChatStream::new();
    assert_eq!(
        shown(s.accept(Some(chunk(Some("hm"), Some("yes"), None)))),
        vec!["<hm>", "</think>", "yes"]
    );
    assert_eq!(s.into_content(), "yes");
}

#[test]
fn after_the_last_part_lines_wait_for_more_bytes() {
    let mut s = ChatStream::new();
    assert!(s.next_line().is_none());
    s.receive(b"one\ntwo\n");
    assert_eq!(s.next_line(), Some(b"one".to_vec()));
    s.accept(Some(chunk(None, Some("x"), Some(true))));
    assert_eq!(s.next_line(), None);
    s.receive(b"three\n");
    assert_eq!(s.next_line(), Some(b"two".to_vec()));
    assert_eq!(s.next_line(), Some(b"three".to_vec()));
    assert_eq!(s.next_line(), None);
}

#[test]
fn messages_and_requests() {
    let m = Message::assistant("hi".to_string());
    assert_eq!((m.role.as_str(), m.content.as_str()), ("assistant", "hi"));
    assert!(m.images.is_none() && m.audios.is_none());
    let u = Message::user("q".to_string(), vec!["YQ==".to_string()]);
    assert_eq!(u.role, "user");
    assert_eq!(u.images, Some(vec!["YQ==".to_string()]));
    assert!(Message::user("q".to_string(), Vec::new()).images.is_none());

    let history = vec![u, m];
    let r = chat_request("qwen3", &history, true);
    assert_eq!((r.model, r.messages.len(), r.think, r.stream, r.keep_alive), ("qwen3", 2, true, true, 600));
    let r = unload_request("qwen3");
    assert_eq!((r.model, r.messages.len(), r.keep_alive), ("qwen3", 0, 0));
}

/// Takes a whole reply in, each line of which is a letter and a text; gives the text that is kept and
/// all that is shown.
fn reply(pieces: &[&[u8]]) -> (String, Vec<String>) {
    let mut stream = ChatStream::new();
    let mut all = Vec::new();
    for piece in pieces {
        stream.receive(piece);
        while let Some(line) = stream.next_line() {
            let line = String::from_utf8(line).unwrap();
            let parsed = match line.split_at(1) {
                ("t", s) => Some(chunk(Some(s), None, None)),
                ("c", s) => Some(chunk(None, Some(s), None)),
                ("d", s) => Some(chunk(None, Some(s), Some(true))),
                _ => None,
            };
            all.extend(shown(stream.accept(parsed)));
        }
    }
    (stream.into_content(), all)
}

#[test]
fn a_reply_does_not_depend_on_the_pieces() {
    let bytes = "ta\n\ntb\nbad\nc한\nc!\nd.\n \n".as_bytes();
    let whole = reply(&[bytes]);
    assert_eq!(whole.0, "한!.");
    assert_eq!(whole.1, vec!["<a>", "<b>", "</think>", "한", "!", "."]);
    for i in 0..=bytes.len() {
        for j in i..=bytes.len() {
            assert_eq!(reply(&[&bytes[..i], &bytes[i..j], &bytes[j..]]), whole);
        }
    }
}

#[test]
fn a_refused_request_is_told() {
    assert_eq!(api_error("404 Not Found", "no model"), "Ollama API error 404 Not Found: no model");
}
