use llmcli::input::LineResult;
use llmcli::ollama::Token;
use llmcli::session::{
    error, info, interrupt_notice, parse_command, parse_media_arg, warn, Action, MediaKind,
    Session, SwitchPlan, ThinkIndicator, HELP,
};

fn session(model: &str) -> Session {
    Session::new(model.to_string(), false, "1.2".to_string())
}

fn printed(a: Action) -> String {
    match a {
        Action::Print(t) => t,
        _ => panic!("nothing printed"),
    }
}

fn line(s: &str) -> LineResult {
    LineResult::Line(s.to_string())
}

#[test]
fn printed_lines_have_their_colour() {
    assert_eq!(info("a"), "\x1b[36ma\x1b[0m\n");
    assert_eq!(warn("a"), "\x1b[33ma\x1b[0m\n");
    assert_eq!(error("a"), "\x1b[31ma\x1b[0m\n");
    assert_eq!(interrupt_notice(), "\n\x1b[33m^C — type /exit to quit.\x1b[0m\n");
}

#[test]
fn media_arguments() {
    let parse = |s: &str| {
        let (path, msg) = parse_media_arg(s);
        (path, msg)
    };
    assert_eq!(parse("a b.png"), ("a b.png".to_string(), None));
    assert_eq!(parse("'a b.png'"), ("a b.png".to_string(), None));
    assert_eq!(
        parse("'/path/with spaces/file.png' optional message here"),
        ("/path/with spaces/file.png".to_string(), Some("optional message here".to_string()))
    );
    assert_eq!(
        parse(" \"it's 한글.png\"  what? "),
        ("it's 한글.png".to_string(), Some("what?".to_string()))
    );
    assert_eq!(parse("'open"), ("'open".to_string(), None));
    assert_eq!(parse("'' x"), ("".to_string(), Some("x".to_string())));
    assert_eq!(parse("'a'b"), ("a".to_string(), Some("b".to_string())));
    assert_eq!(parse(""), ("".to_string(), None));
}

#[test]
fn commands_are_split_and_lowered() {
    assert_eq!(parse_command("/IMAGE  A B "), ("/image".to_string(), "A B".to_string()));
    assert_eq!(parse_command("/Exit"), ("/exit".to_string(), "".to_string()));
    assert_eq!(parse_command("/thin\u{212A}"), ("/think".to_string(), "".to_string()));
    assert_eq!(parse_command(""), ("".to_string(), "".to_string()));
    assert_eq!(parse_command("/ÀB\tc d"), ("/àb\tc".to_string(), "d".to_string()));
}

#[test]
fn lines_are_told_apart() {
    let mut s = session("llama3");
    assert!(matches!(s.handle_line(line("  \t")), Action::Nothing));
    assert!(matches!(s.handle_line(line(" hi there ")), Action::Chat(t) if t == "hi there"));
    assert!(matches!(s.handle_line(line(" /QUIT now")), Action::Quit));
    assert!(matches!(s.handle_line(line("/exit")), Action::Quit));
    assert!(matches!(s.handle_line(LineResult::Eof), Action::Quit));
    assert_eq!(
        printed(s.handle_line(LineResult::Interrupted)),
        "\x1b[33m^C — type /exit to quit.\x1b[0m\n"
    );
}

#[test]
fn help_and_unknown_commands() {
    let mut s = session("llama3");
    let help = printed(s.handle_line(line("/help")));
    assert_eq!(help, HELP);
    assert!(help.starts_with("\n\x1b[1mCommands:\x1b[0m\n  \x1b[36m/help\x1b[0m            Show this help\n  \x1b[36m/info"));
    assert!(help.contains("  \x1b[36m/nothink\x1b[0m         Disable think mode \x1b[2m(default)\x1b[0m\n"));
    assert!(help.ends_with("\n  \x1b[36m/exit\x1b[0m            Unload model and quit\n\n"));
    assert_eq!(help.lines().count(), 17);
    assert_eq!(
        printed(s.handle_line(line("/Foo bar"))),
        "\x1b[31mUnknown command: /foo  (type /help)\x1b[0m\n"
    );
}

#[test]
fn thinking_needs_a_model_that_can() {
    let mut s = session("qwen3:14b");
    assert_eq!(printed(s.handle_line(line("/think"))), "\x1b[36m[think mode ON]\x1b[0m\n");
    assert!(s.think());
    assert_eq!(printed(s.handle_line(line("/nothink"))), "\x1b[36m[think mode OFF]\x1b[0m\n");
    assert!(!s.think());

    let mut s = session("llama3");
    assert_eq!(
        printed(s.handle_line(line("/think"))),
        "\x1b[33m[warn] Current model does not support think mode.\x1b[0m\n"
    );
    assert!(!s.think());
}

#[test]
fn the_prompt_and_the_header() {
    let mut s = session("qwen3");
    assert_eq!(s.prompt(), "\x1b[1m\x1b[32mqwen3\x1b[0m \x1b[1m>\x1b[0m ");
    s.handle_line(line("/think"));
    assert_eq!(
        s.prompt(),
        "\x1b[1m\x1b[32mqwen3\x1b[0m \x1b[35m[think]\x1b[0m \x1b[1m>\x1b[0m "
    );
    assert_eq!(
        s.welcome(),
        "\n\x1b[1mllmcli\x1b[0m v1.2  — Ollama frontend\nmodel : \x1b[32mqwen3\x1b[0m\ncaps  : \
         text, think\ntype  \x1b[36m/help\x1b[0m for commands\n\n"
    );
    assert_eq!(
        printed(s.handle_line(line("/info"))),
        "\n\x1b[1mModel :\x1b[0m \x1b[32mqwen3\x1b[0m\n\x1b[1mCaps  :\x1b[0m text, think\n\
         \x1b[1mThink :\x1b[0m ON\n\x1b[1mHistory:\x1b[0m 0 messages\n\n"
    );
    assert_eq!(s.shutdown(), "\x1b[36m\n[unloading qwen3...]\x1b[0m\n");
}

#[test]
fn model_commands() {
    let mut s = session("qwen3");
    assert!(matches!(s.handle_line(line("/model")), Action::ListModels));
    assert!(matches!(s.handle_line(line("/model 3")), Action::SwitchModel(3)));
    assert_eq!(
        printed(s.handle_line(line("/model three"))),
        "\x1b[31mUsage: /model          — list models\n       /model <number>  — switch by index\
         \x1b[0m\n"
    );
}

#[test]
fn attach_commands_need_the_capability() {
    let mut s = session("gemma3:4b");
    match s.handle_line(line("/image 'a b.png' look")) {
        Action::Attach(kind, path, msg) => {
            assert_eq!(kind, MediaKind::Image);
            assert_eq!(path, "a b.png");
            assert_eq!(msg.as_deref(), Some("look"));
        }
        _ => panic!("no attachment"),
    }
    assert_eq!(
        printed(s.handle_line(line("/audio x.mp3"))),
        "\x1b[33m[warn] Current model does not support audio.\x1b[0m\n"
    );
    assert!(matches!(
        s.handle_line(line("/file notes.txt")),
        Action::Attach(MediaKind::File, path, None) if path == "notes.txt"
    ));
    assert_eq!(
        printed(s.handle_line(line("/file"))),
        "\x1b[31mUsage: /file <path>  or  /file '<path with spaces>' [message]\x1b[0m\n"
    );
    assert_eq!(
        printed(s.handle_line(line("/image"))),
        "\x1b[31mUsage: /image <path>  or  /image '<path with spaces>' [message]\x1b[0m\n"
    );
    assert_eq!(
        printed(s.handle_line(line("/audio"))),
        "\x1b[31mUsage: /audio <path>  or  /audio '<path with spaces>' [message]\x1b[0m\n"
    );
    let mut s = session("qwen3");
    assert_eq!(
        printed(s.handle_line(line("/image x.png"))),
        "\x1b[33m[warn] Current model does not support images.\x1b[0m\n"
    );
    let mut s = session("gemma4");
    assert!(matches!(
        s.handle_line(line("/audio x.mp3")),
        Action::Attach(MediaKind::Audio, _, None)
    ));
}

#[test]
fn attachments_go_with_the_next_message() {
    let mut s = session("gemma4");
    assert_eq!(s.cmd_attach_image("a.png", Some(b"a")), "\x1b[36m[image attached: a.png]\x1b[0m\n");
    assert_eq!(s.cmd_attach_audio("b.mp3", Some(b"b")), "\x1b[36m[audio attached: b.mp3]\x1b[0m\n");
    assert_eq!(
        s.cmd_attach_file("src/c.rs", Some(4), Some("main".to_string())),
        "\x1b[36m[file attached: src/c.rs]\x1b[0m\n"
    );
    s.cmd_attach_file("notes", Some(1), Some("n".to_string()));
    assert_eq!(s.pending().images, vec!["YQ==", "Yg=="]);
    s.begin_chat("look".to_string());
    let m = &s.history()[0];
    assert_eq!(m.role, "user");
    assert_eq!(
        m.content,
        "```rs\n# file: src/c.rs\nmain\n```\n\n```txt\n# file: notes\nn\n```\n\nlook"
    );
    assert_eq!(m.images, Some(vec!["YQ==".to_string(), "Yg==".to_string()]));
    assert!(m.audios.is_none());
    assert!(s.pending().images.is_empty() && s.pending().text_chunks.is_empty());

    assert_eq!(s.end_chat(false, Ok("nice".to_string())), "\n");
    s.begin_chat("and?".to_string());
    assert_eq!(s.history()[2].content, "and?");
    assert!(s.history()[2].images.is_none());
}

#[test]
fn attachments_that_fail_are_reported() {
    let mut s = session("gemma4");
    assert_eq!(
        s.cmd_attach_image("a.png", None),
        "\x1b[31m[error] Cannot read image: a.png\x1b[0m\n"
    );
    assert!(s
        .cmd_attach_image("a.xyz", Some(b"?"))
        .starts_with("\x1b[31m[error] Unsupported or unrecognised image format: 'a.xyz'\n"));
    assert_eq!(
        s.cmd_attach_audio("a.mp3", None),
        "\x1b[31m[error] Cannot read audio: a.mp3\x1b[0m\n"
    );
    assert!(s
        .cmd_attach_audio("a.xyz", Some(b"?"))
        .starts_with("\x1b[31m[error] Unsupported or unrecognised audio format: 'a.xyz'\n"));
    assert_eq!(
        s.cmd_attach_file("a", None, None),
        "\x1b[31m[error] Cannot stat file: a\x1b[0m\n"
    );
    assert_eq!(
        s.cmd_attach_file("a", Some(1), None),
        "\x1b[31m[error] Cannot read file: a\x1b[0m\n"
    );
    assert!(s.pending().images.is_empty() && s.pending().text_chunks.is_empty());
}

#[test]
fn a_chat_is_kept_whole_or_not_at_all() {
    let mut s = session("qwen3");
    s.begin_chat("one".to_string());
    assert_eq!(s.end_chat(false, Ok("1".to_string())), "\n");
    s.begin_chat("two".to_string());
    assert_eq!(s.history().len(), 3);
    assert_eq!(
        s.end_chat(false, Err("no server".to_string())),
        "\n\x1b[31m[error] no server\x1b[0m\n"
    );
    assert_eq!(s.history().len(), 2);
    s.begin_chat("three".to_string());
    assert_eq!(s.end_chat(true, Ok("half".to_string())), "\n\x1b[33m[interrupted]\x1b[0m\n");
    let roles: Vec<&str> = s.history().iter().map(|m| m.role.as_str()).collect();
    assert_eq!(roles, vec!["user", "assistant"]);
    assert_eq!(s.history()[1].content, "1");
}

#[test]
fn clear_forgets_the_conversation() {
    let mut s = session("qwen3");
    s.begin_chat("one".to_string());
    s.end_chat(false, Ok("1".to_string()));
    s.cmd_attach_file("n", Some(1), Some("x".to_string()));
    let expected = format!("\x1b[2J\x1b[H{}", s.welcome());
    assert_eq!(printed(s.handle_line(line("/clear"))), expected);
    assert!(s.history().is_empty());
    assert!(s.pending().text_chunks.is_empty());
    assert_eq!(s.model(), "qwen3");
}

#[test]
fn the_list_of_models_marks_the_current_one() {
    let s = session("qwen3:14b");
    let models = vec![
        ("gemma3:4b".to_string(), "3.3GB".to_string()),
        ("qwen3:14b".to_string(), "9.3GB".to_string()),
    ];
    let expected = format!(
        "\n\x1b[1mAvailable models:\x1b[0m\n  {} {:>2})  {:<40}  {:>7}  [{}]\n  {} {:>2})  {:<40}  {:>7}  [{}]\n\n",
        " ", 1, "gemma3:4b", "3.3GB", "text, image, think",
        "\x1b[32m*\x1b[0m", 2, "qwen3:14b", "9.3GB", "text, think",
    );
    assert_eq!(s.cmd_list_models(&Ok(models)), expected);
    assert_eq!(s.cmd_list_models(&Ok(Vec::new())), "\x1b[33m[no models available]\x1b[0m\n");
    assert_eq!(s.cmd_list_models(&Err("down".to_string())), "\x1b[31m[error] down\x1b[0m\n");
}

#[test]
fn a_switch_starts_afresh() {
    let mut s = session("qwen3");
    s.handle_line(line("/think"));
    s.begin_chat("one".to_string());
    s.end_chat(false, Ok("1".to_string()));
    s.cmd_attach_file("n", Some(1), Some("x".to_string()));
    let models = Ok(vec!["qwen3".to_string(), "gemma3".to_string()]);
    let refused = |p: SwitchPlan| match p {
        SwitchPlan::Refuse(t) => t,
        SwitchPlan::Switch(_, _) => panic!("not refused"),
    };
    assert_eq!(
        refused(s.cmd_switch_model_by_index(0, &models)),
        "\x1b[31m[error] Index out of range (1–2)\x1b[0m\n"
    );
    assert_eq!(
        refused(s.cmd_switch_model_by_index(3, &models)),
        "\x1b[31m[error] Index out of range (1–2)\x1b[0m\n"
    );
    assert_eq!(
        refused(s.cmd_switch_model_by_index(1, &models)),
        "\x1b[33m[warn] Already using that model.\x1b[0m\n"
    );
    assert_eq!(
        refused(s.cmd_switch_model_by_index(1, &Err("down".to_string()))),
        "\x1b[31m[error] down\x1b[0m\n"
    );
    match s.cmd_switch_model_by_index(2, &models) {
        SwitchPlan::Switch(t, name) => {
            assert_eq!(t, "\x1b[36m[unloading qwen3...]\x1b[0m\n");
            assert_eq!(
                s.cmd_switch_model(name),
                "\x1b[36m[switched to gemma3  caps: text, image, think]\x1b[0m\n"
            );
        }
        SwitchPlan::Refuse(_) => panic!("refused"),
    }
    assert_eq!(s.model(), "gemma3");
    assert!(s.caps().image);
    assert!(!s.think() && s.history().is_empty() && s.pending().text_chunks.is_empty());
    assert_eq!(
        s.cmd_switch_model("gemma3".to_string()),
        "\x1b[33m[warn] Already using that model.\x1b[0m\n"
    );
}

#[test]
fn the_indicator_comes_and_goes() {
    let mut i = ThinkIndicator::new();
    assert_eq!(i.show(Token::Think("a".to_string())), "\x1b[2m\x1b[35m[thinking...]\x1b[0m");
    assert_eq!(i.show(Token::Think("b".to_string())), "");
    assert!(i.shown);
    assert_eq!(i.show(Token::Content("x".to_string())), "x");
    assert_eq!(i.show(Token::ThinkEnd), "\r\x1b[2K");
    assert!(!i.shown);
    assert_eq!(i.show(Token::Think("c".to_string())), "");
}

#[test]
fn the_number_that_is_listed_switches() {
    let mut s = session("m0");
    let names: Vec<String> = (0..12).map(|i| format!("m{i}")).collect();
    for i in 1..12 {
        let n = match s.handle_line(line(&format!("/model {}", i + 1))) {
            Action::SwitchModel(n) => n,
            _ => panic!("no switch"),
        };
        match s.cmd_switch_model_by_index(n, &Ok(names.clone())) {
            SwitchPlan::Switch(text, name) => {
                assert_eq!(text, "\x1b[36m[unloading m0...]\x1b[0m\n");
                assert_eq!(name, names[i]);
            }
            SwitchPlan::Refuse(t) => panic!("{}", t),
        }
    }
}
