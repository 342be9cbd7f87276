//! A chat session: its state, what each entered line does to it, and what is printed.
use vstd::prelude::*;

use crate::input::{LineResult, LineResultView};
use crate::media;
use crate::model_cap;
use crate::model_cap::ModelCaps;
use crate::ollama;
use crate::ollama::{Message, MessageView, Token};
use crate::screen;
use crate::text;

verus! {

broadcast use vstd::string::group_string_axioms;

// ── Printed lines ────────────────────────────────────────────────────────────

/// A line of information.
pub open spec fn info_line(msg: Seq<char>) -> Seq<char> {
    "\x1b[36m"@ + msg + "\x1b[0m\n"@
}

/// A line of warning.
pub open spec fn warn_line(msg: Seq<char>) -> Seq<char> {
    "\x1b[33m"@ + msg + "\x1b[0m\n"@
}

/// A line that reports an error.
pub open spec fn error_line(msg: Seq<char>) -> Seq<char> {
    "\x1b[31m"@ + msg + "\x1b[0m\n"@
}

/// A line of information.
pub fn info(msg: &str) -> (s: String)
    ensures
        s@ == info_line(msg@),
{
    let mut s = "\x1b[36m".to_owned();
    s.push_str(msg);
    s.push_str("\x1b[0m\n");
    s
}

/// A line of warning.
pub fn warn(msg: &str) -> (s: String)
    ensures
        s@ == warn_line(msg@),
{
    let mut s = "\x1b[33m".to_owned();
    s.push_str(msg);
    s.push_str("\x1b[0m\n");
    s
}

/// A line that reports an error.
pub fn error(msg: &str) -> (s: String)
    ensures
        s@ == error_line(msg@),
{
    let mut s = "\x1b[31m".to_owned();
    s.push_str(msg);
    s.push_str("\x1b[0m\n");
    s
}

/// The string of three parts.
fn concat3(a: &str, b: &str, c: &str) -> (s: String)
    ensures
        s@ == a@ + b@ + c@,
{
    let mut s = a.to_owned();
    s.push_str(b);
    s.push_str(c);
    s
}

/// What `/help` prints.
pub const HELP: &'static str = "\n\x1b[1mCommands:\x1b[0m\n  \
    \x1b[36m/help\x1b[0m            Show this help\n  \
    \x1b[36m/info\x1b[0m            Show current model capabilities\n  \
    \x1b[36m/model\x1b[0m           List available models\n  \
    \x1b[36m/model <number>\x1b[0m  Switch to model by index\n  \
    \x1b[36m/think\x1b[0m           Enable think mode\n  \
    \x1b[36m/nothink\x1b[0m         Disable think mode \x1b[2m(default)\x1b[0m\n  \
    \x1b[36m/image <path>\x1b[0m            Attach image to next message\n  \
    \x1b[36m/image '<path>' [msg]\x1b[0m  Attach image and send message immediately\n  \
    \x1b[36m/audio <path>\x1b[0m            Attach audio to next message\n  \
    \x1b[36m/audio '<path>' [msg]\x1b[0m  Attach audio and send message immediately\n  \
    \x1b[36m/file  <path>\x1b[0m            Attach text file to next message\n  \
    \x1b[36m/file  '<path>' [msg]\x1b[0m  Attach file and send message immediately\n  \
    \x1b[36m/clear\x1b[0m           Clear conversation history\n  \
    \x1b[36m/exit\x1b[0m            Unload model and quit\n\n";

// ── The state of a session ───────────────────────────────────────────────────

/// What is attached to the next message.
pub struct PendingMedia {
    /// Images and audio clips, in base64.
    pub images: Vec<String>,
    /// Text files, each in a fenced block.
    pub text_chunks: Vec<String>,
}

/// What a `PendingMedia` holds.
pub struct PendingView {
    pub images: Seq<Seq<char>>,
    pub text_chunks: Seq<Seq<char>>,
}

/// Nothing attached.
pub open spec fn nothing_pending() -> PendingView {
    PendingView { images: Seq::empty(), text_chunks: Seq::empty() }
}

impl View for PendingMedia {
    type V = PendingView;

    open spec fn view(&self) -> PendingView {
        PendingView {
            images: text::views(self.images@),
            text_chunks: text::views(self.text_chunks@),
        }
    }
}

impl PendingMedia {
    /// Nothing attached.
    pub fn new() -> (p: Self)
        ensures
            p@ == nothing_pending(),
    {
        let p = PendingMedia { images: Vec::new(), text_chunks: Vec::new() };
        assert(p@.images == nothing_pending().images);
        assert(p@.text_chunks == nothing_pending().text_chunks);
        p
    }

    /// Drops what is attached.
    pub fn clear(&mut self)
        ensures
            final(self)@ == nothing_pending(),
    {
        self.images.clear();
        self.text_chunks.clear();
        assert(self@.images == nothing_pending().images);
        assert(self@.text_chunks == nothing_pending().text_chunks);
    }
}

/// What a session holds.
pub struct SessionView {
    pub version: Seq<char>,
    pub model: Seq<char>,
    pub caps: ModelCaps,
    pub think: bool,
    pub history: Seq<MessageView>,
    pub pending: PendingView,
}

/// What messages hold.
pub open spec fn message_views(v: Seq<Message>) -> Seq<MessageView> {
    v.map_values(|m: Message| m@)
}

/// A chat session.
pub struct Session {
    version: String,
    model: String,
    caps: ModelCaps,
    think: bool,
    history: Vec<Message>,
    pending: PendingMedia,
}

impl View for Session {
    type V = SessionView;

    closed spec fn view(&self) -> SessionView {
        SessionView {
            version: self.version@,
            model: self.model@,
            caps: self.caps,
            think: self.think,
            history: message_views(self.history@),
            pending: self.pending@,
        }
    }
}

/// What a line has the client do.
pub enum Action {
    /// Nothing.
    Nothing,
    /// Print a text.
    Print(String),
    /// End the session.
    Quit,
    /// List the models of the server.
    ListModels,
    /// Switch to the model at this place of the list, counted from one.
    SwitchModel(usize),
    /// Attach the file at a path, and then send a message, if there is one.
    Attach(MediaKind, String, Option<String>),
    /// Send a message.
    Chat(String),
}

/// What kind of file is attached.
#[derive(Debug, Clone, Copy, PartialEq, Eq, Structural)]
pub enum MediaKind {
    Image,
    Audio,
    File,
}

/// What an `Action` holds.
pub enum ActionView {
    Nothing,
    Print(Seq<char>),
    Quit,
    ListModels,
    SwitchModel(usize),
    Attach(MediaKind, Seq<char>, Option<Seq<char>>),
    Chat(Seq<char>),
}

impl View for Action {
    type V = ActionView;

    open spec fn view(&self) -> ActionView {
        match self {
            Action::Nothing => ActionView::Nothing,
            Action::Print(s) => ActionView::Print(s@),
            Action::Quit => ActionView::Quit,
            Action::ListModels => ActionView::ListModels,
            Action::SwitchModel(n) => ActionView::SwitchModel(*n),
            Action::Attach(kind, path, msg) => ActionView::Attach(
                *kind,
                path@,
                text::optional_text(*msg),
            ),
            Action::Chat(s) => ActionView::Chat(s@),
        }
    }
}

// ── What is printed of a session ─────────────────────────────────────────────

/// The header of a session.
pub open spec fn welcome_text(s: SessionView) -> Seq<char> {
    "\n\x1b[1mllmcli\x1b[0m v"@ + s.version + "  — Ollama frontend\nmodel : \x1b[32m"@ + s.model
        + "\x1b[0m\ncaps  : "@ + model_cap::description(s.caps)
        + "\ntype  \x1b[36m/help\x1b[0m for commands\n\n"@
}

/// What `/info` prints.
pub open spec fn info_text(s: SessionView) -> Seq<char> {
    "\n\x1b[1mModel :\x1b[0m \x1b[32m"@ + s.model + "\x1b[0m\n\x1b[1mCaps  :\x1b[0m "@
        + model_cap::description(s.caps) + "\n\x1b[1mThink :\x1b[0m "@ + (if s.think {
        "ON"@
    } else {
        "OFF"@
    }) + "\n\x1b[1mHistory:\x1b[0m "@ + text::decimal(s.history.len()) + " messages\n\n"@
}

/// The prompt of a session.
pub open spec fn prompt_text(s: SessionView) -> Seq<char> {
    "\x1b[1m\x1b[32m"@ + s.model + "\x1b[0m "@ + (if s.think {
        "\x1b[35m[think]\x1b[0m "@
    } else {
        Seq::empty()
    }) + "\x1b[1m>\x1b[0m "@
}

// ── What a line does ─────────────────────────────────────────────────────────

/// The path and the message in the argument of a command that attaches a file. A path in single
/// or double quotes ends at the next such quote, and what follows it is the message; otherwise all
/// of the argument is the path.
pub open spec fn media_arg(arg: Seq<char>) -> (Seq<char>, Option<Seq<char>>) {
    let t = text::trimmed(arg);
    if t.len() > 0 && (t[0] == '\'' || t[0] == '"') {
        let end = 1 + text::position(t.drop_first(), t[0]);
        if end < t.len() {
            let msg = text::trimmed(t.skip(end + 1));
            (
                t.subrange(1, end),
                if msg.len() == 0 {
                    None
                } else {
                    Some(msg)
                },
            )
        } else {
            (t, None)
        }
    } else {
        (t, None)
    }
}

/// Attaching the file that an argument names.
pub open spec fn attach(kind: MediaKind, arg: Seq<char>) -> ActionView {
    ActionView::Attach(kind, media_arg(arg).0, media_arg(arg).1)
}

/// What the command `cmd`, in lower case, with the argument `arg` does: the session afterwards, and
/// what the client does.
pub open spec fn command(s: SessionView, cmd: Seq<char>, arg: Seq<char>) -> (
    SessionView,
    ActionView,
) {
    if cmd == "/exit"@ || cmd == "/quit"@ {
        (s, ActionView::Quit)
    } else if cmd == "/help"@ {
        (s, ActionView::Print(HELP@))
    } else if cmd == "/info"@ {
        (s, ActionView::Print(info_text(s)))
    } else if cmd == "/think"@ {
        if s.caps.think {
            (
                SessionView { think: true, ..s },
                ActionView::Print(info_line("[think mode ON]"@)),
            )
        } else {
            (
                s,
                ActionView::Print(
                    warn_line("[warn] Current model does not support think mode."@),
                ),
            )
        }
    } else if cmd == "/nothink"@ {
        (SessionView { think: false, ..s }, ActionView::Print(info_line("[think mode OFF]"@)))
    } else if cmd == "/clear"@ {
        (
            SessionView { history: Seq::empty(), pending: nothing_pending(), ..s },
            ActionView::Print("\x1b[2J\x1b[H"@ + welcome_text(s)),
        )
    } else if cmd == "/model"@ {
        (
            s,
            if arg.len() == 0 {
                ActionView::ListModels
            } else {
                match text::usize_value(arg) {
                    Some(n) => ActionView::SwitchModel(n),
                    None => ActionView::Print(
                        error_line(
                            "Usage: /model          — list models\n       /model <number>  — switch by index"@,
                        ),
                    ),
                }
            },
        )
    } else if cmd == "/image"@ {
        (
            s,
            if arg.len() == 0 {
                ActionView::Print(
                    error_line(
                        "Usage: /image <path>  or  /image '<path with spaces>' [message]"@,
                    ),
                )
            } else if !s.caps.image {
                ActionView::Print(warn_line("[warn] Current model does not support images."@))
            } else {
                attach(MediaKind::Image, arg)
            },
        )
    } else if cmd == "/audio"@ {
        (
            s,
            if arg.len() == 0 {
                ActionView::Print(
                    error_line(
                        "Usage: /audio <path>  or  /audio '<path with spaces>' [message]"@,
                    ),
                )
            } else if !s.caps.audio {
                ActionView::Print(warn_line("[warn] Current model does not support audio."@))
            } else {
                attach(MediaKind::Audio, arg)
            },
        )
    } else if cmd == "/file"@ {
        (
            s,
            if arg.len() == 0 {
                ActionView::Print(
                    error_line("Usage: /file <path>  or  /file '<path with spaces>' [message]"@),
                )
            } else {
                attach(MediaKind::File, arg)
            },
        )
    } else {
        (s, ActionView::Print(error_line("Unknown command: "@ + cmd + "  (type /help)"@)))
    }
}

/// The command of a line: what stands before its first space.
pub open spec fn command_word(line: Seq<char>) -> Seq<char> {
    line.take(text::position(line, ' '))
}

/// The argument of a line: what follows its first space, trimmed.
pub open spec fn command_arg(line: Seq<char>) -> Seq<char> {
    let p = text::position(line, ' ');
    if p < line.len() {
        text::trimmed(line.skip(p + 1))
    } else {
        Seq::empty()
    }
}

/// What a command line does.
pub open spec fn command_line(s: SessionView, line: Seq<char>) -> (SessionView, ActionView) {
    command(s, text::lowercase(command_word(line)), command_arg(line))
}

/// What is said when the reading of a line is interrupted.
pub open spec fn interrupted_text() -> Seq<char> {
    warn_line("^C — type /exit to quit."@)
}

/// What the end of reading a line does: the session afterwards, and what the client does.
pub open spec fn turn(s: SessionView, line: LineResultView) -> (SessionView, ActionView) {
    match line {
        LineResultView::Interrupted => (s, ActionView::Print(interrupted_text())),
        LineResultView::Eof => (s, ActionView::Quit),
        LineResultView::Line(l) => {
            let t = text::trimmed(l);
            if t.len() == 0 {
                (s, ActionView::Nothing)
            } else if t[0] == '/' {
                command_line(s, t)
            } else {
                (s, ActionView::Chat(t))
            }
        },
    }
}

/// What is printed when Ctrl-C was pressed while no line was read.
pub fn interrupt_notice() -> (t: String)
    ensures
        t@ == "\n"@ + interrupted_text(),
{
    let mut t = "\n".to_owned();
    t.push_str(warn("^C — type /exit to quit.").as_str());
    t
}

/// The path and the message in the argument of a command that attaches a file.
pub fn parse_media_arg(arg: &str) -> (r: (String, Option<String>))
    ensures
        (r.0@, text::optional_text(r.1)) == media_arg(arg@),
{
    let whole = text::trim(arg);
    let v = text::chars_of(whole.as_str());
    if v.len() > 0 && (v[0] == '\'' || v[0] == '"') {
        let end: usize = text::find(&v, 1, v[0]);
        assert(v@.skip(1) == v@.drop_first());
        if end < v.len() {
            let path = text::string_of(v.as_slice(), 1, end);
            let rest = text::string_of(v.as_slice(), end + 1, v.len());
            assert(rest@ == v@.skip(end + 1));
            let msg = text::trim(rest.as_str());
            if msg.as_str().is_empty() {
                return (path, None);
            }
            return (path, Some(msg));
        }
    }
    (whole, None)
}

/// The command of a line, in lower case, and its argument.
pub fn parse_command(line: &str) -> (r: (String, String))
    ensures
        r.0@ == text::lowercase(command_word(line@)),
        r.1@ == command_arg(line@),
        vstd::utf8::is_ascii_chars(command_word(line@)) ==> r.0@ == command_word(
            line@,
        ).map_values(|c: char| text::ascii_lower(c)),
{
    let v = text::chars_of(line);
    assert(v@.skip(0) == v@);
    let p: usize = text::find(&v, 0, ' ');
    let word = text::string_of(v.as_slice(), 0, p);
    assert(word@ == command_word(line@));
    let cmd = word.as_str().to_lowercase();
    if p < v.len() {
        let rest = text::string_of(v.as_slice(), p + 1, v.len());
        assert(rest@ == line@.skip(p + 1));
        (cmd, text::trim(rest.as_str()))
    } else {
        (cmd, String::new())
    }
}

impl Session {
    /// The capabilities are those of the model.
    pub closed spec fn well_formed(&self) -> bool {
        self.caps == model_cap::resolved(self.model@)
    }

    /// A session with a model, and nothing said yet.
    pub fn new(model: String, think: bool, version: String) -> (s: Self)
        ensures
            s.well_formed(),
            s@ == (SessionView {
                version: version@,
                model: model@,
                caps: model_cap::resolved(model@),
                think,
                history: Seq::empty(),
                pending: nothing_pending(),
            }),
    {
        let caps = model_cap::resolve(model.as_str());
        let s = Session {
            version,
            model,
            caps,
            think,
            history: Vec::new(),
            pending: PendingMedia::new(),
        };
        assert(s@.history == Seq::<MessageView>::empty());
        s
    }

    /// The name of the model.
    pub fn model(&self) -> (m: &str)
        ensures
            m@ == self@.model,
    {
        self.model.as_str()
    }

    /// What the model can do.
    pub fn caps(&self) -> (caps: ModelCaps)
        requires
            self.well_formed(),
        ensures
            caps == self@.caps,
            caps == model_cap::resolved(self@.model),
    {
        self.caps
    }

    /// Whether the model is asked to think.
    pub fn think(&self) -> (b: bool)
        ensures
            b == self@.think,
    {
        self.think
    }

    /// The messages so far.
    pub fn history(&self) -> (h: &Vec<Message>)
        ensures
            message_views(h@) == self@.history,
    {
        &self.history
    }

    /// What is attached to the next message.
    pub fn pending(&self) -> (p: &PendingMedia)
        ensures
            p@ == self@.pending,
    {
        &self.pending
    }

    /// The header of the session.
    pub fn welcome(&self) -> (t: String)
        ensures
            t@ == welcome_text(self@),
    {
        let mut t = "\n\x1b[1mllmcli\x1b[0m v".to_owned();
        t.push_str(self.version.as_str());
        t.push_str("  — Ollama frontend\nmodel : \x1b[32m");
        t.push_str(self.model.as_str());
        t.push_str("\x1b[0m\ncaps  : ");
        t.push_str(self.caps.describe().as_str());
        t.push_str("\ntype  \x1b[36m/help\x1b[0m for commands\n\n");
        t
    }

    /// What `/info` prints.
    pub fn cmd_info(&self) -> (t: String)
        ensures
            t@ == info_text(self@),
    {
        let mut t = "\n\x1b[1mModel :\x1b[0m \x1b[32m".to_owned();
        t.push_str(self.model.as_str());
        t.push_str("\x1b[0m\n\x1b[1mCaps  :\x1b[0m ");
        t.push_str(self.caps.describe().as_str());
        t.push_str("\n\x1b[1mThink :\x1b[0m ");
        t.push_str(if self.think { "ON" } else { "OFF" });
        t.push_str("\n\x1b[1mHistory:\x1b[0m ");
        text::push_decimal(&mut t, self.history.len());
        t.push_str(" messages\n\n");
        t
    }

    /// The prompt of the session.
    pub fn prompt(&self) -> (t: String)
        ensures
            t@ == prompt_text(self@),
    {
        let mut t = "\x1b[1m\x1b[32m".to_owned();
        t.push_str(self.model.as_str());
        t.push_str("\x1b[0m ");
        if self.think {
            t.push_str("\x1b[35m[think]\x1b[0m ");
        }
        t.push_str("\x1b[1m>\x1b[0m ");
        assert(t@ == prompt_text(self@));
        t
    }

    /// What the command `cmd`, in lower case, with the argument `arg` does.
    pub fn run_command(&mut self, cmd: &str, arg: &str) -> (a: Action)
        requires
            old(self).well_formed(),
        ensures
            final(self).well_formed(),
            (final(self)@, a@) == command(old(self)@, cmd@, arg@),
    {
        if text::same_text(cmd, "/exit") || text::same_text(cmd, "/quit") {
            return Action::Quit;
        }
        if text::same_text(cmd, "/help") {
            return Action::Print(HELP.to_owned());
        }
        if text::same_text(cmd, "/info") {
            return Action::Print(self.cmd_info());
        }
        if text::same_text(cmd, "/think") {
            if self.caps.think {
                self.think = true;
                return Action::Print(info("[think mode ON]"));
            }
            return Action::Print(warn("[warn] Current model does not support think mode."));
        }
        if text::same_text(cmd, "/nothink") {
            self.think = false;
            return Action::Print(info("[think mode OFF]"));
        }
        if text::same_text(cmd, "/clear") {
            let mut t = "\x1b[2J\x1b[H".to_owned();
            t.push_str(self.welcome().as_str());
            self.history.clear();
            self.pending.clear();
            assert(self@.history == Seq::<MessageView>::empty());
            return Action::Print(t);
        }
        if text::same_text(cmd, "/model") {
            if arg.is_empty() {
                return Action::ListModels;
            }
            return match text::parse_usize(arg) {
                Some(n) => Action::SwitchModel(n),
                None => Action::Print(
                    error(
                        "Usage: /model          — list models\n       /model <number>  — switch by index",
                    ),
                ),
            };
        }
        if text::same_text(cmd, "/image") {
            if arg.is_empty() {
                return Action::Print(
                    error("Usage: /image <path>  or  /image '<path with spaces>' [message]"),
                );
            }
            if !self.caps.image {
                return Action::Print(warn("[warn] Current model does not support images."));
            }
            let (path, msg) = parse_media_arg(arg);
            return Action::Attach(MediaKind::Image, path, msg);
        }
        if text::same_text(cmd, "/audio") {
            if arg.is_empty() {
                return Action::Print(
                    error("Usage: /audio <path>  or  /audio '<path with spaces>' [message]"),
                );
            }
            if !self.caps.audio {
                return Action::Print(warn("[warn] Current model does not support audio."));
            }
            let (path, msg) = parse_media_arg(arg);
            return Action::Attach(MediaKind::Audio, path, msg);
        }
        if text::same_text(cmd, "/file") {
            if arg.is_empty() {
                return Action::Print(
                    error("Usage: /file <path>  or  /file '<path with spaces>' [message]"),
                );
            }
            let (path, msg) = parse_media_arg(arg);
            return Action::Attach(MediaKind::File, path, msg);
        }
        Action::Print(error(concat3("Unknown command: ", cmd, "  (type /help)").as_str()))
    }

    /// What a command line does.
    pub fn handle_command(&mut self, line: &str) -> (a: Action)
        requires
            old(self).well_formed(),
        ensures
            final(self).well_formed(),
            (final(self)@, a@) == command_line(old(self)@, line@),
            vstd::utf8::is_ascii_chars(command_word(line@)) ==> (final(self)@, a@) == command(
                old(self)@,
                command_word(line@).map_values(|c: char| text::ascii_lower(c)),
                command_arg(line@),
            ),
    {
        let (cmd, arg) = parse_command(line);
        self.run_command(cmd.as_str(), arg.as_str())
    }

    /// What the end of reading a line does.
    pub fn handle_line(&mut self, line: LineResult) -> (a: Action)
        requires
            old(self).well_formed(),
        ensures
            final(self).well_formed(),
            (final(self)@, a@) == turn(old(self)@, line@),
            line@ matches LineResultView::Line(l) ==> ({
                let t = text::trimmed(l);
                t.len() > 0 && t[0] == '/' && vstd::utf8::is_ascii_chars(command_word(t)) ==> (
                    final(self)@,
                    a@,
                ) == command(
                    old(self)@,
                    command_word(t).map_values(|c: char| text::ascii_lower(c)),
                    command_arg(t),
                )
            }),
    {
        match line {
            LineResult::Interrupted => Action::Print(warn("^C — type /exit to quit.")),
            LineResult::Eof => Action::Quit,
            LineResult::Line(l) => {
                let t = text::trim(l.as_str());
                if t.as_str().is_empty() {
                    return Action::Nothing;
                }
                let v = text::chars_of(t.as_str());
                if v[0] == '/' {
                    self.handle_command(t.as_str())
                } else {
                    Action::Chat(t)
                }
            },
        }
    }
}

// ── Attachments ──────────────────────────────────────────────────────────────

/// What is said of a file that was attached.
pub open spec fn attached_text(kind: Seq<char>, path: Seq<char>) -> Seq<char> {
    info_line("["@ + kind + " attached: "@ + path + "]"@)
}

/// What is said of a failure.
pub open spec fn failed_text(reason: Seq<char>) -> Seq<char> {
    error_line("[error] "@ + reason)
}

/// A text file as it is sent: in a fenced block that tells its path.
pub open spec fn file_block(path: Seq<char>, contents: Seq<char>) -> Seq<char> {
    "```"@ + (match media::extension_of(path) {
        Some(ext) => ext,
        None => "txt"@,
    }) + "\n# file: "@ + path + "\n"@ + contents + "\n```"@
}

/// The session with another image or audio clip attached.
pub open spec fn with_image(s: SessionView, base64: Seq<char>) -> SessionView {
    SessionView {
        pending: PendingView { images: s.pending.images.push(base64), ..s.pending },
        ..s
    }
}

/// The session with another text file attached.
pub open spec fn with_chunk(s: SessionView, chunk: Seq<char>) -> SessionView {
    SessionView {
        pending: PendingView { text_chunks: s.pending.text_chunks.push(chunk), ..s.pending },
        ..s
    }
}

/// What attaching the image at `path` comes to, from what was read of it: the session afterwards, and
/// what is printed.
pub open spec fn image_attached(s: SessionView, path: Seq<char>, content: Option<Seq<u8>>) -> (
    SessionView,
    Seq<char>,
) {
    match content {
        None => (s, failed_text(media::error_text(media::MediaError::ReadImage, path))),
        Some(bytes) => if media::image_known(
            text::lowercase(media::extension_or_empty(path)),
            bytes,
        ) {
            (with_image(s, media::base64_standard(bytes)), attached_text("image"@, path))
        } else {
            (s, failed_text(media::error_text(media::MediaError::ImageFormat, path)))
        },
    }
}

/// What attaching the audio clip at `path` comes to, from what was read of it: the session afterwards,
/// and what is printed.
pub open spec fn audio_attached(s: SessionView, path: Seq<char>, content: Option<Seq<u8>>) -> (
    SessionView,
    Seq<char>,
) {
    match content {
        None => (s, failed_text(media::error_text(media::MediaError::ReadAudio, path))),
        Some(bytes) => if media::audio_known(
            text::lowercase(media::extension_or_empty(path)),
            bytes,
        ) is Some {
            (with_image(s, media::base64_standard(bytes)), attached_text("audio"@, path))
        } else {
            (s, failed_text(media::error_text(media::MediaError::AudioFormat, path)))
        },
    }
}

/// What attaching the text file at `path` comes to, from whether its size could be learned, and what was
/// read of it: the session afterwards, and what is printed.
pub open spec fn file_attached(
    s: SessionView,
    path: Seq<char>,
    sized: bool,
    contents: Option<Seq<char>>,
) -> (SessionView, Seq<char>) {
    if !sized {
        (s, failed_text(media::error_text(media::MediaError::StatFile, path)))
    } else {
        match contents {
            None => (s, failed_text(media::error_text(media::MediaError::ReadFile, path))),
            Some(c) => (with_chunk(s, file_block(path, c)), attached_text("file"@, path)),
        }
    }
}

/// What the bytes of a file are, where it was read.
pub open spec fn read_bytes(content: Option<&[u8]>) -> Option<Seq<u8>> {
    match content {
        Some(b) => Some(b@),
        None => None,
    }
}

fn attached(kind: &str, path: &str) -> (s: String)
    ensures
        s@ == attached_text(kind@, path@),
{
    let mut s = concat3("[", kind, " attached: ");
    s.push_str(path);
    s.push_str("]");
    info(s.as_str())
}

fn failed(reason: &str) -> (s: String)
    ensures
        s@ == failed_text(reason@),
{
    proof {
        reveal_strlit("");
    }
    let t = concat3("[error] ", reason, "");
    assert(t@ == "[error] "@ + reason@);
    error(t.as_str())
}

impl Session {
    fn push_image(&mut self, base64: String)
        requires
            old(self).well_formed(),
        ensures
            final(self).well_formed(),
            final(self)@ == with_image(old(self)@, base64@),
    {
        self.pending.images.push(base64);
        assert(self@.pending.images == old(self)@.pending.images.push(base64@));
    }

    /// Attaches the image at `path`, from what was read of it (`None` where that failed). Gives
    /// what is to be printed.
    pub fn cmd_attach_image(&mut self, path: &str, content: Option<&[u8]>) -> (t: String)
        requires
            old(self).well_formed(),
            content matches Some(bytes) ==> media::encodable(bytes@.len()),
        ensures
            final(self).well_formed(),
            match content {
                None => final(self)@ == old(self)@ && t@ == failed_text(
                    media::error_text(media::MediaError::ReadImage, path@),
                ),
                Some(bytes) => if media::image_known(
                    text::lowercase(media::extension_or_empty(path@)),
                    bytes@,
                ) {
                    &&& final(self)@ == with_image(old(self)@, media::base64_standard(bytes@))
                    &&& t@ == attached_text("image"@, path@)
                } else {
                    &&& final(self)@ == old(self)@
                    &&& t@ == failed_text(
                        media::error_text(media::MediaError::ImageFormat, path@),
                    )
                },
            },
            (final(self)@, t@) == image_attached(old(self)@, path@, read_bytes(content)),
            content is Some && vstd::utf8::is_ascii_chars(media::extension_or_empty(path@)) ==> (
            final(self)@ == if media::image_known(media::ascii_extension(path@), content->0@) {
                with_image(old(self)@, media::base64_standard(content->0@))
            } else {
                old(self)@
            }),
    {
        match media::load_image(path, content) {
            Ok(image) => {
                self.push_image(image.base64);
                attached("image", path)
            },
            Err(e) => failed(e.message(path).as_str()),
        }
    }

    /// Attaches the audio clip at `path`, from what was read of it (`None` where that failed).
    /// Gives what is to be printed.
    pub fn cmd_attach_audio(&mut self, path: &str, content: Option<&[u8]>) -> (t: String)
        requires
            old(self).well_formed(),
            content matches Some(bytes) ==> media::encodable(bytes@.len()),
        ensures
            final(self).well_formed(),
            match content {
                None => final(self)@ == old(self)@ && t@ == failed_text(
                    media::error_text(media::MediaError::ReadAudio, path@),
                ),
                Some(bytes) => if media::audio_known(
                    text::lowercase(media::extension_or_empty(path@)),
                    bytes@,
                ) is Some {
                    &&& final(self)@ == with_image(old(self)@, media::base64_standard(bytes@))
                    &&& t@ == attached_text("audio"@, path@)
                } else {
                    &&& final(self)@ == old(self)@
                    &&& t@ == failed_text(
                        media::error_text(media::MediaError::AudioFormat, path@),
                    )
                },
            },
            (final(self)@, t@) == audio_attached(old(self)@, path@, read_bytes(content)),
            content is Some && vstd::utf8::is_ascii_chars(media::extension_or_empty(path@)) ==> (
            final(self)@ == if media::audio_known(media::ascii_extension(path@), content->0@) is Some {
                with_image(old(self)@, media::base64_standard(content->0@))
            } else {
                old(self)@
            }),
    {
        match media::load_audio(path, content) {
            Ok(audio) => {
                self.push_image(audio.base64);
                attached("audio", path)
            },
            Err(e) => failed(e.message(path).as_str()),
        }
    }

    /// Attaches the text file at `path`, from its size and what was read of it (`None` where
    /// learning or reading it failed). Gives what is to be printed.
    pub fn cmd_attach_file(&mut self, path: &str, size: Option<u64>, contents: Option<String>) -> (t:
        String)
        requires
            old(self).well_formed(),
        ensures
            final(self).well_formed(),
            match (size, contents) {
                (None, _) => final(self)@ == old(self)@ && t@ == failed_text(
                    media::error_text(media::MediaError::StatFile, path@),
                ),
                (Some(_), None) => final(self)@ == old(self)@ && t@ == failed_text(
                    media::error_text(media::MediaError::ReadFile, path@),
                ),
                (Some(_), Some(c)) => final(self)@ == with_chunk(
                    old(self)@,
                    file_block(path@, c@),
                ) && t@ == attached_text("file"@, path@),
            },
            (final(self)@, t@) == file_attached(
                old(self)@,
                path@,
                size is Some,
                text::optional_text(contents),
            ),
    {
        match media::load_text_file(size, contents) {
            Ok(c) => {
                let ext = match media::extension(path) {
                    Some(e) => e,
                    None => "txt".to_owned(),
                };
                let mut block = concat3("```", ext.as_str(), "\n# file: ");
                block.push_str(path);
                block.push_str("\n");
                block.push_str(c.as_str());
                block.push_str("\n```");
                assert(block@ == file_block(path@, c@));
                self.pending.text_chunks.push(block);
                assert(self@.pending.text_chunks == old(self)@.pending.text_chunks.push(block@));
                attached("file", path)
            },
            Err(e) => failed(e.message(path).as_str()),
        }
    }
}

// ── Chat ─────────────────────────────────────────────────────────────────────

/// The text of a message: the attached text files, each followed by a blank line, and what was
/// entered.
pub open spec fn message_text(chunks: Seq<Seq<char>>, input: Seq<char>) -> Seq<char> {
    if chunks.len() == 0 {
        input
    } else {
        text::joined(chunks, "\n\n"@) + "\n\n"@ + input
    }
}

/// The session once a message has been added to the history, with what was attached.
pub open spec fn chat_begun(s: SessionView, input: Seq<char>) -> SessionView {
    SessionView {
        history: s.history.push(
            ollama::user_message(message_text(s.pending.text_chunks, input), s.pending.images),
        ),
        pending: nothing_pending(),
        ..s
    }
}

/// The history without its last message.
pub open spec fn without_last(history: Seq<MessageView>) -> Seq<MessageView> {
    if history.len() > 0 {
        history.drop_last()
    } else {
        history
    }
}

/// The session once the reply has ended. A reply that was not interrupted and did not fail is
/// added to the history; otherwise the message that it was to answer is taken back.
pub open spec fn chat_ended(
    s: SessionView,
    interrupted: bool,
    reply: Result<Seq<char>, Seq<char>>,
) -> SessionView {
    SessionView {
        history: if interrupted {
            without_last(s.history)
        } else {
            match reply {
                Ok(content) => s.history.push(ollama::assistant_message(content)),
                Err(_) => without_last(s.history),
            }
        },
        ..s
    }
}

/// What is printed once the reply has ended.
pub open spec fn chat_ended_text(interrupted: bool, reply: Result<Seq<char>, Seq<char>>) -> Seq<
    char,
> {
    "\n"@ + (if interrupted {
        warn_line("[interrupted]"@)
    } else {
        match reply {
            Ok(_) => Seq::empty(),
            Err(e) => failed_text(e),
        }
    })
}

/// What the outcome of a request holds.
pub open spec fn outcome(r: Result<String, String>) -> Result<Seq<char>, Seq<char>> {
    match r {
        Ok(s) => Ok(s@),
        Err(e) => Err(e@),
    }
}

impl Session {
    /// Adds a message to the history, with what was attached, so that a reply can be asked for.
    pub fn begin_chat(&mut self, input: String)
        requires
            old(self).well_formed(),
        ensures
            final(self).well_formed(),
            final(self)@ == chat_begun(old(self)@, input@),
    {
        let content = if self.pending.text_chunks.len() == 0 {
            input
        } else {
            let mut parts = text::join(&self.pending.text_chunks, "\n\n");
            parts.push_str("\n\n");
            parts.push_str(input.as_str());
            parts
        };
        assert(content@ == message_text(old(self)@.pending.text_chunks, input@));
        let mut images: Vec<String> = Vec::new();
        std::mem::swap(&mut images, &mut self.pending.images);
        let message = Message::user(content, images);
        self.pending.clear();
        self.history.push(message);
        assert(self@.history == old(self)@.history.push(message@));
    }

    fn take_back(&mut self)
        requires
            old(self).well_formed(),
        ensures
            final(self).well_formed(),
            final(self)@ == (SessionView { history: without_last(old(self)@.history), ..old(self)@
            }),
    {
        let last = self.history.pop();
        assert(self@.history == without_last(old(self)@.history));
    }

    /// Takes in how the reply ended: whether it was interrupted, and its text or why it failed.
    /// Gives what is to be printed.
    pub fn end_chat(&mut self, interrupted: bool, reply: Result<String, String>) -> (t: String)
        requires
            old(self).well_formed(),
        ensures
            final(self).well_formed(),
            final(self)@ == chat_ended(old(self)@, interrupted, outcome(reply)),
            t@ == chat_ended_text(interrupted, outcome(reply)),
    {
        let mut t = "\n".to_owned();
        if interrupted {
            t.push_str(warn("[interrupted]").as_str());
            self.take_back();
            return t;
        }
        match reply {
            Ok(content) => {
                let message = Message::assistant(content);
                self.history.push(message);
                assert(self@.history == old(self)@.history.push(message@));
                assert(t@ == chat_ended_text(false, Ok(content@)));
            },
            Err(e) => {
                t.push_str(failed(e.as_str()).as_str());
                self.take_back();
            },
        }
        t
    }
}

/// What shows that the model thinks.
pub struct ThinkIndicator {
    /// Whether it is on the screen.
    pub shown: bool,
    /// Whether it has been taken off the screen again.
    pub over: bool,
}

/// Whether a part of a reply brings the mark onto the screen that shows that the model thinks: the
/// first does in which it thinks.
pub open spec fn marks(i: ThinkIndicator, token: ollama::TokenView) -> bool {
    token is Think && !i.shown && !i.over
}

/// What is written for a part of a reply.
pub open spec fn token_text(i: ThinkIndicator, token: ollama::TokenView) -> Seq<char> {
    match token {
        ollama::TokenView::Think(_) => if marks(i, token) {
            "\x1b[2m\x1b[35m[thinking...]\x1b[0m"@
        } else {
            Seq::empty()
        },
        ollama::TokenView::ThinkEnd => "\r\x1b[2K"@,
        ollama::TokenView::Content(s) => s,
    }
}

/// The indicator after a part of a reply.
pub open spec fn indicator_after(i: ThinkIndicator, token: ollama::TokenView) -> ThinkIndicator {
    match token {
        ollama::TokenView::Think(_) => ThinkIndicator { shown: i.shown || !i.over, ..i },
        ollama::TokenView::ThinkEnd => ThinkIndicator { shown: false, over: true },
        ollama::TokenView::Content(_) => i,
    }
}

impl ThinkIndicator {
    /// An indicator that has not been on the screen yet.
    pub fn new() -> (i: Self)
        ensures
            i == (ThinkIndicator { shown: false, over: false }),
    {
        ThinkIndicator { shown: false, over: false }
    }

    /// Gives what is to be written for a part of a reply.
    pub fn show(&mut self, token: Token) -> (t: String)
        ensures
            t@ == token_text(*old(self), token@),
            *final(self) == indicator_after(*old(self), token@),
    {
        match token {
            Token::Think(_) => {
                if self.shown || self.over {
                    String::new()
                } else {
                    self.shown = true;
                    "\x1b[2m\x1b[35m[thinking...]\x1b[0m".to_owned()
                }
            },
            Token::ThinkEnd => {
                self.shown = false;
                self.over = true;
                "\r\x1b[2K".to_owned()
            },
            Token::Content(s) => s,
        }
    }
}

/// The indicator after parts of a reply, and how often the mark came onto the screen.
pub open spec fn indicated(tokens: Seq<ollama::TokenView>) -> (ThinkIndicator, nat)
    decreases tokens.len(),
{
    if tokens.len() == 0 {
        (ThinkIndicator { shown: false, over: false }, 0)
    } else {
        let (i, n) = indicated(tokens.drop_last());
        (
            indicator_after(i, tokens.last()),
            n + (if marks(i, tokens.last()) {
                1nat
            } else {
                0nat
            }),
        )
    }
}

/// However much the model thinks, the mark that shows it comes onto the screen once at most.
pub proof fn law_thinking_is_marked_once(tokens: Seq<ollama::TokenView>)
    ensures
        indicated(tokens).1 <= 1,
        indicated(tokens).1 == 1 ==> indicated(tokens).0.shown || indicated(tokens).0.over,
        tokens.len() > 0 && tokens[0] is Think ==> indicated(tokens).1 == 1,
    decreases tokens.len(),
{
    if tokens.len() > 0 {
        law_thinking_is_marked_once(tokens.drop_last());
        if tokens.len() == 1 {
            reveal_with_fuel(indicated, 2);
        }
    }
}

// ── Models ───────────────────────────────────────────────────────────────────

/// A model in a list: its number, its name, its size in words, and what it can do.
pub open spec fn model_row(number: nat, name: Seq<char>, size: Seq<char>) -> Seq<char> {
    text::padded_left(text::decimal(number), 2) + ")  "@ + text::padded_right(name, 40) + "  "@
        + text::padded_left(size, 7) + "  ["@ + model_cap::description(model_cap::resolved(name))
        + "]\n"@
}

/// Appends a model in a list.
pub fn push_model_row(out: &mut String, number: usize, name: &str, size: &str)
    ensures
        final(out)@ == old(out)@ + model_row(number as nat, name@, size@),
{
    let mut n = String::new();
    text::push_decimal(&mut n, number);
    assert(n@ == text::decimal(number as nat));
    text::push_padded_left(out, n.as_str(), 2);
    out.push_str(")  ");
    text::push_padded_right(out, name, 40);
    out.push_str("  ");
    text::push_padded_left(out, size, 7);
    out.push_str("  [");
    out.push_str(model_cap::resolve(name).describe().as_str());
    out.push_str("]\n");
    assert(out@ == old(out)@ + model_row(number as nat, name@, size@));
}

/// The rows of a list of models, each with its name and its size in words; the current model is
/// marked.
pub open spec fn marked_rows(current: Seq<char>, models: Seq<(String, String)>) -> Seq<char>
    decreases models.len(),
{
    if models.len() == 0 {
        Seq::empty()
    } else {
        let (name, size) = models.last();
        marked_rows(current, models.drop_last()) + "  "@ + (if name@ == current {
            "\x1b[32m*\x1b[0m"@
        } else {
            " "@
        }) + " "@ + model_row(models.len(), name@, size@)
    }
}

/// What `/model` prints.
pub open spec fn models_text(s: SessionView, models: Seq<(String, String)>) -> Seq<char> {
    if models.len() == 0 {
        warn_line("[no models available]"@)
    } else {
        "\n\x1b[1mAvailable models:\x1b[0m\n"@ + marked_rows(s.model, models) + "\n"@
    }
}

/// What a request to switch the model comes to.
pub enum SwitchPlan {
    /// It is refused, with what is to be printed.
    Refuse(String),
    /// Print the text, unload the current model, and switch to the named one.
    Switch(String, String),
}

/// What a `SwitchPlan` holds.
pub enum SwitchView {
    Refuse(Seq<char>),
    Switch(Seq<char>, Seq<char>),
}

impl View for SwitchPlan {
    type V = SwitchView;

    open spec fn view(&self) -> SwitchView {
        match self {
            SwitchPlan::Refuse(t) => SwitchView::Refuse(t@),
            SwitchPlan::Switch(t, name) => SwitchView::Switch(t@, name@),
        }
    }
}

/// What is said before a model is unloaded.
pub open spec fn unloading_text(model: Seq<char>) -> Seq<char> {
    "[unloading "@ + model + "...]"@
}

/// What the request to switch to the `n`th of the models that are there comes to.
pub open spec fn switch_plan(
    s: SessionView,
    n: usize,
    models: Result<Seq<Seq<char>>, Seq<char>>,
) -> SwitchView {
    match models {
        Err(e) => SwitchView::Refuse(failed_text(e)),
        Ok(names) => if n < 1 || n > names.len() {
            SwitchView::Refuse(
                failed_text("Index out of range (1–"@ + text::decimal(names.len()) + ")"@),
            )
        } else if names[n - 1] == s.model {
            SwitchView::Refuse(warn_line("[warn] Already using that model."@))
        } else {
            SwitchView::Switch(info_line(unloading_text(s.model)), names[n - 1])
        },
    }
}

/// The session with another model: it starts afresh, and does not think.
pub open spec fn switched(s: SessionView, model: Seq<char>) -> SessionView {
    SessionView {
        model,
        caps: model_cap::resolved(model),
        think: false,
        history: Seq::empty(),
        pending: nothing_pending(),
        ..s
    }
}

/// What is said once the model has been switched.
pub open spec fn switched_text(model: Seq<char>) -> Seq<char> {
    info_line(
        "[switched to "@ + model + "  caps: "@ + model_cap::description(model_cap::resolved(model))
            + "]"@,
    )
}

/// What a list of models, or why there is none, holds.
pub open spec fn names_view(models: Result<Vec<String>, String>) -> Result<
    Seq<Seq<char>>,
    Seq<char>,
> {
    match models {
        Ok(v) => Ok(text::views(v@)),
        Err(e) => Err(e@),
    }
}

impl Session {
    /// What `/model` prints: the models that are there, each with its name and its size in words, or
    /// why there is no list.
    pub fn cmd_list_models(&self, models: &Result<Vec<(String, String)>, String>) -> (t: String)
        ensures
            t@ == (match *models {
                Ok(v) => models_text(self@, v@),
                Err(e) => failed_text(e@),
            }),
    {
        let v = match models {
            Ok(v) => v,
            Err(e) => {
                return failed(e.as_str());
            },
        };
        if v.len() == 0 {
            return warn("[no models available]");
        }
        let mut t = "\n\x1b[1mAvailable models:\x1b[0m\n".to_owned();
        let mut i: usize = 0;
        let ghost head = t@;
        assert(t@ == head + marked_rows(self@.model, v@.take(0)));
        while i < v.len()
            invariant
                i <= v@.len(),
                t@ == head + marked_rows(self@.model, v@.take(i as int)),
            decreases v@.len() - i,
        {
            let ghost before = t@;
            assert(v@.take(i + 1).drop_last() == v@.take(i as int));
            t.push_str("  ");
            t.push_str(
                if text::same_text(v[i].0.as_str(), self.model.as_str()) {
                    "\x1b[32m*\x1b[0m"
                } else {
                    " "
                },
            );
            t.push_str(" ");
            push_model_row(&mut t, i + 1, v[i].0.as_str(), v[i].1.as_str());
            assert(t@ == head + marked_rows(self@.model, v@.take(i + 1)));
            i += 1;
        }
        assert(v@.take(i as int) == v@);
        t.push_str("\n");
        assert(t@ == models_text(self@, v@));
        t
    }

    /// What the request to switch to the `n`th model comes to.
    pub fn cmd_switch_model_by_index(&self, n: usize, models: &Result<Vec<String>, String>) -> (p:
        SwitchPlan)
        ensures
            p@ == switch_plan(self@, n, names_view(*models)),
    {
        let v = match models {
            Ok(v) => v,
            Err(e) => {
                return SwitchPlan::Refuse(failed(e.as_str()));
            },
        };
        if n < 1 || n > v.len() {
            let mut t = "Index out of range (1–".to_owned();
            text::push_decimal(&mut t, v.len());
            t.push_str(")");
            return SwitchPlan::Refuse(failed(t.as_str()));
        }
        let name = v[n - 1].clone();
        assert(names_view(*models)->Ok_0[n - 1] == name@);
        if text::same_text(name.as_str(), self.model.as_str()) {
            return SwitchPlan::Refuse(warn("[warn] Already using that model."));
        }
        let t = concat3("[unloading ", self.model.as_str(), "...]");
        SwitchPlan::Switch(info(t.as_str()), name)
    }

    /// Switches to another model, once the current one has been unloaded; to the current one there
    /// is nothing to switch. Gives what is to be printed.
    pub fn cmd_switch_model(&mut self, model: String) -> (t: String)
        requires
            old(self).well_formed(),
        ensures
            final(self).well_formed(),
            model@ == old(self)@.model ==> final(self)@ == old(self)@ && t@ == warn_line(
                "[warn] Already using that model."@,
            ),
            model@ != old(self)@.model ==> final(self)@ == switched(old(self)@, model@) && t@
                == switched_text(model@),
    {
        if text::same_text(model.as_str(), self.model.as_str()) {
            return warn("[warn] Already using that model.");
        }
        self.caps = model_cap::resolve(model.as_str());
        self.model = model;
        self.think = false;
        self.history.clear();
        self.pending.clear();
        assert(self@.history == Seq::<MessageView>::empty());
        let mut t = concat3("[switched to ", self.model.as_str(), "  caps: ");
        t.push_str(self.caps.describe().as_str());
        t.push_str("]");
        info(t.as_str())
    }

    /// What is printed before the model is unloaded at the end of the session.
    pub fn shutdown(&self) -> (t: String)
        ensures
            t@ == info_line("\n"@ + unloading_text(self@.model)),
    {
        let t = concat3("\n[unloading ", self.model.as_str(), "...]");
        proof {
            reveal_strlit("\n[unloading ");
            reveal_strlit("\n");
            reveal_strlit("[unloading ");
        }
        assert(t@ == "\n"@ + unloading_text(self@.model));
        info(t.as_str())
    }
}

// ── Laws ─────────────────────────────────────────────────────────────────────

proof fn lemma_position(front: Seq<char>, c: char, back: Seq<char>)
    requires
        !front.contains(c),
    ensures
        text::position(front + seq![c] + back, c) == front.len(),
    decreases front.len(),
{
    let s = front + seq![c] + back;
    if front.len() > 0 {
        assert(front.contains(front[0]));
        assert(s[0] == front[0]);
        assert(s.drop_first() == front.drop_first() + seq![c] + back);
        assert(!front.drop_first().contains(c)) by {
            if front.drop_first().contains(c) {
                let i = choose|i: int|
                    0 <= i < front.drop_first().len() && front.drop_first()[i] == c;
                assert(front[i + 1] == c);
            }
        }
        lemma_position(front.drop_first(), c, back);
    } else {
        assert(s[0] == c);
    }
}

/// The white space at the back of a text is that at the back of what follows a character of it that
/// is none.
proof fn lemma_trimmed_back_concat(a: Seq<char>, b: Seq<char>)
    requires
        a.len() > 0,
        !text::white_space(a.last()),
    ensures
        text::trimmed_back(a + b) == a + text::trimmed_back(b),
    decreases b.len(),
{
    if b.len() == 0 {
        assert(a + b == a);
        assert(a + text::trimmed_back(b) == a);
    } else if text::white_space(b.last()) {
        assert((a + b).drop_last() == a + b.drop_last());
        lemma_trimmed_back_concat(a, b.drop_last());
    }
}

proof fn lemma_trimmed_back_first(c: char, s: Seq<char>)
    ensures
        text::trimmed_back(seq![c] + s) == (if text::trimmed_back(s).len() > 0 {
            seq![c] + text::trimmed_back(s)
        } else if text::white_space(c) {
            Seq::empty()
        } else {
            seq![c]
        }),
    decreases s.len(),
{
    let all = seq![c] + s;
    if s.len() == 0 {
        assert(all == seq![c]);
        assert(all.drop_last() == Seq::<char>::empty());
        reveal_with_fuel(text::trimmed_back, 2);
    } else if text::white_space(s.last()) {
        assert(all.drop_last() == seq![c] + s.drop_last());
        lemma_trimmed_back_first(c, s.drop_last());
    }
}

/// It makes no difference at which end of a text its white space is taken off first.
proof fn lemma_trimmed_ends(s: Seq<char>)
    ensures
        text::trimmed_front(text::trimmed_back(s)) == text::trimmed(s),
        text::trimmed_back(text::trimmed(s)) == text::trimmed(s),
    decreases s.len(),
{
    lemma_trimmed_back_twice(text::trimmed_front(s));
    if s.len() > 0 {
        let c = s[0];
        let rest = s.drop_first();
        assert(s == seq![c] + rest);
        lemma_trimmed_back_first(c, rest);
        let t = text::trimmed_back(s);
        if text::white_space(c) {
            lemma_trimmed_ends(rest);
            if text::trimmed_back(rest).len() > 0 {
                assert(t.drop_first() == text::trimmed_back(rest));
            }
        } else {
            assert(t[0] == c);
        }
    }
}

proof fn lemma_trimmed_back_twice(s: Seq<char>)
    ensures
        text::trimmed_back(text::trimmed_back(s)) == text::trimmed_back(s),
    decreases s.len(),
{
    if s.len() > 0 && text::white_space(s.last()) {
        lemma_trimmed_back_twice(s.drop_last());
    }
}

/// An argument that begins with a quoted path loses only the white space at its back.
proof fn lemma_trimmed_arg(bare: Seq<char>, rest: Seq<char>)
    requires
        bare.len() > 0,
        !text::white_space(bare[0]),
        !text::white_space(bare.last()),
    ensures
        text::trimmed(bare + rest) == bare + text::trimmed_back(rest),
{
    assert((bare + rest)[0] == bare[0]);
    lemma_trimmed_back_concat(bare, rest);
}

/// What an argument without white space at its ends comes to that begins with a quoted path.
proof fn lemma_quoted_arg(quote: char, path: Seq<char>, back: Seq<char>)
    requires
        !path.contains(quote),
    ensures
        ({
            let t = seq![quote] + path + seq![quote] + back;
            let end = 1 + text::position(t.drop_first(), quote);
            &&& t[0] == quote
            &&& end == 1 + path.len()
            &&& end < t.len()
            &&& t.subrange(1, end) == path
            &&& t.skip(end + 1) == back
        }),
{
    let n = path.len() as int;
    let t = seq![quote] + path + seq![quote] + back;
    assert(t.drop_first() == path + seq![quote] + back);
    lemma_position(path, quote, back);
    assert(t.subrange(1, 1 + n) == path);
    assert(t.skip(n + 2) == back);
}

/// A path in quotes, of either kind, is taken as it is, spaces and all, and what follows it is the
/// message, without the white space at its ends.
pub proof fn law_quoted_path(quote: char, path: Seq<char>, rest: Seq<char>)
    requires
        quote == '\'' || quote == '"',
        !path.contains(quote),
    ensures
        media_arg(seq![quote] + path + seq![quote] + rest) == (
            path,
            if text::trimmed(rest).len() == 0 {
                None
            } else {
                Some(text::trimmed(rest))
            },
        ),
{
    let bare = seq![quote] + path + seq![quote];
    let back = text::trimmed_back(rest);
    lemma_trimmed_arg(bare, rest);
    lemma_quoted_arg(quote, path, back);
    assert(text::trimmed(back) == text::trimmed(rest)) by {
        lemma_trimmed_ends(rest);
    }
}

/// An argument that does not begin with a quote is all of it the path, spaces and all, without the
/// white space at its ends.
pub proof fn law_bare_path(arg: Seq<char>)
    requires
        text::trimmed(arg).len() > 0 ==> text::trimmed(arg)[0] != '\'' && text::trimmed(arg)[0] != '"',
    ensures
        media_arg(arg) == (text::trimmed(arg), None::<Seq<char>>),
{
}

/// No command changes the model; only `/clear` changes the history or what is attached; and thinking
/// is only turned on for a model that can think.
pub proof fn law_commands_keep_the_rest(s: SessionView, cmd: Seq<char>, arg: Seq<char>)
    ensures
        ({
            let t = command(s, cmd, arg).0;
            &&& t.model == s.model
            &&& t.caps == s.caps
            &&& t.version == s.version
            &&& cmd != "/clear"@ ==> t.history == s.history && t.pending == s.pending
            &&& t.think ==> s.think || s.caps.think
        }),
{
}

/// A chat whose reply comes adds two messages to the history, the user's and the assistant's. One
/// that fails or is interrupted leaves the history as it was.
pub proof fn law_chat_is_all_or_nothing(
    s: SessionView,
    input: Seq<char>,
    interrupted: bool,
    reply: Result<Seq<char>, Seq<char>>,
)
    ensures
        ({
            let t = chat_ended(chat_begun(s, input), interrupted, reply);
            &&& !interrupted && reply is Ok ==> t.history == s.history + seq![
                ollama::user_message(message_text(s.pending.text_chunks, input), s.pending.images),
                ollama::assistant_message(reply->Ok_0),
            ]
            &&& interrupted || reply is Err ==> t.history == s.history
            &&& t.pending == nothing_pending()
            &&& t.model == s.model
            &&& t.think == s.think
        }),
{
    let b = chat_begun(s, input);
    assert(without_last(b.history) == s.history);
    if reply is Ok {
        assert(b.history.push(ollama::assistant_message(reply->Ok_0)) == s.history + seq![
            ollama::user_message(message_text(s.pending.text_chunks, input), s.pending.images),
            ollama::assistant_message(reply->Ok_0),
        ]);
    }
}

/// Whether the user and the assistant speak in turn, the user first and the assistant last.
pub open spec fn alternates(history: Seq<MessageView>) -> bool {
    &&& history.len() % 2 == 0
    &&& forall|i: int|
        0 <= i < history.len() ==> (#[trigger] history[i]).role == if i % 2 == 0 {
            "user"@
        } else {
            "assistant"@
        }
}

/// Between two lines the user and the assistant have spoken in turn: a new session, every command,
/// every chat, however it ends, and a switch of the model keep that.
pub proof fn law_history_alternates(
    s: SessionView,
    cmd: Seq<char>,
    arg: Seq<char>,
    input: Seq<char>,
    interrupted: bool,
    reply: Result<Seq<char>, Seq<char>>,
    model: Seq<char>,
)
    requires
        alternates(s.history),
    ensures
        alternates(Seq::<MessageView>::empty()),
        alternates(command(s, cmd, arg).0.history),
        alternates(chat_ended(chat_begun(s, input), interrupted, reply).history),
        alternates(switched(s, model).history),
{
    law_chat_is_all_or_nothing(s, input, interrupted, reply);
}

/// What was attached goes with the next message, and with that one alone.
pub proof fn law_attachments_go_with_one_message(s: SessionView, first: Seq<char>, second: Seq<char>)
    ensures
        chat_begun(chat_begun(s, first), second).history.last() == ollama::user_message(
            second,
            Seq::empty(),
        ),
        s.pending.images.len() > 0 ==> chat_begun(s, first).history.last().images == Some(
            s.pending.images,
        ),
        chat_begun(s, first).history.last().content == message_text(s.pending.text_chunks, first),
{
}

/// To switch the model is to start afresh with it.
pub proof fn law_switch_starts_afresh(s: SessionView, model: Seq<char>)
    ensures
        switched(s, model) == (SessionView {
            version: s.version,
            model,
            caps: model_cap::resolved(model),
            think: false,
            history: Seq::empty(),
            pending: nothing_pending(),
        }),
{
}

/// The number that the list shows for a model switches to that model, unless it is the current one.
pub proof fn law_listed_number_switches(s: SessionView, names: Seq<Seq<char>>, i: usize)
    requires
        i < names.len() <= usize::MAX,
        names[i as int] != s.model,
    ensures
        command(s, "/model"@, text::decimal((i + 1) as nat)).1 == ActionView::SwitchModel(
            (i + 1) as usize,
        ),
        switch_plan(s, (i + 1) as usize, Ok(names)) == SwitchView::Switch(
            info_line(unloading_text(s.model)),
            names[i as int],
        ),
{
    text::law_decimal_reads_back((i + 1) as usize);
    reveal_strlit("/model");
    reveal_strlit("/exit");
    reveal_strlit("/quit");
    reveal_strlit("/help");
    reveal_strlit("/info");
    reveal_strlit("/think");
    reveal_strlit("/nothink");
    reveal_strlit("/clear");
    assert("/model"@[1] == 'm');
    assert("/exit"@[1] == 'e');
    assert("/quit"@[1] == 'q');
    assert("/help"@[1] == 'h');
    assert("/info"@[1] == 'i');
    assert("/think"@[1] == 't');
    assert("/nothink"@[1] == 'n');
    assert("/clear"@[1] == 'c');
}

// ── What a reply prints ──────────────────────────────────────────────────────

/// The indicator after all that a reply has the client show, and all that is written for it.
pub open spec fn written_for(tokens: Seq<ollama::TokenView>) -> (ThinkIndicator, Seq<char>)
    decreases tokens.len(),
{
    if tokens.len() == 0 {
        (ThinkIndicator { shown: false, over: false }, Seq::empty())
    } else {
        let (i, t) = written_for(tokens.drop_last());
        (indicator_after(i, tokens.last()), t + token_text(i, tokens.last()))
    }
}

/// Whatever was shown before, a piece of the answer is written as it is, and what the model thinks is
/// never written: nothing is, or the mark.
pub proof fn law_answer_is_written_as_it_is(i: ThinkIndicator, piece: Seq<char>)
    ensures
        token_text(i, ollama::TokenView::Content(piece)) == piece,
        token_text(i, ollama::TokenView::Think(piece)).len() == 0 || token_text(
            i,
            ollama::TokenView::Think(piece),
        ) == "\x1b[2m\x1b[35m[thinking...]\x1b[0m"@,
        token_text(i, ollama::TokenView::ThinkEnd) == "\r\x1b[2K"@,
{
}

proof fn lemma_written_for_push(tokens: Seq<ollama::TokenView>, token: ollama::TokenView)
    ensures
        written_for(tokens.push(token)) == (
            indicator_after(written_for(tokens).0, token),
            written_for(tokens).1 + token_text(written_for(tokens).0, token),
        ),
{
    assert(tokens.push(token).drop_last() == tokens);
}

proof fn lemma_written_for_part(
    shown: Seq<ollama::TokenView>,
    r: ollama::ReplyView,
    c: ollama::ChunkView,
)
    ensures
        ({
            let (i, t) = written_for(shown);
            let begun = if c.thinking.len() > 0 {
                indicator_after(i, ollama::TokenView::Think(c.thinking))
            } else {
                i
            };
            let ends = c.content.len() > 0 && (r.in_thinking || (c.thinking.len() > 0
                && !r.thinking_started));
            let mark = if c.thinking.len() > 0 {
                token_text(i, ollama::TokenView::Think(c.thinking))
            } else {
                Seq::empty()
            };
            let erasure = if ends {
                "\r\x1b[2K"@
            } else {
                Seq::empty()
            };
            written_for(shown + ollama::tokens_of(r, c)) == (
                if ends {
                    (ThinkIndicator { shown: false, over: true })
                } else {
                    begun
                },
                t + mark + erasure + c.content,
            )
        }),
{
    let think = ollama::TokenView::Think(c.thinking);
    let end = ollama::TokenView::ThinkEnd;
    let content = ollama::TokenView::Content(c.content);
    let ends = c.content.len() > 0 && (r.in_thinking || (c.thinking.len() > 0
        && !r.thinking_started));
    let a = if c.thinking.len() > 0 {
        shown.push(think)
    } else {
        shown
    };
    let b = if ends {
        a.push(end)
    } else {
        a
    };
    let d = if c.content.len() > 0 {
        b.push(content)
    } else {
        b
    };
    lemma_written_for_push(shown, think);
    lemma_written_for_push(a, end);
    lemma_written_for_push(b, content);
    assert(d == shown + ollama::tokens_of(r, c));
    let (i, t) = written_for(shown);
    let none = Seq::<char>::empty();
    assert(t + none == t);
    assert(written_for(a).1 + none == written_for(a).1);
    assert(written_for(b).1 + none == written_for(b).1);
    if c.content.len() == 0 {
        assert(c.content == none);
    }
}

/// All that a reply writes to the terminal is the text of its parts, one after the other, and between
/// them, where the model first thinks, the mark that shows it, which is erased again as soon as it
/// answers. Without the mark and its erasure, that is the answer and nothing else.
pub proof fn law_reply_is_printed(parts: Seq<ollama::ChunkView>, k: int)
    requires
        0 <= k <= parts.len(),
        forall|i: int| 0 <= i < k ==> (#[trigger] parts[i]).thinking.len() == 0,
        k < parts.len() ==> parts[k].thinking.len() > 0,
    ensures
        ({
            let first = ollama::text_of(parts.take(k));
            let second = ollama::text_of(parts.skip(k));
            let mark = if k < parts.len() {
                "\x1b[2m\x1b[35m[thinking...]\x1b[0m"@
            } else {
                Seq::empty()
            };
            let erasure = if second.len() > 0 {
                "\r\x1b[2K"@
            } else {
                Seq::empty()
            };
            &&& written_for(ollama::shown_of(parts)).1 == first + mark + erasure + second
            &&& ollama::text_of(parts) == first + second
        }),
{
    lemma_reply_is_printed(parts, k);
    lemma_text_of_parts(parts, k);
}

proof fn lemma_text_of_parts(parts: Seq<ollama::ChunkView>, k: int)
    requires
        0 <= k <= parts.len(),
    ensures
        ollama::text_of(parts) == ollama::text_of(parts.take(k)) + ollama::text_of(parts.skip(k)),
{
    let none = Seq::<char>::empty();
    if k == parts.len() {
        assert(parts.take(k) == parts);
        assert(parts.skip(k) == Seq::<ollama::ChunkView>::empty());
        assert(ollama::text_of(parts) + none == ollama::text_of(parts));
    } else {
        lemma_text_of_parts_head(parts, k);
    }
}

proof fn lemma_text_of_parts_head(parts: Seq<ollama::ChunkView>, k: int)
    requires
        0 <= k < parts.len(),
    ensures
        ollama::text_of(parts) == ollama::text_of(parts.take(k)) + ollama::text_of(parts.skip(k)),
    decreases parts.len(),
{
    let head = parts.drop_last();
    let none = Seq::<char>::empty();
    let rest = parts.skip(k);
    assert(head.take(k) == parts.take(k));
    assert(rest.drop_last() == head.skip(k));
    assert(rest.last() == parts.last());
    if k < head.len() {
        lemma_text_of_parts_head(head, k);
    } else {
        assert(head.take(k) == head);
        assert(head.skip(k) == Seq::<ollama::ChunkView>::empty());
        assert(ollama::text_of(head) + none == ollama::text_of(head));
    }
    assert(ollama::text_of(parts.take(k)) + ollama::text_of(head.skip(k)) + parts.last().content
        == ollama::text_of(parts.take(k)) + (ollama::text_of(head.skip(k)) + parts.last().content));
}

proof fn lemma_reply_is_printed(parts: Seq<ollama::ChunkView>, k: int)
    requires
        0 <= k <= parts.len(),
        forall|i: int| 0 <= i < k ==> (#[trigger] parts[i]).thinking.len() == 0,
        k < parts.len() ==> parts[k].thinking.len() > 0,
    ensures
        ({
            let first = ollama::text_of(parts.take(k));
            let second = ollama::text_of(parts.skip(k));
            let mark = if k < parts.len() {
                "\x1b[2m\x1b[35m[thinking...]\x1b[0m"@
            } else {
                Seq::empty()
            };
            let erasure = if second.len() > 0 {
                "\r\x1b[2K"@
            } else {
                Seq::empty()
            };
            let r = ollama::reply_of(parts);
            &&& written_for(ollama::shown_of(parts)).1 == first + mark + erasure + second
            &&& written_for(ollama::shown_of(parts)).0 == (ThinkIndicator {
                shown: k < parts.len() && second.len() == 0,
                over: second.len() > 0,
            })
            &&& r.thinking_started == (k < parts.len())
            &&& r.in_thinking == (k < parts.len() && second.len() == 0)
        }),
    decreases parts.len(),
{
    let none = Seq::<char>::empty();
    if parts.len() == 0 {
        assert(parts.take(k) == parts);
        assert(parts.skip(k) == parts);
        assert(none + none + none + none == none);
    } else {
        let head = parts.drop_last();
        let c = parts.last();
        let r = ollama::reply_of(head);
        let j = if k < parts.len() {
            k
        } else {
            k - 1
        };
        assert forall|i: int| 0 <= i < j implies (#[trigger] head[i]).thinking.len() == 0 by {
            assert(head[i] == parts[i]);
        }
        if j < head.len() {
            assert(head[j] == parts[j]);
        }
        lemma_reply_is_printed(head, j);
        lemma_written_for_part(ollama::shown_of(head), r, c);
        let (i, t) = written_for(ollama::shown_of(head));
        let mark = "\x1b[2m\x1b[35m[thinking...]\x1b[0m"@;
        let erasure = "\r\x1b[2K"@;
        let first = ollama::text_of(parts.take(k));
        let second = ollama::text_of(parts.skip(k));
        let out = written_for(ollama::shown_of(parts)).1;
        if k == parts.len() {
            assert(parts[k - 1].thinking.len() == 0);
            assert(parts.take(k) == parts);
            assert(parts.take(k).drop_last() == head.take(j));
            assert(parts.skip(k) == Seq::<ollama::ChunkView>::empty());
            assert(head.skip(j) == Seq::<ollama::ChunkView>::empty());
            assert(out == first + none + none + second);
        } else {
            let before = ollama::text_of(head.skip(k));
            assert(parts.skip(k).drop_last() == head.skip(k));
            assert(parts.skip(k).last() == c);
            assert(second == before + c.content);
            assert(head.take(k) == parts.take(k));
            if k == head.len() {
                assert(head.skip(k) == Seq::<ollama::ChunkView>::empty());
                assert(c.thinking.len() > 0);
                assert(t == first);
                assert(second == c.content);
                if c.content.len() > 0 {
                    assert(out == first + mark + erasure + second);
                } else {
                    assert(out == first + mark + none + second);
                }
            } else if before.len() > 0 {
                assert(out == first + mark + erasure + second);
            } else if c.content.len() > 0 {
                assert(t == first + mark);
                assert(second == c.content);
                assert(out == first + mark + erasure + second);
            } else {
                assert(out == first + mark + none + second);
            }
        }
    }
}

// ── What a message holds ─────────────────────────────────────────────────────

/// The texts of a list, each followed by a blank line.
pub open spec fn each_with_blank_line(chunks: Seq<Seq<char>>) -> Seq<char>
    decreases chunks.len(),
{
    if chunks.len() == 0 {
        Seq::empty()
    } else {
        chunks[0] + seq!['\n', '\n'] + each_with_blank_line(chunks.drop_first())
    }
}

proof fn lemma_each_with_blank_line(chunks: Seq<Seq<char>>, chunk: Seq<char>)
    ensures
        each_with_blank_line(chunks.push(chunk)) == each_with_blank_line(chunks) + chunk + seq![
            '\n',
            '\n',
        ],
    decreases chunks.len(),
{
    let all = chunks.push(chunk);
    let none = Seq::<char>::empty();
    if chunks.len() == 0 {
        assert(all.drop_first() == Seq::<Seq<char>>::empty());
        assert(each_with_blank_line(all.drop_first()) == none);
        assert(each_with_blank_line(all) == chunk + seq!['\n', '\n']);
    } else {
        assert(all.drop_first() == chunks.drop_first().push(chunk));
        lemma_each_with_blank_line(chunks.drop_first(), chunk);
        assert(each_with_blank_line(all) == each_with_blank_line(chunks) + chunk + seq![
            '\n',
            '\n',
        ]);
    }
}

proof fn lemma_joined_blank_lines(chunks: Seq<Seq<char>>)
    requires
        chunks.len() > 0,
    ensures
        text::joined(chunks, "\n\n"@) + "\n\n"@ == each_with_blank_line(chunks),
    decreases chunks.len(),
{
    reveal_strlit("\n\n");
    assert("\n\n"@ == seq!['\n', '\n']);
    let head = chunks.drop_last();
    assert(head.push(chunks.last()) == chunks);
    lemma_each_with_blank_line(head, chunks.last());
    if head.len() > 0 {
        lemma_joined_blank_lines(head);
    } else {
        assert(each_with_blank_line(head) == Seq::<char>::empty());
        assert(each_with_blank_line(chunks) == chunks[0] + seq!['\n', '\n']);
    }
}

/// What is sent is one more message of the user, behind all that was said before: the attached files in
/// the order in which they were attached, each followed by a blank line, and at its end what the user
/// entered; with it go the attached images, where there are any. Nothing stays attached, and all else
/// of the session is as it was.
pub proof fn law_message_holds_files_then_input(s: SessionView, input: Seq<char>)
    ensures
        ({
            let t = chat_begun(s, input);
            let m = t.history.last();
            &&& t.history.len() == s.history.len() + 1
            &&& t.history.drop_last() == s.history
            &&& m.content == each_with_blank_line(s.pending.text_chunks) + input
            &&& m.role == "user"@
            &&& s.pending.images.len() == 0 ==> m.images is None
            &&& s.pending.images.len() > 0 ==> m.images == Some(s.pending.images)
            &&& m.audios is None
            &&& t.pending.images.len() == 0
            &&& t.pending.text_chunks.len() == 0
            &&& t.model == s.model
            &&& t.caps == s.caps
            &&& t.think == s.think
            &&& t.version == s.version
        }),
{
    let chunks = s.pending.text_chunks;
    let t = chat_begun(s, input);
    assert(t.history.drop_last() == s.history);
    if chunks.len() > 0 {
        lemma_joined_blank_lines(chunks);
    } else {
        assert(Seq::<char>::empty() + input == input);
    }
}

/// The block of a text file is a fence with its extension, a line with its path, all of its contents
/// unchanged, and a closing fence on a line of its own.
pub proof fn law_file_block_holds_the_file(path: Seq<char>, contents: Seq<char>)
    ensures
        ({
            let b = file_block(path, contents);
            let head = b.len() - contents.len() - 4;
            let ext = match media::extension_of(path) {
                Some(e) => e,
                None => seq!['t', 'x', 't'],
            };
            &&& head > 0
            &&& b.subrange(head, head + contents.len()) == contents
            &&& b.skip(head + contents.len()) == seq!['\n', '`', '`', '`']
            &&& b.take(head) == seq!['`', '`', '`'] + ext + seq![
                '\n',
                '#',
                ' ',
                'f',
                'i',
                'l',
                'e',
                ':',
                ' ',
            ] + path + seq!['\n']
        }),
{
    reveal_strlit("```");
    reveal_strlit("txt");
    reveal_strlit("\n# file: ");
    reveal_strlit("\n");
    reveal_strlit("\n```");
    assert("txt"@ == seq!['t', 'x', 't']);
    let b = file_block(path, contents);
    let ext = match media::extension_of(path) {
        Some(e) => e,
        None => "txt"@,
    };
    let front = "```"@ + ext + "\n# file: "@ + path + "\n"@;
    let head = b.len() - contents.len() - 4;
    assert(b == front + contents + "\n```"@);
    assert(front.len() == head);
    assert(b.take(head) == front);
    assert(b.subrange(head, head + contents.len()) == contents);
    assert(b.skip(head + contents.len()) == "\n```"@);
    assert("\n```"@ == seq!['\n', '`', '`', '`']);
    assert("```"@ == seq!['`', '`', '`']);
    assert("\n# file: "@ == seq!['\n', '#', ' ', 'f', 'i', 'l', 'e', ':', ' ']);
    assert("\n"@ == seq!['\n']);
}

/// Attaching puts one more file behind those that are attached already, and changes nothing else; what
/// is attached last stands last before what the user enters.
pub proof fn law_attaching_adds_one(s: SessionView, chunk: Seq<char>, input: Seq<char>)
    ensures
        with_chunk(s, chunk).pending.text_chunks == s.pending.text_chunks + seq![chunk],
        with_chunk(s, chunk).pending.images == s.pending.images,
        with_chunk(s, chunk).history == s.history,
        with_chunk(s, chunk).model == s.model,
        with_chunk(s, chunk).caps == s.caps,
        with_chunk(s, chunk).think == s.think,
        with_image(s, chunk).pending.images == s.pending.images + seq![chunk],
        with_image(s, chunk).pending.text_chunks == s.pending.text_chunks,
        with_image(s, chunk).history == s.history,
        with_image(s, chunk).model == s.model,
        with_image(s, chunk).caps == s.caps,
        with_image(s, chunk).think == s.think,
        chat_begun(with_chunk(s, chunk), input).history.last().content == each_with_blank_line(
            s.pending.text_chunks,
        ) + chunk + seq!['\n', '\n'] + input,
        chat_begun(with_image(s, chunk), input).history.last().images == Some(
            s.pending.images.push(chunk),
        ),
{
    assert(with_chunk(s, chunk).pending.text_chunks == s.pending.text_chunks + seq![chunk]);
    assert(with_image(s, chunk).pending.images == s.pending.images + seq![chunk]);
    law_message_holds_files_then_input(with_chunk(s, chunk), input);
    law_message_holds_files_then_input(with_image(s, chunk), input);
    lemma_each_with_blank_line(s.pending.text_chunks, chunk);
}

// ── What commands do ─────────────────────────────────────────────────────────

/// The command that attaches a file of a kind.
pub open spec fn attach_word(kind: MediaKind) -> Seq<char> {
    match kind {
        MediaKind::Image => "/image"@,
        MediaKind::Audio => "/audio"@,
        MediaKind::File => "/file"@,
    }
}

/// Whether the model of a session takes files of a kind; any takes text files.
pub open spec fn takes(s: SessionView, kind: MediaKind) -> bool {
    match kind {
        MediaKind::Image => s.caps.image,
        MediaKind::Audio => s.caps.audio,
        MediaKind::File => true,
    }
}

proof fn lemma_words()
    ensures
        "/exit"@ == seq!['/', 'e', 'x', 'i', 't'],
        "/quit"@ == seq!['/', 'q', 'u', 'i', 't'],
        "/help"@ == seq!['/', 'h', 'e', 'l', 'p'],
        "/info"@ == seq!['/', 'i', 'n', 'f', 'o'],
        "/think"@ == seq!['/', 't', 'h', 'i', 'n', 'k'],
        "/nothink"@ == seq!['/', 'n', 'o', 't', 'h', 'i', 'n', 'k'],
        "/clear"@ == seq!['/', 'c', 'l', 'e', 'a', 'r'],
        "/model"@ == seq!['/', 'm', 'o', 'd', 'e', 'l'],
        "/image"@ == seq!['/', 'i', 'm', 'a', 'g', 'e'],
        "/audio"@ == seq!['/', 'a', 'u', 'd', 'i', 'o'],
        "/file"@ == seq!['/', 'f', 'i', 'l', 'e'],
{
    reveal_strlit("/exit");
    reveal_strlit("/quit");
    reveal_strlit("/help");
    reveal_strlit("/info");
    reveal_strlit("/think");
    reveal_strlit("/nothink");
    reveal_strlit("/clear");
    reveal_strlit("/model");
    reveal_strlit("/image");
    reveal_strlit("/audio");
    reveal_strlit("/file");
    assert("/exit"@ == seq!['/', 'e', 'x', 'i', 't']);
    assert("/quit"@ == seq!['/', 'q', 'u', 'i', 't']);
    assert("/help"@ == seq!['/', 'h', 'e', 'l', 'p']);
    assert("/info"@ == seq!['/', 'i', 'n', 'f', 'o']);
    assert("/think"@ == seq!['/', 't', 'h', 'i', 'n', 'k']);
    assert("/nothink"@ == seq!['/', 'n', 'o', 't', 'h', 'i', 'n', 'k']);
    assert("/clear"@ == seq!['/', 'c', 'l', 'e', 'a', 'r']);
    assert("/model"@ == seq!['/', 'm', 'o', 'd', 'e', 'l']);
    assert("/image"@ == seq!['/', 'i', 'm', 'a', 'g', 'e']);
    assert("/audio"@ == seq!['/', 'a', 'u', 'd', 'i', 'o']);
    assert("/file"@ == seq!['/', 'f', 'i', 'l', 'e']);
}

/// The eleven commands are told apart by their second letter, or else by their number of letters.
proof fn lemma_words_differ(a: Seq<char>, b: Seq<char>)
    requires
        a.len() > 1 && b.len() > 1,
        a.len() != b.len() || a[1] != b[1],
    ensures
        a != b,
{
}

/// What stands before the first space of a line is its command, and what stands behind it, without the
/// white space at its ends, is the argument; a line without a space is all of it the command.
pub proof fn law_command_line_splits(word: Seq<char>, rest: Seq<char>)
    requires
        !word.contains(' '),
    ensures
        command_word(word + seq![' '] + rest) == word,
        command_arg(word + seq![' '] + rest) == text::trimmed(rest),
        command_word(word) == word,
        command_arg(word).len() == 0,
{
    let line = word + seq![' '] + rest;
    lemma_position(word, ' ', rest);
    assert(line.take(word.len() as int) == word);
    assert(line.skip((word.len() + 1) as int) == rest);
    text::law_position(word, ' ');
    if text::position(word, ' ') < word.len() {
        assert(word.contains(word[text::position(word, ' ')]));
    }
    assert(word.take(word.len() as int) == word);
}

proof fn lemma_attach_words(kind: MediaKind)
    ensures
        ({
            let w = attach_word(kind);
            &&& !w.contains(' ')
            &&& w.len() > 1
            &&& w[0] == '/'
            &&& w.last() != ' '
            &&& !text::white_space(w[0])
        }),
{
    lemma_words();
    let w = attach_word(kind);
    assert(!w.contains(' ')) by {
        if w.contains(' ') {
            let i = choose|i: int| 0 <= i < w.len() && w[i] == ' ';
            assert(w[i] == ' ');
        }
    }
}

/// The commands that attach differ from those that are looked for before them.
proof fn lemma_words_apart()
    ensures
        "/image"@ != "/exit"@,
        "/image"@ != "/quit"@,
        "/image"@ != "/help"@,
        "/image"@ != "/info"@,
        "/image"@ != "/think"@,
        "/image"@ != "/nothink"@,
        "/image"@ != "/clear"@,
        "/image"@ != "/model"@,
        "/audio"@ != "/exit"@,
        "/audio"@ != "/quit"@,
        "/audio"@ != "/help"@,
        "/audio"@ != "/info"@,
        "/audio"@ != "/think"@,
        "/audio"@ != "/nothink"@,
        "/audio"@ != "/clear"@,
        "/audio"@ != "/model"@,
        "/audio"@ != "/image"@,
        "/file"@ != "/exit"@,
        "/file"@ != "/quit"@,
        "/file"@ != "/help"@,
        "/file"@ != "/info"@,
        "/file"@ != "/think"@,
        "/file"@ != "/nothink"@,
        "/file"@ != "/clear"@,
        "/file"@ != "/model"@,
        "/file"@ != "/image"@,
        "/file"@ != "/audio"@,
{
    lemma_words();
    lemma_words_differ("/image"@, "/exit"@);
    lemma_words_differ("/image"@, "/quit"@);
    lemma_words_differ("/image"@, "/help"@);
    lemma_words_differ("/image"@, "/info"@);
    lemma_words_differ("/image"@, "/think"@);
    lemma_words_differ("/image"@, "/nothink"@);
    lemma_words_differ("/image"@, "/clear"@);
    lemma_words_differ("/image"@, "/model"@);
    lemma_words_differ("/audio"@, "/exit"@);
    lemma_words_differ("/audio"@, "/quit"@);
    lemma_words_differ("/audio"@, "/help"@);
    lemma_words_differ("/audio"@, "/info"@);
    lemma_words_differ("/audio"@, "/think"@);
    lemma_words_differ("/audio"@, "/nothink"@);
    lemma_words_differ("/audio"@, "/clear"@);
    lemma_words_differ("/audio"@, "/model"@);
    lemma_words_differ("/audio"@, "/image"@);
    lemma_words_differ("/file"@, "/exit"@);
    lemma_words_differ("/file"@, "/quit"@);
    lemma_words_differ("/file"@, "/help"@);
    lemma_words_differ("/file"@, "/info"@);
    lemma_words_differ("/file"@, "/think"@);
    lemma_words_differ("/file"@, "/nothink"@);
    lemma_words_differ("/file"@, "/clear"@);
    lemma_words_differ("/file"@, "/model"@);
    lemma_words_differ("/file"@, "/image"@);
    lemma_words_differ("/file"@, "/audio"@);
}

/// The commands that attach, by their names, on a model that takes such files.
proof fn lemma_attach_command(s: SessionView, kind: MediaKind, arg: Seq<char>)
    requires
        takes(s, kind),
        arg.len() > 0,
    ensures
        command(s, attach_word(kind), arg) == (
            s,
            ActionView::Attach(kind, media_arg(arg).0, media_arg(arg).1),
        ),
{
    lemma_words_apart();
}

/// A line that is one of the three commands that attach, a space, a path in quotes and a rest attaches
/// the file at exactly that path, and sends the rest, without the white space at its ends, as a
/// message, where it is not blank. So does the entered line, where the letters of the command are as
/// they are in lower case.
pub proof fn law_attach_line(
    s: SessionView,
    kind: MediaKind,
    quote: char,
    path: Seq<char>,
    rest: Seq<char>,
)
    requires
        takes(s, kind),
        quote == '\'' || quote == '"',
        !path.contains(quote),
    ensures
        ({
            let line = attach_word(kind) + seq![' '] + (seq![quote] + path + seq![quote] + rest);
            let msg = if text::trimmed(rest).len() == 0 {
                None
            } else {
                Some(text::trimmed(rest))
            };
            &&& command_word(line) == attach_word(kind)
            &&& command(s, attach_word(kind), command_arg(line)) == (
                s,
                ActionView::Attach(kind, path, msg),
            )
            &&& text::lowercase(attach_word(kind)) == attach_word(kind) ==> turn(
                s,
                LineResultView::Line(line),
            ) == (s, ActionView::Attach(kind, path, msg))
        }),
{
    let word = attach_word(kind);
    let bare = seq![quote] + path + seq![quote];
    let back = text::trimmed_back(rest);
    let line = word + seq![' '] + (bare + rest);
    lemma_attach_words(kind);
    law_command_line_splits(word, bare + rest);
    lemma_trimmed_arg(bare, rest);
    lemma_attach_command(s, kind, bare + back);
    law_quoted_path(quote, path, back);
    assert(text::trimmed(back) == text::trimmed(rest)) by {
        lemma_trimmed_ends(rest);
    }
    // the entered line loses the white space at its back
    let t = word + seq![' '] + (bare + back);
    let front = word + seq![' '] + bare;
    assert(line == front + rest);
    assert(t == front + back);
    lemma_trimmed_arg(front, rest);
    assert(text::trimmed(line) == t);
    assert(t[0] == '/');
    law_command_line_splits(word, bare + back);
    lemma_trimmed_arg(bare, back);
    lemma_trimmed_back_twice(rest);
}

/// An argument without a quote at its front attaches the file at all of it.
pub proof fn law_attach_bare_path(s: SessionView, kind: MediaKind, path: Seq<char>)
    requires
        takes(s, kind),
        path.len() > 0,
        !text::white_space(path[0]),
        !text::white_space(path.last()),
        path[0] != '\'' && path[0] != '"',
    ensures
        command(s, attach_word(kind), path) == (s, ActionView::Attach(kind, path, None)),
{
    lemma_attach_command(s, kind, path);
    lemma_trimmed_arg(path, Seq::empty());
    assert(path + Seq::<char>::empty() == path);
    assert(text::trimmed_back(Seq::<char>::empty()) == Seq::<char>::empty());
    law_bare_path(path);
}

/// Nothing is attached without a path, nor what the model does not take; and only these commands
/// attach anything, each its own kind of file.
pub proof fn law_what_is_attached(s: SessionView, cmd: Seq<char>, arg: Seq<char>)
    ensures
        command(s, cmd, arg).1 matches ActionView::Attach(kind, _, _) ==> takes(s, kind) && arg.len()
            > 0 && cmd == attach_word(kind) && command(s, cmd, arg).0 == s,
        forall|kind: MediaKind|
            !takes(s, kind) || arg.len() == 0 ==> command(s, #[trigger] attach_word(kind), arg).0
                == s && command(s, attach_word(kind), arg).1 is Print,
        command(s, cmd, arg).1 is ListModels ==> cmd == "/model"@ && arg.len() == 0,
        command(s, cmd, arg).1 is SwitchModel ==> cmd == "/model"@ && arg.len() > 0,
        !(command(s, cmd, arg).1 is Chat),
        !(command(s, cmd, arg).1 is Nothing),
{
    assert forall|kind: MediaKind| !takes(s, kind) || arg.len() == 0 implies command(
        s,
        #[trigger] attach_word(kind),
        arg,
    ).0 == s && command(s, attach_word(kind), arg).1 is Print by {
        lemma_words_apart();
    }
}

/// A session ends with `/exit` and `/quit`, and with no other command.
pub proof fn law_quitting(s: SessionView, cmd: Seq<char>, arg: Seq<char>)
    ensures
        command(s, cmd, arg).1 is Quit <==> cmd == "/exit"@ || cmd == "/quit"@,
        turn(s, LineResultView::Eof) == (s, ActionView::Quit),
        turn(s, LineResultView::Interrupted).0 == s,
        turn(s, LineResultView::Interrupted).1 is Print,
{
}

/// Thinking is on after `/think` exactly where it was or the model can think, and off after
/// `/nothink`; no other command changes it.
pub proof fn law_thinking_commands(s: SessionView, cmd: Seq<char>, arg: Seq<char>)
    ensures
        command(s, "/think"@, arg).0.think == (s.think || s.caps.think),
        !command(s, "/nothink"@, arg).0.think,
        cmd != "/think"@ && cmd != "/nothink"@ ==> command(s, cmd, arg).0.think == s.think,
        command(s, "/think"@, arg).1 == ActionView::Print(
            if s.caps.think {
                info_line("[think mode ON]"@)
            } else {
                warn_line("[warn] Current model does not support think mode."@)
            },
        ),
        command(s, "/nothink"@, arg).1 == ActionView::Print(info_line("[think mode OFF]"@)),
{
    lemma_words();
    lemma_words_differ("/think"@, "/exit"@);
    lemma_words_differ("/think"@, "/quit"@);
    lemma_words_differ("/think"@, "/help"@);
    lemma_words_differ("/think"@, "/info"@);
    lemma_words_differ("/nothink"@, "/exit"@);
    lemma_words_differ("/nothink"@, "/quit"@);
    lemma_words_differ("/nothink"@, "/help"@);
    lemma_words_differ("/nothink"@, "/info"@);
    lemma_words_differ("/nothink"@, "/think"@);
}

/// `/clear` forgets all that was said and all that is attached, keeps the model and whether it thinks,
/// and prints the header anew on a cleared screen.
pub proof fn law_clearing(s: SessionView, arg: Seq<char>)
    ensures
        ({
            let (t, a) = command(s, "/clear"@, arg);
            &&& t.history.len() == 0
            &&& t.pending.images.len() == 0
            &&& t.pending.text_chunks.len() == 0
            &&& t.model == s.model
            &&& t.caps == s.caps
            &&& t.think == s.think
            &&& a == ActionView::Print("\x1b[2J\x1b[H"@ + welcome_text(t))
        }),
{
    lemma_words();
    lemma_words_differ("/clear"@, "/exit"@);
    lemma_words_differ("/clear"@, "/quit"@);
    lemma_words_differ("/clear"@, "/help"@);
    lemma_words_differ("/clear"@, "/info"@);
    lemma_words_differ("/clear"@, "/think"@);
    lemma_words_differ("/clear"@, "/nothink"@);
}

/// `/model` lists the models, a number after it switches to the model at that place, and anything else
/// after it is refused; none of these changes the session.
pub proof fn law_model_command(s: SessionView, arg: Seq<char>, n: usize)
    ensures
        command(s, "/model"@, Seq::empty()) == (s, ActionView::ListModels),
        command(s, "/model"@, text::decimal(n as nat)) == (s, ActionView::SwitchModel(n)),
        command(s, "/model"@, arg).0 == s,
        forall|i: int|
            0 <= i < arg.len() && !('0' <= #[trigger] arg[i] <= '9') && !(i == 0 && arg[i] == '+')
                ==> command(s, "/model"@, arg).1 is Print,
{
    lemma_words();
    lemma_words_differ("/model"@, "/exit"@);
    lemma_words_differ("/model"@, "/quit"@);
    lemma_words_differ("/model"@, "/help"@);
    lemma_words_differ("/model"@, "/info"@);
    lemma_words_differ("/model"@, "/think"@);
    lemma_words_differ("/model"@, "/nothink"@);
    lemma_words_differ("/model"@, "/clear"@);
    text::law_decimal_reads_back(n);
    text::law_numbers(n, arg, 0);
}

/// A line that is not blank and does not begin with a slash is sent as a message, without the white
/// space at its ends; a blank one does nothing.
pub proof fn law_chat_line(s: SessionView, line: Seq<char>)
    ensures
        text::all_white(line) ==> turn(s, LineResultView::Line(line)) == (s, ActionView::Nothing),
        text::trimmed(line).len() > 0 && text::trimmed(line)[0] != '/' ==> turn(
            s,
            LineResultView::Line(line),
        ) == (s, ActionView::Chat(text::trimmed(line))),
        line.len() > 0 && !text::white_space(line[0]) && !text::white_space(line.last()) && line[0]
            != '/' ==> turn(s, LineResultView::Line(line)) == (s, ActionView::Chat(line)),
{
    if text::all_white(line) {
        text::law_trimming(line);
        if text::trimmed(line).len() > 0 {
            let (front, back) = choose|front: Seq<char>, back: Seq<char>|
                text::all_white(front) && text::all_white(back) && line == #[trigger] (front
                    + text::trimmed(line) + back);
            assert(line[front.len() as int] == text::trimmed(line)[0]);
        }
    }
    if line.len() > 0 && !text::white_space(line[0]) && !text::white_space(line.last()) {
        lemma_trimmed_arg(line, Seq::empty());
        assert(line + Seq::<char>::empty() == line);
        assert(text::trimmed_back(Seq::<char>::empty()) == Seq::<char>::empty());
    }
}

/// `/help` prints the help and `/info` what there is to say of the session, whatever follows them; a
/// word that begins as no command does is told back. None of these changes the session.
pub proof fn law_help_and_unknown(s: SessionView, cmd: Seq<char>, arg: Seq<char>)
    ensures
        command(s, "/help"@, arg) == (s, ActionView::Print(HELP@)),
        command(s, "/info"@, arg) == (s, ActionView::Print(info_text(s))),
        cmd.len() > 1 && cmd[1] != 'e' && cmd[1] != 'q' && cmd[1] != 'h' && cmd[1] != 'i' && cmd[1]
            != 't' && cmd[1] != 'n' && cmd[1] != 'c' && cmd[1] != 'm' && cmd[1] != 'a' && cmd[1]
            != 'f' ==> command(s, cmd, arg) == (
            s,
            ActionView::Print(error_line("Unknown command: "@ + cmd + "  (type /help)"@)),
        ),
{
    lemma_words();
    lemma_words_differ("/help"@, "/exit"@);
    lemma_words_differ("/help"@, "/quit"@);
    lemma_words_differ("/info"@, "/exit"@);
    lemma_words_differ("/info"@, "/quit"@);
    lemma_words_differ("/info"@, "/help"@);
}

// ── Models ───────────────────────────────────────────────────────────────────

/// A switch is made exactly where the number is that of a listed model and not of the current one, and
/// to that model; otherwise it is refused.
pub proof fn law_switching(s: SessionView, n: usize, names: Seq<Seq<char>>, reason: Seq<char>)
    ensures
        switch_plan(s, n, Ok(names)) is Switch <==> 1 <= n <= names.len() && names[n - 1] != s.model,
        switch_plan(s, n, Ok(names)) matches SwitchView::Switch(_, name) ==> name == names[n - 1]
            && name != s.model,
        switch_plan(s, n, Err(reason)) is Refuse,
{
}

/// The list of models has a row for each, in order, with its number, its name, its size and what it can
/// do; the current one alone is marked.
pub proof fn law_listed_rows(
    current: Seq<char>,
    models: Seq<(String, String)>,
    name: String,
    size: String,
)
    ensures
        marked_rows(current, Seq::empty()) == Seq::<char>::empty(),
        marked_rows(current, models.push((name, size))) == marked_rows(current, models) + (if name@
            == current {
            "  \x1b[32m*\x1b[0m "@
        } else {
            "    "@
        }) + model_row(models.len() + 1, name@, size@),
{
    let all = models.push((name, size));
    assert(all.drop_last() == models);
    reveal_strlit("  ");
    reveal_strlit(" ");
    reveal_strlit("    ");
    reveal_strlit("\x1b[32m*\x1b[0m");
    reveal_strlit("  \x1b[32m*\x1b[0m ");
    assert("  "@ + " "@ + " "@ == "    "@);
    assert("  "@ + "\x1b[32m*\x1b[0m"@ + " "@ == "  \x1b[32m*\x1b[0m "@);
    let rows = marked_rows(current, models);
    if name@ == current {
        assert(marked_rows(current, all) == rows + "  \x1b[32m*\x1b[0m "@ + model_row(
            models.len() + 1,
            name@,
            size@,
        ));
    } else {
        assert(marked_rows(current, all) == rows + "    "@ + model_row(
            models.len() + 1,
            name@,
            size@,
        ));
    }
}

/// A row of the list: the number, in two columns or as many as it has digits, at the right end of them;
/// behind a bracket the name, in forty columns or as many as it has characters, at the left end of
/// them; the size, in seven or as many as it takes, at the right end; and what the model can do in
/// brackets. Nothing of any of them is cut off.
pub proof fn law_model_row(number: nat, name: Seq<char>, size: Seq<char>)
    ensures
        ({
            let row = model_row(number, name, size);
            let caps = model_cap::description(model_cap::resolved(name));
            let digits = text::decimal(number);
            let a = if digits.len() < 2 {
                2
            } else {
                digits.len() as int
            };
            let b = a + 3 + (if name.len() < 40 {
                40
            } else {
                name.len() as int
            });
            let c = b + 2 + (if size.len() < 7 {
                7
            } else {
                size.len() as int
            });
            &&& row.len() == c + 5 + caps.len()
            &&& row.subrange(a - digits.len(), a) == digits
            &&& row[a] == ')'
            &&& row.subrange(a + 3, a + 3 + name.len()) == name
            &&& row.subrange(c - size.len(), c) == size
            &&& row[c + 2] == '['
            &&& row.subrange(c + 3, c + 3 + caps.len()) == caps
            &&& row[c + 3 + caps.len()] == ']'
            &&& row.last() == '\n'
        }),
{
    let digits = text::decimal(number);
    let caps = model_cap::description(model_cap::resolved(name));
    reveal_strlit(")  ");
    reveal_strlit("  ");
    reveal_strlit("  [");
    reveal_strlit("]\n");
    text::law_padding(digits, 2);
    text::law_padding(name, 40);
    text::law_padding(size, 7);
    let row = model_row(number, name, size);
    let p = text::padded_left(digits, 2);
    let q = text::padded_right(name, 40);
    let r = text::padded_left(size, 7);
    let a = p.len() as int;
    let b = a + 3 + q.len();
    let c = b + 2 + r.len();
    assert(row.subrange(a - digits.len(), a) == p.skip(a - digits.len()));
    assert(row.subrange(a + 3, a + 3 + name.len()) == q.take(name.len() as int));
    assert(row.subrange(c - size.len(), c) == r.skip(r.len() - size.len()));
    assert(row.subrange(c + 3, c + 3 + caps.len()) == caps);
}

// ── What is shown ────────────────────────────────────────────────────────────

/// What is said when the reading of a line is interrupted shows how to leave.
pub proof fn law_interrupt_shows_the_way_out(s: SessionView)
    ensures
        turn(s, LineResultView::Interrupted) == (s, ActionView::Print(interrupted_text())),
        screen::visible(interrupted_text()) == "^C — type /exit to quit.\n"@,
{
    reveal_strlit("^C — type /exit to quit.");
    reveal_strlit("^C — type /exit to quit.\n");
    assert(screen::no_escape("^C — type /exit to quit."@));
    law_lines_show_their_message("^C — type /exit to quit."@);
    assert("^C — type /exit to quit."@ + seq!['\n'] == "^C — type /exit to quit.\n"@);
}

/// The control sequences of colours that are written here show nothing.
proof fn lemma_colours()
    ensures
        screen::calm("\x1b[0m"@),
        screen::calm("\x1b[1m"@),
        screen::calm("\x1b[2m"@),
        screen::calm("\x1b[31m"@),
        screen::calm("\x1b[32m"@),
        screen::calm("\x1b[33m"@),
        screen::calm("\x1b[35m"@),
        screen::calm("\x1b[36m"@),
        screen::visible("\x1b[0m"@).len() == 0,
        screen::visible("\x1b[1m"@).len() == 0,
        screen::visible("\x1b[2m"@).len() == 0,
        screen::visible("\x1b[31m"@).len() == 0,
        screen::visible("\x1b[32m"@).len() == 0,
        screen::visible("\x1b[33m"@).len() == 0,
        screen::visible("\x1b[35m"@).len() == 0,
        screen::visible("\x1b[36m"@).len() == 0,
{
    let start = seq!['\u{1b}', '['];
    let end = seq!['m'];
    reveal_strlit("\x1b[0m");
    reveal_strlit("\x1b[1m");
    reveal_strlit("\x1b[2m");
    reveal_strlit("\x1b[31m");
    reveal_strlit("\x1b[32m");
    reveal_strlit("\x1b[33m");
    reveal_strlit("\x1b[35m");
    reveal_strlit("\x1b[36m");
    assert("\x1b[0m"@ == start + seq!['0'] + end);
    assert("\x1b[1m"@ == start + seq!['1'] + end);
    assert("\x1b[2m"@ == start + seq!['2'] + end);
    assert("\x1b[31m"@ == start + seq!['3', '1'] + end);
    assert("\x1b[32m"@ == start + seq!['3', '2'] + end);
    assert("\x1b[33m"@ == start + seq!['3', '3'] + end);
    assert("\x1b[35m"@ == start + seq!['3', '5'] + end);
    assert("\x1b[36m"@ == start + seq!['3', '6'] + end);
    screen::lemma_visible_colour(seq!['0']);
    screen::lemma_visible_colour(seq!['1']);
    screen::lemma_visible_colour(seq!['2']);
    screen::lemma_visible_colour(seq!['3', '1']);
    screen::lemma_visible_colour(seq!['3', '2']);
    screen::lemma_visible_colour(seq!['3', '3']);
    screen::lemma_visible_colour(seq!['3', '5']);
    screen::lemma_visible_colour(seq!['3', '6']);
}

/// What shows of an output with a colour and a text behind it, neither of which leaves a control
/// sequence open.
proof fn lemma_add_text(out: Seq<char>, shown: Seq<char>, colour: Seq<char>, t: Seq<char>)
    requires
        screen::run(screen::blank(), out).sequence is Outside,
        screen::visible(out) == shown,
        screen::calm(colour),
        screen::visible(colour).len() == 0,
        screen::no_escape(t),
    ensures
        screen::run(screen::blank(), out + colour + t).sequence is Outside,
        screen::visible(out + colour + t) == shown + t,
{
    screen::lemma_visible_concat(out, colour);
    screen::lemma_visible_text(t);
    screen::lemma_visible_concat(out + colour, t);
    assert(shown + screen::visible(colour) == shown);
}

proof fn lemma_nothing_written()
    ensures
        screen::run(screen::blank(), Seq::<char>::empty()).sequence is Outside,
        screen::visible(Seq::<char>::empty()) == Seq::<char>::empty(),
{
}

proof fn lemma_coloured_line(colour: Seq<char>, msg: Seq<char>)
    requires
        screen::calm(colour),
        screen::visible(colour).len() == 0,
        screen::no_escape(msg),
    ensures
        screen::visible(colour + msg + "\x1b[0m\n"@) == msg + seq!['\n'],
        screen::run(screen::blank(), colour + msg + "\x1b[0m\n"@).sequence is Outside,
{
    let none = Seq::<char>::empty();
    lemma_colours();
    lemma_nothing_written();
    reveal_strlit("\x1b[0m\n");
    reveal_strlit("\x1b[0m");
    assert("\x1b[0m\n"@ == "\x1b[0m"@ + seq!['\n']);
    lemma_add_text(none, none, colour, msg);
    assert(none + colour + msg == colour + msg);
    assert(none + msg == msg);
    lemma_add_text(colour + msg, msg, "\x1b[0m"@, seq!['\n']);
    assert(colour + msg + "\x1b[0m"@ + seq!['\n'] == colour + msg + "\x1b[0m\n"@);
}

/// A line of information, of warning or of an error shows its message and nothing else.
pub proof fn law_lines_show_their_message(msg: Seq<char>)
    requires
        screen::no_escape(msg),
    ensures
        screen::visible(info_line(msg)) == msg + seq!['\n'],
        screen::visible(warn_line(msg)) == msg + seq!['\n'],
        screen::visible(error_line(msg)) == msg + seq!['\n'],
{
    lemma_colours();
    lemma_coloured_line("\x1b[36m"@, msg);
    lemma_coloured_line("\x1b[33m"@, msg);
    lemma_coloured_line("\x1b[31m"@, msg);
}

/// Whether an output shows a text, and leaves no control sequence open.
spec fn shows_as(out: Seq<char>, shown: Seq<char>) -> bool {
    screen::run(screen::blank(), out).sequence is Outside && screen::visible(out) == shown
}

proof fn lemma_add(out: Seq<char>, shown: Seq<char>, more: Seq<char>, more_shown: Seq<char>)
    requires
        shows_as(out, shown),
        shows_as(more, more_shown),
    ensures
        shows_as(out + more, shown + more_shown),
{
    screen::lemma_visible_concat(out, more);
}

proof fn lemma_shows_text(t: Seq<char>)
    requires
        screen::no_escape(t),
    ensures
        shows_as(t, t),
{
    screen::lemma_visible_text(t);
}

proof fn lemma_prompt_pieces()
    ensures
        shows_as("\x1b[1m\x1b[32m"@, Seq::empty()),
        shows_as("\x1b[0m "@, seq![' ']),
        shows_as("\x1b[35m[think]\x1b[0m "@, seq!['[', 't', 'h', 'i', 'n', 'k', ']', ' ']),
        shows_as("\x1b[1m>\x1b[0m "@, seq!['>', ' ']),
        screen::calm("\x1b[1m\x1b[32m"@),
        screen::calm("\x1b[0m "@),
        screen::calm("\x1b[35m[think]\x1b[0m "@),
        screen::calm("\x1b[1m>\x1b[0m "@),
{
    let none = Seq::<char>::empty();
    let space = seq![' '];
    let think = seq!['[', 't', 'h', 'i', 'n', 'k', ']'];
    let mark = seq!['>'];
    lemma_colours();
    reveal_strlit("\x1b[0m");
    reveal_strlit("\x1b[1m");
    reveal_strlit("\x1b[32m");
    reveal_strlit("\x1b[35m");
    reveal_strlit("\x1b[1m\x1b[32m");
    reveal_strlit("\x1b[0m ");
    reveal_strlit("\x1b[35m[think]\x1b[0m ");
    reveal_strlit("\x1b[1m>\x1b[0m ");
    screen::lemma_calm_text(space);
    screen::lemma_calm_text(think);
    screen::lemma_calm_text(mark);
    screen::lemma_visible_text(space);
    assert("\x1b[1m\x1b[32m"@ == "\x1b[1m"@ + "\x1b[32m"@);
    screen::lemma_calm_concat("\x1b[1m"@, "\x1b[32m"@);
    screen::lemma_visible_concat("\x1b[1m"@, "\x1b[32m"@);
    assert(screen::visible("\x1b[1m\x1b[32m"@) == none);
    assert("\x1b[0m "@ == "\x1b[0m"@ + space);
    screen::lemma_calm_concat("\x1b[0m"@, space);
    screen::lemma_visible_concat("\x1b[0m"@, space);
    assert(screen::visible("\x1b[0m "@) == space);
    assert("\x1b[35m[think]\x1b[0m "@ == "\x1b[35m"@ + think + "\x1b[0m "@);
    screen::lemma_calm_concat("\x1b[35m"@, think);
    screen::lemma_calm_concat("\x1b[35m"@ + think, "\x1b[0m "@);
    screen::lemma_visible_text(think);
    screen::lemma_visible_concat("\x1b[35m"@, think);
    screen::lemma_visible_concat("\x1b[35m"@ + think, "\x1b[0m "@);
    assert(screen::visible("\x1b[35m[think]\x1b[0m "@) == seq![
        '[',
        't',
        'h',
        'i',
        'n',
        'k',
        ']',
        ' ',
    ]);
    assert("\x1b[1m>\x1b[0m "@ == "\x1b[1m"@ + mark + "\x1b[0m "@);
    screen::lemma_calm_concat("\x1b[1m"@, mark);
    screen::lemma_calm_concat("\x1b[1m"@ + mark, "\x1b[0m "@);
    screen::lemma_visible_text(mark);
    screen::lemma_visible_concat("\x1b[1m"@, mark);
    screen::lemma_visible_concat("\x1b[1m"@ + mark, "\x1b[0m "@);
    assert(screen::visible("\x1b[1m>\x1b[0m "@) == seq!['>', ' ']);
}

/// The prompt shows the model, whether it thinks, and a `>`, on one line and in its colours, which move
/// the cursor nowhere.
pub proof fn law_prompt_shows_the_model(s: SessionView)
    requires
        forall|i: int| 0 <= i < s.model.len() ==> crate::input::printable(#[trigger] s.model[i]),
    ensures
        s.think ==> screen::visible(prompt_text(s)) == s.model + seq![' '] + seq![
            '[',
            't',
            'h',
            'i',
            'n',
            'k',
            ']',
            ' ',
        ] + seq!['>', ' '],
        !s.think ==> screen::visible(prompt_text(s)) == s.model + seq![' '] + seq!['>', ' '],
        screen::calm(prompt_text(s)),
{
    let none = Seq::<char>::empty();
    let m = s.model;
    let think = seq!['[', 't', 'h', 'i', 'n', 'k', ']', ' '];
    lemma_prompt_pieces();
    screen::lemma_calm_text(m);
    lemma_shows_text(m);
    let o1 = "\x1b[1m\x1b[32m"@ + m;
    lemma_add("\x1b[1m\x1b[32m"@, none, m, m);
    screen::lemma_calm_concat("\x1b[1m\x1b[32m"@, m);
    assert(none + m == m);
    let o2 = o1 + "\x1b[0m "@;
    lemma_add(o1, m, "\x1b[0m "@, seq![' ']);
    screen::lemma_calm_concat(o1, "\x1b[0m "@);
    let v2 = m + seq![' '];
    if s.think {
        let o3 = o2 + "\x1b[35m[think]\x1b[0m "@;
        lemma_add(o2, v2, "\x1b[35m[think]\x1b[0m "@, think);
        screen::lemma_calm_concat(o2, "\x1b[35m[think]\x1b[0m "@);
        lemma_add(o3, v2 + think, "\x1b[1m>\x1b[0m "@, seq!['>', ' ']);
        screen::lemma_calm_concat(o3, "\x1b[1m>\x1b[0m "@);
    } else {
        lemma_add(o2, v2, "\x1b[1m>\x1b[0m "@, seq!['>', ' ']);
        screen::lemma_calm_concat(o2, "\x1b[1m>\x1b[0m "@);
        assert(o2 + none == o2);
    }
}

/// The number of a text's messages, and what it can do, are told without control sequences.
proof fn lemma_no_escapes(s: SessionView)
    ensures
        screen::no_escape(model_cap::description(s.caps)),
        screen::no_escape(text::decimal(s.history.len())),
{
    reveal_strlit("text");
    reveal_strlit(", image");
    reveal_strlit(", audio");
    reveal_strlit(", think");
    let none = Seq::<char>::empty();
    let a = if s.caps.image {
        ", image"@
    } else {
        none
    };
    let b = if s.caps.audio {
        ", audio"@
    } else {
        none
    };
    let c = if s.caps.think {
        ", think"@
    } else {
        none
    };
    assert(screen::no_escape("text"@));
    assert(screen::no_escape(", image"@));
    assert(screen::no_escape(", audio"@));
    assert(screen::no_escape(", think"@));
    screen::lemma_no_escape_concat("text"@, a);
    screen::lemma_no_escape_concat("text"@ + a, b);
    screen::lemma_no_escape_concat("text"@ + a + b, c);
    text::lemma_decimal(s.history.len());
    let d = text::decimal(s.history.len());
    assert forall|i: int| 0 <= i < d.len() implies (#[trigger] d[i]) != '\u{1b}' by {
        assert(text::is_digit(d[i]));
    }
}

proof fn lemma_header_front()
    ensures
        shows_as("\n\x1b[1mllmcli\x1b[0m v"@, "\nllmcli v"@),
{
    lemma_colours();
    reveal_strlit(" v");
    reveal_strlit("\n");
    reveal_strlit("\n\x1b[1mllmcli\x1b[0m v");
    reveal_strlit("\nllmcli v");
    reveal_strlit("\x1b[0m");
    reveal_strlit("\x1b[1m");
    reveal_strlit("llmcli");
    assert(screen::no_escape("\n"@));
    screen::lemma_visible_text("\n"@);
    assert(screen::no_escape("llmcli"@));
    lemma_add_text("\n"@, "\n"@, "\x1b[1m"@, "llmcli"@);
    assert(screen::no_escape(" v"@));
    lemma_add_text("\n"@ + "\x1b[1m"@ + "llmcli"@, "\n"@ + "llmcli"@, "\x1b[0m"@, " v"@);
    assert("\n"@ + "\x1b[1m"@ + "llmcli"@ + "\x1b[0m"@ + " v"@ == "\n\x1b[1mllmcli\x1b[0m v"@);
    assert("\n"@ + "llmcli"@ + " v"@ == "\nllmcli v"@);
}

proof fn lemma_header_model()
    ensures
        shows_as("  — Ollama frontend\nmodel : \x1b[32m"@, "  — Ollama frontend\nmodel : "@),
{
    lemma_colours();
    reveal_strlit("");
    reveal_strlit("  — Ollama frontend\nmodel : ");
    reveal_strlit("  — Ollama frontend\nmodel : \x1b[32m");
    reveal_strlit("\x1b[32m");
    assert(screen::no_escape("  — Ollama frontend\nmodel : "@));
    screen::lemma_visible_text("  — Ollama frontend\nmodel : "@);
    assert(screen::no_escape(""@));
    lemma_add_text("  — Ollama frontend\nmodel : "@, "  — Ollama frontend\nmodel : "@, "\x1b[32m"@, ""@);
    assert("  — Ollama frontend\nmodel : "@ + "\x1b[32m"@ + ""@ == "  — Ollama frontend\nmodel : \x1b[32m"@);
    assert("  — Ollama frontend\nmodel : "@ + ""@ == "  — Ollama frontend\nmodel : "@);
}

proof fn lemma_header_caps()
    ensures
        shows_as("\x1b[0m\ncaps  : "@, "\ncaps  : "@),
{
    lemma_colours();
    reveal_strlit("");
    reveal_strlit("\ncaps  : ");
    reveal_strlit("\x1b[0m");
    reveal_strlit("\x1b[0m\ncaps  : ");
    assert(screen::no_escape(""@));
    screen::lemma_visible_text(""@);
    assert(screen::no_escape("\ncaps  : "@));
    lemma_add_text(""@, ""@, "\x1b[0m"@, "\ncaps  : "@);
    assert(""@ + "\x1b[0m"@ + "\ncaps  : "@ == "\x1b[0m\ncaps  : "@);
    assert(""@ + "\ncaps  : "@ == "\ncaps  : "@);
}

proof fn lemma_header_back()
    ensures
        shows_as("\ntype  \x1b[36m/help\x1b[0m for commands\n\n"@, "\ntype  /help for commands\n\n"@),
{
    lemma_colours();
    reveal_strlit(" for commands\n\n");
    reveal_strlit("/help");
    reveal_strlit("\ntype  ");
    reveal_strlit("\ntype  /help for commands\n\n");
    reveal_strlit("\ntype  \x1b[36m/help\x1b[0m for commands\n\n");
    reveal_strlit("\x1b[0m");
    reveal_strlit("\x1b[36m");
    assert(screen::no_escape("\ntype  "@));
    screen::lemma_visible_text("\ntype  "@);
    assert(screen::no_escape("/help"@));
    lemma_add_text("\ntype  "@, "\ntype  "@, "\x1b[36m"@, "/help"@);
    assert(screen::no_escape(" for commands\n\n"@));
    lemma_add_text("\ntype  "@ + "\x1b[36m"@ + "/help"@, "\ntype  "@ + "/help"@, "\x1b[0m"@, " for commands\n\n"@);
    assert("\ntype  "@ + "\x1b[36m"@ + "/help"@ + "\x1b[0m"@ + " for commands\n\n"@ == "\ntype  \x1b[36m/help\x1b[0m for commands\n\n"@);
    assert("\ntype  "@ + "/help"@ + " for commands\n\n"@ == "\ntype  /help for commands\n\n"@);
}

/// The header shows the version, the model and what it can do.
pub proof fn law_header_shows_the_session(s: SessionView)
    requires
        screen::no_escape(s.version),
        screen::no_escape(s.model),
    ensures
        screen::visible(welcome_text(s)) == "\nllmcli v"@ + s.version
            + "  — Ollama frontend\nmodel : "@ + s.model + "\ncaps  : "@ + model_cap::description(
            s.caps,
        ) + "\ntype  /help for commands\n\n"@,
{
    let desc = model_cap::description(s.caps);
    lemma_no_escapes(s);
    lemma_header_front();
    lemma_header_model();
    lemma_header_caps();
    lemma_header_back();
    lemma_shows_text(s.version);
    lemma_shows_text(s.model);
    lemma_shows_text(desc);
    lemma_add(
        "\n\x1b[1mllmcli\x1b[0m v"@,
        "\nllmcli v"@,
        s.version,
        s.version,
    );
    lemma_add(
        "\n\x1b[1mllmcli\x1b[0m v"@ + s.version,
        "\nllmcli v"@ + s.version,
        "  — Ollama frontend\nmodel : \x1b[32m"@,
        "  — Ollama frontend\nmodel : "@,
    );
    lemma_add(
        "\n\x1b[1mllmcli\x1b[0m v"@ + s.version + "  — Ollama frontend\nmodel : \x1b[32m"@,
        "\nllmcli v"@ + s.version + "  — Ollama frontend\nmodel : "@,
        s.model,
        s.model,
    );
    lemma_add(
        "\n\x1b[1mllmcli\x1b[0m v"@ + s.version + "  — Ollama frontend\nmodel : \x1b[32m"@ + s.model,
        "\nllmcli v"@ + s.version + "  — Ollama frontend\nmodel : "@ + s.model,
        "\x1b[0m\ncaps  : "@,
        "\ncaps  : "@,
    );
    lemma_add(
        "\n\x1b[1mllmcli\x1b[0m v"@ + s.version + "  — Ollama frontend\nmodel : \x1b[32m"@ + s.model + "\x1b[0m\ncaps  : "@,
        "\nllmcli v"@ + s.version + "  — Ollama frontend\nmodel : "@ + s.model + "\ncaps  : "@,
        desc,
        desc,
    );
    lemma_add(
        "\n\x1b[1mllmcli\x1b[0m v"@ + s.version + "  — Ollama frontend\nmodel : \x1b[32m"@ + s.model + "\x1b[0m\ncaps  : "@ + desc,
        "\nllmcli v"@ + s.version + "  — Ollama frontend\nmodel : "@ + s.model + "\ncaps  : "@ + desc,
        "\ntype  \x1b[36m/help\x1b[0m for commands\n\n"@,
        "\ntype  /help for commands\n\n"@,
    );
}

proof fn lemma_info_model()
    ensures
        shows_as("\n\x1b[1mModel :\x1b[0m \x1b[32m"@, "\nModel : "@),
{
    lemma_colours();
    reveal_strlit("");
    reveal_strlit(" ");
    reveal_strlit("Model :");
    reveal_strlit("\n");
    reveal_strlit("\nModel : ");
    reveal_strlit("\n\x1b[1mModel :\x1b[0m \x1b[32m");
    reveal_strlit("\x1b[0m");
    reveal_strlit("\x1b[1m");
    reveal_strlit("\x1b[32m");
    assert(screen::no_escape("\n"@));
    screen::lemma_visible_text("\n"@);
    assert(screen::no_escape("Model :"@));
    lemma_add_text("\n"@, "\n"@, "\x1b[1m"@, "Model :"@);
    assert(screen::no_escape(" "@));
    lemma_add_text("\n"@ + "\x1b[1m"@ + "Model :"@, "\n"@ + "Model :"@, "\x1b[0m"@, " "@);
    assert(screen::no_escape(""@));
    lemma_add_text("\n"@ + "\x1b[1m"@ + "Model :"@ + "\x1b[0m"@ + " "@, "\n"@ + "Model :"@ + " "@, "\x1b[32m"@, ""@);
    assert("\n"@ + "\x1b[1m"@ + "Model :"@ + "\x1b[0m"@ + " "@ + "\x1b[32m"@ + ""@ == "\n\x1b[1mModel :\x1b[0m \x1b[32m"@);
    assert("\n"@ + "Model :"@ + " "@ + ""@ == "\nModel : "@);
}

proof fn lemma_info_caps()
    ensures
        shows_as("\x1b[0m\n\x1b[1mCaps  :\x1b[0m "@, "\nCaps  : "@),
{
    lemma_colours();
    reveal_strlit("");
    reveal_strlit(" ");
    reveal_strlit("Caps  :");
    reveal_strlit("\n");
    reveal_strlit("\nCaps  : ");
    reveal_strlit("\x1b[0m");
    reveal_strlit("\x1b[0m\n\x1b[1mCaps  :\x1b[0m ");
    reveal_strlit("\x1b[1m");
    assert(screen::no_escape(""@));
    screen::lemma_visible_text(""@);
    assert(screen::no_escape("\n"@));
    lemma_add_text(""@, ""@, "\x1b[0m"@, "\n"@);
    assert(screen::no_escape("Caps  :"@));
    lemma_add_text(""@ + "\x1b[0m"@ + "\n"@, ""@ + "\n"@, "\x1b[1m"@, "Caps  :"@);
    assert(screen::no_escape(" "@));
    lemma_add_text(""@ + "\x1b[0m"@ + "\n"@ + "\x1b[1m"@ + "Caps  :"@, ""@ + "\n"@ + "Caps  :"@, "\x1b[0m"@, " "@);
    assert(""@ + "\x1b[0m"@ + "\n"@ + "\x1b[1m"@ + "Caps  :"@ + "\x1b[0m"@ + " "@ == "\x1b[0m\n\x1b[1mCaps  :\x1b[0m "@);
    assert(""@ + "\n"@ + "Caps  :"@ + " "@ == "\nCaps  : "@);
}

proof fn lemma_info_think()
    ensures
        shows_as("\n\x1b[1mThink :\x1b[0m "@, "\nThink : "@),
{
    lemma_colours();
    reveal_strlit(" ");
    reveal_strlit("Think :");
    reveal_strlit("\n");
    reveal_strlit("\nThink : ");
    reveal_strlit("\n\x1b[1mThink :\x1b[0m ");
    reveal_strlit("\x1b[0m");
    reveal_strlit("\x1b[1m");
    assert(screen::no_escape("\n"@));
    screen::lemma_visible_text("\n"@);
    assert(screen::no_escape("Think :"@));
    lemma_add_text("\n"@, "\n"@, "\x1b[1m"@, "Think :"@);
    assert(screen::no_escape(" "@));
    lemma_add_text("\n"@ + "\x1b[1m"@ + "Think :"@, "\n"@ + "Think :"@, "\x1b[0m"@, " "@);
    assert("\n"@ + "\x1b[1m"@ + "Think :"@ + "\x1b[0m"@ + " "@ == "\n\x1b[1mThink :\x1b[0m "@);
    assert("\n"@ + "Think :"@ + " "@ == "\nThink : "@);
}

proof fn lemma_info_history()
    ensures
        shows_as("\n\x1b[1mHistory:\x1b[0m "@, "\nHistory: "@),
{
    lemma_colours();
    reveal_strlit(" ");
    reveal_strlit("History:");
    reveal_strlit("\n");
    reveal_strlit("\nHistory: ");
    reveal_strlit("\n\x1b[1mHistory:\x1b[0m ");
    reveal_strlit("\x1b[0m");
    reveal_strlit("\x1b[1m");
    assert(screen::no_escape("\n"@));
    screen::lemma_visible_text("\n"@);
    assert(screen::no_escape("History:"@));
    lemma_add_text("\n"@, "\n"@, "\x1b[1m"@, "History:"@);
    assert(screen::no_escape(" "@));
    lemma_add_text("\n"@ + "\x1b[1m"@ + "History:"@, "\n"@ + "History:"@, "\x1b[0m"@, " "@);
    assert("\n"@ + "\x1b[1m"@ + "History:"@ + "\x1b[0m"@ + " "@ == "\n\x1b[1mHistory:\x1b[0m "@);
    assert("\n"@ + "History:"@ + " "@ == "\nHistory: "@);
}

/// What `/info` prints shows the model, what it can do, whether it thinks, and how many messages there
/// are.
pub proof fn law_info_shows_the_session(s: SessionView)
    requires
        screen::no_escape(s.model),
    ensures
        screen::visible(info_text(s)) == "\nModel : "@ + s.model + "\nCaps  : "@
            + model_cap::description(s.caps) + "\nThink : "@ + (if s.think {
            "ON"@
        } else {
            "OFF"@
        }) + "\nHistory: "@ + text::decimal(s.history.len()) + " messages\n\n"@,
{
    let desc = model_cap::description(s.caps);
    let count = text::decimal(s.history.len());
    let on = if s.think {
        "ON"@
    } else {
        "OFF"@
    };
    lemma_no_escapes(s);
    lemma_info_model();
    lemma_info_caps();
    lemma_info_think();
    lemma_info_history();
    lemma_shows_text(s.model);
    lemma_shows_text(desc);
    assert(shows_as(on, on)) by {
        reveal_strlit("ON");
        reveal_strlit("OFF");
        assert(screen::no_escape(on));
        lemma_shows_text(on);
    }
    lemma_shows_text(count);
    assert(shows_as(" messages\n\n"@, " messages\n\n"@)) by {
        reveal_strlit(" messages\n\n");
        assert(screen::no_escape(" messages\n\n"@));
        lemma_shows_text(" messages\n\n"@);
    }
    lemma_add(
        "\n\x1b[1mModel :\x1b[0m \x1b[32m"@,
        "\nModel : "@,
        s.model,
        s.model,
    );
    lemma_add(
        "\n\x1b[1mModel :\x1b[0m \x1b[32m"@ + s.model,
        "\nModel : "@ + s.model,
        "\x1b[0m\n\x1b[1mCaps  :\x1b[0m "@,
        "\nCaps  : "@,
    );
    lemma_add(
        "\n\x1b[1mModel :\x1b[0m \x1b[32m"@ + s.model + "\x1b[0m\n\x1b[1mCaps  :\x1b[0m "@,
        "\nModel : "@ + s.model + "\nCaps  : "@,
        desc,
        desc,
    );
    lemma_add(
        "\n\x1b[1mModel :\x1b[0m \x1b[32m"@ + s.model + "\x1b[0m\n\x1b[1mCaps  :\x1b[0m "@ + desc,
        "\nModel : "@ + s.model + "\nCaps  : "@ + desc,
        "\n\x1b[1mThink :\x1b[0m "@,
        "\nThink : "@,
    );
    lemma_add(
        "\n\x1b[1mModel :\x1b[0m \x1b[32m"@ + s.model + "\x1b[0m\n\x1b[1mCaps  :\x1b[0m "@ + desc + "\n\x1b[1mThink :\x1b[0m "@,
        "\nModel : "@ + s.model + "\nCaps  : "@ + desc + "\nThink : "@,
        on,
        on,
    );
    lemma_add(
        "\n\x1b[1mModel :\x1b[0m \x1b[32m"@ + s.model + "\x1b[0m\n\x1b[1mCaps  :\x1b[0m "@ + desc + "\n\x1b[1mThink :\x1b[0m "@ + on,
        "\nModel : "@ + s.model + "\nCaps  : "@ + desc + "\nThink : "@ + on,
        "\n\x1b[1mHistory:\x1b[0m "@,
        "\nHistory: "@,
    );
    lemma_add(
        "\n\x1b[1mModel :\x1b[0m \x1b[32m"@ + s.model + "\x1b[0m\n\x1b[1mCaps  :\x1b[0m "@ + desc + "\n\x1b[1mThink :\x1b[0m "@ + on + "\n\x1b[1mHistory:\x1b[0m "@,
        "\nModel : "@ + s.model + "\nCaps  : "@ + desc + "\nThink : "@ + on + "\nHistory: "@,
        count,
        count,
    );
    lemma_add(
        "\n\x1b[1mModel :\x1b[0m \x1b[32m"@ + s.model + "\x1b[0m\n\x1b[1mCaps  :\x1b[0m "@ + desc + "\n\x1b[1mThink :\x1b[0m "@ + on + "\n\x1b[1mHistory:\x1b[0m "@ + count,
        "\nModel : "@ + s.model + "\nCaps  : "@ + desc + "\nThink : "@ + on + "\nHistory: "@ + count,
        " messages\n\n"@,
        " messages\n\n"@,
    );
}

/// What is said of an attached file, of a failure, of a switch and of the end of a reply shows what it
/// is said of; a reply that came whole is followed by a line feed alone.
pub proof fn law_reports_show_their_subject(
    s: SessionView,
    kind: Seq<char>,
    path: Seq<char>,
    reason: Seq<char>,
)
    requires
        screen::no_escape(kind),
        screen::no_escape(path),
        screen::no_escape(reason),
    ensures
        screen::visible(attached_text(kind, path)) == "["@ + kind + " attached: "@ + path + "]\n"@,
        screen::visible(failed_text(reason)) == "[error] "@ + reason + seq!['\n'],
        screen::visible(switched_text(path)) == "[switched to "@ + path + "  caps: "@
            + model_cap::description(model_cap::resolved(path)) + "]\n"@,
        unloading_text(path) == "[unloading "@ + path + "...]"@,
        chat_ended_text(false, Ok(reason)) == seq!['\n'],
        screen::visible(chat_ended_text(true, Ok(reason))) == "\n[interrupted]\n"@,
        screen::visible(chat_ended_text(true, Err(reason))) == "\n[interrupted]\n"@,
        screen::visible(chat_ended_text(false, Err(reason))) == "\n[error] "@ + reason + seq!['\n'],
{
    reveal_strlit("[");
    reveal_strlit(" attached: ");
    reveal_strlit("]");
    reveal_strlit("]\n");
    reveal_strlit("[error] ");
    reveal_strlit("[switched to ");
    reveal_strlit("  caps: ");
    reveal_strlit("\n");
    reveal_strlit("[interrupted]");
    reveal_strlit("\n[interrupted]\n");
    reveal_strlit("\n[error] ");
    lemma_no_escapes((SessionView { caps: model_cap::resolved(path), ..s }));
    let desc = model_cap::description(model_cap::resolved(path));
    assert(screen::no_escape("["@));
    assert(screen::no_escape(" attached: "@));
    assert(screen::no_escape("]"@));
    assert(screen::no_escape("[error] "@));
    assert(screen::no_escape("[switched to "@));
    assert(screen::no_escape("  caps: "@));
    assert(screen::no_escape("[interrupted]"@));
    assert(screen::no_escape("\n"@));
    screen::lemma_no_escape_concat("["@, kind);
    screen::lemma_no_escape_concat("["@ + kind, " attached: "@);
    screen::lemma_no_escape_concat("["@ + kind + " attached: "@, path);
    screen::lemma_no_escape_concat("["@ + kind + " attached: "@ + path, "]"@);
    let a = "["@ + kind + " attached: "@ + path + "]"@;
    law_lines_show_their_message(a);
    assert(a + seq!['\n'] == "["@ + kind + " attached: "@ + path + "]\n"@);
    screen::lemma_no_escape_concat("[error] "@, reason);
    law_lines_show_their_message("[error] "@ + reason);
    screen::lemma_no_escape_concat("[switched to "@, path);
    screen::lemma_no_escape_concat("[switched to "@ + path, "  caps: "@);
    screen::lemma_no_escape_concat("[switched to "@ + path + "  caps: "@, desc);
    screen::lemma_no_escape_concat("[switched to "@ + path + "  caps: "@ + desc, "]"@);
    let w = "[switched to "@ + path + "  caps: "@ + desc + "]"@;
    law_lines_show_their_message(w);
    assert(w + seq!['\n'] == "[switched to "@ + path + "  caps: "@ + desc + "]\n"@);
    law_lines_show_their_message("[interrupted]"@);
    screen::lemma_visible_text("\n"@);
    screen::lemma_visible_concat("\n"@, warn_line("[interrupted]"@));
    screen::lemma_visible_concat("\n"@, failed_text(reason));
    assert("\n"@ + ("[interrupted]"@ + seq!['\n']) == "\n[interrupted]\n"@);
    assert("\n"@ + ("[error] "@ + reason + seq!['\n']) == "\n[error] "@ + reason + seq!['\n']);
    assert(chat_ended_text(false, Ok(reason)) == seq!['\n']);
}

// ── What attaching does ──────────────────────────────────────────────────────

/// A file that cannot be read, or is not of the kind, changes nothing, and that is said. One that is adds
/// all of its bytes, in base64, or all of its text, to what is attached, behind the rest, and no more;
/// and nothing that was said is touched.
pub proof fn law_attaching(s: SessionView, path: Seq<char>, bytes: Seq<u8>, contents: Seq<char>)
    ensures
        image_attached(s, path, None).0 == s,
        audio_attached(s, path, None).0 == s,
        file_attached(s, path, true, None).0 == s,
        file_attached(s, path, false, Some(contents)).0 == s,
        media::image_magic(bytes) ==> image_attached(s, path, Some(bytes)).0.pending.images
            == s.pending.images + seq![media::base64_standard(bytes)],
        media::audio_magic(bytes) is Some ==> audio_attached(s, path, Some(bytes)).0.pending.images
            == s.pending.images + seq![media::base64_standard(bytes)],
        image_attached(s, path, Some(bytes)).0.pending.images == s.pending.images || image_attached(
            s,
            path,
            Some(bytes),
        ).0.pending.images == s.pending.images + seq![media::base64_standard(bytes)],
        audio_attached(s, path, Some(bytes)).0.pending.images == s.pending.images || audio_attached(
            s,
            path,
            Some(bytes),
        ).0.pending.images == s.pending.images + seq![media::base64_standard(bytes)],
        file_attached(s, path, true, Some(contents)).0.pending.text_chunks == s.pending.text_chunks
            + seq![file_block(path, contents)],
        image_attached(s, path, Some(bytes)).0.pending.text_chunks == s.pending.text_chunks,
        audio_attached(s, path, Some(bytes)).0.pending.text_chunks == s.pending.text_chunks,
        file_attached(s, path, true, Some(contents)).0.pending.images == s.pending.images,
        image_attached(s, path, Some(bytes)).0.history == s.history,
        audio_attached(s, path, Some(bytes)).0.history == s.history,
        file_attached(s, path, true, Some(contents)).0.history == s.history,
        image_attached(s, path, Some(bytes)).0.model == s.model,
        audio_attached(s, path, Some(bytes)).0.model == s.model,
        file_attached(s, path, true, Some(contents)).0.model == s.model,
        image_attached(s, path, Some(bytes)).0.think == s.think,
        audio_attached(s, path, Some(bytes)).0.think == s.think,
        file_attached(s, path, true, Some(contents)).0.think == s.think,
{
    law_attaching_adds_one(s, media::base64_standard(bytes), Seq::empty());
    law_attaching_adds_one(s, file_block(path, contents), Seq::empty());
}

/// What attaching prints shows which file was attached, and as what, exactly where one more is attached;
/// otherwise it shows that there was an error.
pub proof fn law_attaching_is_reported(s: SessionView, path: Seq<char>, bytes: Seq<u8>, c: Seq<char>)
    requires
        screen::no_escape(path),
    ensures
        image_attached(s, path, Some(bytes)).0 != s ==> screen::visible(
            image_attached(s, path, Some(bytes)).1,
        ) == "[image attached: "@ + path + "]\n"@,
        audio_attached(s, path, Some(bytes)).0 != s ==> screen::visible(
            audio_attached(s, path, Some(bytes)).1,
        ) == "[audio attached: "@ + path + "]\n"@,
        screen::visible(file_attached(s, path, true, Some(c)).1) == "[file attached: "@ + path
            + "]\n"@,
        screen::visible(image_attached(s, path, None).1) == "[error] Cannot read image: "@ + path
            + seq!['\n'],
        screen::visible(audio_attached(s, path, None).1) == "[error] Cannot read audio: "@ + path
            + seq!['\n'],
        screen::visible(file_attached(s, path, false, None).1) == "[error] Cannot stat file: "@
            + path + seq!['\n'],
        screen::visible(file_attached(s, path, true, None).1) == "[error] Cannot read file: "@
            + path + seq!['\n'],
{
    let none = Seq::<char>::empty();
    reveal_strlit("image");
    reveal_strlit("audio");
    reveal_strlit("file");
    assert(screen::no_escape("image"@));
    assert(screen::no_escape("audio"@));
    assert(screen::no_escape("file"@));
    law_reports_show_their_subject(s, "image"@, path, none);
    law_reports_show_their_subject(s, "audio"@, path, none);
    law_reports_show_their_subject(s, "file"@, path, none);
    reveal_strlit("[");
    reveal_strlit(" attached: ");
    reveal_strlit("[image attached: ");
    reveal_strlit("[audio attached: ");
    reveal_strlit("[file attached: ");
    assert("["@ + "image"@ + " attached: "@ == "[image attached: "@);
    assert("["@ + "audio"@ + " attached: "@ == "[audio attached: "@);
    assert("["@ + "file"@ + " attached: "@ == "[file attached: "@);
    lemma_error_shows(s, "Cannot read image: "@, "[error] Cannot read image: "@, path);
    lemma_error_shows(s, "Cannot read audio: "@, "[error] Cannot read audio: "@, path);
    lemma_error_shows(s, "Cannot stat file: "@, "[error] Cannot stat file: "@, path);
    lemma_error_shows(s, "Cannot read file: "@, "[error] Cannot read file: "@, path);
    lemma_error_fronts();
}

proof fn lemma_error_fronts()
    ensures
        "[error] "@ + "Cannot read image: "@ == "[error] Cannot read image: "@,
        "[error] "@ + "Cannot read audio: "@ == "[error] Cannot read audio: "@,
        "[error] "@ + "Cannot stat file: "@ == "[error] Cannot stat file: "@,
        "[error] "@ + "Cannot read file: "@ == "[error] Cannot read file: "@,
        screen::no_escape("Cannot read image: "@),
        screen::no_escape("Cannot read audio: "@),
        screen::no_escape("Cannot stat file: "@),
        screen::no_escape("Cannot read file: "@),
{
    reveal_strlit("[error] ");
    reveal_strlit("Cannot read image: ");
    reveal_strlit("Cannot read audio: ");
    reveal_strlit("Cannot stat file: ");
    reveal_strlit("Cannot read file: ");
    reveal_strlit("[error] Cannot read image: ");
    reveal_strlit("[error] Cannot read audio: ");
    reveal_strlit("[error] Cannot stat file: ");
    reveal_strlit("[error] Cannot read file: ");
    assert("[error] "@ + "Cannot read image: "@ == "[error] Cannot read image: "@);
    assert("[error] "@ + "Cannot read audio: "@ == "[error] Cannot read audio: "@);
    assert("[error] "@ + "Cannot stat file: "@ == "[error] Cannot stat file: "@);
    assert("[error] "@ + "Cannot read file: "@ == "[error] Cannot read file: "@);
}

proof fn lemma_error_shows(s: SessionView, what: Seq<char>, all: Seq<char>, path: Seq<char>)
    requires
        screen::no_escape(path),
    ensures
        screen::no_escape(what) && "[error] "@ + what == all ==> screen::visible(
            failed_text(what + path),
        ) == all + path + seq!['\n'],
{
    if screen::no_escape(what) && "[error] "@ + what == all {
        screen::lemma_no_escape_concat(what, path);
        law_reports_show_their_subject(s, path, path, what + path);
        assert("[error] "@ + (what + path) == all + path);
    }
}

// ── Lines that are commands ──────────────────────────────────────────────────

/// A path that begins with a quote which is never closed is all of the argument, quote and all.
pub proof fn law_unclosed_quote(quote: char, rest: Seq<char>)
    requires
        quote == '\'' || quote == '"',
        !rest.contains(quote),
        rest.len() > 0 ==> !text::white_space(rest.last()),
    ensures
        media_arg(seq![quote] + rest) == (seq![quote] + rest, None::<Seq<char>>),
{
    let t = seq![quote] + rest;
    lemma_trimmed_arg(t, Seq::empty());
    assert(t + Seq::<char>::empty() == t);
    assert(text::trimmed_back(Seq::<char>::empty()) == Seq::<char>::empty());
    assert(t.drop_first() == rest);
    text::law_position(rest, quote);
    if text::position(rest, quote) < rest.len() {
        assert(rest.contains(rest[text::position(rest, quote)]));
    }
}

/// A line that begins with a slash does what its command does, with the letters of the command in lower
/// case, on the rest of the line without the white space at its ends.
pub proof fn law_command_line(s: SessionView, word: Seq<char>, rest: Seq<char>)
    requires
        word.len() > 0,
        word[0] == '/',
        !word.contains(' '),
        rest.len() > 0,
        !text::white_space(rest[0]),
        !text::white_space(rest.last()),
    ensures
        turn(s, LineResultView::Line(word + seq![' '] + rest)) == command(
            s,
            text::lowercase(word),
            rest,
        ),
        !text::white_space(word.last()) ==> turn(s, LineResultView::Line(word)) == command(
            s,
            text::lowercase(word),
            Seq::empty(),
        ),
{
    let line = word + seq![' '] + rest;
    let none = Seq::<char>::empty();
    assert(text::trimmed_back(none) == none);
    assert(line + none == line);
    assert(line.last() == rest.last());
    lemma_trimmed_arg(line, none);
    lemma_trimmed_arg(rest, none);
    assert(rest + none == rest);
    law_command_line_splits(word, rest);
    if !text::white_space(word.last()) {
        lemma_trimmed_arg(word, none);
        assert(word + none == word);
        assert(command_arg(word) == none);
    }
}

/// What `/model` prints is the rows of the models between a header and a blank line; where there is no
/// model that is said.
pub proof fn law_model_list(s: SessionView, models: Seq<(String, String)>)
    ensures
        models_text(s, Seq::empty()) == warn_line("[no models available]"@),
        models.len() > 0 ==> models_text(s, models).skip(
            models_text(s, models).len() - marked_rows(s.model, models).len() - 1,
        ) == marked_rows(s.model, models) + seq!['\n'],
{
    reveal_strlit("\n");
    assert("\n"@ == seq!['\n']);
    let head = "\n\x1b[1mAvailable models:\x1b[0m\n"@;
    let rows = marked_rows(s.model, models);
    assert((head + rows + "\n"@).skip(head.len() as int) == rows + seq!['\n']);
}

} // verus!
