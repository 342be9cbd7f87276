//! The messages of a chat with an Ollama server, and the reading of its streamed reply.
use vstd::prelude::*;

use crate::text;

verus! {

// ── Messages and requests ────────────────────────────────────────────────────

/// A message of a chat.
#[derive(Debug, Clone)]
pub struct Message {
    /// Who speaks: `user` or `assistant`.
    pub role: String,
    /// The text.
    pub content: String,
    /// Images, in base64.
    pub images: Option<Vec<String>>,
    /// Audio clips, in base64.
    pub audios: Option<Vec<String>>,
}

/// What a message holds.
pub struct MessageView {
    pub role: Seq<char>,
    pub content: Seq<char>,
    pub images: Option<Seq<Seq<char>>>,
    pub audios: Option<Seq<Seq<char>>>,
}

/// What a list of attachments holds.
pub open spec fn attachments(v: Option<Vec<String>>) -> Option<Seq<Seq<char>>> {
    match v {
        Some(list) => Some(text::views(list@)),
        None => None,
    }
}

impl View for Message {
    type V = MessageView;

    open spec fn view(&self) -> MessageView {
        MessageView {
            role: self.role@,
            content: self.content@,
            images: attachments(self.images),
            audios: attachments(self.audios),
        }
    }
}

/// What a message of the assistant holds.
pub open spec fn assistant_message(content: Seq<char>) -> MessageView {
    MessageView { role: "assistant"@, content, images: None, audios: None }
}

/// What a message of the user holds: the attachments, where there are any, go along as images.
pub open spec fn user_message(content: Seq<char>, images: Seq<Seq<char>>) -> MessageView {
    MessageView {
        role: "user"@,
        content,
        images: if images.len() == 0 {
            None
        } else {
            Some(images)
        },
        audios: None,
    }
}

impl Message {
    /// A message of the assistant.
    pub fn assistant(content: String) -> (m: Self)
        ensures
            m@ == assistant_message(content@),
    {
        Message { role: "assistant".to_owned(), content, images: None, audios: None }
    }

    /// A message of the user.
    pub fn user(content: String, images: Vec<String>) -> (m: Self)
        ensures
            m@ == user_message(content@, text::views(images@)),
    {
        let images = if images.len() == 0 {
            None
        } else {
            Some(images)
        };
        Message { role: "user".to_owned(), content, images, audios: None }
    }
}

/// A request for a reply.
pub struct ChatRequest<'a> {
    pub model: &'a str,
    pub messages: &'a Vec<Message>,
    pub think: bool,
    pub stream: bool,
    /// For how many seconds the model stays loaded afterwards.
    pub keep_alive: i32,
}

/// A request to unload a model: no messages, and no time for it to stay loaded.
pub struct UnloadRequest<'a> {
    pub model: &'a str,
    pub messages: Vec<Message>,
    pub keep_alive: i32,
}

/// The request for a streamed reply to `messages`.
pub fn chat_request<'a>(model: &'a str, messages: &'a Vec<Message>, think: bool) -> (r: ChatRequest<
    'a,
>)
    ensures
        r.model@ == model@,
        *r.messages == *messages,
        r.think == think,
        r.stream,
        r.keep_alive == 600,
{
    ChatRequest { model, messages, think, stream: true, keep_alive: 600 }
}

/// The request to unload a model at once.
pub fn unload_request<'a>(model: &'a str) -> (r: UnloadRequest<'a>)
    ensures
        r.model@ == model@,
        r.messages@.len() == 0,
        r.keep_alive == 0,
{
    UnloadRequest { model, messages: Vec::new(), keep_alive: 0 }
}

/// What is said of an answer with which the server refused a request.
pub open spec fn api_error_text(status: Seq<char>, text: Seq<char>) -> Seq<char> {
    "Ollama API error "@ + status + ": "@ + text
}

/// What is said of an answer with which the server refused a request: its status, and its text.
pub fn api_error(status: &str, text: &str) -> (t: String)
    ensures
        t@ == "Ollama API error "@ + status@ + ": "@ + text@,
        t@ == api_error_text(status@, text@),
{
    let mut t = "Ollama API error ".to_owned();
    t.push_str(status);
    t.push_str(": ");
    t.push_str(text);
    t
}

// ── Lines of the reply ───────────────────────────────────────────────────────

/// Line feed.
pub const NEWLINE: u8 = 0x0A;

/// ASCII white space: space, tab, line feed, form feed and carriage return.
pub open spec fn ascii_space(b: u8) -> bool {
    b == 0x20 || b == 0x09 || b == 0x0A || b == 0x0C || b == 0x0D
}

fn is_ascii_space(b: u8) -> (r: bool)
    ensures
        r == ascii_space(b),
{
    b == 0x20 || b == 0x09 || b == 0x0A || b == 0x0C || b == 0x0D
}

/// The bytes without the white space at their front.
pub open spec fn bytes_front(s: Seq<u8>) -> Seq<u8>
    decreases s.len(),
{
    if s.len() > 0 && ascii_space(s[0]) {
        bytes_front(s.drop_first())
    } else {
        s
    }
}

/// The bytes without the white space at their back.
pub open spec fn bytes_back(s: Seq<u8>) -> Seq<u8>
    decreases s.len(),
{
    if s.len() > 0 && ascii_space(s.last()) {
        bytes_back(s.drop_last())
    } else {
        s
    }
}

/// The bytes without the white space at either end.
pub open spec fn bytes_trimmed(s: Seq<u8>) -> Seq<u8> {
    bytes_back(bytes_front(s))
}

/// The position of the first line feed, or the number of bytes where there is none.
pub open spec fn first_newline(s: Seq<u8>) -> int
    decreases s.len(),
{
    if s.len() == 0 || s[0] == NEWLINE {
        0
    } else {
        1 + first_newline(s.drop_first())
    }
}

proof fn lemma_first_newline(s: Seq<u8>)
    ensures
        0 <= first_newline(s) <= s.len(),
        first_newline(s) < s.len() ==> s[first_newline(s)] == NEWLINE,
        forall|i: int| 0 <= i < first_newline(s) ==> s[i] != NEWLINE,
    decreases s.len(),
{
    if s.len() > 0 && s[0] != NEWLINE {
        let rest = s.drop_first();
        lemma_first_newline(rest);
        assert forall|i: int| 0 <= i < first_newline(s) implies s[i] != NEWLINE by {
            if i > 0 {
                assert(s[i] == rest[i - 1]);
            }
        }
    }
}

proof fn lemma_first_newline_is(s: Seq<u8>, p: int)
    requires
        0 <= p <= s.len(),
        p < s.len() ==> s[p] == NEWLINE,
        forall|i: int| 0 <= i < p ==> s[i] != NEWLINE,
    ensures
        first_newline(s) == p,
{
    lemma_first_newline(s);
    if first_newline(s) < p {
        assert(s[first_newline(s)] != NEWLINE);
    }
}

/// The first complete line of a buffer that is not blank, trimmed, and what follows it. Blank
/// lines before it are dropped. Where there is none, what is left is the line that is not complete
/// yet.
pub open spec fn next_line_of(buf: Seq<u8>) -> (Option<Seq<u8>>, Seq<u8>)
    decreases buf.len(),
{
    let p = first_newline(buf);
    if p < 0 || p >= buf.len() {
        (None, buf)
    } else {
        let line = bytes_trimmed(buf.take(p + 1));
        let rest = buf.skip(p + 1);
        if line.len() == 0 {
            next_line_of(rest)
        } else {
            (Some(line), rest)
        }
    }
}

/// All the lines of a buffer: the complete ones that are not blank, trimmed, and the rest.
pub open spec fn lines_of(buf: Seq<u8>) -> (Seq<Seq<u8>>, Seq<u8>)
    decreases buf.len(),
{
    let p = first_newline(buf);
    if p < 0 || p >= buf.len() {
        (Seq::empty(), buf)
    } else {
        let line = bytes_trimmed(buf.take(p + 1));
        let (lines, rest) = lines_of(buf.skip(p + 1));
        if line.len() == 0 {
            (lines, rest)
        } else {
            (seq![line] + lines, rest)
        }
    }
}

/// The lines of a buffer are those that it gives one by one, in order.
pub proof fn law_lines_come_in_order(buf: Seq<u8>)
    ensures
        match next_line_of(buf).0 {
            None => lines_of(buf) == (Seq::<Seq<u8>>::empty(), next_line_of(buf).1),
            Some(line) => lines_of(buf) == (
                seq![line] + lines_of(next_line_of(buf).1).0,
                lines_of(next_line_of(buf).1).1,
            ),
        },
    decreases buf.len(),
{
    let p = first_newline(buf);
    if 0 <= p < buf.len() && bytes_trimmed(buf.take(p + 1)).len() == 0 {
        law_lines_come_in_order(buf.skip(p + 1));
    }
}

/// How the bytes of a reply are cut into pieces on their way makes no difference to its lines.
pub proof fn law_lines_do_not_depend_on_pieces(a: Seq<u8>, b: Seq<u8>)
    ensures
        lines_of(a + b) == (
            lines_of(a).0 + lines_of(lines_of(a).1 + b).0,
            lines_of(lines_of(a).1 + b).1,
        ),
    decreases a.len(),
{
    lemma_first_newline(a);
    let p = first_newline(a);
    if p < a.len() {
        let rest = a.skip(p + 1);
        lemma_first_newline_is(a + b, p);
        assert((a + b).take(p + 1) == a.take(p + 1));
        assert((a + b).skip(p + 1) == rest + b);
        law_lines_do_not_depend_on_pieces(rest, b);
        let line = bytes_trimmed(a.take(p + 1));
        if line.len() > 0 {
            assert(seq![line] + (lines_of(rest).0 + lines_of(lines_of(rest).1 + b).0) == (
            seq![line] + lines_of(rest).0) + lines_of(lines_of(rest).1 + b).0);
        }
    } else {
        assert(lines_of(a).0 + lines_of(a + b).0 == lines_of(a + b).0);
    }
}

// ── Parts of the reply ───────────────────────────────────────────────────────

/// A part of a streamed reply: one line of it, as it was parsed.
#[derive(Debug)]
pub struct StreamChunk {
    pub message: Option<ChunkMessage>,
    pub done: Option<bool>,
}

/// The message of a part of a reply.
#[derive(Debug)]
pub struct ChunkMessage {
    pub content: Option<String>,
    pub thinking: Option<String>,
}

/// What a part of a reply says: what the model thinks, its text, and whether it is the last.
pub struct ChunkView {
    pub thinking: Seq<char>,
    pub content: Seq<char>,
    pub done: bool,
}

/// The characters of a text, or none where there is no text.
pub open spec fn text_or_empty(s: Option<String>) -> Seq<char> {
    match s {
        Some(s) => s@,
        None => Seq::empty(),
    }
}

impl View for StreamChunk {
    type V = ChunkView;

    open spec fn view(&self) -> ChunkView {
        ChunkView {
            thinking: match self.message {
                Some(m) => text_or_empty(m.thinking),
                None => Seq::empty(),
            },
            content: match self.message {
                Some(m) => text_or_empty(m.content),
                None => Seq::empty(),
            },
            done: self.done == Some(true),
        }
    }
}

/// What a part of a reply has the client show.
#[derive(Debug)]
pub enum Token {
    /// A piece of what the model thinks.
    Think(String),
    /// The model has thought, and begins to answer.
    ThinkEnd,
    /// A piece of the answer.
    Content(String),
}

/// What a `Token` holds.
pub enum TokenView {
    Think(Seq<char>),
    ThinkEnd,
    Content(Seq<char>),
}

impl View for Token {
    type V = TokenView;

    open spec fn view(&self) -> TokenView {
        match self {
            Token::Think(s) => TokenView::Think(s@),
            Token::ThinkEnd => TokenView::ThinkEnd,
            Token::Content(s) => TokenView::Content(s@),
        }
    }
}

/// What tokens hold.
pub open spec fn token_views(v: Seq<Token>) -> Seq<TokenView> {
    v.map_values(|t: Token| t@)
}

/// What has been read of a reply: its text so far, and whether the model thinks or has thought.
pub struct ReplyView {
    pub content: Seq<char>,
    pub in_thinking: bool,
    pub thinking_started: bool,
}

/// The reply before its first part.
pub open spec fn no_reply() -> ReplyView {
    ReplyView { content: Seq::empty(), in_thinking: false, thinking_started: false }
}

/// Whether the model thinks in a part.
pub open spec fn thinks(c: ChunkView) -> bool {
    c.thinking.len() > 0
}

/// Whether a part is the first in which the model thinks.
pub open spec fn begins_thinking(r: ReplyView, c: ChunkView) -> bool {
    thinks(c) && !r.thinking_started
}

/// The reply after a part of it has been read.
pub open spec fn reply_after(r: ReplyView, c: ChunkView) -> ReplyView {
    ReplyView {
        content: r.content + c.content,
        in_thinking: (r.in_thinking || begins_thinking(r, c)) && c.content.len() == 0,
        thinking_started: r.thinking_started || thinks(c),
    }
}

/// What a part of a reply has the client show: what the model thinks; that it has thought, with the
/// first text after it began to; and the text.
pub open spec fn tokens_of(r: ReplyView, c: ChunkView) -> Seq<TokenView> {
    let none = Seq::<TokenView>::empty();
    (if thinks(c) {
        seq![TokenView::Think(c.thinking)]
    } else {
        none
    }) + (if c.content.len() > 0 && (r.in_thinking || begins_thinking(r, c)) {
        seq![TokenView::ThinkEnd]
    } else {
        none
    }) + (if c.content.len() > 0 {
        seq![TokenView::Content(c.content)]
    } else {
        none
    })
}

/// What a stream holds: the bytes not yet read as lines, whether lines are being taken from them,
/// and the reply so far.
pub struct StreamView {
    pub buf: Seq<u8>,
    pub draining: bool,
    pub reply: ReplyView,
}

/// The stream once bytes have come: lines can be taken from it again.
pub open spec fn received(s: StreamView, bytes: Seq<u8>) -> StreamView {
    StreamView { buf: s.buf + bytes, draining: true, ..s }
}

/// The stream once a line has been taken in, as it was parsed.
pub open spec fn accepted(s: StreamView, chunk: Option<ChunkView>) -> StreamView {
    match chunk {
        None => s,
        Some(c) => StreamView {
            buf: s.buf,
            draining: s.draining && !c.done,
            reply: reply_after(s.reply, c),
        },
    }
}

/// What a line has the client show, as it was parsed.
pub open spec fn accepted_tokens(r: ReplyView, chunk: Option<ChunkView>) -> Seq<TokenView> {
    match chunk {
        None => Seq::empty(),
        Some(c) => tokens_of(r, c),
    }
}

/// What a line says, as it was parsed.
pub open spec fn parsed_view(chunk: Option<StreamChunk>) -> Option<ChunkView> {
    match chunk {
        Some(c) => Some(c@),
        None => None,
    }
}

/// A stream from which nothing has come yet.
pub open spec fn no_stream() -> StreamView {
    StreamView { buf: Seq::empty(), draining: false, reply: no_reply() }
}

/// A streamed reply, as it comes in.
pub struct ChatStream {
    buf: Vec<u8>,
    draining: bool,
    content: String,
    in_thinking: bool,
    thinking_started: bool,
}

impl View for ChatStream {
    type V = StreamView;

    closed spec fn view(&self) -> StreamView {
        StreamView {
            buf: self.buf@,
            draining: self.draining,
            reply: ReplyView {
                content: self.content@,
                in_thinking: self.in_thinking,
                thinking_started: self.thinking_started,
            },
        }
    }
}

impl ChatStream {
    /// A stream from which nothing has come yet.
    pub fn new() -> (s: Self)
        ensures
            s@ == no_stream(),
    {
        ChatStream {
            buf: Vec::new(),
            draining: false,
            content: String::new(),
            in_thinking: false,
            thinking_started: false,
        }
    }

    /// Takes in bytes as they come, and lines can be taken from the stream again.
    pub fn receive(&mut self, bytes: &[u8])
        ensures
            final(self)@ == received(old(self)@, bytes@),
    {
        self.buf.extend_from_slice(bytes);
        assert(self.buf@ =~= old(self).buf@ + bytes@);
        self.draining = true;
    }

    /// The next complete line that is not blank, trimmed. None where there is no such line yet, or
    /// where the last part of the reply has been read and nothing has come since.
    pub fn next_line(&mut self) -> (line: Option<Vec<u8>>)
        ensures
            match line {
                Some(l) => old(self)@.draining && next_line_of(old(self)@.buf).0 == Some(l@),
                None => old(self)@.draining ==> next_line_of(old(self)@.buf).0 is None,
            },
            final(self)@ == (StreamView {
                buf: if old(self)@.draining {
                    next_line_of(old(self)@.buf).1
                } else {
                    old(self)@.buf
                },
                ..old(self)@
            }),
    {
        if !self.draining {
            return None;
        }
        loop
            invariant
                self.draining,
                old(self).draining,
                self.content == old(self).content,
                self.in_thinking == old(self).in_thinking,
                self.thinking_started == old(self).thinking_started,
                next_line_of(self.buf@) == next_line_of(old(self).buf@),
            decreases self.buf@.len(),
        {
            let mut p: usize = 0;
            while p < self.buf.len() && self.buf[p] != NEWLINE
                invariant
                    p <= self.buf@.len(),
                    forall|i: int| 0 <= i < p ==> self.buf@[i] != NEWLINE,
                decreases self.buf@.len() - p,
            {
                p += 1;
            }
            proof {
                lemma_first_newline_is(self.buf@, p as int);
            }
            if p >= self.buf.len() {
                return None;
            }
            let mut rest: Vec<u8> = self.buf.split_off(p + 1);
            std::mem::swap(&mut rest, &mut self.buf);
            let line = trim_bytes(rest.as_slice());
            if line.len() > 0 {
                return Some(line);
            }
        }
    }

    /// Takes in a line as it was parsed, and tells what to show. A line that could not be parsed
    /// (`None`) changes nothing. After the last part of the reply no line is taken until more bytes
    /// come.
    pub fn accept(&mut self, chunk: Option<StreamChunk>) -> (tokens: Vec<Token>)
        ensures
            final(self)@ == accepted(old(self)@, parsed_view(chunk)),
            token_views(tokens@) == accepted_tokens(old(self)@.reply, parsed_view(chunk)),
    {
        let mut tokens: Vec<Token> = Vec::new();
        let chunk = match chunk {
            Some(c) => c,
            None => {
                assert(token_views(tokens@) == Seq::<TokenView>::empty());
                return tokens;
            },
        };
        let ghost c = chunk@;
        let done: bool = match chunk.done {
            Some(d) => d,
            None => false,
        };
        if let Some(message) = chunk.message {
            if let Some(t) = message.thinking {
                if !t.as_str().is_empty() {
                    if !self.thinking_started {
                        self.thinking_started = true;
                        self.in_thinking = true;
                    }
                    tokens.push(Token::Think(t));
                }
            }
            if let Some(s) = message.content {
                if !s.as_str().is_empty() {
                    if self.in_thinking {
                        self.in_thinking = false;
                        tokens.push(Token::ThinkEnd);
                    }
                    self.content.push_str(s.as_str());
                    tokens.push(Token::Content(s));
                }
            }
        }
        if done {
            self.draining = false;
        }
        assert(self.content@ =~= old(self).content@ + c.content);
        assert(token_views(tokens@) =~= tokens_of(old(self)@.reply, c));
        tokens
    }

    /// The text of the reply.
    pub fn into_content(self) -> (s: String)
        ensures
            s@ == self@.reply.content,
    {
        self.content
    }
}

/// The bytes without the white space at either end.
fn trim_bytes(v: &[u8]) -> (t: Vec<u8>)
    ensures
        t@ == bytes_trimmed(v@),
{
    let mut from: usize = 0;
    let mut to: usize = v.len();
    assert(v@.subrange(0, v@.len() as int) == v@);
    while from < to && is_ascii_space(v[from])
        invariant
            from <= to == v@.len(),
            bytes_front(v@.subrange(from as int, to as int)) == bytes_front(v@),
        decreases to - from,
    {
        assert(v@.subrange(from as int, to as int).drop_first() == v@.subrange(
            from + 1,
            to as int,
        ));
        from += 1;
    }
    while from < to && is_ascii_space(v[to - 1])
        invariant
            from <= to <= v@.len(),
            bytes_back(v@.subrange(from as int, to as int)) == bytes_trimmed(v@),
        decreases to - from,
    {
        assert(v@.subrange(from as int, to as int).drop_last() == v@.subrange(from as int, to - 1));
        to -= 1;
    }
    vstd::slice::slice_to_vec(vstd::slice::slice_subrange(v, from, to))
}

// ── Whole replies ────────────────────────────────────────────────────────────

/// The reply after all of its parts.
pub open spec fn reply_of(parts: Seq<ChunkView>) -> ReplyView
    decreases parts.len(),
{
    if parts.len() == 0 {
        no_reply()
    } else {
        reply_after(reply_of(parts.drop_last()), parts.last())
    }
}

/// All that the parts of a reply have the client show.
pub open spec fn shown_of(parts: Seq<ChunkView>) -> Seq<TokenView>
    decreases parts.len(),
{
    if parts.len() == 0 {
        Seq::empty()
    } else {
        shown_of(parts.drop_last()) + tokens_of(reply_of(parts.drop_last()), parts.last())
    }
}

/// The text of all the parts of a reply.
pub open spec fn text_of(parts: Seq<ChunkView>) -> Seq<char>
    decreases parts.len(),
{
    if parts.len() == 0 {
        Seq::empty()
    } else {
        text_of(parts.drop_last()) + parts.last().content
    }
}

/// The text that tokens show.
pub open spec fn shown_text(tokens: Seq<TokenView>) -> Seq<char>
    decreases tokens.len(),
{
    if tokens.len() == 0 {
        Seq::empty()
    } else {
        match tokens.last() {
            TokenView::Content(s) => shown_text(tokens.drop_last()) + s,
            _ => shown_text(tokens.drop_last()),
        }
    }
}

/// The texts that tokens show of what the model thinks, in order.
pub open spec fn shown_thoughts(tokens: Seq<TokenView>) -> Seq<Seq<char>>
    decreases tokens.len(),
{
    if tokens.len() == 0 {
        Seq::empty()
    } else {
        match tokens.last() {
            TokenView::Think(s) => shown_thoughts(tokens.drop_last()).push(s),
            _ => shown_thoughts(tokens.drop_last()),
        }
    }
}

/// What the model thinks in the parts of a reply, in order.
pub open spec fn thoughts_of(parts: Seq<ChunkView>) -> Seq<Seq<char>>
    decreases parts.len(),
{
    if parts.len() == 0 {
        Seq::empty()
    } else if thinks(parts.last()) {
        thoughts_of(parts.drop_last()).push(parts.last().thinking)
    } else {
        thoughts_of(parts.drop_last())
    }
}

/// How often tokens show that the model has thought.
pub open spec fn think_ends(tokens: Seq<TokenView>) -> nat
    decreases tokens.len(),
{
    if tokens.len() == 0 {
        0
    } else {
        think_ends(tokens.drop_last()) + (if tokens.last() is ThinkEnd {
            1nat
        } else {
            0nat
        })
    }
}

/// Whether the model thinks in some part of a reply.
pub open spec fn has_thought(parts: Seq<ChunkView>) -> bool {
    exists|i: int| 0 <= i < parts.len() && thinks(#[trigger] parts[i])
}

/// Whether the model answers, in some part of a reply, in the part in which it began to think or
/// after it.
pub open spec fn has_answered(parts: Seq<ChunkView>) -> bool {
    exists|i: int, j: int|
        0 <= i <= j < parts.len() && thinks(#[trigger] parts[i]) && (#[trigger] parts[j]).content.len()
            > 0
}

proof fn lemma_shown_concat(a: Seq<TokenView>, b: Seq<TokenView>)
    ensures
        shown_text(a + b) == shown_text(a) + shown_text(b),
        shown_thoughts(a + b) == shown_thoughts(a) + shown_thoughts(b),
        think_ends(a + b) == think_ends(a) + think_ends(b),
    decreases b.len(),
{
    if b.len() == 0 {
        assert(a + b == a);
        assert(shown_text(a) + shown_text(b) == shown_text(a));
        assert(shown_thoughts(a) + shown_thoughts(b) == shown_thoughts(a));
    } else {
        lemma_shown_concat(a, b.drop_last());
        assert((a + b).drop_last() == a + b.drop_last());
        assert((a + b).last() == b.last());
        assert(shown_text(a + b) == shown_text(a) + shown_text(b));
        assert(shown_thoughts(a + b) == shown_thoughts(a) + shown_thoughts(b));
    }
}

proof fn lemma_tokens_of(r: ReplyView, c: ChunkView)
    ensures
        shown_text(tokens_of(r, c)) == c.content,
        shown_thoughts(tokens_of(r, c)) == (if thinks(c) {
            seq![c.thinking]
        } else {
            Seq::empty()
        }),
        think_ends(tokens_of(r, c)) == (if c.content.len() > 0 && (r.in_thinking || begins_thinking(
            r,
            c,
        )) {
            1nat
        } else {
            0nat
        }),
{
    let none = Seq::<TokenView>::empty();
    let first = if thinks(c) {
        none.push(TokenView::Think(c.thinking))
    } else {
        none
    };
    let second = if c.content.len() > 0 && (r.in_thinking || begins_thinking(r, c)) {
        first.push(TokenView::ThinkEnd)
    } else {
        first
    };
    let third = if c.content.len() > 0 {
        second.push(TokenView::Content(c.content))
    } else {
        second
    };
    assert(first.len() > 0 ==> first.drop_last() == none);
    assert(second.len() > first.len() ==> second.drop_last() == first);
    assert(third.len() > second.len() ==> third.drop_last() == second);
    assert(shown_text(none) == Seq::<char>::empty());
    assert(shown_thoughts(none) == Seq::<Seq<char>>::empty());
    assert(think_ends(none) == 0);
    assert(shown_text(first) == Seq::<char>::empty());
    assert(think_ends(first) == 0);
    assert(shown_text(second) == Seq::<char>::empty());
    assert(shown_text(third) == c.content);
    assert(shown_thoughts(first) == (if thinks(c) {
        seq![c.thinking]
    } else {
        Seq::empty()
    }));
    assert(shown_thoughts(second) == shown_thoughts(first));
    assert(shown_thoughts(third) == shown_thoughts(second));
    assert(think_ends(third) == think_ends(second));
    assert(third == tokens_of(r, c));
}

/// What is shown of a reply is the text that is kept of it, and both are the texts of its parts, one
/// after the other. All that the model thinks is shown too, part by part. That it has thought is
/// shown once, with the first text from when it began to think on, and else not at all.
pub proof fn law_reply_is_what_is_shown(parts: Seq<ChunkView>)
    ensures
        reply_of(parts).content == text_of(parts),
        shown_text(shown_of(parts)) == text_of(parts),
        shown_thoughts(shown_of(parts)) == thoughts_of(parts),
        think_ends(shown_of(parts)) == (if has_answered(parts) {
            1nat
        } else {
            0nat
        }),
        reply_of(parts).thinking_started == has_thought(parts),
        reply_of(parts).in_thinking == (has_thought(parts) && !has_answered(parts)),
    decreases parts.len(),
{
    if parts.len() > 0 {
        let head = parts.drop_last();
        let r = reply_of(head);
        let c = parts.last();
        let n = parts.len() - 1;
        law_reply_is_what_is_shown(head);
        lemma_tokens_of(r, c);
        lemma_shown_concat(shown_of(head), tokens_of(r, c));
        assert(shown_thoughts(shown_of(parts)) == thoughts_of(parts));
        assert(has_thought(parts) == (has_thought(head) || thinks(c))) by {
            if has_thought(head) {
                let i = choose|i: int| 0 <= i < head.len() && thinks(#[trigger] head[i]);
                assert(thinks(parts[i]));
            }
            if thinks(c) {
                assert(thinks(parts[n]));
            }
            if has_thought(parts) {
                let i = choose|i: int| 0 <= i < parts.len() && thinks(#[trigger] parts[i]);
                assert(i < n ==> thinks(head[i]));
            }
        }
        assert(has_answered(parts) == (has_answered(head) || (has_thought(parts) && c.content.len()
            > 0))) by {
            if has_answered(head) {
                let (i, j) = choose|i: int, j: int|
                    0 <= i <= j < head.len() && thinks(#[trigger] head[i]) && (
                    #[trigger] head[j]).content.len() > 0;
                assert(thinks(parts[i]) && parts[j].content.len() > 0);
            }
            if has_thought(parts) && c.content.len() > 0 {
                let i = choose|i: int| 0 <= i < parts.len() && thinks(#[trigger] parts[i]);
                assert(thinks(parts[i]) && parts[n].content.len() > 0);
            }
            if has_answered(parts) {
                let (i, j) = choose|i: int, j: int|
                    0 <= i <= j < parts.len() && thinks(#[trigger] parts[i]) && (
                    #[trigger] parts[j]).content.len() > 0;
                if j < n {
                    assert(thinks(head[i]) && head[j].content.len() > 0);
                }
            }
        }
    }
}

// ── Whole streams ────────────────────────────────────────────────────────────

/// How a line is parsed: what the part says that it holds, or nothing where it is no part.
pub type Parse = spec_fn(Seq<u8>) -> Option<ChunkView>;

/// The stream once its lines have been taken, for as long as there is one, and what they have the
/// client show.
pub open spec fn drained(s: StreamView, parse: Parse) -> (StreamView, Seq<TokenView>)
    decreases s.buf.len(),
{
    let (line, rest) = next_line_of(s.buf);
    if !s.draining {
        (s, Seq::empty())
    } else if line is Some && rest.len() < s.buf.len() {
        let chunk = parse(line->0);
        let (end, tokens) = drained(accepted((StreamView { buf: rest, ..s }), chunk), parse);
        (end, accepted_tokens(s.reply, chunk) + tokens)
    } else {
        (StreamView { buf: rest, ..s }, Seq::empty())
    }
}

/// The bytes of pieces, one after the other.
pub open spec fn whole(pieces: Seq<Seq<u8>>) -> Seq<u8>
    decreases pieces.len(),
{
    if pieces.len() == 0 {
        Seq::empty()
    } else {
        whole(pieces.drop_last()) + pieces.last()
    }
}

/// A stream once all the pieces of a reply have come, each followed by the taking of its lines, and
/// all that they have the client show.
pub open spec fn streamed(pieces: Seq<Seq<u8>>, parse: Parse) -> (StreamView, Seq<TokenView>)
    decreases pieces.len(),
{
    if pieces.len() == 0 {
        (no_stream(), Seq::empty())
    } else {
        let (s, tokens) = streamed(pieces.drop_last(), parse);
        let (end, more) = drained(received(s, pieces.last()), parse);
        (end, tokens + more)
    }
}

/// The reply that lines make, from `r` on, and what they have the client show.
pub open spec fn told(r: ReplyView, lines: Seq<Seq<u8>>, parse: Parse) -> (
    ReplyView,
    Seq<TokenView>,
)
    decreases lines.len(),
{
    if lines.len() == 0 {
        (r, Seq::empty())
    } else {
        let (s, tokens) = told(r, lines.drop_last(), parse);
        let chunk = parse(lines.last());
        (
            match chunk {
                None => s,
                Some(c) => reply_after(s, c),
            },
            tokens + accepted_tokens(s, chunk),
        )
    }
}

/// Whether no line but the last says that the reply is done.
pub open spec fn done_last(lines: Seq<Seq<u8>>, parse: Parse) -> bool {
    forall|i: int|
        0 <= i < lines.len() - 1 ==> !((#[trigger] parse(lines[i])) is Some && parse(lines[i])->0.done)
}

proof fn lemma_told_concat(r: ReplyView, a: Seq<Seq<u8>>, b: Seq<Seq<u8>>, parse: Parse)
    ensures
        told(r, a + b, parse) == (
            told(told(r, a, parse).0, b, parse).0,
            told(r, a, parse).1 + told(told(r, a, parse).0, b, parse).1,
        ),
    decreases b.len(),
{
    let mid = told(r, a, parse);
    if b.len() == 0 {
        assert(a + b == a);
        assert(mid.1 + Seq::<TokenView>::empty() == mid.1);
    } else {
        lemma_told_concat(r, a, b.drop_last(), parse);
        assert((a + b).drop_last() == a + b.drop_last());
        let s = told(mid.0, b.drop_last(), parse);
        let more = accepted_tokens(s.0, parse(b.last()));
        assert((mid.1 + s.1) + more == mid.1 + (s.1 + more));
    }
}

proof fn lemma_next_line_shrinks(buf: Seq<u8>)
    ensures
        next_line_of(buf).1.len() <= buf.len(),
        next_line_of(buf).0 is Some ==> next_line_of(buf).1.len() < buf.len(),
        next_line_of(buf).0 is None ==> lines_of(next_line_of(buf).1) == (
            Seq::<Seq<u8>>::empty(),
            next_line_of(buf).1,
        ),
    decreases buf.len(),
{
    lemma_first_newline(buf);
    let p = first_newline(buf);
    if p < buf.len() && bytes_trimmed(buf.take(p + 1)).len() == 0 {
        lemma_next_line_shrinks(buf.skip(p + 1));
    }
}

proof fn lemma_drained(s: StreamView, parse: Parse)
    requires
        s.draining,
        done_last(lines_of(s.buf).0, parse),
    ensures
        ({
            let lines = lines_of(s.buf).0;
            let end = drained(s, parse);
            &&& end.0.reply == told(s.reply, lines, parse).0
            &&& end.1 == told(s.reply, lines, parse).1
            &&& lines_of(end.0.buf) == (Seq::<Seq<u8>>::empty(), lines_of(s.buf).1)
        }),
    decreases s.buf.len(),
{
    let (line, rest) = next_line_of(s.buf);
    let lines = lines_of(s.buf).0;
    lemma_next_line_shrinks(s.buf);
    law_lines_come_in_order(s.buf);
    if line is Some {
        let l = line->0;
        let others = lines_of(rest).0;
        let chunk = parse(l);
        let next = accepted((StreamView { buf: rest, ..s }), chunk);
        assert(lines == seq![l] + others);
        lemma_told_concat(s.reply, seq![l], others, parse);
        assert(told(s.reply, seq![l], parse) == (next.reply, accepted_tokens(s.reply, chunk))) by {
            assert(seq![l].drop_last() == Seq::<Seq<u8>>::empty());
            reveal_with_fuel(told, 2);
            assert(Seq::<TokenView>::empty() + accepted_tokens(s.reply, chunk) == accepted_tokens(
                s.reply,
                chunk,
            ));
        }
        assert(done_last(others, parse)) by {
            assert forall|i: int| 0 <= i < others.len() - 1 implies !((#[trigger] parse(others[i]))
                is Some && parse(others[i])->0.done) by {
                assert(lines[i + 1] == others[i]);
                assert(!(parse(lines[i + 1]) is Some && parse(lines[i + 1])->0.done));
            }
        }
        assert(drained(s, parse) == (
            drained(next, parse).0,
            accepted_tokens(s.reply, chunk) + drained(next, parse).1,
        ));
        if next.draining {
            lemma_drained(next, parse);
        } else {
            assert(chunk is Some && chunk->0.done);
            assert(lines[0] == l);
            if others.len() > 0 {
                assert(!(parse(lines[0]) is Some && parse(lines[0])->0.done));
            }
            assert(others == Seq::<Seq<u8>>::empty());
            assert(drained(next, parse) == (next, Seq::<TokenView>::empty()));
            assert(accepted_tokens(s.reply, chunk) + Seq::<TokenView>::empty() == accepted_tokens(
                s.reply,
                chunk,
            ));
        }
    }
}

proof fn lemma_done_last_part(a: Seq<Seq<u8>>, b: Seq<Seq<u8>>, parse: Parse)
    requires
        done_last(a + b, parse),
    ensures
        done_last(a, parse),
        done_last(b, parse),
{
    let all = a + b;
    assert forall|i: int| 0 <= i < a.len() - 1 implies !((#[trigger] parse(a[i])) is Some && parse(
        a[i],
    )->0.done) by {
        assert(all[i] == a[i]);
        assert(!(parse(all[i]) is Some && parse(all[i])->0.done));
    }
    assert forall|i: int| 0 <= i < b.len() - 1 implies !((#[trigger] parse(b[i])) is Some && parse(
        b[i],
    )->0.done) by {
        assert(all[a.len() + i] == b[i]);
        assert(!(parse(all[a.len() + i]) is Some && parse(all[a.len() + i])->0.done));
    }
}

/// What a stream makes of a reply depends on the lines of it alone, whatever the pieces in which
/// they come: the text that is kept, and all that is shown, are those that the lines tell, one after
/// the other.
pub proof fn law_stream_tells_its_lines(pieces: Seq<Seq<u8>>, parse: Parse)
    requires
        done_last(lines_of(whole(pieces)).0, parse),
    ensures
        streamed(pieces, parse).0.reply == told(no_reply(), lines_of(whole(pieces)).0, parse).0,
        streamed(pieces, parse).1 == told(no_reply(), lines_of(whole(pieces)).0, parse).1,
        lines_of(streamed(pieces, parse).0.buf) == (
            Seq::<Seq<u8>>::empty(),
            lines_of(whole(pieces)).1,
        ),
    decreases pieces.len(),
{
    if pieces.len() > 0 {
        let head = pieces.drop_last();
        let piece = pieces.last();
        let before = whole(head);
        law_lines_do_not_depend_on_pieces(before, piece);
        let more = lines_of(lines_of(before).1 + piece).0;
        lemma_done_last_part(lines_of(before).0, more, parse);
        law_stream_tells_its_lines(head, parse);
        let s = streamed(head, parse).0;
        law_lines_do_not_depend_on_pieces(s.buf, piece);
        assert(Seq::<Seq<u8>>::empty() + more == more);
        let next = received(s, piece);
        assert(lines_of(next.buf).0 == more);
        lemma_drained(next, parse);
        lemma_told_concat(no_reply(), lines_of(before).0, more, parse);
    }
}

/// How the bytes of a reply are cut into pieces on their way, be it inside a line or a character,
/// makes no difference to the text that is kept of it, nor to anything that is shown. Only where a
/// line before the last says that the reply is done do the pieces tell, since the lines behind it
/// then wait for the next one.
pub proof fn law_reply_does_not_depend_on_pieces(
    a: Seq<Seq<u8>>,
    b: Seq<Seq<u8>>,
    parse: Parse,
)
    requires
        whole(a) == whole(b),
        done_last(lines_of(whole(a)).0, parse),
    ensures
        streamed(a, parse).0.reply == streamed(b, parse).0.reply,
        streamed(a, parse).1 == streamed(b, parse).1,
{
    law_stream_tells_its_lines(a, parse);
    law_stream_tells_its_lines(b, parse);
}

// ── Messages and lines ───────────────────────────────────────────────────────

/// A message holds its text as it is, under the name of who speaks, and the attachments of the user as
/// they are, where there are any.
pub proof fn law_messages_hold_their_text(content: Seq<char>, images: Seq<Seq<char>>)
    ensures
        assistant_message(content).content == content,
        assistant_message(content).role == "assistant"@,
        assistant_message(content).images is None,
        assistant_message(content).audios is None,
        user_message(content, images).content == content,
        user_message(content, images).role == "user"@,
        user_message(content, Seq::empty()).images is None,
        images.len() > 0 ==> user_message(content, images).images == Some(images),
        user_message(content, images).audios is None,
{
}

proof fn lemma_bytes_front_cut(s: Seq<u8>) -> (front: Seq<u8>)
    ensures
        s == front + bytes_front(s),
        forall|i: int| 0 <= i < front.len() ==> ascii_space(#[trigger] front[i]),
        bytes_front(s).len() > 0 ==> !ascii_space(bytes_front(s)[0]),
    decreases s.len(),
{
    if s.len() > 0 && ascii_space(s[0]) {
        let rest = lemma_bytes_front_cut(s.drop_first());
        let front = seq![s[0]] + rest;
        assert forall|i: int| 0 <= i < front.len() implies ascii_space(#[trigger] front[i]) by {
            if i > 0 {
                assert(front[i] == rest[i - 1]);
            }
        }
        assert(s == seq![s[0]] + s.drop_first());
        assert(s == front + bytes_front(s));
        front
    } else {
        assert(s == Seq::<u8>::empty() + s);
        Seq::empty()
    }
}

proof fn lemma_bytes_back_cut(s: Seq<u8>) -> (back: Seq<u8>)
    ensures
        s == bytes_back(s) + back,
        forall|i: int| 0 <= i < back.len() ==> ascii_space(#[trigger] back[i]),
        bytes_back(s).len() > 0 ==> !ascii_space(bytes_back(s).last()) && bytes_back(s)[0] == s[0],
    decreases s.len(),
{
    if s.len() > 0 && ascii_space(s.last()) {
        let rest = lemma_bytes_back_cut(s.drop_last());
        let back = rest.push(s.last());
        assert(s == s.drop_last().push(s.last()));
        assert(s == bytes_back(s) + back);
        back
    } else {
        assert(s == s + Seq::<u8>::empty());
        Seq::empty()
    }
}

/// Trimming bytes takes off ASCII white space at both ends, all of it, and nothing else.
pub proof fn law_trimming_bytes(s: Seq<u8>) -> (r: (Seq<u8>, Seq<u8>))
    ensures
        s == r.0 + bytes_trimmed(s) + r.1,
        forall|i: int| 0 <= i < r.0.len() ==> ascii_space(#[trigger] r.0[i]),
        forall|i: int| 0 <= i < r.1.len() ==> ascii_space(#[trigger] r.1[i]),
        bytes_trimmed(s).len() > 0 ==> !ascii_space(bytes_trimmed(s)[0]) && !ascii_space(
            bytes_trimmed(s).last(),
        ),
{
    let front = lemma_bytes_front_cut(s);
    let back = lemma_bytes_back_cut(bytes_front(s));
    assert(s == front + bytes_trimmed(s) + back);
    (front, back)
}

/// A line without white space at its ends is given as it is, once its line feed has come, and then
/// those behind it; what has no line feed yet is no line.
pub proof fn law_each_line_is_given(line: Seq<u8>, rest: Seq<u8>)
    requires
        forall|i: int| 0 <= i < line.len() ==> (#[trigger] line[i]) != 0x0A,
    ensures
        lines_of(line) == (Seq::<Seq<u8>>::empty(), line),
        next_line_of(line) == (None::<Seq<u8>>, line),
        line.len() > 0 && !ascii_space(line[0]) && !ascii_space(line.last()) ==> next_line_of(
            line + seq![0x0A] + rest,
        ) == (Some(line), rest) && lines_of(line + seq![0x0A] + rest) == (
            seq![line] + lines_of(rest).0,
            lines_of(rest).1,
        ),
        (forall|i: int| 0 <= i < line.len() ==> ascii_space(#[trigger] line[i])) ==> lines_of(
            line + seq![0x0A] + rest,
        ) == lines_of(rest),
{
    let all = line + seq![0x0Au8] + rest;
    let n = line.len() as int;
    lemma_first_newline_is(line, n);
    lemma_first_newline_is(all, n);
    let cut = all.take(n + 1);
    assert(cut == line.push(0x0A));
    assert(cut.drop_last() == line);
    assert(all.skip(n + 1) == rest);
    if line.len() > 0 && !ascii_space(line[0]) && !ascii_space(line.last()) {
        assert(!ascii_space(cut[0]));
        assert(bytes_trimmed(cut) == line) by {
            assert(bytes_front(cut) == cut);
            reveal_with_fuel(bytes_back, 2);
        }
    }
    if forall|i: int| 0 <= i < line.len() ==> ascii_space(#[trigger] line[i]) {
        let (front, back) = law_trimming_bytes(cut);
        let t = bytes_trimmed(cut);
        if t.len() > 0 {
            assert((front + t + back)[front.len() as int] == t[0]);
            assert(cut[front.len() as int] == t[0]);
            if front.len() < n {
                assert(ascii_space(line[front.len() as int]));
            }
        }
    }
}

/// A part says what stands in its message, a missing text as an empty one, and is the last only where it
/// says so. A message is told as it is.
pub proof fn law_what_is_read_of_a_part(
    content: String,
    thinking: String,
    done: Option<bool>,
    role: String,
    images: Vec<String>,
)
    ensures
        ({
            let m = ChunkMessage { content: Some(content), thinking: Some(thinking) };
            let c = StreamChunk { message: Some(m), done };
            &&& c@.content == content@
            &&& c@.thinking == thinking@
            &&& c@.done <==> done == Some(true)
        }),
        ({
            let m = ChunkMessage { content: None, thinking: None };
            let c = StreamChunk { message: Some(m), done };
            c@.content.len() == 0 && c@.thinking.len() == 0 && (c@.done <==> done == Some(true))
        }),
        ({
            let c = StreamChunk { message: None, done };
            c@.content.len() == 0 && c@.thinking.len() == 0 && (c@.done <==> done == Some(true))
        }),
        ({
            let m = Message { role, content, images: Some(images), audios: None };
            m@.role == role@ && m@.content == content@ && m@.images == Some(text::views(images@))
                && m@.audios is None
        }),
{
}

/// What is said of a refused request begins with what it is, and ends with all of the answer's text,
/// behind its status.
pub proof fn law_refusal_tells_the_answer(status: Seq<char>, text: Seq<char>)
    ensures
        ({
            let t = api_error_text(status, text);
            &&& t.take(17) == "Ollama API error "@
            &&& t.subrange(17, (17 + status.len()) as int) == status
            &&& t.skip(t.len() - text.len()) == text
            &&& t.len() == 19 + status.len() + text.len()
        }),
{
    reveal_strlit("Ollama API error ");
    reveal_strlit(": ");
    let t = api_error_text(status, text);
    assert(t.take(17) == "Ollama API error "@);
    assert(t.subrange(17, (17 + status.len()) as int) == status);
    assert(t.skip(t.len() - text.len()) == text);
}

/// Once a part has said that it is the last, no line is taken and nothing shown until more bytes come;
/// the bytes that came with it are kept. A part that does not say so, and a line that is no part, let the
/// reading go on.
pub proof fn law_last_part_stops_the_reading(s: StreamView, c: ChunkView, more: Seq<u8>, parse: Parse)
    ensures
        c.done ==> drained(accepted(s, Some(c)), parse) == (
            accepted(s, Some(c)),
            Seq::<TokenView>::empty(),
        ),
        accepted(s, Some(c)).buf == s.buf,
        !c.done ==> accepted(s, Some(c)).draining == s.draining,
        accepted(s, None) == s,
        received(s, more).draining,
        received(s, more).buf == s.buf + more,
        received(s, more).reply == s.reply,
        accepted(s, Some(c)).reply.content == s.reply.content + c.content,
{
}

} // verus!
