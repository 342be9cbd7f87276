//! Reading a line from a terminal in raw mode, byte by byte: what each byte does, what is written
//! in answer, and what is to be read next.
use vstd::prelude::*;
use vstd::utf8::*;

use crate::editor;
use crate::editor::{EditorView, LineEditor};
use crate::text;

verus! {

/// How the reading of a line ended.
#[derive(Debug)]
pub enum LineResult {
    /// A line was entered.
    Line(String),
    /// The input ended, or Ctrl-D was typed on an empty line.
    Eof,
    /// Ctrl-C was typed.
    Interrupted,
}

/// What a `LineResult` holds.
pub enum LineResultView {
    Line(Seq<char>),
    Eof,
    Interrupted,
}

impl View for LineResult {
    type V = LineResultView;

    open spec fn view(&self) -> LineResultView {
        match self {
            LineResult::Line(s) => LineResultView::Line(s@),
            LineResult::Eof => LineResultView::Eof,
            LineResult::Interrupted => LineResultView::Interrupted,
        }
    }
}

// ── Bytes ────────────────────────────────────────────────────────────────────

/// Ctrl-C.
pub const CTRL_C: u8 = 0x03;

/// Ctrl-D.
pub const CTRL_D: u8 = 0x04;

/// Backspace, as some terminals send it.
pub const BACKSPACE: u8 = 0x08;

/// Line feed.
pub const LF: u8 = 0x0A;

/// Carriage return.
pub const CR: u8 = 0x0D;

/// Escape.
pub const ESC: u8 = 0x1B;

/// The first byte that is not a control byte.
pub const SPACE: u8 = 0x20;

/// Backspace, as most terminals send it.
pub const DEL: u8 = 0x7F;

/// `[`, which follows escape in a control sequence.
pub const BRACKET: u8 = 0x5B;

/// `~`, which ends a numeric control sequence.
pub const TILDE: u8 = 0x7E;

// ── The states of the reader ─────────────────────────────────────────────────

/// Where the reader stands between two bytes.
pub enum ModeView {
    /// Between two keys.
    Ground,
    /// After escape.
    Escape,
    /// After escape and `[`.
    Csi,
    /// After `3` in a control sequence.
    Delete,
    /// In a control sequence that began with `2`, with its bytes so far.
    Numeric(Seq<u8>),
    /// In another numeric control sequence, which is passed over.
    Skip,
    /// In a paste, with its bytes so far, and how many bytes of the marker that closes it came after
    /// them.
    Paste(Seq<u8>, nat),
    /// In a character, with its bytes so far and the number of those to come.
    Utf8(Seq<u8>, nat),
}

/// What a reader holds: the editor, and where it stands between two bytes.
pub struct ReaderView {
    pub editor: EditorView,
    pub mode: ModeView,
}

/// What is to be read next.
pub enum Next {
    /// A byte.
    Read,
    /// A byte, if one comes at once.
    ReadSoon,
    /// Nothing: the line is complete.
    Done(LineResult),
}

/// What a `Next` holds.
pub enum NextView {
    Read,
    ReadSoon,
    Done(LineResultView),
}

impl View for Next {
    type V = NextView;

    open spec fn view(&self) -> NextView {
        match self {
            Next::Read => NextView::Read,
            Next::ReadSoon => NextView::ReadSoon,
            Next::Done(r) => NextView::Done(r@),
        }
    }
}

/// The answer to one byte: what to write to the terminal, and what to read next.
pub struct Step {
    pub output: String,
    pub next: Next,
}

/// A step of the reader: its state afterwards, what it writes, and what it reads next.
pub struct StepView {
    pub state: ReaderView,
    pub output: Seq<char>,
    pub next: NextView,
}

// ── What a byte does ─────────────────────────────────────────────────────────

/// The reader goes to `mode` and writes nothing.
pub open spec fn goes(ed: EditorView, mode: ModeView) -> StepView {
    StepView {
        state: ReaderView { editor: ed, mode },
        output: Seq::empty(),
        next: NextView::Read,
    }
}

/// The reader is between two keys, and the text is drawn anew.
pub open spec fn draws(ed: EditorView) -> StepView {
    StepView {
        state: ReaderView { editor: ed.redrawn(), mode: ModeView::Ground },
        output: ed.frame(),
        next: NextView::Read,
    }
}

/// The line is complete.
pub open spec fn ends(ed: EditorView, result: LineResultView) -> StepView {
    StepView {
        state: ReaderView { editor: ed, mode: ModeView::Ground },
        output: "\r\n"@,
        next: NextView::Done(result),
    }
}

/// The bytes of a typed character are complete: valid UTF-8 is written back and inserted, and the
/// text is drawn anew where the cursor is not at its end; anything else is dropped.
pub open spec fn types(ed: EditorView, bytes: Seq<u8>) -> StepView {
    if valid_utf8(bytes) {
        let s = decode_utf8(bytes);
        let typed = ed.inserted(s);
        if typed.after.len() > 0 {
            StepView { output: s + typed.frame(), ..draws(typed) }
        } else {
            StepView { output: s, ..goes(typed, ModeView::Ground) }
        }
    } else {
        goes(ed, ModeView::Ground)
    }
}

/// A paste is complete: valid UTF-8 is inserted, anything else is dropped.
pub open spec fn pastes(ed: EditorView, bytes: Seq<u8>) -> StepView {
    if valid_utf8(bytes) {
        draws(ed.inserted(decode_utf8(bytes)))
    } else {
        goes(ed, ModeView::Ground)
    }
}

/// The byte that came, or zero where none came.
pub open spec fn byte_or_zero(input: Option<u8>) -> u8 {
    match input {
        Some(b) => b,
        None => 0,
    }
}

/// Whether a byte ends a numeric control sequence.
pub open spec fn ends_sequence(b: u8) -> bool {
    b == TILDE || b == 0
}

/// `200~`, which opens a paste.
pub open spec fn paste_open() -> Seq<u8> {
    seq![0x32, 0x30, 0x30, TILDE]
}

/// `ESC[201~`, the marker that closes a paste.
pub open spec fn paste_end() -> Seq<u8> {
    seq![ESC, BRACKET, 0x32, 0x30, 0x31, TILDE]
}

/// A byte that enters a paste: a carriage return becomes a line feed.
pub open spec fn pasted_byte(b: u8) -> u8 {
    if b == CR {
        LF
    } else {
        b
    }
}

/// What a byte does between two keys.
pub open spec fn ground_step(ed: EditorView, input: Option<u8>) -> StepView {
    match input {
        None => ends(ed, LineResultView::Eof),
        Some(b) => if b == CR || b == LF {
            if ed.continues() {
                draws(ed.continued())
            } else {
                ends(ed, LineResultView::Line(ed.text()))
            }
        } else if b == CTRL_C {
            ends(ed, LineResultView::Interrupted)
        } else if b == CTRL_D {
            if ed.text().len() == 0 {
                ends(ed, LineResultView::Eof)
            } else {
                goes(ed, ModeView::Ground)
            }
        } else if b == DEL || b == BACKSPACE {
            if ed.before.len() > 0 {
                draws(ed.erased_before())
            } else {
                goes(ed, ModeView::Ground)
            }
        } else if b == ESC {
            StepView { next: NextView::ReadSoon, ..goes(ed, ModeView::Escape) }
        } else if b >= SPACE {
            if editor::seq_len(b) == 1 {
                types(ed, seq![b])
            } else {
                goes(ed, ModeView::Utf8(seq![b], (editor::seq_len(b) - 1) as nat))
            }
        } else {
            goes(ed, ModeView::Ground)
        },
    }
}

/// What a byte does after escape and `[`.
pub open spec fn csi_step(ed: EditorView, b: u8) -> StepView {
    if b == 'D' as u8 && ed.before.len() > 0 {
        draws(ed.moved_left())
    } else if b == 'C' as u8 && ed.after.len() > 0 {
        draws(ed.moved_right())
    } else if b == '3' as u8 {
        goes(ed, ModeView::Delete)
    } else if b == '2' as u8 {
        goes(ed, ModeView::Numeric(seq![b]))
    } else if '4' as u8 <= b <= '9' as u8 {
        goes(ed, ModeView::Skip)
    } else {
        goes(ed, ModeView::Ground)
    }
}

/// What a byte does in a paste, after `seen` bytes of the marker that closes it. A byte that goes on
/// with the marker waits with them. Any other byte shows that they belong to the paste: an escape may
/// begin the marker anew, and another byte is kept with them as it is, zero where none came. A byte
/// that follows no such bytes is kept as well, a carriage return as a line feed; where none came
/// there, the paste ends.
pub open spec fn paste_step(ed: EditorView, paste: Seq<u8>, seen: nat, input: Option<u8>) -> StepView {
    let kept = paste + paste_end().take(seen as int);
    let b = byte_or_zero(input);
    if seen == 0 && input is None {
        pastes(ed, paste)
    } else if b == paste_end()[seen as int] {
        if seen + 1 == paste_end().len() {
            pastes(ed, paste)
        } else {
            goes(ed, ModeView::Paste(paste, seen + 1))
        }
    } else if b == ESC {
        goes(ed, ModeView::Paste(kept, 1))
    } else {
        goes(
            ed,
            ModeView::Paste(
                kept.push(
                    if seen > 0 {
                        b
                    } else {
                        pasted_byte(b)
                    },
                ),
                0,
            ),
        )
    }
}

/// What reading a byte does, or failing to read one (`None`).
pub open spec fn step_of(s: ReaderView, input: Option<u8>) -> StepView {
    let ed = s.editor;
    let b = byte_or_zero(input);
    match s.mode {
        ModeView::Ground => ground_step(ed, input),
        ModeView::Escape => goes(
            ed,
            if b == BRACKET {
                ModeView::Csi
            } else {
                ModeView::Ground
            },
        ),
        ModeView::Csi => csi_step(ed, b),
        ModeView::Delete => if b == TILDE && ed.after.len() > 0 {
            draws(ed.erased_after())
        } else {
            goes(ed, ModeView::Ground)
        },
        ModeView::Numeric(seen) => {
            let all = seen.push(b);
            if !ends_sequence(b) {
                goes(ed, ModeView::Numeric(all))
            } else if all == paste_open() {
                goes(ed, ModeView::Paste(Seq::empty(), 0))
            } else {
                goes(ed, ModeView::Ground)
            }
        },
        ModeView::Skip => goes(
            ed,
            if ends_sequence(b) {
                ModeView::Ground
            } else {
                ModeView::Skip
            },
        ),
        ModeView::Paste(paste, seen) => paste_step(ed, paste, seen, input),
        ModeView::Utf8(seen, left) => match input {
            None => types(ed, seen),
            Some(c) => if left <= 1 {
                types(ed, seen.push(c))
            } else {
                goes(ed, ModeView::Utf8(seen.push(c), (left - 1) as nat))
            },
        },
    }
}

// ── The reader ───────────────────────────────────────────────────────────────

/// Where the reader stands between two bytes; see `ModeView`.
enum Mode {
    Ground,
    Escape,
    Csi,
    Delete,
    Numeric(Vec<u8>),
    Skip,
    Paste(Vec<u8>, usize),
    Utf8(Vec<u8>, usize),
}

impl View for Mode {
    type V = ModeView;

    closed spec fn view(&self) -> ModeView {
        match self {
            Mode::Ground => ModeView::Ground,
            Mode::Escape => ModeView::Escape,
            Mode::Csi => ModeView::Csi,
            Mode::Delete => ModeView::Delete,
            Mode::Numeric(v) => ModeView::Numeric(v@),
            Mode::Skip => ModeView::Skip,
            Mode::Paste(v, n) => ModeView::Paste(v@, *n as nat),
            Mode::Utf8(v, n) => ModeView::Utf8(v@, *n as nat),
        }
    }
}

/// Reads a line, byte by byte.
pub struct LineReader {
    editor: LineEditor,
    mode: Mode,
}

impl View for LineReader {
    type V = ReaderView;

    closed spec fn view(&self) -> ReaderView {
        ReaderView { editor: self.editor@, mode: self.mode@ }
    }
}

/// The state in which a reader starts.
pub open spec fn fresh(prompt: Seq<char>) -> ReaderView {
    ReaderView {
        editor: EditorView { before: Seq::empty(), after: Seq::empty(), prompt, cursor_line: 0 },
        mode: ModeView::Ground,
    }
}

impl LineReader {
    /// The editor is well-formed, a character that has begun wants more bytes, and so does a marker.
    pub closed spec fn well_formed(&self) -> bool {
        &&& self.editor.well_formed()
        &&& self.mode matches Mode::Utf8(_, n) ==> n > 0
        &&& self.mode matches Mode::Paste(_, n) ==> n < 6
    }

    /// A reader with an empty line.
    pub fn new(prompt: &str) -> (r: Self)
        ensures
            r.well_formed(),
            r@ == fresh(prompt@),
    {
        LineReader { editor: LineEditor::new(prompt), mode: Mode::Ground }
    }

    /// Takes in one byte, or the failure to read one (`None`): edits the line, and tells what to
    /// write to the terminal and what to read next.
    pub fn step(&mut self, input: Option<u8>) -> (r: Step)
        requires
            old(self).well_formed(),
        ensures
            final(self).well_formed(),
            (StepView { state: final(self)@, output: r.output@, next: r.next@ }) == step_of(
                old(self)@,
                input,
            ),
    {
        let mut mode = Mode::Ground;
        std::mem::swap(&mut mode, &mut self.mode);
        let b: u8 = match input {
            Some(b) => b,
            None => 0,
        };
        match mode {
            Mode::Ground => self.ground(input),
            Mode::Escape => {
                if b == BRACKET {
                    self.go(Mode::Csi)
                } else {
                    self.go(Mode::Ground)
                }
            },
            Mode::Csi => self.csi(b),
            Mode::Delete => {
                if b == TILDE && self.editor.delete() {
                    self.draw()
                } else {
                    self.go(Mode::Ground)
                }
            },
            Mode::Numeric(mut seen) => {
                seen.push(b);
                let open: [u8; 4] = [0x32, 0x30, 0x30, TILDE];
                assert(open@ == paste_open());
                if b != TILDE && b != 0 {
                    self.go(Mode::Numeric(seen))
                } else if text::same_bytes(seen.as_slice(), &open) {
                    self.go(Mode::Paste(Vec::new(), 0))
                } else {
                    self.go(Mode::Ground)
                }
            },
            Mode::Skip => {
                if b == TILDE || b == 0 {
                    self.go(Mode::Ground)
                } else {
                    self.go(Mode::Skip)
                }
            },
            Mode::Paste(paste, seen) => self.paste(paste, seen, input),
            Mode::Utf8(mut seen, left) => {
                match input {
                    None => self.finish_char(seen),
                    Some(c) => {
                        seen.push(c);
                        if left <= 1 {
                            self.finish_char(seen)
                        } else {
                            self.go(Mode::Utf8(seen, left - 1))
                        }
                    },
                }
            },
        }
    }

    fn go(&mut self, mode: Mode) -> (r: Step)
        requires
            old(self).well_formed(),
            mode matches Mode::Utf8(_, n) ==> n > 0,
            mode matches Mode::Paste(_, n) ==> n < 6,
        ensures
            final(self).well_formed(),
            (StepView { state: final(self)@, output: r.output@, next: r.next@ }) == goes(
                old(self)@.editor,
                mode@,
            ),
    {
        self.mode = mode;
        Step { output: String::new(), next: Next::Read }
    }

    fn draw(&mut self) -> (r: Step)
        requires
            old(self).well_formed(),
        ensures
            final(self).well_formed(),
            (StepView { state: final(self)@, output: r.output@, next: r.next@ }) == draws(
                old(self)@.editor,
            ),
    {
        self.mode = Mode::Ground;
        Step { output: self.editor.redraw(), next: Next::Read }
    }

    fn end(&mut self, result: LineResult) -> (r: Step)
        requires
            old(self).well_formed(),
        ensures
            final(self).well_formed(),
            (StepView { state: final(self)@, output: r.output@, next: r.next@ }) == ends(
                old(self)@.editor,
                result@,
            ),
    {
        self.mode = Mode::Ground;
        Step { output: "\r\n".to_owned(), next: Next::Done(result) }
    }

    fn ground(&mut self, input: Option<u8>) -> (r: Step)
        requires
            old(self).well_formed(),
        ensures
            final(self).well_formed(),
            (StepView { state: final(self)@, output: r.output@, next: r.next@ }) == ground_step(
                old(self)@.editor,
                input,
            ),
    {
        let b: u8 = match input {
            Some(b) => b,
            None => {
                return self.end(LineResult::Eof);
            },
        };
        if b == CR || b == LF {
            if self.editor.continue_line() {
                self.draw()
            } else {
                let line = self.editor.as_str().to_owned();
                self.end(LineResult::Line(line))
            }
        } else if b == CTRL_C {
            self.end(LineResult::Interrupted)
        } else if b == CTRL_D {
            if self.editor.is_empty() {
                self.end(LineResult::Eof)
            } else {
                self.go(Mode::Ground)
            }
        } else if b == DEL || b == BACKSPACE {
            if self.editor.backspace() {
                self.draw()
            } else {
                self.go(Mode::Ground)
            }
        } else if b == ESC {
            self.mode = Mode::Escape;
            Step { output: String::new(), next: Next::ReadSoon }
        } else if b >= SPACE {
            let n: usize = editor::utf8_seq_len(b);
            let mut bytes: Vec<u8> = Vec::new();
            bytes.push(b);
            assert(bytes@ == seq![b]);
            if n == 1 {
                self.finish_char(bytes)
            } else {
                self.go(Mode::Utf8(bytes, n - 1))
            }
        } else {
            self.go(Mode::Ground)
        }
    }

    fn csi(&mut self, b: u8) -> (r: Step)
        requires
            old(self).well_formed(),
        ensures
            final(self).well_formed(),
            (StepView { state: final(self)@, output: r.output@, next: r.next@ }) == csi_step(
                old(self)@.editor,
                b,
            ),
    {
        if b == 'D' as u8 && self.editor.move_left() {
            self.draw()
        } else if b == 'C' as u8 && self.editor.move_right() {
            self.draw()
        } else if b == '3' as u8 {
            self.go(Mode::Delete)
        } else if b == '2' as u8 {
            let mut seen: Vec<u8> = Vec::new();
            seen.push(b);
            assert(seen@ == seq![b]);
            self.go(Mode::Numeric(seen))
        } else if '4' as u8 <= b && b <= '9' as u8 {
            self.go(Mode::Skip)
        } else {
            self.go(Mode::Ground)
        }
    }

    fn paste(&mut self, paste: Vec<u8>, seen: usize, input: Option<u8>) -> (r: Step)
        requires
            old(self).well_formed(),
            seen < 6,
        ensures
            final(self).well_formed(),
            (StepView { state: final(self)@, output: r.output@, next: r.next@ }) == paste_step(
                old(self)@.editor,
                paste@,
                seen as nat,
                input,
            ),
    {
        let marker: [u8; 6] = [ESC, BRACKET, 0x32, 0x30, 0x31, TILDE];
        assert(marker@ == paste_end());
        let b: u8 = match input {
            Some(b) => b,
            None => {
                if seen == 0 {
                    return self.finish_paste(paste);
                }
                0
            },
        };
        if b == marker[seen] {
            return if seen == 5 {
                self.finish_paste(paste)
            } else {
                self.go(Mode::Paste(paste, seen + 1))
            };
        }
        let ghost start = paste@;
        let mut kept = paste;
        let mut i: usize = 0;
        assert(kept@ == start + marker@.take(0));
        while i < seen
            invariant
                i <= seen < 6,
                marker@.len() == 6,
                kept@ == start + marker@.take(i as int),
            decreases seen - i,
        {
            kept.push(marker[i]);
            i += 1;
            assert(kept@ == start + marker@.take(i as int));
        }
        if b == ESC {
            return self.go(Mode::Paste(kept, 1));
        }
        kept.push(
            if seen == 0 && b == CR {
                LF
            } else {
                b
            },
        );
        self.go(Mode::Paste(kept, 0))
    }

    fn finish_paste(&mut self, paste: Vec<u8>) -> (r: Step)
        requires
            old(self).well_formed(),
        ensures
            final(self).well_formed(),
            (StepView { state: final(self)@, output: r.output@, next: r.next@ }) == pastes(
                old(self)@.editor,
                paste@,
            ),
    {
        match std::str::from_utf8(paste.as_slice()) {
            Ok(_) => {
                self.editor.insert(paste.as_slice());
                self.draw()
            },
            Err(_) => self.go(Mode::Ground),
        }
    }

    fn finish_char(&mut self, bytes: Vec<u8>) -> (r: Step)
        requires
            old(self).well_formed(),
        ensures
            final(self).well_formed(),
            (StepView { state: final(self)@, output: r.output@, next: r.next@ }) == types(
                old(self)@.editor,
                bytes@,
            ),
    {
        match std::str::from_utf8(bytes.as_slice()) {
            Ok(s) => {
                proof {
                    encode_utf8_decode_utf8(s@);
                }
                let mut output = s.to_owned();
                self.editor.insert(bytes.as_slice());
                if self.editor.at_end() {
                    self.mode = Mode::Ground;
                } else {
                    let r = self.draw();
                    output.push_str(r.output.as_str());
                }
                Step { output, next: Next::Read }
            },
            Err(_) => self.go(Mode::Ground),
        }
    }
}

// ── Runs of bytes ────────────────────────────────────────────────────────────

/// Where a run of bytes leaves the reader.
pub enum Feed {
    /// It waits for more.
    Waiting(ReaderView),
    /// The line is complete; what follows was not read.
    Finished(LineResultView),
}

/// What a run of bytes does.
pub open spec fn feed(s: ReaderView, bytes: Seq<u8>) -> Feed
    decreases bytes.len(),
{
    if bytes.len() == 0 {
        Feed::Waiting(s)
    } else {
        let r = step_of(s, Some(bytes[0]));
        match r.next {
            NextView::Done(result) => Feed::Finished(result),
            _ => feed(r.state, bytes.drop_first()),
        }
    }
}

/// A run of bytes can be read in two parts.
pub proof fn law_feed_in_parts(s: ReaderView, a: Seq<u8>, b: Seq<u8>)
    ensures
        feed(s, a + b) == (match feed(s, a) {
            Feed::Waiting(t) => feed(t, b),
            Feed::Finished(result) => Feed::Finished(result),
        }),
    decreases a.len(),
{
    if a.len() == 0 {
        assert(a + b == b);
    } else {
        assert((a + b).drop_first() == a.drop_first() + b);
        let r = step_of(s, Some(a[0]));
        if !(r.next is Done) {
            law_feed_in_parts(r.state, a.drop_first(), b);
        }
    }
}

/// Whether typing a character inserts it: it is neither a control character nor DEL.
pub open spec fn printable(c: char) -> bool {
    c >= ' ' && c != '\u{7f}'
}

/// The editor after `s` has been typed, as far as typing settles it: on which line the cursor was
/// last drawn depends on where it stood.
pub open spec fn typed(from: EditorView, s: Seq<char>, to: ReaderView) -> bool {
    &&& to.mode == ModeView::Ground
    &&& to.editor.before == from.before + s
    &&& to.editor.after == from.after
    &&& to.editor.prompt == from.prompt
    &&& from.after.len() == 0 ==> to.editor.cursor_line == from.cursor_line
}

/// The byte of an ASCII character, and the bytes of any other.
proof fn lemma_bytes_of_char(c: char)
    ensures
        c < '\u{80}' ==> encode_scalar(c as u32) == seq![c as u8],
        c >= '\u{80}' ==> encode_scalar(c as u32).len() >= 2 && forall|i: int|
            0 <= i < encode_scalar(c as u32).len() ==> #[trigger] encode_scalar(c as u32)[i] >= 0x80,
{
    let x = c as u32;
    char_is_scalar(c);
    editor::lemma_char_bytes(c);
    if has_width_1_encoding(x) {
        assert((x & 0x7F) as u8 == x) by (bit_vector)
            requires
                x <= 0x7F,
        ;
        assert(encode_scalar(x) =~= seq![c as u8]);
    } else {
        let e = encode_scalar(x);
        assert(e.len() >= 2);
        assert(e[0] >= 0x80);
    }
}

proof fn lemma_type_char(ed: EditorView, c: char)
    requires
        printable(c),
    ensures
        feed(
            (ReaderView { editor: ed, mode: ModeView::Ground }),
            encode_scalar(c as u32),
        ) matches Feed::Waiting(t) && typed(ed, seq![c], t),
{
    let s = ReaderView { editor: ed, mode: ModeView::Ground };
    let e = encode_scalar(c as u32);
    editor::lemma_char_bytes(c);
    editor::lemma_encode_decode(seq![c]);
    lemma_bytes_of_char(c);
    assert(decode_utf8(e) == seq![c]);
    reveal_with_fuel(feed, 5);
    let end = types(ed, e);
    assert(typed(ed, seq![c], end.state));
    if e.len() == 1 {
        assert(e == seq![e[0]]);
        assert(step_of(s, Some(e[0])) == end);
    } else {
        let s1 = ReaderView {
            editor: ed,
            mode: ModeView::Utf8(seq![e[0]], (e.len() - 1) as nat),
        };
        assert(step_of(s, Some(e[0])).state == s1);
        if e.len() == 2 {
            assert(seq![e[0]].push(e[1]) == e);
        } else if e.len() == 3 {
            assert(seq![e[0]].push(e[1]).push(e[2]) == e);
        } else {
            assert(seq![e[0]].push(e[1]).push(e[2]).push(e[3]) == e);
        }
    }
}

/// Typing printable text puts it in front of the cursor, character by character, whatever the
/// number of bytes of each, and changes nothing else of the text.
pub proof fn law_typing_inserts(ed: EditorView, s: Seq<char>)
    requires
        forall|i: int| 0 <= i < s.len() ==> printable(#[trigger] s[i]),
    ensures
        feed((ReaderView { editor: ed, mode: ModeView::Ground }), encode_utf8(s)) matches Feed::Waiting(
            t,
        ) && typed(ed, s, t),
    decreases s.len(),
{
    let start = ReaderView { editor: ed, mode: ModeView::Ground };
    if s.len() == 0 {
        assert(ed.before + s == ed.before);
    } else {
        let head = s.drop_last();
        let c = s.last();
        law_typing_inserts(ed, head);
        editor::lemma_encode_last(s);
        law_feed_in_parts(start, encode_utf8(head), encode_scalar(c as u32));
        if let Feed::Waiting(t) = feed(start, encode_utf8(head)) {
            assert(t == (ReaderView { editor: t.editor, mode: ModeView::Ground }));
            lemma_type_char(t.editor, c);
            assert(ed.before + s == (ed.before + head) + seq![c]);
        }
    }
}

/// The enter key gives the line as it stands, wherever the cursor is in it, unless a backslash stands
/// immediately before the cursor; that one gives way to a line feed, and the line goes on.
pub proof fn law_enter_key(ed: EditorView, enter: u8)
    requires
        enter == CR || enter == LF,
    ensures
        feed((ReaderView { editor: ed, mode: ModeView::Ground }), seq![enter]) == (if ed.before.len()
            > 0 && ed.before.last() == '\\' {
            Feed::Waiting(draws(ed.erased_before().inserted(seq!['\n'])).state)
        } else {
            Feed::Finished(LineResultView::Line(ed.text()))
        }),
{
    reveal_with_fuel(feed, 2);
}

/// The backspace key undoes the typing of one character, however many bytes it has.
pub proof fn law_backspace_key_undoes_typing(ed: EditorView, c: char)
    requires
        printable(c),
    ensures
        feed(
            (ReaderView { editor: ed, mode: ModeView::Ground }),
            encode_scalar(c as u32).push(DEL),
        ) matches Feed::Waiting(t) && t.mode == ModeView::Ground && t.editor.before == ed.before
            && t.editor.after == ed.after,
{
    let start = ReaderView { editor: ed, mode: ModeView::Ground };
    let e = encode_scalar(c as u32);
    lemma_type_char(ed, c);
    law_feed_in_parts(start, e, seq![DEL]);
    assert(e + seq![DEL] == e.push(DEL));
    if let Feed::Waiting(t) = feed(start, e) {
        reveal_with_fuel(feed, 2);
        assert(t.editor.before.drop_last() == ed.before);
    }
}

/// A line of printable text that is typed and entered is the line that is read, unless it ends in
/// a backslash.
pub proof fn law_entered_line_is_read(prompt: Seq<char>, s: Seq<char>)
    requires
        forall|i: int| 0 <= i < s.len() ==> printable(#[trigger] s[i]),
        s.len() > 0 ==> s.last() != '\\',
    ensures
        feed(fresh(prompt), encode_utf8(s).push(CR)) == Feed::Finished(LineResultView::Line(s)),
        feed(fresh(prompt), encode_utf8(s).push(LF)) == Feed::Finished(LineResultView::Line(s)),
{
    let start = fresh(prompt);
    law_typing_inserts(start.editor, s);
    if let Feed::Waiting(t) = feed(start, encode_utf8(s)) {
        assert(t.editor.text() == s);
        reveal_with_fuel(feed, 2);
        law_feed_in_parts(start, encode_utf8(s), seq![CR]);
        law_feed_in_parts(start, encode_utf8(s), seq![LF]);
        assert(encode_utf8(s) + seq![CR] == encode_utf8(s).push(CR));
        assert(encode_utf8(s) + seq![LF] == encode_utf8(s).push(LF));
    }
}

/// A backslash at the end of what is entered gives way to a line feed, and the line goes on.
pub proof fn law_backslash_continues_the_line(prompt: Seq<char>, s: Seq<char>, enter: u8)
    requires
        forall|i: int| 0 <= i < s.len() ==> printable(#[trigger] s[i]),
        s.len() > 0,
        s.last() == '\\',
        enter == CR || enter == LF,
    ensures
        feed(fresh(prompt), encode_utf8(s).push(enter)) matches Feed::Waiting(t) && t.mode
            == ModeView::Ground && t.editor.text() == s.drop_last().push('\n')
            && t.editor.after.len() == 0,
{
    let start = fresh(prompt);
    law_typing_inserts(start.editor, s);
    if let Feed::Waiting(t) = feed(start, encode_utf8(s)) {
        assert(t.editor.text() == s);
        assert(t.editor.before == s);
        reveal_with_fuel(feed, 2);
        law_feed_in_parts(start, encode_utf8(s), seq![enter]);
        assert(encode_utf8(s) + seq![enter] == encode_utf8(s).push(enter));
        let next = t.editor.continued();
        assert(next.text() == s.drop_last().push('\n'));
    }
}

/// A character that enters a paste: a carriage return becomes a line feed.
pub open spec fn pasted_char(c: char) -> char {
    if c == '\r' {
        '\n'
    } else {
        c
    }
}

/// The marker that closes a paste, as text.
pub open spec fn end_text() -> Seq<char> {
    seq!['\u{1b}', '[', '2', '0', '1', '~']
}

/// Whether a text ends with the first `m` characters of the marker that closes a paste.
pub open spec fn text_ends_with(s: Seq<char>, m: int) -> bool {
    0 <= m <= s.len() && s.skip(s.len() - m) == end_text().take(m)
}

/// Whether a text ends with the front of the marker that closes a paste.
pub open spec fn text_ends_partly(s: Seq<char>) -> bool {
    exists|m: int| 1 <= m <= 5 && #[trigger] text_ends_with(s, m)
}

/// A text that has entered a paste: a carriage return becomes a line feed, unless it breaks off what
/// began as the marker that closes the paste.
pub open spec fn pasted(s: Seq<char>) -> Seq<char>
    decreases s.len(),
{
    if s.len() == 0 {
        s
    } else {
        pasted(s.drop_last()).push(
            if text_ends_partly(s.drop_last()) {
                s.last()
            } else {
                pasted_char(s.last())
            },
        )
    }
}

/// The bytes with which a terminal opens a paste.
pub open spec fn paste_begin() -> Seq<u8> {
    seq![ESC, BRACKET] + paste_open()
}

/// A byte that does not complete the line, and what follows it.
proof fn lemma_feed_byte(s: ReaderView, b: u8, rest: Seq<u8>)
    ensures
        !(step_of(s, Some(b)).next is Done) ==> feed(s, seq![b] + rest) == feed(
            step_of(s, Some(b)).state,
            rest,
        ),
{
    assert((seq![b] + rest).drop_first() =~= rest);
}

proof fn lemma_paste_opens(ed: EditorView)
    ensures
        feed((ReaderView { editor: ed, mode: ModeView::Ground }), paste_begin()) == Feed::Waiting(
            (ReaderView { editor: ed, mode: ModeView::Paste(Seq::empty(), 0) }),
        ),
{
    let seen = seq![0x32u8];
    let s0 = ReaderView { editor: ed, mode: ModeView::Ground };
    let s1 = ReaderView { editor: ed, mode: ModeView::Escape };
    let s2 = ReaderView { editor: ed, mode: ModeView::Csi };
    let s3 = ReaderView { editor: ed, mode: ModeView::Numeric(seen) };
    let s4 = ReaderView { editor: ed, mode: ModeView::Numeric(seen.push(0x30)) };
    let s5 = ReaderView { editor: ed, mode: ModeView::Numeric(seen.push(0x30).push(0x30)) };
    assert(seen.push(0x30).push(0x30).push(TILDE) =~= paste_open());
    lemma_feed_byte(s5, TILDE, Seq::empty());
    lemma_feed_byte(s4, 0x30, seq![TILDE] + Seq::empty());
    lemma_feed_byte(s3, 0x30, seq![0x30u8] + (seq![TILDE] + Seq::empty()));
    let tail = seq![0x30u8] + (seq![0x30u8] + (seq![TILDE] + Seq::empty()));
    lemma_feed_byte(s2, 0x32, tail);
    lemma_feed_byte(s1, BRACKET, seq![0x32u8] + tail);
    lemma_feed_byte(s0, ESC, seq![BRACKET] + (seq![0x32u8] + tail));
    assert(paste_begin() =~= seq![ESC] + (seq![BRACKET] + (seq![0x32u8] + tail)));
}

/// Whether the marker that closes a paste stands in `t` at position `i`.
pub open spec fn end_at(t: Seq<u8>, i: int) -> bool {
    0 <= i && i + paste_end().len() <= t.len() && t.subrange(i, i + paste_end().len())
        == paste_end()
}

/// Whether `t` holds the marker that closes a paste.
pub open spec fn holds_end(t: Seq<u8>) -> bool {
    exists|i: int| #[trigger] end_at(t, i)
}

/// Whether bytes end with the first `m` bytes of the marker that closes a paste.
spec fn ends_with(t: Seq<u8>, m: int) -> bool {
    0 <= m <= t.len() && t.skip(t.len() - m) == paste_end().take(m)
}

/// Whether bytes end with the front of the marker that closes a paste.
spec fn ends_partly(t: Seq<u8>) -> bool {
    exists|m: int| 1 <= m <= 5 && #[trigger] ends_with(t, m)
}

/// The bytes of a paste once they have come in.
spec fn pasted_bytes(t: Seq<u8>) -> Seq<u8>
    decreases t.len(),
{
    if t.len() == 0 {
        t
    } else {
        pasted_bytes(t.drop_last()).push(
            if ends_partly(t.drop_last()) {
                t.last()
            } else {
                pasted_byte(t.last())
            },
        )
    }
}

/// Bytes end with the front of the marker in one way at most, since the marker holds one escape.
proof fn lemma_one_front(t: Seq<u8>, m: int, n: int)
    requires
        1 <= m < n <= 5,
        ends_with(t, m),
    ensures
        !ends_with(t, n),
{
    if ends_with(t, n) {
        assert(t.skip(t.len() - m)[0] == paste_end().take(m)[0]);
        assert(t.skip(t.len() - n)[n - m] == paste_end().take(n)[n - m]);
        assert(t[t.len() - m] == ESC);
        assert(paste_end()[n - m] != ESC);
    }
}

/// What bytes end with, by their last byte.
proof fn lemma_ends_with_push(t: Seq<u8>, b: u8, m: int)
    requires
        1 <= m <= 6,
    ensures
        ends_with(t.push(b), m) <==> ends_with(t, m - 1) && b == paste_end()[m - 1],
{
    let all = t.push(b);
    assert(paste_end().take(m) == paste_end().take(m - 1).push(paste_end()[m - 1]));
    if m <= all.len() {
        assert(all.skip(all.len() - m) == t.skip(t.len() - (m - 1)).push(b));
        assert(all.skip(all.len() - m).drop_last() == t.skip(t.len() - (m - 1)));
        assert(paste_end().take(m).drop_last() == paste_end().take(m - 1));
        assert(all.skip(all.len() - m).last() == b);
        assert(paste_end().take(m).last() == paste_end()[m - 1]);
    }
}

/// Whether a reader stands in a paste of which `t` has come so far: what it has kept, and what it
/// holds back, with which `t` ends.
spec fn in_paste(ed: EditorView, t: Seq<u8>, s: ReaderView) -> bool {
    &&& s.editor == ed
    &&& s.mode matches ModeView::Paste(paste, seen) && {
        &&& seen < 6
        &&& ends_with(t, seen as int)
        &&& paste + paste_end().take(seen as int) == pasted_bytes(t)
        &&& ends_partly(t) ==> seen > 0
    }
}

/// A byte that does not go on with the front of the marker, and is no escape, ends no such front.
proof fn lemma_front_breaks(t: Seq<u8>, n: int, b: u8)
    requires
        0 <= n <= 5,
        ends_with(t, n),
        ends_partly(t) ==> n > 0,
        b != paste_end()[n],
        b != ESC,
    ensures
        !ends_partly(t.push(b)),
{
    assert forall|m: int| 1 <= m <= 5 implies !#[trigger] ends_with(t.push(b), m) by {
        lemma_ends_with_push(t, b, m);
        if ends_with(t.push(b), m) {
            assert(m > 1);
            assert(ends_partly(t));
            if n < m - 1 {
                lemma_one_front(t, n, m - 1);
            } else if m - 1 < n {
                lemma_one_front(t, m - 1, n);
            }
        }
    }
}

proof fn lemma_paste_byte(ed: EditorView, t: Seq<u8>, s: ReaderView, b: u8)
    requires
        in_paste(ed, t, s),
        !holds_end(t.push(b)),
    ensures
        in_paste(ed, t.push(b), step_of(s, Some(b)).state),
        step_of(s, Some(b)).next == NextView::Read,
{
    let marker = paste_end();
    let all = t.push(b);
    assert(all.drop_last() == t);
    if let ModeView::Paste(paste, seen) = s.mode {
        let n = seen as int;
        let kept = paste + marker.take(n);
        assert(n > 0 ==> ends_partly(t));
        if b == marker[n] {
            lemma_ends_with_push(t, b, n + 1);
            if n == 5 {
                assert(marker.take(6) == marker);
                assert(all.subrange(all.len() - 6, all.len() as int) == all.skip(all.len() - 6));
                assert(end_at(all, all.len() - 6));
            }
            assert(marker.take(n + 1) == marker.take(n).push(b));
            assert(paste + marker.take(n + 1) == kept.push(b));
        } else if b == ESC {
            assert(ends_with(t, 0)) by {
                assert(t.skip(t.len() as int) == marker.take(0));
            }
            lemma_ends_with_push(t, b, 1);
            assert(marker.take(1) == seq![ESC]);
            assert(kept + marker.take(1) == kept.push(b));
        } else {
            lemma_front_breaks(t, n, b);
            let p = kept.push(
                if n > 0 {
                    b
                } else {
                    pasted_byte(b)
                },
            );
            assert(p + marker.take(0) == p);
            assert(all.skip(all.len() as int) == marker.take(0));
        }
    }
}

proof fn lemma_paste_run(ed: EditorView, t: Seq<u8>)
    requires
        !holds_end(t),
    ensures
        feed(
            (ReaderView { editor: ed, mode: ModeView::Paste(Seq::empty(), 0) }),
            t,
        ) matches Feed::Waiting(s) && in_paste(ed, t, s),
    decreases t.len(),
{
    let start = ReaderView { editor: ed, mode: ModeView::Paste(Seq::empty(), 0) };
    if t.len() == 0 {
        assert(Seq::<u8>::empty() + paste_end().take(0) == pasted_bytes(t));
        assert(t.skip(0) == paste_end().take(0));
        assert(ends_with(t, 0));
    } else {
        let head = t.drop_last();
        let b = t.last();
        assert(head.push(b) == t);
        assert(!holds_end(head)) by {
            if holds_end(head) {
                let i = choose|i: int| end_at(head, i);
                assert(t.subrange(i, i + 6) == head.subrange(i, i + 6));
                assert(end_at(t, i));
            }
        }
        lemma_paste_run(ed, head);
        law_feed_in_parts(start, head, seq![b]);
        assert(head + seq![b] == t);
        if let Feed::Waiting(s) = feed(start, head) {
            lemma_paste_byte(ed, head, s, b);
            lemma_feed_byte(s, b, Seq::empty());
            assert(seq![b] + Seq::<u8>::empty() == seq![b]);
        }
    }
}

proof fn lemma_paste_closes(ed: EditorView, paste: Seq<u8>, seen: nat)
    requires
        seen < 6,
    ensures
        feed((ReaderView { editor: ed, mode: ModeView::Paste(paste, seen) }), paste_end())
            == Feed::Waiting(pastes(ed, paste + paste_end().take(seen as int)).state),
{
    let none = Seq::<u8>::empty();
    let kept = paste + paste_end().take(seen as int);
    let s0 = ReaderView { editor: ed, mode: ModeView::Paste(paste, seen) };
    let s1 = ReaderView { editor: ed, mode: ModeView::Paste(kept, 1) };
    let s2 = ReaderView { editor: ed, mode: ModeView::Paste(kept, 2) };
    let s3 = ReaderView { editor: ed, mode: ModeView::Paste(kept, 3) };
    let s4 = ReaderView { editor: ed, mode: ModeView::Paste(kept, 4) };
    let s5 = ReaderView { editor: ed, mode: ModeView::Paste(kept, 5) };
    if seen == 0 {
        assert(kept == paste);
    }
    assert(step_of(s0, Some(ESC)).state == s1);
    lemma_feed_byte(s5, TILDE, none);
    lemma_feed_byte(s4, 0x31, seq![TILDE] + none);
    lemma_feed_byte(s3, 0x30, seq![0x31u8] + (seq![TILDE] + none));
    let tail = seq![0x30u8] + (seq![0x31u8] + (seq![TILDE] + none));
    lemma_feed_byte(s2, 0x32, tail);
    lemma_feed_byte(s1, BRACKET, seq![0x32u8] + tail);
    lemma_feed_byte(s0, ESC, seq![BRACKET] + (seq![0x32u8] + tail));
    assert(paste_end() =~= seq![ESC] + (seq![BRACKET] + (seq![0x32u8] + tail)));
}

/// The bytes of a text end with the front of the marker exactly where the text does.
proof fn lemma_fronts_agree(s: Seq<char>, m: int)
    requires
        0 <= m <= 5,
    ensures
        ends_with(encode_utf8(s), m) <==> text_ends_with(s, m),
    decreases m,
{
    let t = encode_utf8(s);
    editor::lemma_encode_empty(s);
    if m == 0 {
        assert(t.skip(t.len() as int) == paste_end().take(0));
        assert(s.skip(s.len() as int) == end_text().take(0));
    } else if s.len() > 0 {
        let c = end_text()[m - 1];
        let b = paste_end()[m - 1];
        assert(c as u8 == b);
        let head = s.drop_last();
        editor::lemma_last_ascii(s, c);
        assert(t == t.drop_last().push(t.last()));
        lemma_ends_with_push(t.drop_last(), t.last(), m);
        lemma_fronts_agree(head, m - 1);
        assert(text_ends_with(s, m) <==> text_ends_with(head, m - 1) && s.last() == c) by {
            let front = end_text().take(m);
            assert(front == end_text().take(m - 1).push(c));
            if m <= s.len() {
                let back = s.skip(s.len() - m);
                assert(back == head.skip(head.len() - (m - 1)).push(s.last()));
                assert(back.drop_last() == head.skip(head.len() - (m - 1)));
                assert(front.drop_last() == end_text().take(m - 1));
                assert(back.last() == s.last());
                assert(front.last() == c);
            }
        }
    }
}

proof fn lemma_fronts_agree_partly(s: Seq<char>)
    ensures
        ends_partly(encode_utf8(s)) <==> text_ends_partly(s),
{
    if ends_partly(encode_utf8(s)) {
        let m = choose|m: int| 1 <= m <= 5 && #[trigger] ends_with(encode_utf8(s), m);
        lemma_fronts_agree(s, m);
        assert(text_ends_with(s, m));
    }
    if text_ends_partly(s) {
        let m = choose|m: int| 1 <= m <= 5 && #[trigger] text_ends_with(s, m);
        lemma_fronts_agree(s, m);
        assert(ends_with(encode_utf8(s), m));
    }
}

/// Bytes that are no carriage returns are kept in a paste as they are.
proof fn lemma_pasted_rest(t: Seq<u8>, e: Seq<u8>)
    requires
        forall|i: int| 0 <= i < e.len() ==> #[trigger] e[i] != CR,
    ensures
        pasted_bytes(t + e) == pasted_bytes(t) + e,
    decreases e.len(),
{
    if e.len() == 0 {
        assert(t + e == t);
        assert(pasted_bytes(t) + e == pasted_bytes(t));
    } else {
        let front = e.drop_last();
        assert((t + e).drop_last() == t + front);
        assert((t + e).last() == e[e.len() - 1]);
        assert forall|i: int| 0 <= i < front.len() implies #[trigger] front[i] != CR by {
            assert(front[i] == e[i]);
        }
        lemma_pasted_rest(t, front);
        assert(pasted_bytes(t) + e == (pasted_bytes(t) + front).push(e.last()));
    }
}

proof fn lemma_pasted_text(s: Seq<char>)
    ensures
        pasted_bytes(encode_utf8(s)) == encode_utf8(pasted(s)),
    decreases s.len(),
{
    if s.len() == 0 {
        assert(encode_utf8(s) =~= Seq::<u8>::empty());
    } else {
        let head = s.drop_last();
        let c = s.last();
        let t = encode_utf8(head);
        let e = encode_scalar(c as u32);
        lemma_pasted_text(head);
        editor::lemma_encode_last(s);
        editor::lemma_encode_last(pasted(s));
        assert(pasted(s).drop_last() == pasted(head));
        lemma_bytes_of_char(c);
        if c == '\r' {
            lemma_bytes_of_char('\n');
            lemma_fronts_agree_partly(head);
            assert(e == seq![CR]);
            assert((t + e).drop_last() == t);
            assert(pasted_bytes(t + e) == pasted_bytes(t).push(
                if ends_partly(t) {
                    CR
                } else {
                    LF
                },
            ));
            let f = encode_scalar(pasted(s).last() as u32);
            assert(pasted_bytes(t) + f == pasted_bytes(t + e));
        } else {
            if '\u{80}' > c {
                assert(c as u8 != CR) by {
                    char_u32_cast(c, c as u32);
                }
            }
            lemma_pasted_rest(t, e);
        }
    }
}

/// Where a text holds no escape, each carriage return of it becomes a line feed in a paste.
pub proof fn law_paste_without_escape(s: Seq<char>)
    requires
        forall|i: int| 0 <= i < s.len() ==> #[trigger] s[i] != '\u{1b}',
    ensures
        pasted(s) == s.map_values(|c: char| pasted_char(c)),
    decreases s.len(),
{
    if s.len() > 0 {
        let head = s.drop_last();
        law_paste_without_escape(head);
        assert(!text_ends_partly(head)) by {
            if text_ends_partly(head) {
                let m = choose|m: int| 1 <= m <= 5 && #[trigger] text_ends_with(head, m);
                assert(head.skip(head.len() - m)[0] == end_text().take(m)[0]);
                assert(s[head.len() - m] == '\u{1b}');
            }
        }
        assert(pasted(s) == s.map_values(|c: char| pasted_char(c)));
    }
}

/// A paste is collected until its end marker, and inserted whole at the cursor; none of its
/// characters acts as a key, other control sequences in it are kept, and its carriage returns become
/// line feeds but for those that break off what began as the marker.
pub proof fn law_paste_is_inserted(ed: EditorView, s: Seq<char>)
    requires
        !holds_end(encode_utf8(s)),
    ensures
        feed(
            (ReaderView { editor: ed, mode: ModeView::Ground }),
            paste_begin() + encode_utf8(s) + paste_end(),
        ) == Feed::Waiting(
            (ReaderView { editor: ed.inserted(pasted(s)).redrawn(), mode: ModeView::Ground }),
        ),
{
    let start = ReaderView { editor: ed, mode: ModeView::Ground };
    let t = encode_utf8(s);
    lemma_paste_opens(ed);
    lemma_paste_run(ed, t);
    law_feed_in_parts(start, paste_begin(), t);
    law_feed_in_parts(start, paste_begin() + t, paste_end());
    if let Feed::Waiting(r) = feed(start, paste_begin() + t) {
        if let ModeView::Paste(paste, seen) = r.mode {
            lemma_paste_closes(ed, paste, seen);
            lemma_pasted_text(s);
            editor::lemma_encode_decode(pasted(s));
        }
    }
}

proof fn lemma_feed_csi(ed: EditorView, rest: Seq<u8>)
    ensures
        feed(
            (ReaderView { editor: ed, mode: ModeView::Ground }),
            seq![ESC, BRACKET] + rest,
        ) == feed((ReaderView { editor: ed, mode: ModeView::Csi }), rest),
{
    let start = ReaderView { editor: ed, mode: ModeView::Ground };
    lemma_feed_byte(start, ESC, seq![BRACKET] + rest);
    lemma_feed_byte((ReaderView { editor: ed, mode: ModeView::Escape }), BRACKET, rest);
    assert(seq![ESC, BRACKET] + rest =~= seq![ESC] + (seq![BRACKET] + rest));
}

/// The arrow keys move the cursor by one character, the delete key erases the one behind it, and
/// each draws the text anew; at the end of the text in their direction they do nothing.
pub proof fn law_cursor_keys(ed: EditorView)
    ensures
        ({
            let start = ReaderView { editor: ed, mode: ModeView::Ground };
            let left = seq![ESC, BRACKET] + seq!['D' as u8];
            let right = seq![ESC, BRACKET] + seq!['C' as u8];
            let delete = seq![ESC, BRACKET] + seq!['3' as u8, TILDE];
            &&& feed(start, left) == Feed::Waiting(
                if ed.before.len() > 0 {
                    draws(ed.moved_left()).state
                } else {
                    start
                },
            )
            &&& feed(start, right) == Feed::Waiting(
                if ed.after.len() > 0 {
                    draws(ed.moved_right()).state
                } else {
                    start
                },
            )
            &&& feed(start, delete) == Feed::Waiting(
                if ed.after.len() > 0 {
                    draws(ed.erased_after()).state
                } else {
                    start
                },
            )
        }),
{
    let none = Seq::<u8>::empty();
    let csi = ReaderView { editor: ed, mode: ModeView::Csi };
    lemma_feed_csi(ed, seq!['D' as u8]);
    lemma_feed_csi(ed, seq!['C' as u8]);
    lemma_feed_csi(ed, seq!['3' as u8, TILDE]);
    lemma_feed_byte(csi, 'D' as u8, none);
    lemma_feed_byte(csi, 'C' as u8, none);
    lemma_feed_byte(csi, '3' as u8, seq![TILDE]);
    lemma_feed_byte((ReaderView { editor: ed, mode: ModeView::Delete }), TILDE, none);
    assert(seq!['D' as u8] + none =~= seq!['D' as u8]);
    assert(seq!['C' as u8] + none =~= seq!['C' as u8]);
    assert(seq![TILDE] + none =~= seq![TILDE]);
    assert(seq!['3' as u8] + seq![TILDE] =~= seq!['3' as u8, TILDE]);
}

/// Whether a reader knows what is on the screen: the line on which it takes the cursor to stand is
/// the one where it belongs. A character that has begun does so with its leading byte, and wants
/// the bytes that this tells.
pub open spec fn settled(s: ReaderView) -> bool {
    &&& s.editor.cursor_line == editor::newlines(s.editor.before)
    &&& s.mode matches ModeView::Utf8(seen, left) ==> {
        &&& seen.len() > 0
        &&& seen[0] >= SPACE
        &&& left > 0
        &&& seen.len() + left == editor::seq_len(seen[0])
    }
}

/// Bytes that are at most one character, and no control character, hold no line feed.
pub proof fn lemma_no_newline(bytes: Seq<u8>)
    requires
        valid_utf8(bytes),
        bytes.len() > 0,
        bytes[0] >= SPACE,
        bytes.len() <= editor::seq_len(bytes[0]),
    ensures
        editor::newlines(decode_utf8(bytes)) == 0,
{
    let s = decode_utf8(bytes);
    decode_utf8_encode_utf8(bytes);
    editor::lemma_encode_empty(s);
    editor::lemma_encode_first(s);
    editor::lemma_char_bytes(s[0]);
    editor::lemma_encode_empty(s.drop_first());
    lemma_bytes_of_char('\n');
    assert(bytes[0] == encode_scalar(s[0] as u32)[0]);
    assert(s.drop_first().len() == 0);
    assert(s == seq![s[0]]);
    assert(s.drop_last() == Seq::<char>::empty());
    reveal_with_fuel(editor::newlines, 2);
}

proof fn lemma_types_settled(ed: EditorView, bytes: Seq<u8>)
    requires
        ed.cursor_line == editor::newlines(ed.before),
        bytes.len() > 0,
        bytes[0] >= SPACE,
        bytes.len() <= editor::seq_len(bytes[0]),
    ensures
        settled(types(ed, bytes).state),
{
    if valid_utf8(bytes) {
        let s = decode_utf8(bytes);
        lemma_no_newline(bytes);
        editor::lemma_newlines_concat(ed.before, s);
    }
}

/// Whatever is read, and wherever the reading fails, the reader keeps knowing on which line of the
/// screen the cursor stands.
pub proof fn law_cursor_line_is_known(s: ReaderView, input: Option<u8>, prompt: Seq<char>)
    requires
        settled(s),
    ensures
        settled(fresh(prompt)),
        settled(step_of(s, input).state),
{
    match s.mode {
        ModeView::Ground => {
            if let Some(b) = input {
                if b >= SPACE {
                    lemma_types_settled(s.editor, seq![b]);
                }
            }
        },
        ModeView::Utf8(seen, left) => {
            lemma_types_settled(s.editor, seen);
            if let Some(c) = input {
                lemma_types_settled(s.editor, seen.push(c));
            }
        },
        _ => {},
    }
}

/// Once the input fails for good, the reader ends, from any state, within three reads.
pub proof fn law_failed_input_ends_the_line(s: ReaderView)
    requires
        s.mode matches ModeView::Paste(_, seen) ==> seen < paste_end().len(),
    ensures
        ({
            let one = step_of(s, None);
            let two = step_of(one.state, None);
            let three = step_of(two.state, None);
            ||| one.next == NextView::Done(LineResultView::Eof)
            ||| two.next == NextView::Done(LineResultView::Eof)
            ||| three.next == NextView::Done(LineResultView::Eof)
        }),
{
    if let ModeView::Numeric(seen) = s.mode {
        assert(seen.push(0).last() == 0);
        assert(paste_open().last() == TILDE);
    }
}

// ── What keys do to the text ─────────────────────────────────────────────────

/// Whether a reader stands between two keys, with this text before and behind the cursor, and the
/// prompt that it had.
pub open spec fn holds(r: Feed, prompt: Seq<char>, before: Seq<char>, after: Seq<char>) -> bool {
    r matches Feed::Waiting(t) && {
        &&& t.mode == ModeView::Ground
        &&& t.editor.before == before
        &&& t.editor.after == after
        &&& t.editor.prompt == prompt
    }
}

/// Either erasing key takes off the last character before the cursor, if there is one, and leaves all
/// else of the text as it is.
pub proof fn law_erasing_keys(ed: EditorView, key: u8)
    requires
        key == 0x7F || key == 0x08,
    ensures
        forall|before: Seq<char>, c: char|
            ed.before == #[trigger] before.push(c) ==> holds(
                feed((ReaderView { editor: ed, mode: ModeView::Ground }), seq![key]),
                ed.prompt,
                before,
                ed.after,
            ),
        ed.before.len() == 0 ==> feed(
            (ReaderView { editor: ed, mode: ModeView::Ground }),
            seq![key],
        ) == Feed::Waiting((ReaderView { editor: ed, mode: ModeView::Ground })),
{
    reveal_with_fuel(feed, 2);
    assert forall|before: Seq<char>, c: char| ed.before == #[trigger] before.push(c) implies holds(
        feed((ReaderView { editor: ed, mode: ModeView::Ground }), seq![key]),
        ed.prompt,
        before,
        ed.after,
    ) by {
        assert(ed.before.drop_last() == before);
    }
}

/// The left key takes the last character before the cursor behind it, the right key the first one
/// behind it before it, and the delete key takes that one off. Each leaves the rest of the text as it
/// is, and does nothing where there is no such character.
pub proof fn law_cursor_keys_by_character(ed: EditorView, rest: Seq<char>, c: char)
    ensures
        ({
            let start = ReaderView { editor: ed, mode: ModeView::Ground };
            let left = feed(start, seq![0x1B, 0x5B, 0x44]);
            let right = feed(start, seq![0x1B, 0x5B, 0x43]);
            let delete = feed(start, seq![0x1B, 0x5B, 0x33, 0x7E]);
            &&& ed.before == rest.push(c) ==> holds(left, ed.prompt, rest, seq![c] + ed.after)
            &&& ed.after == seq![c] + rest ==> holds(right, ed.prompt, ed.before.push(c), rest)
            &&& ed.after == seq![c] + rest ==> holds(delete, ed.prompt, ed.before, rest)
            &&& ed.before.len() == 0 ==> left == Feed::Waiting(start)
            &&& ed.after.len() == 0 ==> right == Feed::Waiting(start)
            &&& ed.after.len() == 0 ==> delete == Feed::Waiting(start)
        }),
{
    law_cursor_keys(ed);
    assert(seq![ESC, BRACKET] + seq!['D' as u8] == seq![0x1Bu8, 0x5B, 0x44]);
    assert(seq![ESC, BRACKET] + seq!['C' as u8] == seq![0x1Bu8, 0x5B, 0x43]);
    assert(seq![ESC, BRACKET] + seq!['3' as u8, TILDE] == seq![0x1Bu8, 0x5B, 0x33, 0x7E]);
    if ed.before == rest.push(c) {
        assert(ed.before.drop_last() == rest);
        assert(ed.before.last() == c);
    }
    if ed.after == seq![c] + rest {
        assert(ed.after.drop_first() == rest);
        assert(ed.after[0] == c);
    }
}

/// Ctrl-C ends the reading of a line whatever it holds. Ctrl-D ends it where it is empty, and does
/// nothing elsewhere; so does the end of the input, wherever it comes between two keys.
pub proof fn law_control_keys(ed: EditorView)
    ensures
        ({
            let start = ReaderView { editor: ed, mode: ModeView::Ground };
            &&& feed(start, seq![0x03]) == Feed::Finished(LineResultView::Interrupted)
            &&& ed.before.len() + ed.after.len() == 0 ==> feed(start, seq![0x04])
                == Feed::Finished(LineResultView::Eof)
            &&& ed.before.len() + ed.after.len() > 0 ==> feed(start, seq![0x04]) == Feed::Waiting(
                start,
            )
            &&& step_of(start, None).next == NextView::Done(LineResultView::Eof)
        }),
{
    reveal_with_fuel(feed, 2);
    assert(seq![CTRL_C] == seq![0x03u8]);
    assert(seq![CTRL_D] == seq![0x04u8]);
}

/// A step completes the line only with a carriage return and a line feed written, and with the text as
/// it stood; what is given as the line is all of the text. Only escape asks for a byte at once.
pub proof fn law_end_of_line(s: ReaderView, input: Option<u8>)
    ensures
        ({
            let r = step_of(s, input);
            &&& r.next is Done ==> r.output == seq!['\r', '\n'] && r.state.editor == s.editor
            &&& r.next matches NextView::Done(LineResultView::Line(l)) ==> l == s.editor.before
                + s.editor.after
            &&& r.next is Done ==> s.mode is Ground
            &&& r.next is ReadSoon <==> s.mode is Ground && input == Some(0x1Bu8)
        }),
{
    reveal_strlit("\r\n");
    assert("\r\n"@ == seq!['\r', '\n']);
}

/// Control bytes that are no key, and escape with what is no key, change nothing.
pub proof fn law_other_keys_do_nothing(ed: EditorView, b: u8)
    ensures
        ({
            let start = ReaderView { editor: ed, mode: ModeView::Ground };
            &&& b < 0x20 && b != 0x03 && b != 0x04 && b != 0x08 && b != 0x0A && b != 0x0D && b
                != 0x1B ==> feed(start, seq![b]) == Feed::Waiting(start)
            &&& b != 0x5B ==> feed(start, seq![0x1B, b]) == Feed::Waiting(start)
            &&& !(0x32 <= b <= 0x39) && b != 0x43 && b != 0x44 ==> feed(start, seq![0x1B, 0x5B, b])
                == Feed::Waiting(start)
            &&& step_of(step_of(start, Some(0x1Bu8)).state, None).state == start
        }),
{
    let start = ReaderView { editor: ed, mode: ModeView::Ground };
    reveal_with_fuel(feed, 2);
    assert(seq![0x1Bu8, b] == seq![ESC] + seq![b]);
    lemma_feed_byte(start, ESC, seq![b]);
    lemma_feed_csi(ed, seq![b]);
    assert(seq![0x1Bu8, 0x5B, b] == seq![ESC, BRACKET] + seq![b]);
    lemma_feed_byte((ReaderView { editor: ed, mode: ModeView::Csi }), b, Seq::empty());
    assert(seq![b] + Seq::<u8>::empty() == seq![b]);
}

/// Whether bytes hold none that ends a numeric control sequence.
pub open spec fn goes_on(t: Seq<u8>) -> bool {
    forall|i: int| 0 <= i < t.len() ==> (#[trigger] t[i]) != 0x7E && t[i] != 0
}

proof fn lemma_skip_run(ed: EditorView, t: Seq<u8>)
    requires
        goes_on(t),
    ensures
        feed((ReaderView { editor: ed, mode: ModeView::Skip }), t.push(0x7E)) == Feed::Waiting(
            (ReaderView { editor: ed, mode: ModeView::Ground }),
        ),
    decreases t.len(),
{
    let s = ReaderView { editor: ed, mode: ModeView::Skip };
    if t.len() == 0 {
        reveal_with_fuel(feed, 2);
        assert(t.push(0x7E) == seq![0x7Eu8]);
    } else {
        let rest = t.drop_first();
        assert forall|i: int| 0 <= i < rest.len() implies (#[trigger] rest[i]) != 0x7E && rest[i]
            != 0 by {
            assert(rest[i] == t[i + 1]);
        }
        assert(t[0] != 0x7E && t[0] != 0);
        lemma_skip_run(ed, rest);
        lemma_feed_byte(s, t[0], rest.push(0x7E));
        assert(t.push(0x7E) == seq![t[0]] + rest.push(0x7E));
    }
}

proof fn lemma_numeric_run(ed: EditorView, seen: Seq<u8>, t: Seq<u8>)
    requires
        goes_on(t),
        (seen + t).push(0x7E) != seq![0x32u8, 0x30, 0x30, 0x7E],
    ensures
        feed((ReaderView { editor: ed, mode: ModeView::Numeric(seen) }), t.push(0x7E))
            == Feed::Waiting((ReaderView { editor: ed, mode: ModeView::Ground })),
    decreases t.len(),
{
    let s = ReaderView { editor: ed, mode: ModeView::Numeric(seen) };
    if t.len() == 0 {
        reveal_with_fuel(feed, 2);
        assert(seen + t == seen);
        assert(t.push(0x7E) == seq![0x7Eu8]);
    } else {
        let rest = t.drop_first();
        assert forall|i: int| 0 <= i < rest.len() implies (#[trigger] rest[i]) != 0x7E && rest[i]
            != 0 by {
            assert(rest[i] == t[i + 1]);
        }
        assert(t[0] != 0x7E && t[0] != 0);
        assert(seen.push(t[0]) + rest == seen + t);
        lemma_numeric_run(ed, seen.push(t[0]), rest);
        lemma_feed_byte(s, t[0], rest.push(0x7E));
        assert(t.push(0x7E) == seq![t[0]] + rest.push(0x7E));
    }
}

/// A numeric control sequence that begins with a digit from four on, or with a two and does not open
/// a paste, is passed over up to its end, however long it is.
pub proof fn law_numeric_sequences_are_passed_over(ed: EditorView, digit: u8, t: Seq<u8>)
    requires
        digit == 0x32 || 0x34 <= digit <= 0x39,
        goes_on(t),
        !(digit == 0x32 && t == seq![0x30u8, 0x30]),
    ensures
        feed(
            (ReaderView { editor: ed, mode: ModeView::Ground }),
            seq![0x1B, 0x5B, digit] + t + seq![0x7E],
        ) == Feed::Waiting((ReaderView { editor: ed, mode: ModeView::Ground })),
{
    let body = t.push(0x7E);
    let csi = ReaderView { editor: ed, mode: ModeView::Csi };
    assert(seq![0x1B, 0x5B, digit] + t + seq![0x7E] == seq![ESC, BRACKET] + (seq![digit] + body));
    lemma_feed_csi(ed, seq![digit] + body);
    lemma_feed_byte(csi, digit, body);
    if digit == 0x32 {
        let whole = (seq![digit] + t).push(0x7E);
        if whole == seq![0x32u8, 0x30, 0x30, 0x7E] {
            assert(whole[1] == 0x30 && whole[2] == 0x30);
            assert(t == seq![0x30u8, 0x30]);
        }
        lemma_numeric_run(ed, seq![digit], t);
    } else {
        lemma_skip_run(ed, t);
    }
}

/// The bytes of a typed character that are no UTF-8 are dropped, and the text stays as it is.
pub proof fn law_invalid_characters_are_dropped(ed: EditorView, bytes: Seq<u8>)
    requires
        bytes.len() > 1,
        bytes[0] >= 0x80,
        bytes.len() == editor::seq_len(bytes[0]),
        !valid_utf8(bytes),
    ensures
        feed((ReaderView { editor: ed, mode: ModeView::Ground }), bytes) == Feed::Waiting(
            (ReaderView { editor: ed, mode: ModeView::Ground }),
        ),
{
    reveal_with_fuel(feed, 5);
    let s = ReaderView { editor: ed, mode: ModeView::Ground };
    let s1 = ReaderView {
        editor: ed,
        mode: ModeView::Utf8(seq![bytes[0]], (bytes.len() - 1) as nat),
    };
    assert(step_of(s, Some(bytes[0])).state == s1);
    if bytes.len() == 2 {
        assert(seq![bytes[0]].push(bytes[1]) == bytes);
    } else if bytes.len() == 3 {
        assert(seq![bytes[0]].push(bytes[1]).push(bytes[2]) == bytes);
    } else {
        assert(seq![bytes[0]].push(bytes[1]).push(bytes[2]).push(bytes[3]) == bytes);
    }
}

/// What was pasted stands before the cursor, behind what stood there, and all else of the text is as it
/// was. Of the pasted text only carriage returns change, into line feeds, and all of them do where it
/// holds no escape.
pub proof fn law_paste_goes_before_the_cursor(ed: EditorView, s: Seq<char>)
    requires
        !holds_end(encode_utf8(s)),
    ensures
        holds(
            feed(
                (ReaderView { editor: ed, mode: ModeView::Ground }),
                seq![0x1B, 0x5B, 0x32, 0x30, 0x30, 0x7E] + encode_utf8(s) + seq![
                    0x1B,
                    0x5B,
                    0x32,
                    0x30,
                    0x31,
                    0x7E,
                ],
            ),
            ed.prompt,
            ed.before + pasted(s),
            ed.after,
        ),
        pasted(s).len() == s.len(),
        forall|i: int|
            0 <= i < s.len() ==> #[trigger] pasted(s)[i] == s[i] || (s[i] == '\r' && pasted(s)[i]
                == '\n'),
        (forall|i: int| 0 <= i < s.len() ==> #[trigger] s[i] != '\u{1b}') ==> forall|i: int|
            0 <= i < s.len() && s[i] == '\r' ==> #[trigger] pasted(s)[i] == '\n',
{
    law_paste_is_inserted(ed, s);
    assert(paste_begin() == seq![0x1Bu8, 0x5B, 0x32, 0x30, 0x30, 0x7E]);
    assert(paste_end() == seq![0x1Bu8, 0x5B, 0x32, 0x30, 0x31, 0x7E]);
    lemma_pasted_chars(s);
    if forall|i: int| 0 <= i < s.len() ==> #[trigger] s[i] != '\u{1b}' {
        law_paste_without_escape(s);
    }
}

proof fn lemma_pasted_chars(s: Seq<char>)
    ensures
        pasted(s).len() == s.len(),
        forall|i: int|
            0 <= i < s.len() ==> #[trigger] pasted(s)[i] == s[i] || (s[i] == '\r' && pasted(s)[i]
                == '\n'),
    decreases s.len(),
{
    if s.len() > 0 {
        lemma_pasted_chars(s.drop_last());
        assert forall|i: int| 0 <= i < s.len() implies #[trigger] pasted(s)[i] == s[i] || (s[i]
            == '\r' && pasted(s)[i] == '\n') by {
            if i < s.len() - 1 {
                assert(pasted(s)[i] == pasted(s.drop_last())[i]);
            }
        }
    }
}

/// A paste of valid UTF-8, whatever characters are in it, is drawn at once when its end has come: the
/// byte that completes its end marker is answered with the drawing of the text with all of it. Bytes
/// that are no UTF-8 change nothing.
pub proof fn law_paste_is_drawn(ed: EditorView, paste: Seq<u8>)
    ensures
        ({
            let r = step_of(
                (ReaderView { editor: ed, mode: ModeView::Paste(paste, 5) }),
                Some(0x7Eu8),
            );
            let new = EditorView { before: ed.before + decode_utf8(paste), ..ed };
            &&& r.next is Read
            &&& r.state.mode == ModeView::Ground
            &&& valid_utf8(paste) ==> r.output == new.frame() && r.state.editor.before == new.before
                && r.state.editor.after == ed.after && r.output.len() > 0
            &&& !valid_utf8(paste) ==> r.output.len() == 0 && r.state.editor == ed
        }),
{
    let new = EditorView { before: ed.before + decode_utf8(paste), ..ed };
    assert(paste_end()[5] == TILDE);
    editor::lemma_frame_not_empty(new);
}

} // verus!
