//! What a terminal shows of what is written to it, and that the line editor's text and cursor are
//! always what it shows.
use vstd::prelude::*;
use vstd::utf8::*;

use crate::editor;
use crate::editor::{EditorView, Stroke};
use crate::input;
use crate::input::{ModeView, NextView, ReaderView};
use crate::text;

verus! {

// ── The terminal ─────────────────────────────────────────────────────────────

/// Where a terminal stands in a control sequence.
pub enum Sequence {
    /// In none.
    Outside,
    /// After escape.
    Begun,
    /// After escape and `[`, with the parameters so far.
    Parameters(Seq<char>),
}

/// A terminal: the characters on its screen by row and column, the place of its cursor, and where it
/// stands in a control sequence. Row zero is any row of the screen, and rows count downwards.
pub struct Screen {
    pub cells: spec_fn(int, int) -> Option<char>,
    pub row: int,
    pub col: int,
    pub sequence: Sequence,
}

/// An empty screen.
pub open spec fn blank() -> Screen {
    Screen { cells: |r: int, c: int| None, row: 0, col: 0, sequence: Sequence::Outside }
}

/// The terminal after a character has been put at the cursor. A wide one covers the next column too.
pub open spec fn put(s: Screen, ch: char) -> Screen {
    Screen {
        cells: |r: int, c: int|
            if r == s.row && c == s.col {
                Some(ch)
            } else if r == s.row && c == s.col + 1 && editor::columns(ch) == 2 {
                Some(' ')
            } else {
                (s.cells)(r, c)
            },
        col: s.col + editor::columns(ch),
        ..s
    }
}

/// The terminal after a control sequence: `A` goes up, `D` goes left, `J` clears from the cursor on,
/// and `2K` clears the line. Any other, such as the colours of `m`, changes nothing here.
pub open spec fn controlled(s: Screen, parameters: Seq<char>, last: char) -> Screen {
    let n = if parameters.len() == 0 {
        1
    } else {
        text::number(parameters)
    };
    let t = Screen { sequence: Sequence::Outside, ..s };
    if last == 'A' {
        Screen { row: s.row - n, ..t }
    } else if last == 'D' {
        Screen { col: s.col - n, ..t }
    } else if last == 'J' && parameters.len() == 0 {
        Screen {
            cells: |r: int, c: int|
                if r > s.row || (r == s.row && c >= s.col) {
                    None
                } else {
                    (s.cells)(r, c)
                },
            ..t
        }
    } else if last == 'K' && parameters == seq!['2'] {
        Screen {
            cells: |r: int, c: int|
                if r == s.row {
                    None
                } else {
                    (s.cells)(r, c)
                },
            ..t
        }
    } else {
        t
    }
}

/// The terminal after one character has been written to it in raw mode.
pub open spec fn wrote(s: Screen, c: char) -> Screen {
    match s.sequence {
        Sequence::Outside => if c == '\u{1b}' {
            Screen { sequence: Sequence::Begun, ..s }
        } else if c == '\r' {
            Screen { col: 0, ..s }
        } else if c == '\n' {
            Screen { row: s.row + 1, ..s }
        } else {
            put(s, c)
        },
        Sequence::Begun => Screen {
            sequence: if c == '[' {
                Sequence::Parameters(Seq::empty())
            } else {
                Sequence::Outside
            },
            ..s
        },
        Sequence::Parameters(p) => if text::is_digit(c) || c == ';' {
            Screen { sequence: Sequence::Parameters(p.push(c)), ..s }
        } else {
            controlled(s, p, c)
        },
    }
}

/// The terminal after an output has been written to it.
pub open spec fn run(s: Screen, output: Seq<char>) -> Screen
    decreases output.len(),
{
    if output.len() == 0 {
        s
    } else {
        wrote(run(s, output.drop_last()), output.last())
    }
}

/// A text that a terminal shows as it is: no control characters but line feeds.
pub open spec fn plain(s: Seq<char>) -> bool {
    forall|i: int| 0 <= i < s.len() ==> (#[trigger] s[i]) == '\n' || input::printable(s[i])
}

/// The terminal after plain text has been laid out on its lines, from the cursor on.
pub open spec fn laid(s: Screen, t: Seq<char>) -> Screen
    decreases t.len(),
{
    if t.len() == 0 {
        s
    } else {
        let p = laid(s, t.drop_last());
        if t.last() == '\n' {
            Screen { row: p.row + 1, col: 0, ..p }
        } else {
            put(p, t.last())
        }
    }
}

/// Whether a character only shows, or is part of a control sequence that sets colours.
pub open spec fn calm_char(sequence: Sequence, c: char) -> bool {
    match sequence {
        Sequence::Outside => c == '\u{1b}' || input::printable(c),
        Sequence::Begun => c == '[',
        Sequence::Parameters(_) => text::is_digit(c) || c == ';' || c == 'm',
    }
}

/// Whether an output only shows characters on its line and sets colours, all but for the end of a
/// control sequence.
pub open spec fn calm_so_far(s: Seq<char>) -> bool
    decreases s.len(),
{
    s.len() > 0 ==> calm_so_far(s.drop_last()) && calm_char(
        run(blank(), s.drop_last()).sequence,
        s.last(),
    )
}

/// Whether an output only shows characters on its line and sets colours.
pub open spec fn calm(s: Seq<char>) -> bool {
    calm_so_far(s) && run(blank(), s).sequence == Sequence::Outside
}

/// Whether two terminals have their cursors at one place and show the same from row zero on.
pub open spec fn alike(a: Screen, b: Screen) -> bool {
    &&& a.row == b.row
    &&& a.col == b.col
    &&& a.sequence == b.sequence
    &&& forall|r: int, c: int| r >= 0 && c >= 0 ==> #[trigger] (a.cells)(r, c) == (b.cells)(r, c)
}

/// Whether a terminal shows an editor, with its prompt at the front of row zero: on the screen stands
/// what writing the prompt and laying out the text on an empty screen gives, nothing else, and the
/// cursor is where laying out the text before it leaves it.
pub open spec fn shows(s: Screen, ed: EditorView) -> bool {
    let prompt = run(blank(), ed.prompt);
    &&& s.sequence == Sequence::Outside
    &&& s.row == laid(prompt, ed.before).row
    &&& s.col == laid(prompt, ed.before).col
    &&& forall|r: int, c: int|
        r >= 0 && c >= 0 ==> #[trigger] (s.cells)(r, c) == (laid(
            prompt,
            ed.before + ed.after,
        ).cells)(r, c)
}

// ── How outputs act ──────────────────────────────────────────────────────────

pub proof fn lemma_run_concat(s: Screen, a: Seq<char>, b: Seq<char>)
    ensures
        run(s, a + b) == run(run(s, a), b),
    decreases b.len(),
{
    if b.len() == 0 {
        assert(a + b == a);
    } else {
        assert((a + b).drop_last() == a + b.drop_last());
        lemma_run_concat(s, a, b.drop_last());
    }
}

pub proof fn lemma_run_one(s: Screen, c: char)
    ensures
        run(s, seq![c]) == wrote(s, c),
{
    assert(seq![c].drop_last() == Seq::<char>::empty());
    assert(run(s, Seq::<char>::empty()) == s);
}

proof fn lemma_run_alike(a: Screen, b: Screen, output: Seq<char>)
    requires
        alike(a, b),
    ensures
        alike(run(a, output), run(b, output)),
    decreases output.len(),
{
    if output.len() > 0 {
        lemma_run_alike(a, b, output.drop_last());
    }
}

proof fn lemma_laid_alike(a: Screen, b: Screen, t: Seq<char>)
    requires
        alike(a, b),
    ensures
        alike(laid(a, t), laid(b, t)),
    decreases t.len(),
{
    if t.len() > 0 {
        lemma_laid_alike(a, b, t.drop_last());
    }
}

proof fn lemma_run_sequence(a: Screen, b: Screen, output: Seq<char>)
    requires
        a.sequence == b.sequence,
    ensures
        run(a, output).sequence == run(b, output).sequence,
    decreases output.len(),
{
    if output.len() > 0 {
        lemma_run_sequence(a, b, output.drop_last());
    }
}

proof fn lemma_laid_concat(s: Screen, a: Seq<char>, b: Seq<char>)
    ensures
        laid(s, a + b) == laid(laid(s, a), b),
    decreases b.len(),
{
    if b.len() == 0 {
        assert(a + b == a);
    } else {
        assert((a + b).drop_last() == a + b.drop_last());
        lemma_laid_concat(s, a, b.drop_last());
    }
}

proof fn lemma_laid_place(s: Screen, t: Seq<char>)
    ensures
        laid(s, t).row == editor::printed((editor::Spot { row: s.row, col: s.col }), t).row,
        laid(s, t).col == editor::printed((editor::Spot { row: s.row, col: s.col }), t).col,
        laid(s, t).sequence == s.sequence,
    decreases t.len(),
{
    if t.len() > 0 {
        lemma_laid_place(s, t.drop_last());
    }
}

/// Laying out text changes nothing above the cursor's line, nor before the cursor on it.
proof fn lemma_laid_keeps(s: Screen, t: Seq<char>)
    ensures
        laid(s, t).row >= s.row,
        laid(s, t).row == s.row ==> laid(s, t).col >= s.col,
        laid(s, t).row > s.row ==> laid(s, t).col >= 0,
        forall|r: int, c: int|
            r < s.row || (r == s.row && c < s.col) ==> #[trigger] (laid(s, t).cells)(r, c) == (
            s.cells)(r, c),
    decreases t.len(),
{
    if t.len() > 0 {
        lemma_laid_keeps(s, t.drop_last());
    }
}

/// Writing plain text, with a carriage return before each line feed, lays it out.
proof fn lemma_run_text(s: Screen, t: Seq<char>)
    requires
        plain(t),
        s.sequence == Sequence::Outside,
    ensures
        run(s, editor::crlf(t)) == laid(s, t),
    decreases t.len(),
{
    if t.len() > 0 {
        let head = t.drop_last();
        let c = t.last();
        assert(plain(head)) by {
            assert forall|i: int| 0 <= i < head.len() implies (#[trigger] head[i]) == '\n'
                || input::printable(head[i]) by {
                assert(head[i] == t[i]);
            }
        }
        assert(c == t[t.len() - 1]);
        lemma_run_text(s, head);
        lemma_laid_place(s, head);
        if c == '\n' {
            reveal_strlit("\r\n");
            assert("\r\n"@ == seq!['\r'] + seq!['\n']);
            lemma_run_concat(s, editor::crlf(head), "\r\n"@);
            lemma_run_concat(laid(s, head), seq!['\r'], seq!['\n']);
            lemma_run_one(laid(s, head), '\r');
            lemma_run_one(wrote(laid(s, head), '\r'), '\n');
        } else {
            assert(editor::crlf(t).drop_last() == editor::crlf(head));
        }
    }
}

proof fn lemma_run_digits(s: Screen, p: Seq<char>, digits: Seq<char>)
    requires
        s.sequence == Sequence::Parameters(p),
        forall|i: int| 0 <= i < digits.len() ==> text::is_digit(#[trigger] digits[i]),
    ensures
        run(s, digits) == (Screen { sequence: Sequence::Parameters(p + digits), ..s }),
    decreases digits.len(),
{
    if digits.len() == 0 {
        assert(p + digits == p);
    } else {
        let head = digits.drop_last();
        assert forall|i: int| 0 <= i < head.len() implies text::is_digit(#[trigger] head[i]) by {
            assert(head[i] == digits[i]);
        }
        lemma_run_digits(s, p, head);
        assert(text::is_digit(digits[digits.len() - 1]));
        assert((p + head).push(digits.last()) == p + digits);
    }
}

proof fn lemma_run_csi(s: Screen)
    requires
        s.sequence == Sequence::Outside,
    ensures
        run(s, seq!['\u{1b}', '[']) == (Screen {
            sequence: Sequence::Parameters(Seq::empty()),
            ..s
        }),
{
    assert(seq!['\u{1b}', '['] == seq!['\u{1b}'] + seq!['[']);
    lemma_run_concat(s, seq!['\u{1b}'], seq!['[']);
    lemma_run_one(s, '\u{1b}');
    lemma_run_one(wrote(s, '\u{1b}'), '[');
}

/// A control sequence with a number acts as one; with zero nothing is written.
proof fn lemma_run_control(s: Screen, n: nat, letter: char)
    requires
        s.sequence == Sequence::Outside,
        letter == 'A' || letter == 'D',
    ensures
        run(s, editor::control(n, seq![letter])) == (if letter == 'A' {
            Screen { row: s.row - n, ..s }
        } else {
            Screen { col: s.col - n, ..s }
        }),
{
    if n > 0 {
        let start = seq!['\u{1b}', '['];
        let digits = text::decimal(n);
        reveal_strlit("\x1b[");
        assert("\x1b["@ == start);
        text::lemma_decimal(n);
        lemma_run_concat(s, start + digits, seq![letter]);
        lemma_run_concat(s, start, digits);
        lemma_run_csi(s);
        lemma_run_digits(run(s, start), Seq::empty(), digits);
        assert(Seq::<char>::empty() + digits == digits);
        lemma_run_one(run(s, start + digits), letter);
    }
}

proof fn lemma_run_clear(s: Screen)
    requires
        s.sequence == Sequence::Outside,
    ensures
        run(s, "\r\x1b[J"@) == controlled((Screen { col: 0, ..s }), Seq::empty(), 'J'),
{
    reveal_strlit("\r\x1b[J");
    assert("\r\x1b[J"@ == seq!['\r'] + seq!['\u{1b}', '['] + seq!['J']);
    lemma_run_concat(s, seq!['\r'] + seq!['\u{1b}', '['], seq!['J']);
    lemma_run_concat(s, seq!['\r'], seq!['\u{1b}', '[']);
    lemma_run_one(s, '\r');
    lemma_run_csi(wrote(s, '\r'));
    lemma_run_one(run(s, seq!['\r'] + seq!['\u{1b}', '[']), 'J');
}

/// A calm output stays on its line, and changes nothing there but what it passes over.
proof fn lemma_calm_moves(s: Screen, y: Seq<char>)
    requires
        calm_so_far(y),
        s.sequence == Sequence::Outside,
    ensures
        run(s, y).row == s.row,
        run(s, y).col >= s.col,
        forall|r: int, c: int|
            !(r == s.row && s.col <= c < run(s, y).col) ==> #[trigger] (run(s, y).cells)(r, c) == (
            s.cells)(r, c),
    decreases y.len(),
{
    if y.len() > 0 {
        lemma_calm_moves(s, y.drop_last());
        lemma_run_sequence(s, blank(), y.drop_last());
    }
}

/// Writing a calm output again over itself changes nothing on the screen.
proof fn lemma_rewrite(x: Screen, b: Screen, y: Seq<char>)
    requires
        calm_so_far(y),
        x.row == b.row,
        x.col == b.col,
        x.sequence == Sequence::Outside,
        b.sequence == Sequence::Outside,
        forall|c: int|
            b.col <= c < run(b, y).col ==> (x.cells)(b.row, c) == #[trigger] (run(b, y).cells)(
                b.row,
                c,
            ),
    ensures
        run(x, y).row == run(b, y).row,
        run(x, y).col == run(b, y).col,
        run(x, y).sequence == run(b, y).sequence,
        forall|r: int, c: int| #[trigger] (run(x, y).cells)(r, c) == (x.cells)(r, c),
    decreases y.len(),
{
    if y.len() > 0 {
        let z = y.drop_last();
        let last = y.last();
        lemma_calm_moves(b, z);
        lemma_run_sequence(b, blank(), z);
        let w = run(b, z);
        assert(run(b, y) == wrote(w, last));
        assert forall|c: int| b.col <= c < w.col implies (x.cells)(b.row, c) == #[trigger] (
        w.cells)(b.row, c) by {
            assert((run(b, y).cells)(b.row, c) == (w.cells)(b.row, c));
        }
        lemma_rewrite(x, b, z);
        assert((run(b, y).cells)(b.row, w.col) == (x.cells)(b.row, w.col) || run(b, y).col
            == w.col);
        assert((run(b, y).cells)(b.row, w.col + 1) == (x.cells)(b.row, w.col + 1) || run(b, y).col
            <= w.col + 1);
    }
}

proof fn lemma_plain_part(a: Seq<char>, b: Seq<char>)
    requires
        plain(a + b),
    ensures
        plain(a),
        plain(b),
{
    assert forall|i: int| 0 <= i < a.len() implies (#[trigger] a[i]) == '\n' || input::printable(
        a[i],
    ) by {
        assert((a + b)[i] == a[i]);
    }
    assert forall|i: int| 0 <= i < b.len() implies (#[trigger] b[i]) == '\n' || input::printable(
        b[i],
    ) by {
        assert((a + b)[a.len() + i] == b[i]);
    }
}

/// What follows the last line feed of a text, and what stands before it.
proof fn lemma_last_line(s: Seq<char>) -> (head: Seq<char>)
    ensures
        editor::newlines(s) == 0 ==> head == Seq::<char>::empty() && editor::last_line(s) == s,
        editor::newlines(s) > 0 ==> head.len() > 0 && head.last() == '\n',
        head + editor::last_line(s) == s,
    decreases s.len(),
{
    if s.len() == 0 {
        assert(s + editor::last_line(s) == s);
        s
    } else if s.last() == '\n' {
        assert(s + editor::last_line(s) == s);
        s
    } else {
        let head = lemma_last_line(s.drop_last());
        assert((head + editor::last_line(s.drop_last())).push(s.last()) == head + editor::last_line(
            s,
        ));
        assert(s.drop_last().push(s.last()) == s);
        if editor::newlines(s) == 0 {
            assert(editor::last_line(s) == s);
        }
        head
    }
}

/// Plain text on one line is calm.
proof fn lemma_plain_calm(y: Seq<char>, t: Seq<char>)
    requires
        calm(y),
        plain(t),
        editor::newlines(t) == 0,
    ensures
        calm(y + t),
        editor::crlf(t) == t,
    decreases t.len(),
{
    if t.len() == 0 {
        assert(y + t == y);
    } else {
        let head = t.drop_last();
        lemma_plain_part(head, seq![t.last()]);
        assert(head + seq![t.last()] == t);
        lemma_plain_calm(y, head);
        assert((y + t).drop_last() == y + head);
        assert(t.last() == t[t.len() - 1]);
    }
}

proof fn lemma_calm_none()
    ensures
        calm(Seq::empty()),
{
}

proof fn lemma_run_stroke(s: Screen, strokes: Seq<Stroke>, stroke: Stroke)
    ensures
        run(s, editor::written(strokes.push(stroke))) == run(
            run(s, editor::written(strokes)),
            editor::stroke_text(stroke),
        ),
{
    editor::lemma_written_push(strokes, stroke);
    lemma_run_concat(s, editor::written(strokes), editor::stroke_text(stroke));
}

proof fn lemma_letters()
    ensures
        "A"@ == seq!['A'],
        "D"@ == seq!['D'],
        "\r"@ == seq!['\r'],
{
    reveal_strlit("A");
    reveal_strlit("D");
    reveal_strlit("\r");
    assert("A"@ == seq!['A']);
    assert("D"@ == seq!['D']);
    assert("\r"@ == seq!['\r']);
}

/// The first four steps of a drawing put the prompt and the text on the screen.
proof fn lemma_frame_front(ed: EditorView, s: Screen, front: Seq<Stroke>)
    requires
        s.sequence == Sequence::Outside,
        s.row == ed.cursor_line,
        calm(ed.prompt),
        plain(ed.text()),
        front == seq![
            Stroke::Up(ed.cursor_line),
            Stroke::Clear,
            Stroke::Prompt(ed.prompt),
            Stroke::Text(ed.text()),
        ],
    ensures
        alike(run(s, editor::written(front)), laid(run(blank(), ed.prompt), ed.text())),
{
    let none = Seq::<Stroke>::empty();
    let f1 = none.push(Stroke::Up(ed.cursor_line));
    let f2 = f1.push(Stroke::Clear);
    let f3 = f2.push(Stroke::Prompt(ed.prompt));
    assert(front == f3.push(Stroke::Text(ed.text())));
    assert(run(s, editor::written(none)) == s);
    lemma_letters();
    lemma_run_stroke(s, none, f1.last());
    lemma_run_control(s, ed.cursor_line, 'A');
    let s1 = run(s, editor::written(f1));
    lemma_run_stroke(s, f1, f2.last());
    lemma_run_clear(s1);
    let s2 = run(s, editor::written(f2));
    assert(alike(s2, blank()));
    lemma_run_stroke(s, f2, f3.last());
    lemma_run_alike(s2, blank(), ed.prompt);
    let s3 = run(s, editor::written(f3));
    lemma_run_stroke(s, f3, front.last());
    lemma_run_text(s3, ed.text());
    lemma_laid_alike(s3, run(blank(), ed.prompt), ed.text());
}

/// Where the parts of a text are on the screen.
proof fn lemma_places(p: Screen, before: Seq<char>, after: Seq<char>)
    ensures
        laid(p, before + after) == laid(laid(p, before), after),
        laid(p, before).row == p.row + editor::newlines(before),
        laid(p, before + after).row == laid(p, before).row + editor::newlines(after),
        laid(p, before).sequence == p.sequence,
        laid(p, before + after).sequence == p.sequence,
        editor::newlines(after) == 0 ==> laid(p, before + after).col == laid(p, before).col
            + editor::text_columns(after),
{
    let w = laid(p, before);
    lemma_laid_concat(p, before, after);
    lemma_laid_place(p, before);
    lemma_laid_place(w, after);
    editor::lemma_printed((editor::Spot { row: p.row, col: p.col }), before);
    editor::lemma_printed((editor::Spot { row: w.row, col: w.col }), after);
}

/// Going back to the cursor by writing again what stands before it on its line.
proof fn lemma_back_by_writing(p: Screen, x: Screen, b: Screen, ed: EditorView, y: Seq<char>)
    requires
        calm(y),
        p == run(blank(), ed.prompt),
        b.sequence == Sequence::Outside,
        x.sequence == Sequence::Outside,
        x.row == b.row,
        x.col == b.col,
        b.row >= 0,
        b.col == 0,
        run(b, y) == laid(p, ed.before),
        run(b, y).row == b.row,
        forall|r: int, c: int|
            r >= 0 && c >= 0 ==> #[trigger] (x.cells)(r, c) == (laid(p, ed.text()).cells)(r, c),
    ensures
        shows(run(x, y), ed),
{
    let w = laid(p, ed.before);
    lemma_laid_concat(p, ed.before, ed.after);
    lemma_laid_keeps(w, ed.after);
    assert forall|c: int| b.col <= c < w.col implies (x.cells)(b.row, c) == #[trigger] (w.cells)(
        b.row,
        c,
    ) by {
        assert((laid(w, ed.after).cells)(b.row, c) == (w.cells)(b.row, c));
        assert((x.cells)(b.row, c) == (laid(p, ed.text()).cells)(b.row, c));
    }
    lemma_rewrite(x, b, y);
    lemma_run_sequence(x, blank(), y);
}

/// Drawing an editor anew, from wherever on the line that it takes the cursor to be on, puts the
/// prompt and all of the text on the screen, and nothing else, with the cursor in its place: for
/// every prompt that shows itself on one line, in any colours, and every text without control
/// characters.
pub proof fn law_frame_shows_the_editor(ed: EditorView, s: Screen)
    requires
        s.sequence == Sequence::Outside,
        s.row == ed.cursor_line,
        calm(ed.prompt),
        plain(ed.before + ed.after),
    ensures
        shows(run(s, ed.frame()), ed),
{
    let p = run(blank(), ed.prompt);
    let before = ed.before;
    let after = ed.after;
    let front = ed.drawing().take(4);
    assert(front == seq![
        Stroke::Up(ed.cursor_line),
        Stroke::Clear,
        Stroke::Prompt(ed.prompt),
        Stroke::Text(ed.text()),
    ]);
    lemma_frame_front(ed, s, front);
    let s4 = run(s, editor::written(front));
    lemma_plain_part(before, after);
    lemma_calm_moves(blank(), ed.prompt);
    lemma_places(p, before, after);
    lemma_letters();
    if editor::newlines(after) == 0 {
        let left = Stroke::Left(editor::text_columns(after));
        assert(ed.drawing() == front.push(left));
        lemma_run_stroke(s, front, left);
        lemma_run_control(s4, editor::text_columns(after), 'D');
    } else {
        let n = editor::newlines(after);
        let f5 = front.push(Stroke::Up(n));
        let f6 = f5.push(Stroke::Return);
        lemma_run_stroke(s, front, f5.last());
        lemma_run_control(s4, n, 'A');
        let s5 = run(s, editor::written(f5));
        lemma_run_stroke(s, f5, f6.last());
        lemma_run_one(s5, '\r');
        let x = run(s, editor::written(f6));
        if editor::newlines(before) == 0 {
            let f7 = f6.push(Stroke::Prompt(ed.prompt));
            let f8 = f7.push(Stroke::Text(before));
            assert(ed.drawing() == f8);
            lemma_run_stroke(s, f6, f7.last());
            lemma_run_stroke(s, f7, f8.last());
            lemma_plain_calm(ed.prompt, before);
            let y = ed.prompt + before;
            lemma_run_concat(blank(), ed.prompt, before);
            lemma_run_concat(x, ed.prompt, before);
            lemma_run_text(p, before);
            lemma_back_by_writing(p, x, blank(), ed, y);
        } else {
            let head = lemma_last_line(before);
            let y = editor::last_line(before);
            let f7 = f6.push(Stroke::Text(y));
            assert(ed.drawing() == f7);
            lemma_run_stroke(s, f6, f7.last());
            lemma_plain_part(head, y);
            editor::lemma_no_more_newlines(before);
            lemma_calm_none();
            lemma_plain_calm(Seq::empty(), y);
            assert(Seq::<char>::empty() + y == y);
            lemma_places(p, head, y);
            let b = laid(p, head);
            assert(b.col == 0);
            lemma_run_text(b, y);
            lemma_back_by_writing(p, x, b, ed, y);
        }
    }
}

/// Whatever key is pressed and whatever is pasted, the terminal shows the prompt and the text as they
/// are after it, with the cursor in place: where it showed the reader's line before a byte came, it
/// shows the new one once the answer has been written, until the line is complete.
pub proof fn law_screen_follows_the_reader(s: ReaderView, screen: Screen, byte: Option<u8>)
    requires
        shows(screen, s.editor),
        input::settled(s),
        calm(s.editor.prompt),
        plain(s.editor.before + s.editor.after),
        plain(
            input::step_of(s, byte).state.editor.before + input::step_of(
                s,
                byte,
            ).state.editor.after,
        ),
    ensures
        !(input::step_of(s, byte).next is Done) ==> shows(
            run(screen, input::step_of(s, byte).output),
            input::step_of(s, byte).state.editor,
        ),
        input::step_of(s, byte).next is Done ==> input::step_of(s, byte).output == seq!['\r', '\n'],
{
    let ed = s.editor;
    let r = input::step_of(s, byte);
    let new = r.state.editor;
    let p = run(blank(), ed.prompt);
    lemma_calm_moves(blank(), ed.prompt);
    lemma_places(p, ed.before, ed.after);
    assert(screen.row == ed.cursor_line);
    reveal_strlit("\r\n");
    assert("\r\n"@ == seq!['\r', '\n']);
    assert(run(screen, Seq::<char>::empty()) == screen);
    // the editor as it was when the text was drawn anew
    let asked = EditorView { cursor_line: ed.cursor_line, ..new };
    if r.output == asked.frame() {
        law_frame_shows_the_editor(asked, screen);
    }
    if s.mode is Ground && byte is Some && byte->0 >= input::SPACE {
        lemma_types_shows(ed, seq![byte->0], screen);
    }
    if let ModeView::Utf8(seen, left) = s.mode {
        if byte is Some {
            lemma_types_shows(ed, seen.push(byte->0), screen);
        } else {
            lemma_types_shows(ed, seen, screen);
        }
    }
}

/// What is written for a typed character shows it.
proof fn lemma_types_shows(ed: EditorView, bytes: Seq<u8>, screen: Screen)
    requires
        shows(screen, ed),
        screen.row == ed.cursor_line,
        calm(ed.prompt),
        bytes.len() > 0,
        bytes[0] >= input::SPACE,
        bytes.len() <= editor::seq_len(bytes[0]),
    ensures
        ({
            let r = input::types(ed, bytes);
            plain(r.state.editor.before + r.state.editor.after) ==> shows(
                run(screen, r.output),
                r.state.editor,
            )
        }),
{
    let r = input::types(ed, bytes);
    let new = r.state.editor;
    assert(run(screen, Seq::<char>::empty()) == screen);
    if valid_utf8(bytes) && plain(new.before + new.after) {
        let t = decode_utf8(bytes);
        let p = run(blank(), ed.prompt);
        input::lemma_no_newline(bytes);
        lemma_plain_part(ed.before + t, ed.after);
        lemma_plain_part(ed.before, t);
        lemma_calm_none();
        lemma_plain_calm(Seq::empty(), t);
        lemma_run_text(screen, t);
        lemma_laid_concat(p, ed.before, t);
        if ed.after.len() > 0 {
            let asked = EditorView { cursor_line: ed.cursor_line, ..new };
            lemma_run_concat(screen, t, asked.frame());
            lemma_laid_place(screen, t);
            editor::lemma_printed((editor::Spot { row: screen.row, col: screen.col }), t);
            law_frame_shows_the_editor(asked, run(screen, t));
            assert(asked == ed.inserted(t));
            assert(r.output == t + asked.frame());
            assert(shows(run(screen, r.output), asked));
        } else {
            assert(ed.before + ed.after == ed.before);
            assert(new.before + new.after == new.before);
            lemma_laid_place(p, ed.before);
            assert(alike(screen, laid(p, ed.before)));
            lemma_laid_alike(screen, laid(p, ed.before), t);
            assert(new == ed.inserted(t));
            assert(r.output == t);
            assert(run(screen, t) == laid(screen, t));
            lemma_laid_place(screen, t);
            assert(new.before + new.after == ed.before + t);
            assert(alike(run(screen, t), laid(p, ed.before + t)));
            assert(shows(run(screen, r.output), new));
        }
    }
}

/// Once the prompt has been written at the front of an empty line, the terminal shows the line of a
/// fresh reader.
pub proof fn law_prompt_shows_a_fresh_reader(prompt: Seq<char>)
    requires
        calm(prompt),
    ensures
        shows(run(blank(), prompt), input::fresh(prompt).editor),
        input::settled(input::fresh(prompt)),
{
    let ed = input::fresh(prompt).editor;
    assert(ed.before + ed.after == Seq::<char>::empty());
    reveal_with_fuel(editor::newlines, 1);
}

// ── What shows of an output ──────────────────────────────────────────────────

/// The characters of an output that show, or move to another line: all but its control sequences.
pub open spec fn visible(s: Seq<char>) -> Seq<char>
    decreases s.len(),
{
    if s.len() == 0 {
        s
    } else if run(blank(), s.drop_last()).sequence is Outside && s.last() != '\u{1b}' {
        visible(s.drop_last()).push(s.last())
    } else {
        visible(s.drop_last())
    }
}

/// Whether a text holds no escape.
pub open spec fn no_escape(s: Seq<char>) -> bool {
    forall|i: int| 0 <= i < s.len() ==> (#[trigger] s[i]) != '\u{1b}'
}

/// What shows of two outputs, the first of which ends no control sequence midway.
pub proof fn lemma_visible_concat(a: Seq<char>, b: Seq<char>)
    requires
        run(blank(), a).sequence is Outside,
    ensures
        visible(a + b) == visible(a) + visible(b),
        run(blank(), a + b).sequence == run(blank(), b).sequence,
    decreases b.len(),
{
    lemma_run_concat(blank(), a, b);
    lemma_run_sequence(run(blank(), a), blank(), b);
    if b.len() == 0 {
        assert(a + b == a);
        assert(visible(a) + visible(b) == visible(a));
    } else {
        let head = b.drop_last();
        assert((a + b).drop_last() == a + head);
        lemma_visible_concat(a, head);
        assert(visible(a + b) == visible(a) + visible(b));
    }
}

/// A text without an escape shows as it is.
pub proof fn lemma_visible_text(t: Seq<char>)
    requires
        no_escape(t),
    ensures
        visible(t) == t,
        run(blank(), t).sequence is Outside,
    decreases t.len(),
{
    if t.len() > 0 {
        let head = t.drop_last();
        assert(no_escape(head)) by {
            assert forall|i: int| 0 <= i < head.len() implies (#[trigger] head[i]) != '\u{1b}' by {
                assert(head[i] == t[i]);
            }
        }
        assert(t.last() == t[t.len() - 1]);
        lemma_visible_text(head);
        assert(head.push(t.last()) == t);
    }
}

/// The control sequence that sets a colour shows nothing.
pub proof fn lemma_visible_colour(digits: Seq<char>)
    requires
        forall|i: int| 0 <= i < digits.len() ==> text::is_digit(#[trigger] digits[i]),
    ensures
        visible(seq!['\u{1b}', '['] + digits + seq!['m']) == Seq::<char>::empty(),
        run(blank(), seq!['\u{1b}', '['] + digits + seq!['m']).sequence is Outside,
        calm(seq!['\u{1b}', '['] + digits + seq!['m']),
{
    let start = seq!['\u{1b}', '['];
    let all = start + digits + seq!['m'];
    assert(all.drop_last() == start + digits);
    lemma_colour_digits(digits);
}

proof fn lemma_colour_digits(digits: Seq<char>)
    requires
        forall|i: int| 0 <= i < digits.len() ==> text::is_digit(#[trigger] digits[i]),
    ensures
        visible(seq!['\u{1b}', '['] + digits) == Seq::<char>::empty(),
        run(blank(), seq!['\u{1b}', '['] + digits).sequence == Sequence::Parameters(digits),
        calm_so_far(seq!['\u{1b}', '['] + digits),
    decreases digits.len(),
{
    let start = seq!['\u{1b}', '['];
    if digits.len() == 0 {
        assert(start + digits == start);
        assert(start.drop_last() == seq!['\u{1b}']);
        assert(seq!['\u{1b}'].drop_last() == Seq::<char>::empty());
        reveal_with_fuel(visible, 3);
        reveal_with_fuel(calm_so_far, 3);
        reveal_with_fuel(run, 3);
        assert(digits == Seq::<char>::empty());
    } else {
        let head = digits.drop_last();
        assert forall|i: int| 0 <= i < head.len() implies text::is_digit(#[trigger] head[i]) by {
            assert(head[i] == digits[i]);
        }
        lemma_colour_digits(head);
        assert((start + digits).drop_last() == start + head);
        assert(text::is_digit(digits[digits.len() - 1]));
        assert(head.push(digits.last()) == digits);
    }
}

/// Two calm outputs, one after the other, are calm.
pub proof fn lemma_calm_concat(a: Seq<char>, b: Seq<char>)
    requires
        calm(a),
        calm(b),
    ensures
        calm(a + b),
{
    lemma_calm_concat_so_far(a, b);
    lemma_visible_concat(a, b);
}

proof fn lemma_calm_concat_so_far(a: Seq<char>, b: Seq<char>)
    requires
        calm(a),
        calm_so_far(b),
    ensures
        calm_so_far(a + b),
    decreases b.len(),
{
    if b.len() == 0 {
        assert(a + b == a);
    } else {
        assert((a + b).drop_last() == a + b.drop_last());
        lemma_calm_concat_so_far(a, b.drop_last());
        lemma_visible_concat(a, b.drop_last());
    }
}

/// A text of printable characters is calm.
pub proof fn lemma_calm_text(t: Seq<char>)
    requires
        forall|i: int| 0 <= i < t.len() ==> input::printable(#[trigger] t[i]),
    ensures
        calm(t),
    decreases t.len(),
{
    if t.len() > 0 {
        let head = t.drop_last();
        assert forall|i: int| 0 <= i < head.len() implies input::printable(#[trigger] head[i]) by {
            assert(head[i] == t[i]);
        }
        assert(input::printable(t[t.len() - 1]));
        lemma_calm_text(head);
    }
}

/// Neither of two texts holds an escape: nor do they together.
pub proof fn lemma_no_escape_concat(a: Seq<char>, b: Seq<char>)
    requires
        no_escape(a),
        no_escape(b),
    ensures
        no_escape(a + b),
{
    let all = a + b;
    assert forall|i: int| 0 <= i < all.len() implies (#[trigger] all[i]) != '\u{1b}' by {
        if i < a.len() {
            assert(all[i] == a[i]);
        } else {
            assert(all[i] == b[i - a.len()]);
        }
    }
}

} // verus!
