//! A line editor for UTF-8 text: the text being edited, the cursor in it, and its redrawing on a
//! terminal.
use vstd::prelude::*;
use vstd::slice::slice_subrange;
use vstd::utf8::*;

use crate::text;

verus! {

// ── UTF-8 ────────────────────────────────────────────────────────────────────

/// The number of bytes of the UTF-8 sequence that starts with `first`.
pub open spec fn seq_len(first: u8) -> nat {
    if first < 0x80 {
        1
    } else if first < 0xE0 {
        2
    } else if first < 0xF0 {
        3
    } else {
        4
    }
}

/// The number of bytes of the UTF-8 sequence that starts with `first`.
pub fn utf8_seq_len(first: u8) -> (n: usize)
    ensures
        n == seq_len(first),
        1 <= n <= 4,
{
    if first < 0x80 {
        1
    } else if first < 0xE0 {
        2
    } else if first < 0xF0 {
        3
    } else {
        4
    }
}

/// The bytes of one character: a leading byte that tells their number, then continuation bytes.
pub proof fn lemma_char_bytes(c: char)
    ensures
        ({
            let e = encode_scalar(c as u32);
            &&& e == encode_utf8(seq![c])
            &&& 1 <= e.len() <= 4
            &&& e.len() == seq_len(e[0])
            &&& !is_continuation_byte(e[0])
            &&& forall|i: int| 1 <= i < e.len() ==> is_continuation_byte(#[trigger] e[i])
        }),
{
    let e = encode_scalar(c as u32);
    assert(seq![c].drop_first() == Seq::<char>::empty());
    assert(encode_utf8(seq![c]) == e + encode_utf8(Seq::<char>::empty()));
    assert(encode_utf8(seq![c]) =~= e);
    encode_utf8_first_scalar(seq![c]);
}

/// The bytes of two texts, one after the other, are the bytes of the texts joined.
pub proof fn lemma_encode_concat(a: Seq<char>, b: Seq<char>)
    ensures
        encode_utf8(a + b) == encode_utf8(a) + encode_utf8(b),
    decreases a.len(),
{
    if a.len() == 0 {
        assert(a + b == b);
        assert(encode_utf8(a) + encode_utf8(b) == encode_utf8(b));
    } else {
        assert((a + b).drop_first() == a.drop_first() + b);
        lemma_encode_concat(a.drop_first(), b);
        assert(encode_utf8(a + b) == encode_utf8(a) + encode_utf8(b));
    }
}

/// A text is valid UTF-8 in its bytes, and its bytes give the text back.
pub proof fn lemma_encode_decode(s: Seq<char>)
    ensures
        valid_utf8(encode_utf8(s)),
        decode_utf8(encode_utf8(s)) == s,
{
    encode_utf8_valid_utf8(s);
    encode_utf8_decode_utf8(s);
}

/// The bytes of a text end with the bytes of its last character.
pub proof fn lemma_encode_last(s: Seq<char>)
    requires
        s.len() > 0,
    ensures
        encode_utf8(s) == encode_utf8(s.drop_last()) + encode_scalar(s.last() as u32),
{
    lemma_encode_concat(s.drop_last(), seq![s.last()]);
    assert(s.drop_last() + seq![s.last()] == s);
    lemma_char_bytes(s.last());
}

/// The bytes of a text begin with the bytes of its first character.
pub proof fn lemma_encode_first(s: Seq<char>)
    requires
        s.len() > 0,
    ensures
        encode_utf8(s) == encode_scalar(s[0] as u32) + encode_utf8(s.drop_first()),
{
}

/// A text that is empty is one that has no bytes.
pub proof fn lemma_encode_empty(s: Seq<char>)
    ensures
        encode_utf8(s).len() == 0 <==> s.len() == 0,
        s.len() <= encode_utf8(s).len(),
    decreases s.len(),
{
    if s.len() > 0 {
        lemma_char_bytes(s[0]);
        lemma_encode_empty(s.drop_first());
    }
}

/// The last byte of a text is ASCII exactly where its last character is that ASCII character.
pub proof fn lemma_last_ascii(s: Seq<char>, c: char)
    requires
        s.len() > 0,
        c < '\u{80}',
    ensures
        encode_utf8(s).len() > 0,
        encode_utf8(s).last() == c as u8 <==> s.last() == c,
        s.last() == c ==> encode_utf8(s).drop_last() == encode_utf8(s.drop_last()),
{
    let d = s.last();
    let e = encode_scalar(d as u32);
    lemma_encode_last(s);
    lemma_char_bytes(d);
    let x = d as u32;
    char_is_scalar(d);
    if has_width_1_encoding(x) {
        assert((x & 0x7F) as u8 == x) by (bit_vector)
            requires
                x <= 0x7F,
        ;
        assert(e.last() == x);
        char_u32_cast(d, x);
        char_u32_cast(c, c as u32);
    } else {
        assert(is_continuation_byte(e[e.len() - 1]));
    }
    assert(encode_utf8(s).last() == e.last());
    if d == c {
        assert(e.len() == 1);
        assert(encode_utf8(s).drop_last() == encode_utf8(s.drop_last()));
    }
}

// ── Display width ────────────────────────────────────────────────────────────

/// Whether a character takes two columns: Hangul, CJK and the fullwidth forms.
pub open spec fn wide(c: char) -> bool {
    let u = c as u32;
    ||| 0x1100 <= u <= 0x115F
    ||| 0x2E80 <= u <= 0x303E
    ||| 0x3040 <= u <= 0x33FF
    ||| 0x3400 <= u <= 0x4DBF
    ||| 0x4E00 <= u <= 0x9FFF
    ||| 0xA000 <= u <= 0xA4CF
    ||| 0xA960 <= u <= 0xA97F
    ||| 0xAC00 <= u <= 0xD7AF
    ||| 0xF900 <= u <= 0xFAFF
    ||| 0xFE10 <= u <= 0xFE19
    ||| 0xFE30 <= u <= 0xFE4F
    ||| 0xFF00 <= u <= 0xFF60
    ||| 0xFFE0 <= u <= 0xFFE6
    ||| 0x1AFF0 <= u <= 0x1AFFF
    ||| 0x1B000 <= u <= 0x1B16F
    ||| 0x1F200 <= u <= 0x1F2FF
    ||| 0x20000 <= u <= 0x3FFFD
}

/// The columns that a character takes.
pub open spec fn columns(c: char) -> nat {
    if wide(c) {
        2
    } else {
        1
    }
}

/// The columns that a text takes.
pub open spec fn text_columns(s: Seq<char>) -> nat
    decreases s.len(),
{
    if s.len() == 0 {
        0
    } else {
        text_columns(s.drop_last()) + columns(s.last())
    }
}

/// The number of terminal columns of a character.
pub fn char_width(c: char) -> (n: usize)
    ensures
        n == columns(c),
{
    let u: u32 = c as u32;
    if (0x1100 <= u && u <= 0x115F)  // Hangul Jamo
     || (0x2E80 <= u && u <= 0x303E)  // CJK radicals
     || (0x3040 <= u && u <= 0x33FF)  // Hiragana, Katakana, CJK compatibility
     || (0x3400 <= u && u <= 0x4DBF)  // CJK extension A
     || (0x4E00 <= u && u <= 0x9FFF)  // CJK unified
     || (0xA000 <= u && u <= 0xA4CF)  // Yi
     || (0xA960 <= u && u <= 0xA97F)  // Hangul Jamo extended A
     || (0xAC00 <= u && u <= 0xD7AF)  // Hangul syllables
     || (0xF900 <= u && u <= 0xFAFF)  // CJK compatibility ideographs
     || (0xFE10 <= u && u <= 0xFE19)  // vertical forms
     || (0xFE30 <= u && u <= 0xFE4F)  // CJK compatibility forms
     || (0xFF00 <= u && u <= 0xFF60)  // fullwidth forms
     || (0xFFE0 <= u && u <= 0xFFE6)  // fullwidth signs
     || (0x1AFF0 <= u && u <= 0x1AFFF)  // Kana extended B
     || (0x1B000 <= u && u <= 0x1B16F)  // Kana supplement and extensions
     || (0x1F200 <= u && u <= 0x1F2FF)  // enclosed ideographs
     || (0x20000 <= u && u <= 0x3FFFD) {  // the supplementary ideographic planes
        2
    } else {
        1
    }
}

/// A text takes no more columns than it has bytes.
pub proof fn lemma_columns_fit(s: Seq<char>)
    ensures
        text_columns(s) <= encode_utf8(s).len(),
    decreases s.len(),
{
    if s.len() > 0 {
        lemma_columns_fit(s.drop_last());
        lemma_encode_last(s);
        lemma_char_bytes(s.last());
    }
}

proof fn lemma_columns_prefix(s: Seq<char>, n: int)
    requires
        0 <= n <= s.len(),
    ensures
        text_columns(s.take(n)) <= text_columns(s),
    decreases s.len() - n,
{
    if n < s.len() {
        lemma_columns_prefix(s, n + 1);
        assert(s.take(n + 1).drop_last() == s.take(n));
    } else {
        assert(s.take(n) == s);
    }
}

/// The number of terminal columns of a string.
pub fn display_width(s: &str) -> (n: usize)
    ensures
        n == text_columns(s@),
{
    let v = text::chars_of(s);
    let limit: usize = s.as_bytes().len();
    proof {
        lemma_columns_fit(s@);
    }
    let mut n: usize = 0;
    let mut i: usize = 0;
    while i < v.len()
        invariant
            i <= v@.len(),
            v@ == s@,
            n == text_columns(s@.take(i as int)),
            text_columns(s@) <= limit,
        decreases v@.len() - i,
    {
        proof {
            lemma_columns_prefix(s@, i + 1);
            assert(s@.take(i + 1).drop_last() == s@.take(i as int));
        }
        n += char_width(v[i]);
        i += 1;
    }
    assert(s@.take(i as int) == s@);
    n
}

// ── The editor ───────────────────────────────────────────────────────────────

/// What an editor holds: the text before the cursor, the text after it, the prompt, and how many
/// lines below the prompt's own the cursor stands on the screen.
pub struct EditorView {
    pub before: Seq<char>,
    pub after: Seq<char>,
    pub prompt: Seq<char>,
    pub cursor_line: nat,
}

/// The number of line feeds in a text.
pub open spec fn newlines(s: Seq<char>) -> nat
    decreases s.len(),
{
    if s.len() == 0 {
        0
    } else {
        newlines(s.drop_last()) + (if s.last() == '\n' { 1nat } else { 0nat })
    }
}

/// What follows the last line feed of a text.
pub open spec fn last_line(s: Seq<char>) -> Seq<char>
    decreases s.len(),
{
    if s.len() == 0 || s.last() == '\n' {
        Seq::empty()
    } else {
        last_line(s.drop_last()).push(s.last())
    }
}

/// A text with a carriage return before each line feed.
pub open spec fn crlf(s: Seq<char>) -> Seq<char>
    decreases s.len(),
{
    if s.len() == 0 {
        Seq::empty()
    } else if s.last() == '\n' {
        crlf(s.drop_last()) + "\r\n"@
    } else {
        crlf(s.drop_last()).push(s.last())
    }
}

/// The control sequence with the number `n` and the letter `letter`; nothing where `n` is zero.
pub open spec fn control(n: nat, letter: Seq<char>) -> Seq<char> {
    if n > 0 {
        "\x1b["@ + text::decimal(n) + letter
    } else {
        Seq::empty()
    }
}

/// A step of a drawing.
pub enum Stroke {
    /// The cursor goes up so many lines.
    Up(nat),
    /// The cursor goes left so many columns.
    Left(nat),
    /// The cursor goes to the front of its line.
    Return,
    /// The cursor goes to the front of its line, and all from there on is cleared.
    Clear,
    /// The prompt is written.
    Prompt(Seq<char>),
    /// Text is written.
    Text(Seq<char>),
}

/// What is written for a step of a drawing.
pub open spec fn stroke_text(stroke: Stroke) -> Seq<char> {
    match stroke {
        Stroke::Up(n) => control(n, "A"@),
        Stroke::Left(n) => control(n, "D"@),
        Stroke::Return => "\r"@,
        Stroke::Clear => "\r\x1b[J"@,
        Stroke::Prompt(s) => s,
        Stroke::Text(s) => crlf(s),
    }
}

/// What is written for a drawing.
pub open spec fn written(strokes: Seq<Stroke>) -> Seq<char>
    decreases strokes.len(),
{
    if strokes.len() == 0 {
        Seq::empty()
    } else {
        written(strokes.drop_last()) + stroke_text(strokes.last())
    }
}

impl EditorView {
    /// The text being edited.
    pub open spec fn text(self) -> Seq<char> {
        self.before + self.after
    }

    /// After `s` has been inserted at the cursor.
    pub open spec fn inserted(self, s: Seq<char>) -> EditorView {
        EditorView { before: self.before + s, ..self }
    }

    /// After the character before the cursor has been erased.
    pub open spec fn erased_before(self) -> EditorView
        recommends
            self.before.len() > 0,
    {
        EditorView { before: self.before.drop_last(), ..self }
    }

    /// After the character behind the cursor has been erased.
    pub open spec fn erased_after(self) -> EditorView
        recommends
            self.after.len() > 0,
    {
        EditorView { after: self.after.drop_first(), ..self }
    }

    /// After the cursor has moved over one character to the left.
    pub open spec fn moved_left(self) -> EditorView
        recommends
            self.before.len() > 0,
    {
        EditorView {
            before: self.before.drop_last(),
            after: seq![self.before.last()] + self.after,
            ..self
        }
    }

    /// After the cursor has moved over one character to the right.
    pub open spec fn moved_right(self) -> EditorView
        recommends
            self.after.len() > 0,
    {
        EditorView {
            before: self.before.push(self.after[0]),
            after: self.after.drop_first(),
            ..self
        }
    }

    /// Whether a backslash stands immediately before the cursor, which continues the line.
    pub open spec fn continues(self) -> bool {
        self.before.len() > 0 && self.before.last() == '\\'
    }

    /// After the backslash before the cursor has given way to a line feed.
    pub open spec fn continued(self) -> EditorView
        recommends
            self.continues(),
    {
        self.erased_before().inserted(seq!['\n'])
    }

    /// How the text is drawn anew: up to the prompt's line, clear from there, the prompt, the text,
    /// and back to the cursor.
    pub open spec fn drawing(self) -> Seq<Stroke> {
        seq![
            Stroke::Up(self.cursor_line),
            Stroke::Clear,
            Stroke::Prompt(self.prompt),
            Stroke::Text(self.text()),
        ] + self.return_strokes()
    }

    /// How the cursor gets back from the end of the drawn text: on the last line by steps to the
    /// left, and on another one by writing again what stands before it there.
    pub open spec fn return_strokes(self) -> Seq<Stroke> {
        if newlines(self.after) == 0 {
            seq![Stroke::Left(text_columns(self.after))]
        } else if newlines(self.before) == 0 {
            seq![
                Stroke::Up(newlines(self.after)),
                Stroke::Return,
                Stroke::Prompt(self.prompt),
                Stroke::Text(self.before),
            ]
        } else {
            seq![
                Stroke::Up(newlines(self.after)),
                Stroke::Return,
                Stroke::Text(last_line(self.before)),
            ]
        }
    }

    /// What is written to draw the text anew.
    pub open spec fn frame(self) -> Seq<char> {
        written(self.drawing())
    }

    /// After the text has been drawn anew.
    pub open spec fn redrawn(self) -> EditorView {
        EditorView { cursor_line: newlines(self.before), ..self }
    }
}

/// A line editor.
pub struct LineEditor {
    /// The text, in UTF-8.
    buf: Vec<u8>,
    /// The cursor's position in the bytes of `buf`.
    cursor: usize,
    /// The prompt, for drawing anew.
    prompt: String,
    /// The number of lines below the prompt's own on which the cursor now stands on the screen.
    cursor_line: usize,
}

impl View for LineEditor {
    type V = EditorView;

    closed spec fn view(&self) -> EditorView {
        EditorView {
            before: decode_utf8(self.left()),
            after: decode_utf8(self.right()),
            prompt: self.prompt@,
            cursor_line: self.cursor_line as nat,
        }
    }
}

impl LineEditor {
    spec fn left(&self) -> Seq<u8> {
        self.buf@.take(self.cursor as int)
    }

    spec fn right(&self) -> Seq<u8> {
        self.buf@.skip(self.cursor as int)
    }

    /// The buffer is valid UTF-8, and the cursor stands between two characters of it.
    pub closed spec fn well_formed(&self) -> bool {
        &&& self.cursor <= self.buf@.len()
        &&& valid_utf8(self.left())
        &&& valid_utf8(self.right())
    }

    proof fn lemma_bytes(&self)
        requires
            self.well_formed(),
        ensures
            self.left() == encode_utf8(self@.before),
            self.right() == encode_utf8(self@.after),
            self.buf@ == self.left() + self.right(),
            self.buf@ == encode_utf8(self@.text()),
            valid_utf8(self.buf@),
            decode_utf8(self.buf@) == self@.text(),
    {
        decode_utf8_encode_utf8(self.left());
        decode_utf8_encode_utf8(self.right());
        assert(self.buf@ == self.left() + self.right());
        lemma_encode_concat(self@.before, self@.after);
        lemma_encode_decode(self@.text());
    }

    proof fn lemma_from_texts(&self, before: Seq<char>, after: Seq<char>)
        requires
            self.buf@ == encode_utf8(before) + encode_utf8(after),
            self.cursor == encode_utf8(before).len(),
        ensures
            self.well_formed(),
            self@.before == before,
            self@.after == after,
    {
        lemma_encode_decode(before);
        lemma_encode_decode(after);
        assert(self.left() == encode_utf8(before));
        assert(self.right() == encode_utf8(after));
    }

    /// An editor with an empty text.
    pub fn new(prompt: &str) -> (ed: Self)
        ensures
            ed.well_formed(),
            ed@ == (EditorView {
                before: Seq::empty(),
                after: Seq::empty(),
                prompt: prompt@,
                cursor_line: 0,
            }),
    {
        let ed = LineEditor {
            buf: Vec::new(),
            cursor: 0,
            prompt: prompt.to_owned(),
            cursor_line: 0,
        };
        proof {
            let none = Seq::<char>::empty();
            assert(ed.buf@ == encode_utf8(none) + encode_utf8(none));
            ed.lemma_from_texts(none, none);
        }
        ed
    }

    /// The text being edited.
    pub fn as_str(&self) -> (s: &str)
        requires
            self.well_formed(),
        ensures
            s@ == self@.text(),
    {
        proof {
            self.lemma_bytes();
        }
        match std::str::from_utf8(self.buf.as_slice()) {
            Ok(s) => {
                proof {
                    encode_utf8_decode_utf8(s@);
                }
                s
            },
            Err(_) => {
                assert(false);
                ""
            },
        }
    }

    /// Whether the text is empty.
    pub fn is_empty(&self) -> (b: bool)
        requires
            self.well_formed(),
        ensures
            b == (self@.text().len() == 0),
    {
        proof {
            self.lemma_bytes();
            lemma_encode_empty(self@.text());
        }
        self.buf.len() == 0
    }

    /// Whether the cursor stands at the end of the text.
    pub fn at_end(&self) -> (b: bool)
        requires
            self.well_formed(),
        ensures
            b == (self@.after.len() == 0),
    {
        proof {
            self.lemma_bytes();
            lemma_encode_empty(self@.after);
        }
        self.cursor >= self.buf.len()
    }

    /// Inserts text, given as UTF-8, at the cursor, and moves the cursor behind it.
    pub fn insert(&mut self, bytes: &[u8])
        requires
            old(self).well_formed(),
            valid_utf8(bytes@),
        ensures
            final(self).well_formed(),
            final(self)@ == old(self)@.inserted(decode_utf8(bytes@)),
    {
        proof {
            old(self).lemma_bytes();
        }
        let ghost s = decode_utf8(bytes@);
        let at: usize = self.cursor;
        let mut i: usize = 0;
        while i < bytes.len()
            invariant
                i <= bytes@.len(),
                at == self.cursor == old(self).cursor,
                at <= old(self).buf@.len(),
                self.buf@ == old(self).left() + bytes@.take(i as int) + old(self).right(),
                old(self).buf@ == old(self).left() + old(self).right(),
                self.prompt == old(self).prompt,
                self.cursor_line == old(self).cursor_line,
            decreases bytes@.len() - i,
        {
            assert(at + i <= self.buf@.len() <= self.buf.len());
            self.buf.insert(at + i, bytes[i]);
            assert(self.buf@ =~= old(self).left() + bytes@.take(i + 1) + old(self).right());
            i += 1;
        }
        assert(bytes@.take(i as int) == bytes@);
        assert(at + bytes@.len() <= self.buf@.len() <= self.buf.len());
        self.cursor = at + bytes.len();
        proof {
            decode_utf8_encode_utf8(bytes@);
            lemma_encode_concat(old(self)@.before, s);
            self.lemma_from_texts(old(self)@.before + s, old(self)@.after);
        }
    }

    /// The position of the first byte of the character that ends at the cursor.
    fn char_start(&self) -> (start: usize)
        requires
            self.well_formed(),
            self.cursor > 0,
        ensures
            self@.before.len() > 0,
            start == encode_utf8(self@.before.drop_last()).len(),
            start < self.cursor,
            self.left().take(start as int) == encode_utf8(self@.before.drop_last()),
            self.left().skip(start as int) == encode_scalar(self@.before.last() as u32),
    {
        proof {
            self.lemma_bytes();
            lemma_encode_empty(self@.before);
            lemma_encode_last(self@.before);
            lemma_char_bytes(self@.before.last());
        }
        let ghost head = encode_utf8(self@.before.drop_last());
        let ghost e = encode_scalar(self@.before.last() as u32);
        let mut start: usize = self.cursor - 1;
        while start > 0 && (self.buf[start] & 0xC0) == 0x80
            invariant
                self.cursor <= self.buf@.len(),
                head.len() <= start < self.cursor,
                self.left() == head + e,
                !is_continuation_byte(e[0]),
                e.len() > 0,
            decreases start,
        {
            let ghost b = self.buf@[start as int];
            proof {
                utf8_byte_ranges_bitwise(b);
                assert(self.left()[start as int] == b);
            }
            start -= 1;
        }
        proof {
            utf8_byte_ranges_bitwise(self.buf@[start as int]);
            if start > head.len() {
                assert(self.left()[start as int] == e[start - head.len()]);
                assert(is_continuation_byte(e[start - head.len()]));
            }
            assert(self.left().take(start as int) == head);
            assert(self.left().skip(start as int) == e);
        }
        start
    }

    /// Erases the character before the cursor. Tells whether there was one.
    pub fn backspace(&mut self) -> (changed: bool)
        requires
            old(self).well_formed(),
        ensures
            final(self).well_formed(),
            changed == (old(self)@.before.len() > 0),
            changed ==> final(self)@ == old(self)@.erased_before(),
            !changed ==> final(self)@ == old(self)@,
    {
        proof {
            old(self).lemma_bytes();
            lemma_encode_empty(old(self)@.before);
        }
        if self.cursor == 0 {
            return false;
        }
        let start: usize = self.char_start();
        let mut tail: Vec<u8> = self.buf.split_off(self.cursor);
        assert(tail@ == old(self).right());
        self.buf.truncate(start);
        assert(self.buf@ == old(self).left().take(start as int));
        self.buf.append(&mut tail);
        self.cursor = start;
        proof {
            self.lemma_from_texts(old(self)@.before.drop_last(), old(self)@.after);
        }
        true
    }

    /// Moves the cursor one character to the left. Tells whether it moved.
    pub fn move_left(&mut self) -> (changed: bool)
        requires
            old(self).well_formed(),
        ensures
            final(self).well_formed(),
            changed == (old(self)@.before.len() > 0),
            changed ==> final(self)@ == old(self)@.moved_left(),
            !changed ==> final(self)@ == old(self)@,
    {
        proof {
            old(self).lemma_bytes();
            lemma_encode_empty(old(self)@.before);
        }
        if self.cursor == 0 {
            return false;
        }
        let start: usize = self.char_start();
        self.cursor = start;
        proof {
            let head = old(self)@.before.drop_last();
            let c = old(self)@.before.last();
            let tail = seq![c] + old(self)@.after;
            assert(tail.drop_first() == old(self)@.after);
            lemma_encode_first(tail);
            assert(self.buf@ == encode_utf8(head) + encode_utf8(tail)) by {
                assert(old(self).left() == encode_utf8(head) + encode_scalar(c as u32)) by {
                    lemma_encode_last(old(self)@.before);
                }
            }
            self.lemma_from_texts(head, tail);
        }
        true
    }

    /// Moves the cursor one character to the right. Tells whether it moved.
    pub fn move_right(&mut self) -> (changed: bool)
        requires
            old(self).well_formed(),
        ensures
            final(self).well_formed(),
            changed == (old(self)@.after.len() > 0),
            changed ==> final(self)@ == old(self)@.moved_right(),
            !changed ==> final(self)@ == old(self)@,
    {
        proof {
            old(self).lemma_bytes();
            lemma_encode_empty(old(self)@.after);
        }
        if self.cursor >= self.buf.len() {
            return false;
        }
        let ghost c = old(self)@.after[0];
        proof {
            lemma_encode_first(old(self)@.after);
            lemma_char_bytes(c);
            assert(self.right()[0] == self.buf@[self.cursor as int]);
            assert(self.cursor + encode_scalar(c as u32).len() <= self.buf@.len()
                <= self.buf.len());
        }
        self.cursor = self.cursor + utf8_seq_len(self.buf[self.cursor]);
        proof {
            let head = old(self)@.before.push(c);
            lemma_encode_last(head);
            assert(head.drop_last() == old(self)@.before);
            assert(self.buf@ == encode_utf8(head) + encode_utf8(old(self)@.after.drop_first()));
            self.lemma_from_texts(head, old(self)@.after.drop_first());
        }
        true
    }

    /// Erases the character behind the cursor. Tells whether there was one.
    pub fn delete(&mut self) -> (changed: bool)
        requires
            old(self).well_formed(),
        ensures
            final(self).well_formed(),
            changed == (old(self)@.after.len() > 0),
            changed ==> final(self)@ == old(self)@.erased_after(),
            !changed ==> final(self)@ == old(self)@,
    {
        if !self.move_right() {
            return false;
        }
        let ghost moved = self@;
        let erased: bool = self.backspace();
        assert(moved.before.drop_last() == old(self)@.before);
        true
    }

    /// Where a backslash stands immediately before the cursor, puts a line feed in its place. Tells
    /// whether it did.
    pub fn continue_line(&mut self) -> (changed: bool)
        requires
            old(self).well_formed(),
        ensures
            final(self).well_formed(),
            changed == old(self)@.continues(),
            changed ==> final(self)@ == old(self)@.continued(),
            !changed ==> final(self)@ == old(self)@,
    {
        proof {
            old(self).lemma_bytes();
            lemma_encode_empty(old(self)@.before);
            if old(self)@.before.len() > 0 {
                lemma_last_ascii(old(self)@.before, '\\');
                assert(self.left().last() == self.buf@[self.cursor - 1]);
            }
        }
        if self.cursor == 0 || self.buf[self.cursor - 1] != 0x5C {
            return false;
        }
        let erased: bool = self.backspace();
        let newline: [u8; 1] = [0x0A];
        proof {
            let s = seq!['\n'];
            lemma_char_bytes('\n');
            lemma_encode_decode(s);
            assert(0x0Au32 & 0x7F == 0x0A) by (bit_vector);
            assert(newline@ == encode_utf8(s));
        }
        self.insert(&newline);
        true
    }

    /// Draws the text anew: gives what is to be written to the terminal for that.
    pub fn redraw(&mut self) -> (out: String)
        requires
            old(self).well_formed(),
        ensures
            final(self).well_formed(),
            final(self)@ == old(self)@.redrawn(),
            out@ == old(self)@.frame(),
    {
        let head = self.head();
        let tail = self.tail();
        let row: usize = count_newlines(&head);
        let below: usize = count_newlines(&tail);
        let ghost none = Seq::<Stroke>::empty();
        let ghost up = none.push(Stroke::Up(self@.cursor_line));
        let ghost clear = up.push(Stroke::Clear);
        let ghost prompt = clear.push(Stroke::Prompt(self@.prompt));
        let ghost whole = prompt.push(Stroke::Text(self@.text()));
        let mut out = String::new();
        push_control(&mut out, self.cursor_line, "A");
        out.push_str("\r\x1b[J");
        out.push_str(self.prompt.as_str());
        let content = text::chars_of(self.as_str());
        let lines: usize = push_crlf(&mut out, &content);
        proof {
            lemma_written_push(none, up.last());
            lemma_written_push(up, clear.last());
            lemma_written_push(clear, prompt.last());
            lemma_written_push(prompt, whole.last());
        }
        assert(out@ == written(whole));
        if below == 0 {
            let s = text::string_of(tail.as_slice(), 0, tail.len());
            assert(s@ == self@.after);
            push_control(&mut out, display_width(s.as_str()), "D");
            proof {
                let left = Stroke::Left(text_columns(self@.after));
                lemma_written_push(whole, left);
                assert(whole.push(left) == self@.drawing());
            }
        } else {
            push_control(&mut out, below, "A");
            out.push_str("\r");
            let ghost above = whole.push(Stroke::Up(newlines(self@.after)));
            let ghost front = above.push(Stroke::Return);
            proof {
                lemma_written_push(whole, above.last());
                lemma_written_push(above, front.last());
            }
            if row == 0 {
                out.push_str(self.prompt.as_str());
                let again: usize = push_crlf(&mut out, &head);
                proof {
                    let p = Stroke::Prompt(self@.prompt);
                    let t = Stroke::Text(self@.before);
                    lemma_written_push(front, p);
                    lemma_written_push(front.push(p), t);
                    assert(front.push(p).push(t) == self@.drawing());
                }
            } else {
                let line = text::chars_of(last_line_of(&head).as_str());
                let again: usize = push_crlf(&mut out, &line);
                proof {
                    let t = Stroke::Text(last_line(self@.before));
                    lemma_written_push(front, t);
                    assert(front.push(t) == self@.drawing());
                }
            }
        }
        self.cursor_line = row;
        assert(self.left() == old(self).left());
        assert(self.right() == old(self).right());
        out
    }

    /// The characters before the cursor.
    fn head(&self) -> (v: Vec<char>)
        requires
            self.well_formed(),
        ensures
            v@ == self@.before,
    {
        let bytes = slice_subrange(self.buf.as_slice(), 0, self.cursor);
        assert(bytes@ == self.left());
        match std::str::from_utf8(bytes) {
            Ok(s) => {
                proof {
                    encode_utf8_decode_utf8(s@);
                }
                text::chars_of(s)
            },
            Err(_) => {
                assert(false);
                Vec::new()
            },
        }
    }

    /// The characters behind the cursor.
    fn tail(&self) -> (v: Vec<char>)
        requires
            self.well_formed(),
        ensures
            v@ == self@.after,
    {
        let bytes = slice_subrange(self.buf.as_slice(), self.cursor, self.buf.len());
        assert(bytes@ == self.right());
        match std::str::from_utf8(bytes) {
            Ok(s) => {
                proof {
                    encode_utf8_decode_utf8(s@);
                }
                text::chars_of(s)
            },
            Err(_) => {
                assert(false);
                Vec::new()
            },
        }
    }
}

/// What is written for a drawing with one more step.
pub proof fn lemma_written_push(strokes: Seq<Stroke>, stroke: Stroke)
    ensures
        written(strokes.push(stroke)) == written(strokes) + stroke_text(stroke),
{
    assert(strokes.push(stroke).drop_last() == strokes);
}

/// Appends a control sequence.
fn push_control(out: &mut String, n: usize, letter: &str)
    ensures
        final(out)@ == old(out)@ + control(n as nat, letter@),
{
    if n > 0 {
        out.push_str("\x1b[");
        text::push_decimal(out, n);
        out.push_str(letter);
    }
    assert(out@ == old(out)@ + control(n as nat, letter@));
}

/// Appends a text with a carriage return before each line feed, and counts the line feeds.
fn push_crlf(out: &mut String, v: &Vec<char>) -> (lines: usize)
    ensures
        final(out)@ == old(out)@ + crlf(v@),
        lines == newlines(v@),
{
    let mut i: usize = 0;
    let mut lines: usize = 0;
    assert(out@ == old(out)@ + crlf(v@.take(0)));
    while i < v.len()
        invariant
            i <= v@.len(),
            out@ == old(out)@ + crlf(v@.take(i as int)),
            lines == newlines(v@.take(i as int)),
            lines <= i,
        decreases v@.len() - i,
    {
        assert(v@.take(i + 1).drop_last() == v@.take(i as int));
        if v[i] == '\n' {
            out.push_str("\r\n");
            lines += 1;
        } else {
            out.push(v[i]);
        }
        assert(out@ == old(out)@ + crlf(v@.take(i + 1)));
        i += 1;
    }
    assert(v@.take(i as int) == v@);
    lines
}

/// The number of line feeds.
fn count_newlines(v: &Vec<char>) -> (n: usize)
    ensures
        n == newlines(v@),
{
    let mut i: usize = 0;
    let mut n: usize = 0;
    while i < v.len()
        invariant
            i <= v@.len(),
            n == newlines(v@.take(i as int)),
            n <= i,
        decreases v@.len() - i,
    {
        assert(v@.take(i + 1).drop_last() == v@.take(i as int));
        if v[i] == '\n' {
            n += 1;
        }
        i += 1;
    }
    assert(v@.take(i as int) == v@);
    n
}

/// What follows the last line feed.
fn last_line_of(v: &Vec<char>) -> (s: String)
    ensures
        s@ == last_line(v@),
{
    let mut i: usize = 0;
    let mut start: usize = 0;
    assert(last_line(v@.take(0)) == v@.subrange(0, 0));
    while i < v.len()
        invariant
            start <= i <= v@.len(),
            last_line(v@.take(i as int)) == v@.subrange(start as int, i as int),
        decreases v@.len() - i,
    {
        assert(v@.take(i + 1).drop_last() == v@.take(i as int));
        assert(v@.subrange(start as int, i as int).push(v@[i as int]) == v@.subrange(
            start as int,
            i + 1,
        ));
        if v[i] == '\n' {
            start = i + 1;
        }
        i += 1;
        assert(last_line(v@.take(i as int)) == v@.subrange(start as int, i as int));
    }
    assert(v@.take(i as int) == v@);
    text::string_of(v.as_slice(), start, i)
}

// ── Laws ─────────────────────────────────────────────────────────────────────

/// Erasing before the cursor undoes the typing of one character, and leaves the editor as it was.
pub proof fn law_backspace_undoes_typing(ed: EditorView, c: char)
    ensures
        ed.inserted(seq![c]).erased_before() == ed,
{
    assert(ed.inserted(seq![c]).before.drop_last() == ed.before);
}

/// A step to the left and a step to the right undo each other, and neither changes the text.
pub proof fn law_moves_undo_each_other(ed: EditorView)
    ensures
        ed.before.len() > 0 ==> ed.moved_left().text() == ed.text() && ed.moved_left().moved_right()
            == ed,
        ed.after.len() > 0 ==> ed.moved_right().text() == ed.text()
            && ed.moved_right().moved_left() == ed,
{
    if ed.before.len() > 0 {
        let m = ed.moved_left();
        assert(m.text() == ed.text());
        assert(m.moved_right().before == ed.before);
        assert(m.moved_right().after == ed.after);
    }
    if ed.after.len() > 0 {
        let m = ed.moved_right();
        assert(m.text() == ed.text());
        assert(m.moved_left().before == ed.before);
        assert(m.moved_left().after == ed.after);
    }
}

/// Erasing behind the cursor is a step to the right and an erasure before the cursor.
pub proof fn law_delete_is_right_then_backspace(ed: EditorView)
    requires
        ed.after.len() > 0,
    ensures
        ed.erased_after() == ed.moved_right().erased_before(),
{
    assert(ed.moved_right().before.drop_last() == ed.before);
}

/// A second drawing changes nothing: the text, the cursor and the line on which it stands are as the
/// first left them.
pub proof fn law_redraw_is_stable(ed: EditorView)
    ensures
        ed.redrawn().text() == ed.text(),
        ed.redrawn().redrawn() == ed.redrawn(),
        ed.redrawn().cursor_line == newlines(ed.before),
{
}

/// A place on the screen: lines below the prompt's own, and columns from the left.
pub struct Spot {
    pub row: int,
    pub col: int,
}

/// Where the cursor stands once text has been written.
pub open spec fn printed(p: Spot, s: Seq<char>) -> Spot
    decreases s.len(),
{
    if s.len() == 0 {
        p
    } else {
        let q = printed(p, s.drop_last());
        if s.last() == '\n' {
            Spot { row: q.row + 1, col: 0 }
        } else {
            Spot { col: q.col + columns(s.last()), ..q }
        }
    }
}

/// Where a step of a drawing takes the cursor, with a prompt of `width` columns.
pub open spec fn moved(p: Spot, stroke: Stroke, width: nat) -> Spot {
    match stroke {
        Stroke::Up(n) => Spot { row: p.row - n, ..p },
        Stroke::Left(n) => Spot { col: p.col - n, ..p },
        Stroke::Return => Spot { col: 0, ..p },
        Stroke::Clear => Spot { col: 0, ..p },
        Stroke::Prompt(_) => Spot { col: p.col + width, ..p },
        Stroke::Text(s) => printed(p, s),
    }
}

/// Where a drawing takes the cursor.
pub open spec fn drawn(p: Spot, strokes: Seq<Stroke>, width: nat) -> Spot
    decreases strokes.len(),
{
    if strokes.len() == 0 {
        p
    } else {
        moved(drawn(p, strokes.drop_last(), width), strokes.last(), width)
    }
}

/// Where the cursor of an editor belongs on the screen, with a prompt of `width` columns.
pub open spec fn cursor_spot(ed: EditorView, width: nat) -> Spot {
    Spot {
        row: newlines(ed.before) as int,
        col: (if newlines(ed.before) == 0 {
            width as int
        } else {
            0
        }) + text_columns(last_line(ed.before)),
    }
}

/// The line feeds of two texts, one after the other.
pub proof fn lemma_newlines_concat(a: Seq<char>, b: Seq<char>)
    ensures
        newlines(a + b) == newlines(a) + newlines(b),
    decreases b.len(),
{
    if b.len() == 0 {
        assert(a + b == a);
    } else {
        assert((a + b).drop_last() == a + b.drop_last());
        lemma_newlines_concat(a, b.drop_last());
    }
}

/// Where text leaves the cursor.
pub proof fn lemma_printed(p: Spot, s: Seq<char>)
    ensures
        printed(p, s) == (Spot {
            row: p.row + newlines(s),
            col: (if newlines(s) == 0 {
                p.col
            } else {
                0
            }) + text_columns(last_line(s)),
        }),
        newlines(s) == 0 ==> last_line(s) == s,
    decreases s.len(),
{
    if s.len() > 0 {
        lemma_printed(p, s.drop_last());
        let l = last_line(s);
        if s.last() != '\n' {
            assert(l.drop_last() == last_line(s.drop_last()));
            assert(newlines(s) == 0 ==> l == s);
        }
    }
}

proof fn lemma_printed_concat(p: Spot, a: Seq<char>, b: Seq<char>)
    ensures
        printed(p, a + b) == printed(printed(p, a), b),
    decreases b.len(),
{
    if b.len() == 0 {
        assert(a + b == a);
    } else {
        assert((a + b).drop_last() == a + b.drop_last());
        lemma_printed_concat(p, a, b.drop_last());
    }
}

/// The last line of a text is one line.
pub proof fn lemma_no_more_newlines(s: Seq<char>)
    ensures
        newlines(last_line(s)) == 0,
    decreases s.len(),
{
    if s.len() > 0 && s.last() != '\n' {
        lemma_no_more_newlines(s.drop_last());
        assert(last_line(s).drop_last() == last_line(s.drop_last()));
    }
}

proof fn lemma_drawn_next(p: Spot, strokes: Seq<Stroke>, k: int, width: nat)
    requires
        0 <= k < strokes.len(),
    ensures
        drawn(p, strokes.take(k + 1), width) == moved(
            drawn(p, strokes.take(k), width),
            strokes[k],
            width,
        ),
{
    assert(strokes.take(k + 1).drop_last() == strokes.take(k));
}

/// Drawing the text anew goes up to the front of the prompt's line and clears from there, and leaves
/// the cursor on the line and in the column where it belongs, whatever lines the text has and
/// wherever in it the cursor stands.
pub proof fn law_redraw_leaves_the_cursor_in_place(ed: EditorView, col: int, width: nat)
    ensures
        ed.drawing()[1] == Stroke::Clear,
        drawn((Spot { row: ed.cursor_line as int, col }), ed.drawing().take(2), width) == (Spot {
            row: 0,
            col: 0,
        }),
        drawn((Spot { row: ed.cursor_line as int, col }), ed.drawing(), width) == cursor_spot(
            ed,
            width,
        ),
{
    let start = Spot { row: ed.cursor_line as int, col };
    let all = ed.drawing();
    let n = all.len() as int;
    assert(all.take(n) == all);
    assert(all.take(0) == Seq::<Stroke>::empty());
    lemma_drawn_next(start, all, 0, width);
    lemma_drawn_next(start, all, 1, width);
    lemma_drawn_next(start, all, 2, width);
    lemma_drawn_next(start, all, 3, width);
    lemma_drawn_next(start, all, 4, width);
    let one = drawn(start, all.take(1), width);
    assert(one == (Spot { row: 0, col }));
    let two = drawn(start, all.take(2), width);
    assert(two == (Spot { row: 0, col: 0 }));
    let three = drawn(start, all.take(3), width);
    assert(three == (Spot { row: 0, col: width as int }));
    let four = drawn(start, all.take(4), width);
    assert(four == printed(three, ed.text()));
    lemma_printed_concat(three, ed.before, ed.after);
    lemma_printed(three, ed.before);
    lemma_printed(printed(three, ed.before), ed.after);
    assert(printed(three, ed.before) == cursor_spot(ed, width));
    if newlines(ed.after) == 0 {
        assert(n == 5);
    } else {
        lemma_drawn_next(start, all, 5, width);
        lemma_drawn_next(start, all, 6, width);
        let six = drawn(start, all.take(6), width);
        assert(six == (Spot { row: newlines(ed.before) as int, col: 0 }));
        if newlines(ed.before) == 0 {
            lemma_drawn_next(start, all, 7, width);
            assert(n == 8);
            let seven = drawn(start, all.take(7), width);
            assert(seven == three);
        } else {
            assert(n == 7);
            let line = last_line(ed.before);
            lemma_no_more_newlines(ed.before);
            lemma_printed(six, line);
        }
    }
}

/// Drawing a text anew writes something, even where the text and the prompt are empty.
pub proof fn lemma_frame_not_empty(ed: EditorView)
    ensures
        ed.frame().len() > 0,
{
    let d = ed.drawing();
    lemma_written_grows(d, 2);
    assert(d.take(2).last() == Stroke::Clear);
    reveal_strlit("\r\x1b[J");
    assert(written(d.take(2)).len() >= "\r\x1b[J"@.len());
}

proof fn lemma_written_grows(strokes: Seq<Stroke>, n: int)
    requires
        0 <= n <= strokes.len(),
    ensures
        written(strokes.take(n)).len() <= written(strokes).len(),
    decreases strokes.len() - n,
{
    if n < strokes.len() {
        lemma_written_grows(strokes, n + 1);
        assert(strokes.take(n + 1).drop_last() == strokes.take(n));
    } else {
        assert(strokes.take(n) == strokes);
    }
}

/// Each edit changes the text at the cursor and nowhere else: what is inserted stands between what
/// stood before the cursor and what stood behind it, with the cursor behind it; what is erased is the
/// one character next to the cursor; and a move keeps the text.
pub proof fn law_edits_are_local(ed: EditorView, s: Seq<char>, c: char)
    ensures
        ed.text() == ed.before + ed.after,
        ed.inserted(s).before == ed.before + s,
        ed.inserted(s).after == ed.after,
        ed.inserted(s).prompt == ed.prompt,
        ed.before == s.push(c) ==> ed.erased_before().before == s && ed.erased_before().after
            == ed.after && ed.erased_before().prompt == ed.prompt,
        ed.after == seq![c] + s ==> ed.erased_after().after == s && ed.erased_after().before
            == ed.before && ed.erased_after().prompt == ed.prompt,
        ed.before == s.push(c) ==> ed.moved_left().before == s && ed.moved_left().after == seq![c]
            + ed.after && ed.moved_left().prompt == ed.prompt,
        ed.after == seq![c] + s ==> ed.moved_right().after == s && ed.moved_right().before
            == ed.before.push(c) && ed.moved_right().prompt == ed.prompt,
        ed.redrawn().before == ed.before,
        ed.redrawn().after == ed.after,
        ed.redrawn().prompt == ed.prompt,
{
    if ed.before == s.push(c) {
        assert(ed.before.drop_last() == s);
        assert(ed.before.last() == c);
    }
    if ed.after == seq![c] + s {
        assert(ed.after.drop_first() == s);
        assert(ed.after[0] == c);
    }
}

/// The first byte of a character tells how many bytes it has.
pub proof fn law_first_byte_tells_the_length(c: char)
    ensures
        seq_len(encode_utf8(seq![c])[0]) == encode_utf8(seq![c]).len(),
{
    lemma_char_bytes(c);
}

/// Hangul, Kana, CJK ideographs and the fullwidth forms take two columns, all that comes before the
/// first of them takes one, and the columns of a text are those of its parts together.
pub proof fn law_columns(c: char, a: Seq<char>, b: Seq<char>)
    ensures
        columns(c) == 1 || columns(c) == 2,
        c < '\u{1100}' ==> columns(c) == 1,
        '\u{AC00}' <= c <= '\u{D7A3}' ==> columns(c) == 2,
        '\u{1100}' <= c <= '\u{115F}' ==> columns(c) == 2,
        '\u{3041}' <= c <= '\u{30FF}' ==> columns(c) == 2,
        '\u{3400}' <= c <= '\u{4DBF}' ==> columns(c) == 2,
        '\u{4E00}' <= c <= '\u{9FFF}' ==> columns(c) == 2,
        '\u{F900}' <= c <= '\u{FAFF}' ==> columns(c) == 2,
        '\u{FF01}' <= c <= '\u{FF60}' ==> columns(c) == 2,
        '\u{20000}' <= c <= '\u{3FFFD}' ==> columns(c) == 2,
        '\u{1160}' <= c <= '\u{2E7F}' ==> columns(c) == 1,
        '\u{FF61}' <= c <= '\u{FFDF}' ==> columns(c) == 1,
        '\u{1F300}' <= c <= '\u{1FFFF}' ==> columns(c) == 1,
        c >= '\u{40000}' ==> columns(c) == 1,
        text_columns(Seq::<char>::empty()) == 0,
        text_columns(seq![c]) == columns(c),
        text_columns(a + b) == text_columns(a) + text_columns(b),
    decreases b.len(),
{
    assert(seq![c].drop_last() == Seq::<char>::empty());
    reveal_with_fuel(text_columns, 2);
    if b.len() == 0 {
        assert(a + b == a);
    } else {
        assert((a + b).drop_last() == a + b.drop_last());
        law_columns(c, a, b.drop_last());
    }
}

/// Each line feed is written with a carriage return before it, and every other character as it is.
pub proof fn law_line_feeds_return(a: Seq<char>, c: char)
    ensures
        crlf(Seq::empty()) == Seq::<char>::empty(),
        crlf(a.push('\n')) == crlf(a) + seq!['\r', '\n'],
        c != '\n' ==> crlf(a.push(c)) == crlf(a) + seq![c],
        newlines(a.push('\n')) == newlines(a) + 1,
        c != '\n' ==> newlines(a.push(c)) == newlines(a),
        last_line(a.push('\n')).len() == 0,
        c != '\n' ==> last_line(a.push(c)) == last_line(a) + seq![c],
{
    assert(a.push('\n').drop_last() == a);
    assert(a.push(c).drop_last() == a);
    reveal_strlit("\r\n");
    assert("\r\n"@ == seq!['\r', '\n']);
    assert(crlf(a).push(c) == crlf(a) + seq![c]);
    assert(last_line(a).push(c) == last_line(a) + seq![c]);
}

} // verus!
