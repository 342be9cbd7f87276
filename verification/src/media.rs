//! Attachments: which files are images or audio, and how they are sent.
use vstd::prelude::*;

use crate::screen;
use crate::text;

verus! {

// ── Base64 ───────────────────────────────────────────────────────────────────

/// The number of characters of `n` bytes in base64, with padding.
pub open spec fn base64_len(n: nat) -> nat {
    (n + 2) / 3 * 4
}

/// Whether `n` bytes in base64 fit in a string.
pub open spec fn encodable(n: nat) -> bool {
    base64_len(n) <= isize::MAX
}

/// The letter of six bits in base64: `A` to `Z`, `a` to `z`, `0` to `9`, `+` and `/`.
pub open spec fn base64_letter(v: int) -> char
    recommends
        0 <= v < 64,
{
    if v < 26 {
        ('A' as u32 + v) as char
    } else if v < 52 {
        ('a' as u32 + v - 26) as char
    } else if v < 62 {
        ('0' as u32 + v - 52) as char
    } else if v == 62 {
        '+'
    } else {
        '/'
    }
}

/// The byte at a position; zero behind the last.
pub open spec fn byte_at(bytes: Seq<u8>, i: int) -> int {
    if i < bytes.len() {
        bytes[i] as int
    } else {
        0
    }
}

/// The character at position `i` of bytes in base64: three bytes give four letters of six bits, from
/// the highest on, and a letter that has no bit of a byte gives way to `=`.
pub open spec fn base64_char(bytes: Seq<u8>, i: int) -> char {
    let at = i / 4 * 3;
    let (a, b, c) = (byte_at(bytes, at), byte_at(bytes, at + 1), byte_at(bytes, at + 2));
    if i % 4 == 0 {
        base64_letter(a / 4)
    } else if i % 4 == 1 {
        base64_letter(a % 4 * 16 + b / 16)
    } else if i % 4 == 2 && at + 1 < bytes.len() {
        base64_letter(b % 16 * 4 + c / 64)
    } else if i % 4 == 3 && at + 2 < bytes.len() {
        base64_letter(c % 64)
    } else {
        '='
    }
}

/// Bytes in base64, with the standard alphabet and padding.
pub open spec fn base64_standard(bytes: Seq<u8>) -> Seq<char> {
    Seq::new(base64_len(bytes.len()), |i: int| base64_char(bytes, i))
}

/// `encode` of the crate `base64`, on its engine `STANDARD`, gives the bytes in base64, with the
/// standard alphabet and padding: four characters for every three bytes or part of three. It
/// allocates all of them at once, and so panics where they do not fit in a string.
#[verifier::external_body]
fn encode_base64(bytes: &[u8]) -> (s: String)
    requires
        encodable(bytes@.len()),
    ensures
        s@ == base64_standard(bytes@),
{
    base64::engine::Engine::encode(&base64::engine::general_purpose::STANDARD, bytes)
}

/// Whether `n` bytes in base64 fit in a string.
pub fn fits_base64(n: usize) -> (b: bool)
    ensures
        b == encodable(n as nat),
{
    let blocks: usize = n / 3 + if n % 3 > 0 {
        1
    } else {
        0
    };
    assert(blocks == (n + 2) / 3);
    blocks <= isize::MAX as usize / 4
}

// ── Formats by content ───────────────────────────────────────────────────────

/// Whether these four bytes stand at position `at`.
pub open spec fn four_at(b: Seq<u8>, at: int, b0: u8, b1: u8, b2: u8, b3: u8) -> bool {
    0 <= at && at + 4 <= b.len() && b[at] == b0 && b[at + 1] == b1 && b[at + 2] == b2 && b[at + 3]
        == b3
}

fn has_four(b: &[u8], at: usize, b0: u8, b1: u8, b2: u8, b3: u8) -> (r: bool)
    ensures
        r == four_at(b@, at as int, b0, b1, b2, b3),
{
    b.len() >= 4 && at <= b.len() - 4 && b[at] == b0 && b[at + 1] == b1 && b[at + 2] == b2 && b[at
        + 3] == b3
}

/// Whether bytes begin as a file of the RIFF container does, with the form type `f0 f1 f2 f3`.
pub open spec fn riff(b: Seq<u8>, f0: u8, f1: u8, f2: u8, f3: u8) -> bool {
    four_at(b, 0, 0x52, 0x49, 0x46, 0x46) && four_at(b, 8, f0, f1, f2, f3)
}

/// Whether bytes begin as a file of the ISO base media format does: with a box `ftyp`.
pub open spec fn ftyp(b: Seq<u8>) -> bool {
    four_at(b, 4, 0x66, 0x74, 0x79, 0x70)
}

/// Whether bytes begin as an AVIF or HEIC image does: with a box `ftyp` of one of their brands.
pub open spec fn heif_magic(b: Seq<u8>) -> bool {
    ftyp(b) && {
        // avif, avis
        ||| four_at(b, 8, 0x61, 0x76, 0x69, 0x66)
        ||| four_at(b, 8, 0x61, 0x76, 0x69, 0x73)
        // heic, heix, heim, heis
        ||| four_at(b, 8, 0x68, 0x65, 0x69, 0x63)
        ||| four_at(b, 8, 0x68, 0x65, 0x69, 0x78)
        ||| four_at(b, 8, 0x68, 0x65, 0x69, 0x6D)
        ||| four_at(b, 8, 0x68, 0x65, 0x69, 0x73)
        // hevc, hevx
        ||| four_at(b, 8, 0x68, 0x65, 0x76, 0x63)
        ||| four_at(b, 8, 0x68, 0x65, 0x76, 0x78)
        // mif1, msf1
        ||| four_at(b, 8, 0x6D, 0x69, 0x66, 0x31)
        ||| four_at(b, 8, 0x6D, 0x73, 0x66, 0x31)
    }
}

fn is_heif(b: &[u8]) -> (r: bool)
    ensures
        r == heif_magic(b@),
{
    has_four(b, 4, 0x66, 0x74, 0x79, 0x70) && (has_four(b, 8, 0x61, 0x76, 0x69, 0x66) || has_four(
        b,
        8,
        0x61,
        0x76,
        0x69,
        0x73,
    ) || has_four(b, 8, 0x68, 0x65, 0x69, 0x63) || has_four(b, 8, 0x68, 0x65, 0x69, 0x78)
        || has_four(b, 8, 0x68, 0x65, 0x69, 0x6D) || has_four(b, 8, 0x68, 0x65, 0x69, 0x73)
        || has_four(b, 8, 0x68, 0x65, 0x76, 0x63) || has_four(b, 8, 0x68, 0x65, 0x76, 0x78)
        || has_four(b, 8, 0x6D, 0x69, 0x66, 0x31) || has_four(b, 8, 0x6D, 0x73, 0x66, 0x31))
}

/// Whether `part` stands at position `i`.
pub open spec fn part_at(b: Seq<u8>, i: int, part: Seq<u8>) -> bool {
    0 <= i && i + part.len() <= b.len() && b.subrange(i, i + part.len()) == part
}

fn has_part(b: &[u8], i: usize, part: &[u8]) -> (r: bool)
    ensures
        r == part_at(b@, i as int, part@),
{
    if part.len() > b.len() || i > b.len() - part.len() {
        return false;
    }
    let found = vstd::slice::slice_subrange(b, i, i + part.len());
    text::same_bytes(found, part)
}

/// The position behind the first `part` from position `i` on.
pub open spec fn behind(b: Seq<u8>, i: int, part: Seq<u8>) -> Option<int>
    decreases b.len() - i,
{
    if i < 0 || i >= b.len() {
        None
    } else if part_at(b, i, part) {
        Some(i + part.len())
    } else {
        behind(b, i + 1, part)
    }
}

fn find_behind(b: &[u8], from: usize, part: &[u8]) -> (r: Option<usize>)
    ensures
        (match r {
            Some(n) => Some(n as int),
            None => None,
        }) == behind(b@, from as int, part@),
        r matches Some(n) ==> from + part@.len() <= n <= b@.len(),
{
    let mut i: usize = from;
    while i < b.len()
        invariant
            from <= i,
            behind(b@, from as int, part@) == behind(b@, i as int, part@),
        decreases b@.len() - i,
    {
        if has_part(b, i, part) {
            return Some(i + part.len());
        }
        i += 1;
    }
    None
}

/// The position behind the declaration of a document type, from position `i` inside it on: behind the
/// first `>` that stands neither in quotes nor in the brackets of an internal subset.
pub open spec fn behind_doctype(b: Seq<u8>, i: int, quote: Option<u8>, subset: bool) -> Option<int>
    decreases b.len() - i,
{
    if i < 0 || i >= b.len() {
        None
    } else if quote is Some {
        behind_doctype(
            b,
            i + 1,
            if b[i] == quote->0 {
                None
            } else {
                quote
            },
            subset,
        )
    } else if b[i] == 0x3E && !subset {
        Some(i + 1)
    } else if b[i] == 0x22 || b[i] == 0x27 {
        behind_doctype(b, i + 1, Some(b[i]), subset)
    } else {
        behind_doctype(b, i + 1, None, b[i] == 0x5B || (subset && b[i] != 0x5D))
    }
}

fn find_behind_doctype(b: &[u8], from: usize) -> (r: Option<usize>)
    ensures
        (match r {
            Some(n) => Some(n as int),
            None => None,
        }) == behind_doctype(b@, from as int, None, false),
        r matches Some(n) ==> from < n <= b@.len(),
{
    let mut i: usize = from;
    let mut quote: Option<u8> = None;
    let mut subset: bool = false;
    while i < b.len()
        invariant
            from <= i,
            behind_doctype(b@, from as int, None, false) == behind_doctype(
                b@,
                i as int,
                quote,
                subset,
            ),
        decreases b@.len() - i,
    {
        let c: u8 = b[i];
        match quote {
            Some(q) => {
                if c == q {
                    quote = None;
                }
            },
            None => {
                if c == 0x3E && !subset {
                    return Some(i + 1);
                }
                if c == 0x22 || c == 0x27 {
                    quote = Some(c);
                } else {
                    subset = c == 0x5B || (subset && c != 0x5D);
                }
            },
        }
        i += 1;
    }
    None
}

/// White space in XML: space, tab, line feed and carriage return.
pub open spec fn xml_space(c: u8) -> bool {
    c == 0x20 || c == 0x09 || c == 0x0A || c == 0x0D
}

/// `<?`, which begins a processing instruction.
pub open spec fn pi_begin() -> Seq<u8> {
    seq![0x3C, 0x3F]
}

/// `?>`, which ends a processing instruction.
pub open spec fn pi_end() -> Seq<u8> {
    seq![0x3F, 0x3E]
}

/// `<!--`, which begins a comment.
pub open spec fn comment_begin() -> Seq<u8> {
    seq![0x3C, 0x21, 0x2D, 0x2D]
}

/// `-->`, which ends a comment.
pub open spec fn comment_end() -> Seq<u8> {
    seq![0x2D, 0x2D, 0x3E]
}

/// `<!DOCTYPE`, which begins the declaration of a document type.
pub open spec fn doctype_begin() -> Seq<u8> {
    seq![0x3C, 0x21, 0x44, 0x4F, 0x43, 0x54, 0x59, 0x50, 0x45]
}

/// The position behind what stands at position `i`, where it may stand before the first element of an
/// XML document: white space, a processing instruction or the XML declaration, a comment, or the
/// declaration of a document type.
pub open spec fn behind_misc(b: Seq<u8>, i: int) -> Option<int> {
    if 0 <= i < b.len() && xml_space(b[i]) {
        Some(i + 1)
    } else if part_at(b, i, pi_begin()) {
        behind(b, i + 2, pi_end())
    } else if part_at(b, i, comment_begin()) {
        behind(b, i + 4, comment_end())
    } else if part_at(b, i, doctype_begin()) {
        behind_doctype(b, i + 9, None, false)
    } else {
        None
    }
}

fn find_behind_misc(b: &[u8], i: usize) -> (r: Option<usize>)
    ensures
        (match r {
            Some(n) => Some(n as int),
            None => None,
        }) == behind_misc(b@, i as int),
        r matches Some(n) ==> i < n <= b@.len(),
{
    if i >= b.len() {
        return None;
    }
    let c: u8 = b[i];
    if c == 0x20 || c == 0x09 || c == 0x0A || c == 0x0D {
        return Some(i + 1);
    }
    let pi: [u8; 2] = [0x3C, 0x3F];
    let pi_close: [u8; 2] = [0x3F, 0x3E];
    let comment: [u8; 4] = [0x3C, 0x21, 0x2D, 0x2D];
    let comment_close: [u8; 3] = [0x2D, 0x2D, 0x3E];
    let doctype: [u8; 9] = [0x3C, 0x21, 0x44, 0x4F, 0x43, 0x54, 0x59, 0x50, 0x45];
    assert(pi@ == pi_begin());
    assert(pi_close@ == pi_end());
    assert(comment@ == comment_begin());
    assert(comment_close@ == comment_end());
    assert(doctype@ == doctype_begin());
    if has_part(b, i, &pi) {
        find_behind(b, i + 2, &pi_close)
    } else if has_part(b, i, &comment) {
        find_behind(b, i + 4, &comment_close)
    } else if has_part(b, i, &doctype) {
        find_behind_doctype(b, i + 9)
    } else {
        None
    }
}

/// The position of the first element of an XML document, from position `i` before it on.
pub open spec fn root_at(b: Seq<u8>, i: int) -> int
    decreases b.len() - i,
{
    match behind_misc(b, i) {
        Some(n) => if i < n <= b.len() {
            root_at(b, n)
        } else {
            i
        },
        None => i,
    }
}

/// Whether an element `svg` begins at position `i`: with `<svg`, and no more letters to the name.
pub open spec fn svg_at(b: Seq<u8>, i: int) -> bool {
    &&& four_at(b, i, 0x3C, 0x73, 0x76, 0x67)
    &&& i + 4 < b.len() ==> xml_space(b[i + 4]) || b[i + 4] == 0x2F || b[i + 4] == 0x3E
}

/// Whether bytes begin as an SVG image does: as an XML document whose first element is `svg`.
pub open spec fn svg_magic(b: Seq<u8>) -> bool {
    svg_at(b, root_at(b, 0))
}

fn is_svg(b: &[u8]) -> (r: bool)
    ensures
        r == svg_magic(b@),
{
    let mut i: usize = 0;
    loop
        invariant
            root_at(b@, 0) == root_at(b@, i as int),
            i <= b@.len(),
        ensures
            root_at(b@, 0) == i,
        decreases b@.len() - i,
    {
        match find_behind_misc(b, i) {
            Some(n) => {
                i = n;
            },
            None => {
                break;
            },
        }
    }
    if !has_four(b, i, 0x3C, 0x73, 0x76, 0x67) {
        return false;
    }
    if b.len() - i == 4 {
        return true;
    }
    let c: u8 = b[i + 4];
    c == 0x20 || c == 0x09 || c == 0x0A || c == 0x0D || c == 0x2F || c == 0x3E
}

/// Whether bytes begin as an image of a binary format does.
pub open spec fn raster_magic(b: Seq<u8>) -> bool {
    // JPEG
    ||| b.len() >= 3 && b[0] == 0xFF && b[1] == 0xD8 && b[2] == 0xFF
    // PNG
    ||| four_at(b, 0, 0x89, 0x50, 0x4E, 0x47) && four_at(b, 4, 0x0D, 0x0A, 0x1A, 0x0A)
    // GIF
    ||| four_at(b, 0, 0x47, 0x49, 0x46, 0x38)
    // WebP
    ||| riff(b, 0x57, 0x45, 0x42, 0x50)
    // BMP
    ||| b.len() >= 2 && b[0] == 0x42 && b[1] == 0x4D
    // TIFF, in either byte order
    ||| four_at(b, 0, 0x49, 0x49, 0x2A, 0x00)
    ||| four_at(b, 0, 0x4D, 0x4D, 0x00, 0x2A)
    // AVIF and HEIC
    ||| heif_magic(b)
    // ICO
    ||| four_at(b, 0, 0x00, 0x00, 0x01, 0x00)
}

/// Whether bytes begin as an image does.
pub open spec fn image_magic(b: Seq<u8>) -> bool {
    raster_magic(b) || svg_magic(b)
}

/// Detects a known image format from the first bytes.
pub fn detect_image_mime(bytes: &[u8]) -> (r: Option<()>)
    ensures
        r is Some <==> image_magic(bytes@),
{
    let jpeg: bool = bytes.len() >= 3 && bytes[0] == 0xFF && bytes[1] == 0xD8 && bytes[2] == 0xFF;
    let png: bool = has_four(bytes, 0, 0x89, 0x50, 0x4E, 0x47) && has_four(
        bytes,
        4,
        0x0D,
        0x0A,
        0x1A,
        0x0A,
    );
    let gif: bool = has_four(bytes, 0, 0x47, 0x49, 0x46, 0x38);
    let webp: bool = has_four(bytes, 0, 0x52, 0x49, 0x46, 0x46) && has_four(
        bytes,
        8,
        0x57,
        0x45,
        0x42,
        0x50,
    );
    let bmp: bool = bytes.len() >= 2 && bytes[0] == 0x42 && bytes[1] == 0x4D;
    let tiff: bool = has_four(bytes, 0, 0x49, 0x49, 0x2A, 0x00) || has_four(
        bytes,
        0,
        0x4D,
        0x4D,
        0x00,
        0x2A,
    );
    let ico: bool = has_four(bytes, 0, 0x00, 0x00, 0x01, 0x00);
    if jpeg || png || gif || webp || bmp || tiff || is_heif(bytes) || ico || is_svg(bytes) {
        Some(())
    } else {
        None
    }
}

/// Whether bytes begin as an MP3 file does: with a frame, or with an ID3 tag.
pub open spec fn mpeg_magic(b: Seq<u8>) -> bool {
    ||| b.len() >= 2 && b[0] == 0xFF && (b[1] == 0xFB || b[1] == 0xF3 || b[1] == 0xF2)
    ||| b.len() >= 3 && b[0] == 0x49 && b[1] == 0x44 && b[2] == 0x33
}

/// Whether bytes begin as an AAC file does: with an ADTS frame, or with `ADIF`.
pub open spec fn aac_magic(b: Seq<u8>) -> bool {
    ||| b.len() >= 2 && b[0] == 0xFF && (b[1] == 0xF0 || b[1] == 0xF1 || b[1] == 0xF8 || b[1]
        == 0xF9)
    ||| four_at(b, 0, 0x41, 0x44, 0x49, 0x46)
}

/// Whether bytes begin as an AIFF file does: with `FORM`, and the form type `AIFF` or `AIFC`.
pub open spec fn aiff_magic(b: Seq<u8>) -> bool {
    &&& four_at(b, 0, 0x46, 0x4F, 0x52, 0x4D)
    &&& four_at(b, 8, 0x41, 0x49, 0x46, 0x46) || four_at(b, 8, 0x41, 0x49, 0x46, 0x43)
}

/// The MIME type of the audio format as which bytes begin.
pub open spec fn audio_magic(b: Seq<u8>) -> Option<Seq<char>> {
    if mpeg_magic(b) {
        Some("audio/mpeg"@)
    } else if riff(b, 0x57, 0x41, 0x56, 0x45) {
        Some("audio/wav"@)
    } else if four_at(b, 0, 0x4F, 0x67, 0x67, 0x53) {
        Some("audio/ogg"@)
    } else if four_at(b, 0, 0x66, 0x4C, 0x61, 0x43) {
        Some("audio/flac"@)
    } else if ftyp(b) {
        Some("audio/mp4"@)
    } else if aac_magic(b) {
        Some("audio/aac"@)
    } else if aiff_magic(b) {
        Some("audio/aiff"@)
    } else if four_at(b, 0, 0x30, 0x26, 0xB2, 0x75) {
        // the header object of the ASF container
        Some("audio/x-ms-wma"@)
    } else if four_at(b, 0, 0x23, 0x21, 0x41, 0x4D) && b.len() > 4 && b[4] == 0x52 {
        // #!AMR
        Some("audio/amr"@)
    } else if four_at(b, 0, 0x4D, 0x54, 0x68, 0x64) {
        // MThd
        Some("audio/midi"@)
    } else {
        None
    }
}

/// Detects the MIME type of audio from the first bytes.
pub fn detect_audio_mime(bytes: &[u8]) -> (r: Option<&'static str>)
    ensures
        text::optional_view(r) == audio_magic(bytes@),
{
    let sync: bool = bytes.len() >= 2 && bytes[0] == 0xFF;
    if (sync && (bytes[1] == 0xFB || bytes[1] == 0xF3 || bytes[1] == 0xF2)) || (bytes.len() >= 3
        && bytes[0] == 0x49 && bytes[1] == 0x44 && bytes[2] == 0x33) {
        Some("audio/mpeg")
    } else if has_four(bytes, 0, 0x52, 0x49, 0x46, 0x46) && has_four(
        bytes,
        8,
        0x57,
        0x41,
        0x56,
        0x45,
    ) {
        Some("audio/wav")
    } else if has_four(bytes, 0, 0x4F, 0x67, 0x67, 0x53) {
        Some("audio/ogg")
    } else if has_four(bytes, 0, 0x66, 0x4C, 0x61, 0x43) {
        Some("audio/flac")
    } else if has_four(bytes, 4, 0x66, 0x74, 0x79, 0x70) {
        Some("audio/mp4")
    } else if (sync && (bytes[1] == 0xF0 || bytes[1] == 0xF1 || bytes[1] == 0xF8 || bytes[1]
        == 0xF9)) || has_four(bytes, 0, 0x41, 0x44, 0x49, 0x46) {
        Some("audio/aac")
    } else if has_four(bytes, 0, 0x46, 0x4F, 0x52, 0x4D) && (has_four(
        bytes,
        8,
        0x41,
        0x49,
        0x46,
        0x46,
    ) || has_four(bytes, 8, 0x41, 0x49, 0x46, 0x43)) {
        Some("audio/aiff")
    } else if has_four(bytes, 0, 0x30, 0x26, 0xB2, 0x75) {
        Some("audio/x-ms-wma")
    } else if has_four(bytes, 0, 0x23, 0x21, 0x41, 0x4D) && bytes.len() > 4 && bytes[4] == 0x52 {
        Some("audio/amr")
    } else if has_four(bytes, 0, 0x4D, 0x54, 0x68, 0x64) {
        Some("audio/midi")
    } else {
        None
    }
}

// ── Formats by name ──────────────────────────────────────────────────────────

/// A path without what stands for nothing at its end: slashes, and components `.`.
pub open spec fn without_tail(path: Seq<char>) -> Seq<char>
    decreases path.len(),
{
    let n = path.len();
    if n > 0 && (path[n - 1] == '/' || (path[n - 1] == '.' && (n == 1 || path[n - 2] == '/'))) {
        without_tail(path.drop_last())
    } else {
        path
    }
}

/// What follows the last `c` of a text; the whole text where there is none.
pub open spec fn after_last(s: Seq<char>, c: char) -> Seq<char>
    decreases s.len(),
{
    if s.len() == 0 || s.last() == c {
        Seq::empty()
    } else {
        after_last(s.drop_last(), c).push(s.last())
    }
}

/// The name of the file at a path; empty where the path names none.
pub open spec fn file_name(path: Seq<char>) -> Seq<char> {
    let name = after_last(without_tail(path), '/');
    if name == seq!['.', '.'] {
        Seq::empty()
    } else {
        name
    }
}

/// The extension of the file at a path: what follows the last dot of its name, where a dot stands
/// anywhere but at the front of it.
pub open spec fn extension_of(path: Seq<char>) -> Option<Seq<char>> {
    let name = file_name(path);
    let ext = after_last(name, '.');
    if ext.len() + 1 < name.len() {
        Some(ext)
    } else {
        None
    }
}

/// The position behind the last `c` of `v[from..to]`, or `from` where there is none.
fn behind_last(v: &Vec<char>, from: usize, to: usize, c: char) -> (i: usize)
    requires
        from <= to <= v@.len(),
    ensures
        from <= i <= to,
        after_last(v@.subrange(from as int, to as int), c) == v@.subrange(i as int, to as int),
{
    let mut i: usize = to;
    let ghost all = v@.subrange(from as int, to as int);
    let ghost rest = v@.subrange(to as int, to as int);
    assert(all == v@.subrange(from as int, i as int));
    assert(after_last(all, c) =~= after_last(all, c) + rest);
    while i > from && v[i - 1] != c
        invariant
            from <= i <= to <= v@.len(),
            all == v@.subrange(from as int, to as int),
            after_last(all, c) == after_last(v@.subrange(from as int, i as int), c) + v@.subrange(
                i as int,
                to as int,
            ),
        decreases i,
    {
        let ghost part = v@.subrange(from as int, i as int);
        proof {
            assert(part.drop_last() == v@.subrange(from as int, i - 1));
            assert(after_last(part, c) + v@.subrange(i as int, to as int) =~= after_last(
                part.drop_last(),
                c,
            ) + v@.subrange(i - 1, to as int));
        }
        i -= 1;
    }
    assert(Seq::<char>::empty() + v@.subrange(i as int, to as int) == v@.subrange(
        i as int,
        to as int,
    ));
    i
}

/// The extension of the file at a POSIX path.
pub fn extension(path: &str) -> (ext: Option<String>)
    ensures
        text::optional_text(ext) == extension_of(path@),
{
    let v = text::chars_of(path);
    let mut end: usize = v.len();
    assert(v@.take(end as int) == path@);
    while end > 0 && (v[end - 1] == '/' || (v[end - 1] == '.' && (end == 1 || v[end - 2] == '/')))
        invariant
            end <= v@.len(),
            without_tail(v@.take(end as int)) == without_tail(path@),
        decreases end,
    {
        assert(v@.take(end as int).drop_last() == v@.take(end - 1));
        end -= 1;
    }
    assert(v@.subrange(0, end as int) == v@.take(end as int));
    let start: usize = behind_last(&v, 0, end, '/');
    let ghost name = v@.subrange(start as int, end as int);
    assert(name == after_last(without_tail(path@), '/'));
    if end - start == 2 && v[start] == '.' && v[start + 1] == '.' {
        assert(name == seq!['.', '.']);
        return None;
    }
    assert(name != seq!['.', '.']) by {
        if name == seq!['.', '.'] {
            assert(name[0] == '.' && name[1] == '.');
        }
    }
    let dot: usize = behind_last(&v, start, end, '.');
    if dot <= start + 1 {
        None
    } else {
        Some(text::string_of(v.as_slice(), dot, end))
    }
}

/// Whether an extension, in lower case, is that of an image.
pub open spec fn image_extension(ext: Seq<char>) -> bool {
    ||| ext == "jpg"@
    ||| ext == "jpeg"@
    ||| ext == "jfif"@
    ||| ext == "jpe"@
    ||| ext == "png"@
    ||| ext == "gif"@
    ||| ext == "webp"@
    ||| ext == "bmp"@
    ||| ext == "dib"@
    ||| ext == "tiff"@
    ||| ext == "tif"@
    ||| ext == "avif"@
    ||| ext == "heic"@
    ||| ext == "heif"@
    ||| ext == "ico"@
    ||| ext == "cur"@
    ||| ext == "svg"@
    ||| ext == "svgz"@
}

/// Whether an extension, in lower case, is that of an image.
fn is_image_extension(ext: &str) -> (b: bool)
    ensures
        b == image_extension(ext@),
{
    text::same_text(ext, "jpg")
        || text::same_text(ext, "jpeg")
        || text::same_text(ext, "jfif")
        || text::same_text(ext, "jpe")
        || text::same_text(ext, "png")
        || text::same_text(ext, "gif")
        || text::same_text(ext, "webp")
        || text::same_text(ext, "bmp")
        || text::same_text(ext, "dib")
        || text::same_text(ext, "tiff")
        || text::same_text(ext, "tif")
        || text::same_text(ext, "avif")
        || text::same_text(ext, "heic")
        || text::same_text(ext, "heif")
        || text::same_text(ext, "ico")
        || text::same_text(ext, "cur")
        || text::same_text(ext, "svg")
        || text::same_text(ext, "svgz")
}

/// The MIME type of audio with an extension, in lower case.
pub open spec fn audio_extension(ext: Seq<char>) -> Option<Seq<char>> {
    if ext == "mp3"@ || ext == "mp2"@ {
        Some("audio/mpeg"@)
    } else if ext == "wav"@ || ext == "wave"@ {
        Some("audio/wav"@)
    } else if ext == "ogg"@ || ext == "oga"@ {
        Some("audio/ogg"@)
    } else if ext == "flac"@ {
        Some("audio/flac"@)
    } else if ext == "m4a"@ || ext == "mp4"@ || ext == "m4b"@ {
        Some("audio/mp4"@)
    } else if ext == "aac"@ {
        Some("audio/aac"@)
    } else if ext == "opus"@ {
        Some("audio/opus"@)
    } else if ext == "aiff"@ || ext == "aif"@ || ext == "aifc"@ {
        Some("audio/aiff"@)
    } else if ext == "wma"@ {
        Some("audio/x-ms-wma"@)
    } else if ext == "amr"@ {
        Some("audio/amr"@)
    } else if ext == "weba"@ {
        Some("audio/webm"@)
    } else if ext == "mid"@ || ext == "midi"@ {
        Some("audio/midi"@)
    } else {
        None
    }
}

/// The MIME type of audio with an extension, in lower case.
fn audio_extension_mime(ext: &str) -> (r: Option<&'static str>)
    ensures
        text::optional_view(r) == audio_extension(ext@),
{
    if text::same_text(ext, "mp3") || text::same_text(ext, "mp2") {
        Some("audio/mpeg")
    } else if text::same_text(ext, "wav") || text::same_text(ext, "wave") {
        Some("audio/wav")
    } else if text::same_text(ext, "ogg") || text::same_text(ext, "oga") {
        Some("audio/ogg")
    } else if text::same_text(ext, "flac") {
        Some("audio/flac")
    } else if text::same_text(ext, "m4a") || text::same_text(ext, "mp4") || text::same_text(ext, "m4b") {
        Some("audio/mp4")
    } else if text::same_text(ext, "aac") {
        Some("audio/aac")
    } else if text::same_text(ext, "opus") {
        Some("audio/opus")
    } else if text::same_text(ext, "aiff") || text::same_text(ext, "aif") || text::same_text(ext, "aifc") {
        Some("audio/aiff")
    } else if text::same_text(ext, "wma") {
        Some("audio/x-ms-wma")
    } else if text::same_text(ext, "amr") {
        Some("audio/amr")
    } else if text::same_text(ext, "weba") {
        Some("audio/webm")
    } else if text::same_text(ext, "mid") || text::same_text(ext, "midi") {
        Some("audio/midi")
    } else {
        None
    }
}

// ── Attachments ──────────────────────────────────────────────────────────────

/// An image, ready to be sent.
pub struct ImageData {
    pub base64: String,
}

/// An audio clip, ready to be sent.
pub struct AudioData {
    pub base64: String,
    pub mime: &'static str,
}

/// Why a file cannot be attached.
#[derive(Debug, Clone, Copy, PartialEq, Eq, Structural)]
pub enum MediaError {
    /// An image cannot be read.
    ReadImage,
    /// An audio clip cannot be read.
    ReadAudio,
    /// The size of a text file cannot be learned.
    StatFile,
    /// A text file cannot be read.
    ReadFile,
    /// The format is not one of an image.
    ImageFormat,
    /// The format is not one of audio.
    AudioFormat,
}

/// What is said of an error with the file at `path`.
pub open spec fn error_text(e: MediaError, path: Seq<char>) -> Seq<char> {
    match e {
        MediaError::ReadImage => "Cannot read image: "@ + path,
        MediaError::ReadAudio => "Cannot read audio: "@ + path,
        MediaError::StatFile => "Cannot stat file: "@ + path,
        MediaError::ReadFile => "Cannot read file: "@ + path,
        MediaError::ImageFormat => "Unsupported or unrecognised image format: '"@ + path
            + "'\nSupported: jpg/jpeg, png, gif, webp, bmp, tiff, avif, heic, ico, svg"@,
        MediaError::AudioFormat => "Unsupported or unrecognised audio format: '"@ + path
            + "'\nSupported: mp3, wav, ogg, flac, m4a, aac, opus, aiff, wma, amr, weba, midi"@,
    }
}

impl MediaError {
    /// What is said of the error with the file at `path`.
    pub fn message(&self, path: &str) -> (s: String)
        ensures
            s@ == error_text(*self, path@),
    {
        let (front, back) = match self {
            MediaError::ReadImage => ("Cannot read image: ", ""),
            MediaError::ReadAudio => ("Cannot read audio: ", ""),
            MediaError::StatFile => ("Cannot stat file: ", ""),
            MediaError::ReadFile => ("Cannot read file: ", ""),
            MediaError::ImageFormat => (
                "Unsupported or unrecognised image format: '",
                "'\nSupported: jpg/jpeg, png, gif, webp, bmp, tiff, avif, heic, ico, svg",
            ),
            MediaError::AudioFormat => (
                "Unsupported or unrecognised audio format: '",
                "'\nSupported: mp3, wav, ogg, flac, m4a, aac, opus, aiff, wma, amr, weba, midi",
            ),
        };
        proof {
            reveal_strlit("");
        }
        let mut s = front.to_owned();
        s.push_str(path);
        s.push_str(back);
        assert(s@ == error_text(*self, path@));
        s
    }
}

/// Whether a file with the extension `ext`, in lower case, and these bytes is an image: by its
/// extension, or else by its first bytes.
pub open spec fn image_known(ext: Seq<char>, bytes: Seq<u8>) -> bool {
    image_extension(ext) || image_magic(bytes)
}

/// The MIME type of a file with the extension `ext`, in lower case, and these bytes, where it is
/// audio: by its extension, or else by its first bytes.
pub open spec fn audio_known(ext: Seq<char>, bytes: Seq<u8>) -> Option<Seq<char>> {
    match audio_extension(ext) {
        Some(mime) => Some(mime),
        None => audio_magic(bytes),
    }
}

/// Whether a file with the extension `ext`, in lower case, and these bytes is an image.
pub fn is_image(ext: &str, bytes: &[u8]) -> (b: bool)
    ensures
        b == image_known(ext@, bytes@),
{
    is_image_extension(ext) || detect_image_mime(bytes).is_some()
}

/// The MIME type of a file with the extension `ext`, in lower case, and these bytes, where it is
/// audio.
pub fn audio_mime(ext: &str, bytes: &[u8]) -> (r: Option<&'static str>)
    ensures
        text::optional_view(r) == audio_known(ext@, bytes@),
{
    match audio_extension_mime(ext) {
        Some(mime) => Some(mime),
        None => detect_audio_mime(bytes),
    }
}

/// The extension of the file at a path, or nothing where there is none.
pub open spec fn extension_or_empty(path: Seq<char>) -> Seq<char> {
    match extension_of(path) {
        Some(ext) => ext,
        None => Seq::empty(),
    }
}

/// The extension of the file at a path, with its ASCII letters in lower case.
pub open spec fn ascii_extension(path: Seq<char>) -> Seq<char> {
    extension_or_empty(path).map_values(|c: char| text::ascii_lower(c))
}

fn lower_extension(path: &str) -> (ext: String)
    ensures
        ext@ == text::lowercase(extension_or_empty(path@)),
        vstd::utf8::is_ascii_chars(extension_or_empty(path@)) ==> ext@ == ascii_extension(path@),
{
    let ext = match extension(path) {
        Some(e) => e,
        None => String::new(),
    };
    ext.as_str().to_lowercase()
}

/// Makes an attachment of the image at `path`, from what was read of it (`None` where that
/// failed).
pub fn load_image(path: &str, content: Option<&[u8]>) -> (r: Result<ImageData, MediaError>)
    requires
        content matches Some(bytes) ==> encodable(bytes@.len()),
    ensures
        match content {
            None => r == Err::<ImageData, MediaError>(MediaError::ReadImage),
            Some(bytes) => if image_known(
                text::lowercase(extension_or_empty(path@)),
                bytes@,
            ) {
                r matches Ok(image) && image.base64@ == base64_standard(bytes@)
            } else {
                r == Err::<ImageData, MediaError>(MediaError::ImageFormat)
            },
        },
        content is Some && vstd::utf8::is_ascii_chars(extension_or_empty(path@)) ==> (if image_known(
            ascii_extension(path@),
            content->0@,
        ) {
            r is Ok
        } else {
            r == Err::<ImageData, MediaError>(MediaError::ImageFormat)
        }),
{
    let bytes = match content {
        Some(b) => b,
        None => {
            return Err(MediaError::ReadImage);
        },
    };
    let ext = lower_extension(path);
    if !is_image(ext.as_str(), bytes) {
        return Err(MediaError::ImageFormat);
    }
    Ok(ImageData { base64: encode_base64(bytes) })
}

/// Makes an attachment of the audio clip at `path`, from what was read of it (`None` where that
/// failed).
pub fn load_audio(path: &str, content: Option<&[u8]>) -> (r: Result<AudioData, MediaError>)
    requires
        content matches Some(bytes) ==> encodable(bytes@.len()),
    ensures
        match content {
            None => r == Err::<AudioData, MediaError>(MediaError::ReadAudio),
            Some(bytes) => match audio_known(
                text::lowercase(extension_or_empty(path@)),
                bytes@,
            ) {
                Some(mime) => r matches Ok(audio) && audio.mime@ == mime && audio.base64@
                    == base64_standard(bytes@),
                None => r == Err::<AudioData, MediaError>(MediaError::AudioFormat),
            },
        },
        content is Some && vstd::utf8::is_ascii_chars(extension_or_empty(path@)) ==> match audio_known(
            ascii_extension(path@),
            content->0@,
        ) {
            Some(mime) => r matches Ok(audio) && audio.mime@ == mime,
            None => r == Err::<AudioData, MediaError>(MediaError::AudioFormat),
        },
{
    let bytes = match content {
        Some(b) => b,
        None => {
            return Err(MediaError::ReadAudio);
        },
    };
    let ext = lower_extension(path);
    match audio_mime(ext.as_str(), bytes) {
        Some(mime) => Ok(AudioData { base64: encode_base64(bytes), mime }),
        None => Err(MediaError::AudioFormat),
    }
}

/// The size in bytes above which a text file draws a warning.
pub const LARGE_FILE: u64 = 204_800;

/// What is said of a text file that is so large, with its size in kilobytes in words, that it may
/// exceed what a model can take in.
pub open spec fn large_file_text(path: Seq<char>, kilobytes: Seq<char>) -> Seq<char> {
    "\x1b[33m[warn] File '"@ + path + "' is "@ + kilobytes
        + " KB — may exceed context window.\x1b[0m\n"@
}

/// The warning that a text file of `size` bytes draws, with its size in kilobytes in words; none
/// where it is not large.
pub fn large_file_warning(path: &str, size: u64, kilobytes: &str) -> (t: Option<String>)
    ensures
        text::optional_text(t) == (if size > LARGE_FILE {
            Some(large_file_text(path@, kilobytes@))
        } else {
            None
        }),
{
    if size <= LARGE_FILE {
        return None;
    }
    let mut t = "\x1b[33m[warn] File '".to_owned();
    t.push_str(path);
    t.push_str("' is ");
    t.push_str(kilobytes);
    t.push_str(" KB — may exceed context window.\x1b[0m\n");
    Some(t)
}

/// The contents of a text file, from its size and what was read of it (`None` where learning or
/// reading it failed).
pub fn load_text_file(size: Option<u64>, contents: Option<String>) -> (r: Result<
    String,
    MediaError,
>)
    ensures
        match (size, contents) {
            (None, _) => r == Err::<String, MediaError>(MediaError::StatFile),
            (Some(_), None) => r == Err::<String, MediaError>(MediaError::ReadFile),
            (Some(_), Some(s)) => r == Ok::<String, MediaError>(s),
        },
{
    if size.is_none() {
        return Err(MediaError::StatFile);
    }
    match contents {
        Some(s) => Ok(s),
        None => Err(MediaError::ReadFile),
    }
}

// ── Laws ─────────────────────────────────────────────────────────────────────

/// A known extension settles the format, whatever the file holds. A file without one, or with an
/// unknown one, is known by its first bytes alone; of a binary format, what follows the first twelve
/// makes no difference.
pub proof fn law_extension_or_else_content(ext: Seq<char>, bytes: Seq<u8>, more: Seq<u8>)
    ensures
        image_extension(ext) ==> image_known(ext, bytes),
        !image_extension(ext) ==> image_known(ext, bytes) == image_magic(bytes),
        audio_extension(ext) is Some ==> audio_known(ext, bytes) == audio_extension(ext),
        audio_extension(ext) is None ==> audio_known(ext, bytes) == audio_magic(bytes),
        bytes.len() >= 12 ==> raster_magic(bytes + more) == raster_magic(bytes),
        bytes.len() >= 12 ==> audio_magic(bytes + more) == audio_magic(bytes),
{
    let all = bytes + more;
    assert(forall|i: int| 0 <= i < bytes.len() ==> all[i] == bytes[i]);
}

// ── Laws of formats ──────────────────────────────────────────────────────────

/// A file that begins as one of these formats does is an image, whatever follows: JPEG, PNG, GIF, BMP,
/// TIFF, ICO, WebP, AVIF and HEIC. An empty one is none, nor is one that begins with a letter or a digit
/// with which none of them begins.
pub proof fn law_image_signatures(four: Seq<u8>, rest: Seq<u8>, b: Seq<u8>)
    ensures
        raster_magic(seq![0xFFu8, 0xD8u8, 0xFFu8] + rest),
        raster_magic(seq![0x89u8, 0x50u8, 0x4Eu8, 0x47u8, 0x0Du8, 0x0Au8, 0x1Au8, 0x0Au8] + rest),
        raster_magic(seq![0x47u8, 0x49u8, 0x46u8, 0x38u8] + rest),
        raster_magic(seq![0x42u8, 0x4Du8] + rest),
        raster_magic(seq![0x49u8, 0x49u8, 0x2Au8, 0x00u8] + rest),
        raster_magic(seq![0x4Du8, 0x4Du8, 0x00u8, 0x2Au8] + rest),
        raster_magic(seq![0x00u8, 0x00u8, 0x01u8, 0x00u8] + rest),
        four.len() == 4 ==> raster_magic(seq![0x52u8, 0x49u8, 0x46u8, 0x46u8] + four + seq![0x57u8, 0x45u8, 0x42u8, 0x50u8] + rest),
        four.len() == 4 ==> raster_magic(four + seq![0x66u8, 0x74u8, 0x79u8, 0x70u8] + seq![0x61u8, 0x76u8, 0x69u8, 0x66u8] + rest),
        four.len() == 4 ==> raster_magic(four + seq![0x66u8, 0x74u8, 0x79u8, 0x70u8] + seq![0x61u8, 0x76u8, 0x69u8, 0x73u8] + rest),
        four.len() == 4 ==> raster_magic(four + seq![0x66u8, 0x74u8, 0x79u8, 0x70u8] + seq![0x68u8, 0x65u8, 0x69u8, 0x63u8] + rest),
        four.len() == 4 ==> raster_magic(four + seq![0x66u8, 0x74u8, 0x79u8, 0x70u8] + seq![0x68u8, 0x65u8, 0x69u8, 0x78u8] + rest),
        four.len() == 4 ==> raster_magic(four + seq![0x66u8, 0x74u8, 0x79u8, 0x70u8] + seq![0x68u8, 0x65u8, 0x76u8, 0x63u8] + rest),
        four.len() == 4 ==> raster_magic(four + seq![0x66u8, 0x74u8, 0x79u8, 0x70u8] + seq![0x68u8, 0x65u8, 0x76u8, 0x78u8] + rest),
        four.len() == 4 ==> raster_magic(four + seq![0x66u8, 0x74u8, 0x79u8, 0x70u8] + seq![0x6Du8, 0x69u8, 0x66u8, 0x31u8] + rest),
        four.len() == 4 ==> raster_magic(four + seq![0x66u8, 0x74u8, 0x79u8, 0x70u8] + seq![0x6Du8, 0x73u8, 0x66u8, 0x31u8] + rest),
        !raster_magic(Seq::empty()),
        b.len() > 0 && b[0] != 0xFF && b[0] != 0x89 && b[0] != 0x47 && b[0] != 0x52 && b[0] != 0x42
            && b[0] != 0x49 && b[0] != 0x4D && b[0] != 0x00 && !ftyp(b) ==> !raster_magic(b),
{
    assert(raster_magic(seq![0xFFu8, 0xD8u8, 0xFFu8] + rest));
    assert(raster_magic(seq![0x89u8, 0x50u8, 0x4Eu8, 0x47u8, 0x0Du8, 0x0Au8, 0x1Au8, 0x0Au8] + rest));
    assert(raster_magic(seq![0x47u8, 0x49u8, 0x46u8, 0x38u8] + rest));
    assert(raster_magic(seq![0x42u8, 0x4Du8] + rest));
    assert(raster_magic(seq![0x49u8, 0x49u8, 0x2Au8, 0x00u8] + rest));
    assert(raster_magic(seq![0x4Du8, 0x4Du8, 0x00u8, 0x2Au8] + rest));
    assert(raster_magic(seq![0x00u8, 0x00u8, 0x01u8, 0x00u8] + rest));
    if four.len() == 4 {
        assert(raster_magic(seq![0x52u8, 0x49u8, 0x46u8, 0x46u8] + four + seq![0x57u8, 0x45u8, 0x42u8, 0x50u8] + rest));
        assert(heif_magic(four + seq![0x66u8, 0x74u8, 0x79u8, 0x70u8] + seq![0x61u8, 0x76u8, 0x69u8, 0x66u8] + rest));
        assert(heif_magic(four + seq![0x66u8, 0x74u8, 0x79u8, 0x70u8] + seq![0x61u8, 0x76u8, 0x69u8, 0x73u8] + rest));
        assert(heif_magic(four + seq![0x66u8, 0x74u8, 0x79u8, 0x70u8] + seq![0x68u8, 0x65u8, 0x69u8, 0x63u8] + rest));
        assert(heif_magic(four + seq![0x66u8, 0x74u8, 0x79u8, 0x70u8] + seq![0x68u8, 0x65u8, 0x69u8, 0x78u8] + rest));
        assert(heif_magic(four + seq![0x66u8, 0x74u8, 0x79u8, 0x70u8] + seq![0x68u8, 0x65u8, 0x76u8, 0x63u8] + rest));
        assert(heif_magic(four + seq![0x66u8, 0x74u8, 0x79u8, 0x70u8] + seq![0x68u8, 0x65u8, 0x76u8, 0x78u8] + rest));
        assert(heif_magic(four + seq![0x66u8, 0x74u8, 0x79u8, 0x70u8] + seq![0x6Du8, 0x69u8, 0x66u8, 0x31u8] + rest));
        assert(heif_magic(four + seq![0x66u8, 0x74u8, 0x79u8, 0x70u8] + seq![0x6Du8, 0x73u8, 0x66u8, 0x31u8] + rest));
    }
}

/// A file that begins as one of these formats does is audio of that type, whatever follows.
pub proof fn law_audio_signatures(four: Seq<u8>, rest: Seq<u8>, b: Seq<u8>)
    ensures
        audio_magic(seq![0xFFu8, 0xFBu8] + rest) == Some("audio/mpeg"@),
        audio_magic(seq![0xFFu8, 0xF3u8] + rest) == Some("audio/mpeg"@),
        audio_magic(seq![0xFFu8, 0xF2u8] + rest) == Some("audio/mpeg"@),
        audio_magic(seq![0x49u8, 0x44u8, 0x33u8] + rest) == Some("audio/mpeg"@),
        audio_magic(seq![0x4Fu8, 0x67u8, 0x67u8, 0x53u8] + rest) == Some("audio/ogg"@),
        audio_magic(seq![0x66u8, 0x4Cu8, 0x61u8, 0x43u8] + rest) == Some("audio/flac"@),
        !ftyp(seq![0xFFu8, 0xF1u8] + rest) ==> audio_magic(seq![0xFFu8, 0xF1u8] + rest) == Some(
            "audio/aac"@,
        ),
        !ftyp(seq![0xFFu8, 0xF9u8] + rest) ==> audio_magic(seq![0xFFu8, 0xF9u8] + rest) == Some(
            "audio/aac"@,
        ),
        !ftyp(seq![0x30u8, 0x26u8, 0xB2u8, 0x75u8] + rest) ==> audio_magic(seq![0x30u8, 0x26u8, 0xB2u8, 0x75u8] + rest) == Some(
            "audio/x-ms-wma"@,
        ),
        !ftyp(seq![0x4Du8, 0x54u8, 0x68u8, 0x64u8] + rest) ==> audio_magic(seq![0x4Du8, 0x54u8, 0x68u8, 0x64u8] + rest) == Some(
            "audio/midi"@,
        ),
        !ftyp(seq![0x23u8, 0x21u8, 0x41u8, 0x4Du8, 0x52u8] + rest) ==> audio_magic(seq![0x23u8, 0x21u8, 0x41u8, 0x4Du8, 0x52u8] + rest) == Some(
            "audio/amr"@,
        ),
        four.len() == 4 ==> audio_magic(seq![0x52u8, 0x49u8, 0x46u8, 0x46u8] + four + seq![0x57u8, 0x41u8, 0x56u8, 0x45u8] + rest) == Some(
            "audio/wav"@,
        ),
        four.len() == 4 && !ftyp(seq![0x46u8, 0x4Fu8, 0x52u8, 0x4Du8] + four + seq![0x41u8, 0x49u8, 0x46u8, 0x46u8] + rest) ==> audio_magic(
            seq![0x46u8, 0x4Fu8, 0x52u8, 0x4Du8] + four + seq![0x41u8, 0x49u8, 0x46u8, 0x46u8] + rest,
        ) == Some("audio/aiff"@),
        four.len() == 4 && !ftyp(seq![0x46u8, 0x4Fu8, 0x52u8, 0x4Du8] + four + seq![0x41u8, 0x49u8, 0x46u8, 0x43u8] + rest) ==> audio_magic(
            seq![0x46u8, 0x4Fu8, 0x52u8, 0x4Du8] + four + seq![0x41u8, 0x49u8, 0x46u8, 0x43u8] + rest,
        ) == Some("audio/aiff"@),
        four == seq![0u8, 0, 0, 0x20] ==> audio_magic(four + seq![0x66u8, 0x74u8, 0x79u8, 0x70u8] + rest) == Some(
            "audio/mp4"@,
        ),
        audio_magic(Seq::empty()) is None,
        b.len() > 0 && b[0] != 0xFF && b[0] != 0x49 && b[0] != 0x52 && b[0] != 0x4F && b[0] != 0x66
            && b[0] != 0x41 && b[0] != 0x46 && b[0] != 0x30 && b[0] != 0x23 && b[0] != 0x4D && !ftyp(
            b,
        ) ==> audio_magic(b) is None,
{
}

/// The extensions of images are these and no others.
pub proof fn law_image_extensions(ext: Seq<char>)
    ensures
        image_extension(seq!['j', 'p', 'g']),
        image_extension(seq!['j', 'p', 'e', 'g']),
        image_extension(seq!['j', 'f', 'i', 'f']),
        image_extension(seq!['j', 'p', 'e']),
        image_extension(seq!['p', 'n', 'g']),
        image_extension(seq!['g', 'i', 'f']),
        image_extension(seq!['w', 'e', 'b', 'p']),
        image_extension(seq!['b', 'm', 'p']),
        image_extension(seq!['d', 'i', 'b']),
        image_extension(seq!['t', 'i', 'f', 'f']),
        image_extension(seq!['t', 'i', 'f']),
        image_extension(seq!['a', 'v', 'i', 'f']),
        image_extension(seq!['h', 'e', 'i', 'c']),
        image_extension(seq!['h', 'e', 'i', 'f']),
        image_extension(seq!['i', 'c', 'o']),
        image_extension(seq!['c', 'u', 'r']),
        image_extension(seq!['s', 'v', 'g']),
        image_extension(seq!['s', 'v', 'g', 'z']),
        image_extension(ext) ==> {
            ||| ext == "jpg"@
            ||| ext == "jpeg"@
            ||| ext == "jfif"@
            ||| ext == "jpe"@
            ||| ext == "png"@
            ||| ext == "gif"@
            ||| ext == "webp"@
            ||| ext == "bmp"@
            ||| ext == "dib"@
            ||| ext == "tiff"@
            ||| ext == "tif"@
            ||| ext == "avif"@
            ||| ext == "heic"@
            ||| ext == "heif"@
            ||| ext == "ico"@
            ||| ext == "cur"@
            ||| ext == "svg"@
            ||| ext == "svgz"@
        },
{
    reveal_strlit("jpg");
    reveal_strlit("jpeg");
    reveal_strlit("jfif");
    reveal_strlit("jpe");
    reveal_strlit("png");
    reveal_strlit("gif");
    reveal_strlit("webp");
    reveal_strlit("bmp");
    reveal_strlit("dib");
    reveal_strlit("tiff");
    reveal_strlit("tif");
    reveal_strlit("avif");
    reveal_strlit("heic");
    reveal_strlit("heif");
    reveal_strlit("ico");
    reveal_strlit("cur");
    reveal_strlit("svg");
    reveal_strlit("svgz");
    assert("jpg"@ == seq!['j', 'p', 'g']);
    assert("jpeg"@ == seq!['j', 'p', 'e', 'g']);
    assert("jfif"@ == seq!['j', 'f', 'i', 'f']);
    assert("jpe"@ == seq!['j', 'p', 'e']);
    assert("png"@ == seq!['p', 'n', 'g']);
    assert("gif"@ == seq!['g', 'i', 'f']);
    assert("webp"@ == seq!['w', 'e', 'b', 'p']);
    assert("bmp"@ == seq!['b', 'm', 'p']);
    assert("dib"@ == seq!['d', 'i', 'b']);
    assert("tiff"@ == seq!['t', 'i', 'f', 'f']);
    assert("tif"@ == seq!['t', 'i', 'f']);
    assert("avif"@ == seq!['a', 'v', 'i', 'f']);
    assert("heic"@ == seq!['h', 'e', 'i', 'c']);
    assert("heif"@ == seq!['h', 'e', 'i', 'f']);
    assert("ico"@ == seq!['i', 'c', 'o']);
    assert("cur"@ == seq!['c', 'u', 'r']);
    assert("svg"@ == seq!['s', 'v', 'g']);
    assert("svgz"@ == seq!['s', 'v', 'g', 'z']);
}

/// The type of audio by its extension is this, for these extensions, and no other has one.
pub proof fn law_audio_extensions(ext: Seq<char>)
    ensures
        audio_extension(seq!['m', 'p', '3']) == Some("audio/mpeg"@),
        audio_extension(seq!['m', 'p', '2']) == Some("audio/mpeg"@),
        audio_extension(seq!['w', 'a', 'v']) == Some("audio/wav"@),
        audio_extension(seq!['w', 'a', 'v', 'e']) == Some("audio/wav"@),
        audio_extension(seq!['o', 'g', 'g']) == Some("audio/ogg"@),
        audio_extension(seq!['o', 'g', 'a']) == Some("audio/ogg"@),
        audio_extension(seq!['f', 'l', 'a', 'c']) == Some("audio/flac"@),
        audio_extension(seq!['m', '4', 'a']) == Some("audio/mp4"@),
        audio_extension(seq!['m', 'p', '4']) == Some("audio/mp4"@),
        audio_extension(seq!['m', '4', 'b']) == Some("audio/mp4"@),
        audio_extension(seq!['a', 'a', 'c']) == Some("audio/aac"@),
        audio_extension(seq!['o', 'p', 'u', 's']) == Some("audio/opus"@),
        audio_extension(seq!['a', 'i', 'f', 'f']) == Some("audio/aiff"@),
        audio_extension(seq!['a', 'i', 'f']) == Some("audio/aiff"@),
        audio_extension(seq!['a', 'i', 'f', 'c']) == Some("audio/aiff"@),
        audio_extension(seq!['w', 'm', 'a']) == Some("audio/x-ms-wma"@),
        audio_extension(seq!['a', 'm', 'r']) == Some("audio/amr"@),
        audio_extension(seq!['w', 'e', 'b', 'a']) == Some("audio/webm"@),
        audio_extension(seq!['m', 'i', 'd']) == Some("audio/midi"@),
        audio_extension(seq!['m', 'i', 'd', 'i']) == Some("audio/midi"@),
        audio_extension(ext) is Some ==> {
            ||| ext == "mp3"@
            ||| ext == "mp2"@
            ||| ext == "wav"@
            ||| ext == "wave"@
            ||| ext == "ogg"@
            ||| ext == "oga"@
            ||| ext == "flac"@
            ||| ext == "m4a"@
            ||| ext == "mp4"@
            ||| ext == "m4b"@
            ||| ext == "aac"@
            ||| ext == "opus"@
            ||| ext == "aiff"@
            ||| ext == "aif"@
            ||| ext == "aifc"@
            ||| ext == "wma"@
            ||| ext == "amr"@
            ||| ext == "weba"@
            ||| ext == "mid"@
            ||| ext == "midi"@
        },
{
    reveal_strlit("mp3");
    reveal_strlit("mp2");
    reveal_strlit("wav");
    reveal_strlit("wave");
    reveal_strlit("ogg");
    reveal_strlit("oga");
    reveal_strlit("flac");
    reveal_strlit("m4a");
    reveal_strlit("mp4");
    reveal_strlit("m4b");
    reveal_strlit("aac");
    reveal_strlit("opus");
    reveal_strlit("aiff");
    reveal_strlit("aif");
    reveal_strlit("aifc");
    reveal_strlit("wma");
    reveal_strlit("amr");
    reveal_strlit("weba");
    reveal_strlit("mid");
    reveal_strlit("midi");
    assert("mp3"@ == seq!['m', 'p', '3']);
    assert("mp2"@ == seq!['m', 'p', '2']);
    assert("wav"@ == seq!['w', 'a', 'v']);
    assert("wave"@ == seq!['w', 'a', 'v', 'e']);
    assert("ogg"@ == seq!['o', 'g', 'g']);
    assert("oga"@ == seq!['o', 'g', 'a']);
    assert("flac"@ == seq!['f', 'l', 'a', 'c']);
    assert("m4a"@ == seq!['m', '4', 'a']);
    assert("mp4"@ == seq!['m', 'p', '4']);
    assert("m4b"@ == seq!['m', '4', 'b']);
    assert("aac"@ == seq!['a', 'a', 'c']);
    assert("opus"@ == seq!['o', 'p', 'u', 's']);
    assert("aiff"@ == seq!['a', 'i', 'f', 'f']);
    assert("aif"@ == seq!['a', 'i', 'f']);
    assert("aifc"@ == seq!['a', 'i', 'f', 'c']);
    assert("wma"@ == seq!['w', 'm', 'a']);
    assert("amr"@ == seq!['a', 'm', 'r']);
    assert("weba"@ == seq!['w', 'e', 'b', 'a']);
    assert("mid"@ == seq!['m', 'i', 'd']);
    assert("midi"@ == seq!['m', 'i', 'd', 'i']);
}

// ── Laws of extensions ───────────────────────────────────────────────────────

proof fn lemma_after_last(front: Seq<char>, tail: Seq<char>, c: char)
    requires
        front.len() == 0 || front.last() == c,
        forall|i: int| 0 <= i < tail.len() ==> (#[trigger] tail[i]) != c,
    ensures
        after_last(front + tail, c) == tail,
    decreases tail.len(),
{
    let all = front + tail;
    if tail.len() == 0 {
        assert(all == front);
    } else {
        let short = tail.drop_last();
        assert(all.drop_last() == front + short);
        assert(tail.last() == tail[tail.len() - 1]);
        assert forall|i: int| 0 <= i < short.len() implies (#[trigger] short[i]) != c by {
            assert(short[i] == tail[i]);
        }
        lemma_after_last(front, short, c);
        assert(short.push(tail.last()) == tail);
    }
}

/// Whether a text holds no slash.
pub open spec fn no_slash(s: Seq<char>) -> bool {
    forall|i: int| 0 <= i < s.len() ==> (#[trigger] s[i]) != '/'
}

/// The file of a path: in whatever directory it is, its name is what follows the last slash.
proof fn lemma_file_name(dir: Seq<char>, name: Seq<char>)
    requires
        dir.len() == 0 || dir.last() == '/',
        no_slash(name),
        name.len() > 0,
        name != seq!['.'],
        name != seq!['.', '.'],
    ensures
        file_name(dir + name) == name,
{
    let path = dir + name;
    let n = path.len();
    assert(path[n - 1] == name[name.len() - 1]);
    assert(without_tail(path) == path) by {
        if path[n - 1] == '.' && (n == 1 || path[n - 2] == '/') {
            if name.len() > 1 {
                assert(path[n - 2] == name[name.len() - 2]);
            } else {
                assert(name == seq!['.']);
            }
        }
    }
    lemma_after_last(dir, name, '/');
}

/// The extension of a file is what follows the last dot of its name, in whatever directory it is; a name
/// without a dot has none, nor has one whose only dot stands at its front.
pub proof fn law_extension(dir: Seq<char>, stem: Seq<char>, ext: Seq<char>)
    requires
        dir.len() == 0 || dir.last() == '/',
        no_slash(stem),
        no_slash(ext),
        stem.len() > 0,
        forall|i: int| 0 <= i < ext.len() ==> (#[trigger] ext[i]) != '.',
    ensures
        stem != seq!['.'] || ext.len() > 0 ==> extension_of(dir + (stem + seq!['.'] + ext)) == Some(
            ext,
        ),
        ext.len() > 0 ==> extension_of(dir + ext) is None,
        ext.len() > 0 ==> extension_of(dir + (seq!['.'] + ext)) is None,
{
    let name = stem + seq!['.'] + ext;
    assert(no_slash(name)) by {
        assert forall|i: int| 0 <= i < name.len() implies (#[trigger] name[i]) != '/' by {
            if i < stem.len() {
                assert(name[i] == stem[i]);
            } else if i > stem.len() {
                assert(name[i] == ext[i - stem.len() - 1]);
            }
        }
    }
    if stem != seq!['.'] || ext.len() > 0 {
        assert(name != seq!['.', '.']) by {
            if name == seq!['.', '.'] {
                assert(ext.len() == 0 || name[1] == ext[0] || stem.len() == 1);
                if ext.len() == 0 {
                    assert(stem.len() == 1);
                    assert(stem[0] == name[0]);
                    assert(stem == seq!['.']);
                }
            }
        }
        assert(name.len() >= 2);
        lemma_file_name(dir, name);
        lemma_after_last(stem + seq!['.'], ext, '.');
    }
    if ext.len() > 0 {
        let none = Seq::<char>::empty();
        assert(ext != seq!['.']) by {
            assert(ext[0] != '.');
        }
        assert(ext != seq!['.', '.']) by {
            assert(ext[0] != '.');
        }
        lemma_file_name(dir, ext);
        lemma_after_last(none, ext, '.');
        assert(none + ext == ext);
        let hidden = seq!['.'] + ext;
        assert(no_slash(hidden)) by {
            assert forall|i: int| 0 <= i < hidden.len() implies (#[trigger] hidden[i]) != '/' by {
                if i > 0 {
                    assert(hidden[i] == ext[i - 1]);
                }
            }
        }
        assert(hidden[1] == ext[0]);
        assert(hidden.len() >= 2);
        lemma_file_name(dir, hidden);
        lemma_after_last(seq!['.'], ext, '.');
    }
}

// ── Laws of base64 ───────────────────────────────────────────────────────────

proof fn lemma_letters_differ(v: int, w: int)
    requires
        0 <= v < 64,
        0 <= w < 64,
        base64_letter(v) == base64_letter(w),
    ensures
        v == w,
{
    assert(base64_letter(v) as u32 == base64_letter(w) as u32);
}

/// Nothing is lost in base64: bytes of one length that give the same characters are the same. There are
/// four characters for every three bytes or part of three.
pub proof fn law_base64_loses_nothing(a: Seq<u8>, b: Seq<u8>)
    requires
        a.len() == b.len(),
        base64_standard(a) == base64_standard(b),
    ensures
        a == b,
        base64_standard(a).len() % 4 == 0,
        3 * base64_standard(a).len() >= 4 * a.len(),
        3 * base64_standard(a).len() < 4 * a.len() + 12,
{
    let s = base64_standard(a);
    let t = base64_standard(b);
    let n = a.len() as int;
    assert forall|i: int| 0 <= i < n implies a[i] == b[i] by {
        let g = i / 3;
        let at = 3 * g;
        let k = 4 * g;
        assert(k + 3 < s.len());
        assert(k / 4 * 3 == at && k % 4 == 0);
        assert((k + 1) / 4 * 3 == at && (k + 1) % 4 == 1);
        assert((k + 2) / 4 * 3 == at && (k + 2) % 4 == 2);
        assert((k + 3) / 4 * 3 == at && (k + 3) % 4 == 3);
        let (a0, a1, a2) = (byte_at(a, at), byte_at(a, at + 1), byte_at(a, at + 2));
        let (b0, b1, b2) = (byte_at(b, at), byte_at(b, at + 1), byte_at(b, at + 2));
        assert(s[k] == base64_letter(a0 / 4));
        assert(t[k] == base64_letter(b0 / 4));
        assert(s[k + 1] == base64_letter(a0 % 4 * 16 + a1 / 16));
        assert(t[k + 1] == base64_letter(b0 % 4 * 16 + b1 / 16));
        assert(s[k + 2] == t[k + 2]);
        assert(s[k + 3] == t[k + 3]);
        lemma_letters_differ(a0 / 4, b0 / 4);
        lemma_letters_differ(a0 % 4 * 16 + a1 / 16, b0 % 4 * 16 + b1 / 16);
        assert(a0 == b0);
        if at + 1 < n {
            assert(s[k + 2] == base64_letter(a1 % 16 * 4 + a2 / 64));
            assert(t[k + 2] == base64_letter(b1 % 16 * 4 + b2 / 64));
            lemma_letters_differ(a1 % 16 * 4 + a2 / 64, b1 % 16 * 4 + b2 / 64);
            assert(a1 == b1);
        }
        if at + 2 < n {
            assert(s[k + 3] == base64_letter(a2 % 64));
            assert(t[k + 3] == base64_letter(b2 % 64));
            lemma_letters_differ(a2 % 64, b2 % 64);
            assert(a2 == b2);
        }
    }
    assert(a =~= b);
}

// ── Laws of what is said ─────────────────────────────────────────────────────

/// What is said of an error tells what could not be done, and the path as it is.
pub proof fn law_errors_tell_the_path(e: MediaError, path: Seq<char>)
    ensures
        text::contains_text(error_text(e, path), path),
        e == MediaError::ReadImage ==> text::begins_with(error_text(e, path), "Cannot read image: "@),
        e == MediaError::ReadAudio ==> text::begins_with(error_text(e, path), "Cannot read audio: "@),
        e == MediaError::StatFile ==> text::begins_with(error_text(e, path), "Cannot stat file: "@),
        e == MediaError::ReadFile ==> text::begins_with(error_text(e, path), "Cannot read file: "@),
        e == MediaError::ImageFormat ==> text::begins_with(
            error_text(e, path),
            "Unsupported or unrecognised image format: '"@,
        ),
        e == MediaError::AudioFormat ==> text::begins_with(
            error_text(e, path),
            "Unsupported or unrecognised audio format: '"@,
        ),
{
    let none = Seq::<char>::empty();
    let (front, back) = match e {
        MediaError::ReadImage => ("Cannot read image: "@, none),
        MediaError::ReadAudio => ("Cannot read audio: "@, none),
        MediaError::StatFile => ("Cannot stat file: "@, none),
        MediaError::ReadFile => ("Cannot read file: "@, none),
        MediaError::ImageFormat => (
            "Unsupported or unrecognised image format: '"@,
            "'\nSupported: jpg/jpeg, png, gif, webp, bmp, tiff, avif, heic, ico, svg"@,
        ),
        MediaError::AudioFormat => (
            "Unsupported or unrecognised audio format: '"@,
            "'\nSupported: mp3, wav, ogg, flac, m4a, aac, opus, aiff, wma, amr, weba, midi"@,
        ),
    };
    assert(error_text(e, path) == front + path + back);
    text::law_parts_of_text(none, path, front, back);
    text::law_parts_of_text(none, front, none, path + back);
    assert(front + path + back == front + (path + back));
}

/// The warning of a large file shows its path and its size.
pub proof fn law_large_file_warning_shows(path: Seq<char>, kilobytes: Seq<char>)
    requires
        screen::no_escape(path),
        screen::no_escape(kilobytes),
    ensures
        screen::visible(large_file_text(path, kilobytes)) == "[warn] File '"@ + path + "' is "@
            + kilobytes + " KB — may exceed context window.\n"@,
{
    let start = seq!['\u{1b}', '['];
    let end = seq!['m'];
    let yellow = start + seq!['3', '3'] + end;
    let reset = start + seq!['0'] + end;
    screen::lemma_visible_colour(seq!['3', '3']);
    screen::lemma_visible_colour(seq!['0']);
    reveal_strlit("\x1b[33m[warn] File '");
    reveal_strlit("[warn] File '");
    reveal_strlit("' is ");
    reveal_strlit(" KB — may exceed context window.\x1b[0m\n");
    reveal_strlit(" KB — may exceed context window.\n");
    reveal_strlit(" KB — may exceed context window.");
    let a = "[warn] File '"@;
    let b = "' is "@;
    let c = " KB — may exceed context window."@;
    assert("\x1b[33m[warn] File '"@ == yellow + a);
    assert(" KB — may exceed context window.\x1b[0m\n"@ == c + reset + seq!['\n']);
    assert(" KB — may exceed context window.\n"@ == c + seq!['\n']);
    assert(screen::no_escape(a));
    assert(screen::no_escape(b));
    assert(screen::no_escape(c));
    assert(screen::no_escape(seq!['\n']));
    screen::lemma_visible_text(a);
    screen::lemma_visible_text(b);
    screen::lemma_visible_text(c);
    screen::lemma_visible_text(seq!['\n']);
    screen::lemma_visible_text(path);
    screen::lemma_visible_text(kilobytes);
    screen::lemma_visible_concat(c, reset);
    screen::lemma_visible_concat(c + reset, seq!['\n']);
    let last = c + reset + seq!['\n'];
    assert(screen::visible(last) == c + seq!['\n']) by {
        assert(c + Seq::<char>::empty() == c);
    }
    let o1 = yellow + a;
    screen::lemma_visible_concat(yellow, a);
    assert(screen::visible(o1) == a);
    screen::lemma_visible_concat(o1, path);
    screen::lemma_visible_concat(o1 + path, b);
    screen::lemma_visible_concat(o1 + path + b, kilobytes);
    screen::lemma_visible_concat(o1 + path + b + kilobytes, last);
}

// ── Laws of SVG ──────────────────────────────────────────────────────────────

proof fn lemma_part_shift(a: Seq<u8>, b: Seq<u8>, i: int, part: Seq<u8>)
    requires
        i >= 0,
    ensures
        part_at(a + b, a.len() + i, part) == part_at(b, i, part),
{
    if i + part.len() <= b.len() {
        assert((a + b).subrange(a.len() + i, a.len() + i + part.len()) == b.subrange(
            i,
            i + part.len(),
        ));
    }
}

/// A position in what follows, counted from the front of all.
spec fn moved_on(p: Option<int>, n: nat) -> Option<int> {
    match p {
        Some(i) => Some(n + i),
        None => None,
    }
}

proof fn lemma_behind_shift(a: Seq<u8>, b: Seq<u8>, i: int, part: Seq<u8>)
    requires
        i >= 0,
    ensures
        behind(a + b, a.len() + i, part) == moved_on(behind(b, i, part), a.len()),
    decreases b.len() - i,
{
    lemma_part_shift(a, b, i, part);
    if i < b.len() {
        lemma_behind_shift(a, b, i + 1, part);
    }
}

proof fn lemma_doctype_shift(a: Seq<u8>, b: Seq<u8>, i: int, quote: Option<u8>, subset: bool)
    requires
        i >= 0,
    ensures
        behind_doctype(a + b, a.len() + i, quote, subset) == moved_on(
            behind_doctype(b, i, quote, subset),
            a.len(),
        ),
    decreases b.len() - i,
{
    if i < b.len() {
        let c = b[i];
        assert((a + b)[a.len() + i] == c);
        lemma_doctype_shift(a, b, i + 1, None, subset);
        lemma_doctype_shift(a, b, i + 1, quote, subset);
        lemma_doctype_shift(a, b, i + 1, Some(c), subset);
        lemma_doctype_shift(a, b, i + 1, None, c == 0x5B || (subset && c != 0x5D));
    }
}

proof fn lemma_misc_shift(a: Seq<u8>, b: Seq<u8>, i: int)
    requires
        i >= 0,
    ensures
        behind_misc(a + b, a.len() + i) == moved_on(behind_misc(b, i), a.len()),
{
    if i < b.len() {
        assert((a + b)[a.len() + i] == b[i]);
    }
    lemma_part_shift(a, b, i, pi_begin());
    lemma_part_shift(a, b, i, comment_begin());
    lemma_part_shift(a, b, i, doctype_begin());
    lemma_behind_shift(a, b, i + 2, pi_end());
    lemma_behind_shift(a, b, i + 4, comment_end());
    lemma_doctype_shift(a, b, i + 9, None, false);
}

proof fn lemma_root_shift(a: Seq<u8>, b: Seq<u8>, i: int)
    requires
        i >= 0,
    ensures
        root_at(a + b, a.len() + i) == a.len() + root_at(b, i),
        root_at(b, i) >= i,
    decreases b.len() - i,
{
    lemma_misc_shift(a, b, i);
    if let Some(n) = behind_misc(b, i) {
        if i < n <= b.len() {
            lemma_root_shift(a, b, n);
        }
    }
}

/// What may stand before the first element of a document makes no difference.
proof fn lemma_skips(front: Seq<u8>, doc: Seq<u8>)
    requires
        front.len() > 0,
        behind_misc(front + doc, 0) == Some(front.len() as int),
    ensures
        svg_magic(front + doc) == svg_magic(doc),
{
    lemma_root_shift(front, doc, 0);
    let r = root_at(doc, 0);
    assert(root_at(front + doc, 0) == front.len() + r);
    if r + 4 <= doc.len() {
        assert((front + doc)[front.len() + r] == doc[r]);
        assert((front + doc)[front.len() + r + 1] == doc[r + 1]);
        assert((front + doc)[front.len() + r + 2] == doc[r + 2]);
        assert((front + doc)[front.len() + r + 3] == doc[r + 3]);
        if r + 4 < doc.len() {
            assert((front + doc)[front.len() + r + 4] == doc[r + 4]);
        }
    }
}

/// `part` ends `body + part` and stands nowhere before.
proof fn lemma_behind_end(head: Seq<u8>, body: Seq<u8>, part: Seq<u8>, doc: Seq<u8>, k: int)
    requires
        part.len() > 0,
        0 <= k <= body.len(),
        forall|i: int| 0 <= i < body.len() ==> (#[trigger] body[i]) != part[0],
    ensures
        behind(head + body + part + doc, head.len() + k, part) == Some(
            (head.len() + body.len() + part.len()) as int,
        ),
    decreases body.len() - k,
{
    let all = head + body + part + doc;
    let at = head.len() + k;
    if k == body.len() {
        assert(all.subrange(at, at + part.len()) == part);
    } else {
        assert(all[at] == body[k]);
        if part_at(all, at, part) {
            assert(all.subrange(at, at + part.len())[0] == all[at]);
        }
        lemma_behind_end(head, body, part, doc, k + 1);
    }
}

/// A document whose first element is `svg` is an image. White space before that makes no difference, nor
/// does an XML declaration or another processing instruction, nor a comment. A document that begins with
/// any other element is none, whatever is in it.
pub proof fn law_svg_documents(rest: Seq<u8>, body: Seq<u8>, doc: Seq<u8>, name: u8, space: u8)
    requires
        forall|i: int| 0 <= i < body.len() ==> (#[trigger] body[i]) != 0x3F && body[i] != 0x2D,
        space == 0x20 || space == 0x09 || space == 0x0A || space == 0x0D,
    ensures
        svg_magic(seq![0x3C, 0x73, 0x76, 0x67, 0x3E] + rest),
        svg_magic(seq![0x3C, 0x73, 0x76, 0x67, space] + rest),
        svg_magic(seq![0x3C, 0x73, 0x76, 0x67, 0x2F] + rest),
        svg_magic(seq![space] + doc) == svg_magic(doc),
        svg_magic(seq![0x3C, 0x3F] + body + seq![0x3F, 0x3E] + doc) == svg_magic(doc),
        svg_magic(seq![0x3C, 0x21, 0x2D, 0x2D] + body + seq![0x2D, 0x2D, 0x3E] + doc) == svg_magic(
            doc,
        ),
        name != 0x73 && name != 0x3F && name != 0x21 ==> !svg_magic(seq![0x3C, name] + rest),
        !svg_magic(Seq::empty()),
{
    let a = seq![0x3Cu8, 0x73, 0x76, 0x67, 0x3E] + rest;
    let b = seq![0x3Cu8, 0x73, 0x76, 0x67, space] + rest;
    let c = seq![0x3Cu8, 0x73, 0x76, 0x67, 0x2F] + rest;
    let d = seq![0x3Cu8, name] + rest;
    lemma_element_front(a);
    lemma_element_front(b);
    lemma_element_front(c);
    if name != 0x73 && name != 0x3F && name != 0x21 {
        lemma_element_front(d);
        assert(d[1] == name);
    }
    assert((seq![space] + doc)[0] == space);
    lemma_skips(seq![space], doc);
    let pi = seq![0x3Cu8, 0x3F];
    let pi_doc = pi + body + seq![0x3Fu8, 0x3E] + doc;
    assert(pi == pi_begin());
    assert(seq![0x3Fu8, 0x3E] == pi_end());
    lemma_behind_end(pi, body, pi_end(), doc, 0);
    assert(pi_doc.subrange(0, 2) == pi_begin());
    assert(pi_doc[0] == 0x3C);
    assert(pi_doc == (pi + body + pi_end()) + doc);
    lemma_skips(pi + body + pi_end(), doc);
    let begin = seq![0x3Cu8, 0x21, 0x2D, 0x2D];
    let comment_doc = begin + body + seq![0x2Du8, 0x2D, 0x3E] + doc;
    assert(begin == comment_begin());
    assert(seq![0x2Du8, 0x2D, 0x3E] == comment_end());
    lemma_behind_end(begin, body, comment_end(), doc, 0);
    assert(comment_doc.subrange(0, 4) == comment_begin());
    assert(comment_doc[0] == 0x3C && comment_doc[1] == 0x21);
    assert(!part_at(comment_doc, 0, pi_begin())) by {
        if part_at(comment_doc, 0, pi_begin()) {
            assert(comment_doc.subrange(0, 2)[1] == pi_begin()[1]);
        }
    }
    assert(comment_doc == (begin + body + comment_end()) + doc);
    lemma_skips(begin + body + comment_end(), doc);
    lemma_element_front(Seq::empty());
}

/// Where a document begins with an element, that is its first one.
proof fn lemma_element_front(d: Seq<u8>)
    requires
        d.len() > 1 ==> d[0] == 0x3C && d[1] != 0x3F && d[1] != 0x21,
        d.len() != 1,
    ensures
        root_at(d, 0) == 0,
{
    if part_at(d, 0, pi_begin()) {
        assert(d.subrange(0, 2)[1] == pi_begin()[1]);
    }
    if part_at(d, 0, comment_begin()) {
        assert(d.subrange(0, 4)[1] == comment_begin()[1]);
    }
    if part_at(d, 0, doctype_begin()) {
        assert(d.subrange(0, 9)[1] == doctype_begin()[1]);
    }
}

/// Slashes at the end of a path, and components that stand for the directory itself, make no difference
/// to the extension.
pub proof fn law_extension_of_directories(path: Seq<char>)
    ensures
        extension_of(path.push('/')) == extension_of(path),
        extension_of(path.push('/').push('.')) == extension_of(path),
        extension_of(Seq::empty()) is None,
        extension_of(path.push('/').push('.').push('.')) is None,
{
    let a = path.push('/');
    let b = a.push('.');
    let c = b.push('.');
    assert(a.drop_last() == path);
    assert(b.drop_last() == a);
    assert(b[b.len() - 2] == '/');
    assert(c[c.len() - 2] == '.');
    assert(without_tail(c) == c);
    assert(c == a + seq!['.', '.']);
    lemma_after_last(a, seq!['.', '.'], '/');
}

} // verus!
