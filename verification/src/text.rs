//! The bytes of the source text: character classes, runs of whitespace and of
//! identifier characters, positions, and the text of a span.

use vstd::prelude::*;
use vstd::string::*;
use vstd::utf8::*;

verus! {

/// The horizontal tab.
pub const TAB: u8 = 0x09;

/// The line feed, which ends a line.
pub const NEWLINE: u8 = 0x0a;

/// The carriage return.
pub const CARRIAGE_RETURN: u8 = 0x0d;

/// The space.
pub const SPACE: u8 = 0x20;

/// `(`
pub const OPEN_PAREN: u8 = 0x28;

/// `)`
pub const CLOSE_PAREN: u8 = 0x29;

/// `:`
pub const COLON: u8 = 0x3a;

/// `_`
pub const UNDERSCORE: u8 = 0x5f;

/// `{`
pub const OPEN_BRACE: u8 = 0x7b;

/// `}`
pub const CLOSE_BRACE: u8 = 0x7d;

/// Whitespace separates tokens and is otherwise ignored: space, tab, line
/// feed and carriage return.
pub open spec fn is_whitespace(b: u8) -> bool {
    b == SPACE || b == TAB || b == NEWLINE || b == CARRIAGE_RETURN
}

/// An identifier starts with an ASCII letter or an underscore.
pub open spec fn is_identifier_start(b: u8) -> bool {
    (0x41 <= b <= 0x5a) || (0x61 <= b <= 0x7a) || b == UNDERSCORE
}

/// An identifier goes on with ASCII letters, digits and underscores.
pub open spec fn is_identifier_continue(b: u8) -> bool {
    is_identifier_start(b) || (0x30 <= b <= 0x39)
}

/// Whether `s` holds the byte `b` at `pos`.
pub open spec fn has_byte(s: Seq<u8>, pos: int, b: u8) -> bool {
    0 <= pos < s.len() && s[pos] == b
}

/// The end of the run of whitespace that starts at `pos`: the first position
/// at or after `pos` that holds no whitespace.
pub open spec fn whitespace_end(s: Seq<u8>, pos: int) -> int
    decreases s.len() - pos,
{
    if 0 <= pos < s.len() && is_whitespace(s[pos]) {
        whitespace_end(s, pos + 1)
    } else {
        pos
    }
}

/// The end of the run of identifier characters that starts at `pos`.
pub open spec fn identifier_end(s: Seq<u8>, pos: int) -> int
    decreases s.len() - pos,
{
    if 0 <= pos < s.len() && is_identifier_continue(s[pos]) {
        identifier_end(s, pos + 1)
    } else {
        pos
    }
}

/// The number of line feeds before `offset`: the zero-based index of the line
/// that `offset` lies on.
pub open spec fn line_index(s: Seq<u8>, offset: int) -> int
    decreases offset,
{
    if offset <= 0 {
        0
    } else if s[offset - 1] == NEWLINE {
        line_index(s, offset - 1) + 1
    } else {
        line_index(s, offset - 1)
    }
}

/// The number of characters between the start of its line and `offset`: the
/// zero-based index of the column that `offset` lies on. A character counts
/// where its encoding begins, so the bytes that continue a multi-byte
/// character add nothing.
pub open spec fn column_index(s: Seq<u8>, offset: int) -> int
    decreases offset,
{
    if offset <= 0 {
        0
    } else if s[offset - 1] == NEWLINE {
        0
    } else if is_continuation_byte(s[offset - 1]) {
        column_index(s, offset - 1)
    } else {
        column_index(s, offset - 1) + 1
    }
}

/// A span `start..end` whose text can be read: it lies within `s` and both of
/// its ends fall between characters.
pub open spec fn is_span(s: Seq<u8>, start: int, end: int) -> bool {
    &&& 0 <= start <= end <= s.len()
    &&& is_char_boundary(s, start)
    &&& is_char_boundary(s, end)
}

/// The characters that the bytes `start..end` of `s` encode.
pub open spec fn span_text(s: Seq<u8>, start: int, end: int) -> Seq<char> {
    decode_utf8(s.subrange(start, end))
}

/// Tests for a whitespace byte.
pub fn whitespace_byte(b: u8) -> (r: bool)
    ensures
        r == is_whitespace(b),
{
    b == SPACE || b == TAB || b == NEWLINE || b == CARRIAGE_RETURN
}

/// Tests for a byte that starts an identifier.
pub fn identifier_start_byte(b: u8) -> (r: bool)
    ensures
        r == is_identifier_start(b),
{
    (0x41 <= b && b <= 0x5a) || (0x61 <= b && b <= 0x7a) || b == UNDERSCORE
}

/// Tests for a byte that continues an identifier.
pub fn identifier_continue_byte(b: u8) -> (r: bool)
    ensures
        r == is_identifier_continue(b),
{
    identifier_start_byte(b) || (0x30 <= b && b <= 0x39)
}

/// Tests for the byte `b` at `pos`.
pub fn byte_at(src: &[u8], pos: usize, b: u8) -> (r: bool)
    ensures
        r == has_byte(src@, pos as int, b),
        r ==> pos < usize::MAX,
{
    pos < src.len() && src[pos] == b
}

/// Skips the whitespace that starts at `pos`.
pub fn scan_whitespace(src: &[u8], pos: usize) -> (end: usize)
    ensures
        end == whitespace_end(src@, pos as int),
{
    let mut i: usize = pos;
    while i < src.len() && whitespace_byte(src[i])
        invariant
            whitespace_end(src@, i as int) == whitespace_end(src@, pos as int),
        decreases src.len() - i,
    {
        i = i + 1;
    }
    i
}

/// Skips the identifier characters that start at `pos`.
pub fn scan_identifier(src: &[u8], pos: usize) -> (end: usize)
    ensures
        end == identifier_end(src@, pos as int),
{
    let mut i: usize = pos;
    while i < src.len() && identifier_continue_byte(src[i])
        invariant
            identifier_end(src@, i as int) == identifier_end(src@, pos as int),
        decreases src.len() - i,
    {
        i = i + 1;
    }
    i
}

/// The line and the column of `offset`, both counted from zero.
pub fn locate(src: &[u8], offset: usize) -> (place: (usize, usize))
    requires
        offset <= src.len(),
    ensures
        place.0 == line_index(src@, offset as int),
        place.1 == column_index(src@, offset as int),
{
    let mut line: usize = 0;
    let mut column: usize = 0;
    let mut i: usize = 0;
    while i < offset
        invariant
            i <= offset <= src.len(),
            line == line_index(src@, i as int),
            column == column_index(src@, i as int),
            line <= i,
            column <= i,
        decreases offset - i,
    {
        let b: u8 = src[i];
        if b == NEWLINE {
            line = line + 1;
            column = 0;
        } else if !(0x80 <= b && b <= 0xbf) {
            column = column + 1;
        }
        i = i + 1;
    }
    (line, column)
}

/// Copies the text of the span `start..end` out of `source`.
pub fn read_span(source: &str, start: usize, end: usize) -> (text: String)
    requires
        is_span(source.spec_bytes(), start as int, end as int),
    ensures
        text@ == span_text(source.spec_bytes(), start as int, end as int),
{
    broadcast use {
        encode_utf8_valid_utf8,
        encode_utf8_decode_utf8,
        is_char_boundary_start_end_of_seq,
    };

    let ghost bytes = source.spec_bytes();
    let (head, _) = source.split_at(end);
    proof {
        let front = head.spec_bytes();
        assert(front.len() == end);
        if start < end {
            assert(front[start as int] == bytes[start as int]);
            is_char_boundary_iff_not_is_continuation_byte(bytes, start as int);
            is_char_boundary_iff_not_is_continuation_byte(front, start as int);
        } else {
            assert(is_char_boundary(front, front.len() as int));
        }
    }
    let (_, body) = head.split_at(start);
    proof {
        assert(body.spec_bytes() =~= bytes.subrange(start as int, end as int));
    }
    body.to_owned()
}

/// The whitespace run ends within the text, after whitespace only, and not
/// before a whitespace byte.
pub proof fn lemma_whitespace_end(s: Seq<u8>, pos: int)
    ensures
        pos <= whitespace_end(s, pos),
        pos <= s.len() ==> whitespace_end(s, pos) <= s.len(),
        forall|i: int| pos <= i < whitespace_end(s, pos) ==> is_whitespace(#[trigger] s[i]),
        0 <= pos && whitespace_end(s, pos) < s.len() ==> !is_whitespace(s[whitespace_end(s, pos)]),
    decreases s.len() - pos,
{
    if 0 <= pos < s.len() && is_whitespace(s[pos]) {
        lemma_whitespace_end(s, pos + 1);
    }
}

/// The identifier run ends within the text, after identifier characters
/// only, and not before an identifier character.
pub proof fn lemma_identifier_end(s: Seq<u8>, pos: int)
    ensures
        pos <= identifier_end(s, pos),
        pos <= s.len() ==> identifier_end(s, pos) <= s.len(),
        forall|i: int|
            pos <= i < identifier_end(s, pos) ==> is_identifier_continue(#[trigger] s[i]),
        0 <= pos && identifier_end(s, pos) < s.len() ==> !is_identifier_continue(
            s[identifier_end(s, pos)],
        ),
    decreases s.len() - pos,
{
    if 0 <= pos < s.len() && is_identifier_continue(s[pos]) {
        lemma_identifier_end(s, pos + 1);
    }
}

/// A run of identifier characters that ends at `end` is the run that
/// `identifier_end` finds.
pub proof fn lemma_identifier_run(s: Seq<u8>, pos: int, end: int)
    requires
        0 <= pos <= end <= s.len(),
        forall|i: int| pos <= i < end ==> is_identifier_continue(#[trigger] s[i]),
        end < s.len() ==> !is_identifier_continue(s[end]),
    ensures
        identifier_end(s, pos) == end,
    decreases end - pos,
{
    if pos < end {
        lemma_identifier_run(s, pos + 1, end);
    }
}

/// In well-formed UTF-8, a character boundary before an ASCII byte is
/// followed by a character boundary after it.
pub proof fn lemma_boundary_after_ascii(s: Seq<u8>, i: int)
    requires
        valid_utf8(s),
        0 <= i < s.len(),
        is_char_boundary(s, i),
        s[i] <= 0x7f,
    ensures
        is_char_boundary(s, i + 1),
    decreases s.len(),
{
    let rest = pop_first_scalar(s);
    let width = length_of_first_scalar(s);
    if i == 0 {
        assert(width == 1);
        assert(is_char_boundary(rest, 0));
    } else {
        assert(is_char_boundary(rest, i - width));
        assert(rest[i - width] == s[i]);
        lemma_boundary_after_ascii(rest, i - width);
    }
}

/// In well-formed UTF-8, a run of ASCII bytes that starts between characters
/// ends between characters.
pub proof fn lemma_ascii_run_is_span(s: Seq<u8>, start: int, end: int)
    requires
        valid_utf8(s),
        0 <= start <= end <= s.len(),
        start < s.len() ==> !is_continuation_byte(s[start]),
        forall|i: int| start <= i < end ==> #[trigger] s[i] <= 0x7f,
    ensures
        is_span(s, start, end),
    decreases end - start,
{
    if start < end {
        lemma_ascii_run_is_span(s, start, end - 1);
        lemma_boundary_after_ascii(s, end - 1);
    } else if start < s.len() {
        is_char_boundary_iff_not_is_continuation_byte(s, start);
    } else {
        is_char_boundary_start_end_of_seq(s);
    }
}

} // verus!
