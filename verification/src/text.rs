//! Cutting a `&str` at byte offsets, telling white space, and splitting a text
//! into its lines.

use vstd::prelude::*;
use vstd::string::*;
use vstd::utf8::*;

verus! {

/// A character boundary lies inside the text or at its end.
pub proof fn lemma_boundary_in_range(bytes: Seq<u8>, at: int)
    requires
        valid_utf8(bytes),
        is_char_boundary(bytes, at),
    ensures
        0 <= at <= bytes.len(),
{
}

/// A character boundary of a text is also one of the tail that starts at an
/// earlier boundary.
pub proof fn lemma_boundary_in_tail(bytes: Seq<u8>, from: int, to: int)
    requires
        valid_utf8(bytes),
        from <= to,
        is_char_boundary(bytes, from),
        is_char_boundary(bytes, to),
    ensures
        0 <= from <= to <= bytes.len(),
        valid_utf8(bytes.subrange(from, bytes.len() as int)),
        is_char_boundary(bytes.subrange(from, bytes.len() as int), to - from),
{
    lemma_boundary_in_range(bytes, from);
    lemma_boundary_in_range(bytes, to);
    let tail = bytes.subrange(from, bytes.len() as int);
    valid_utf8_split(bytes, from);
    if to == from {
    } else if to == bytes.len() {
        is_char_boundary_start_end_of_seq(tail);
    } else {
        is_char_boundary_iff_not_is_continuation_byte(bytes, to);
        assert(tail[to - from] == bytes[to]);
        is_char_boundary_iff_not_is_continuation_byte(tail, to - from);
    }
}

/// The characters that the bytes `from..to` of a text spell.
pub open spec fn chars_between(bytes: Seq<u8>, from: int, to: int) -> Seq<char> {
    decode_utf8(bytes.subrange(from, to))
}

/// The part of `text` between two of its character boundaries.
pub(crate) fn slice_between<'a>(text: &'a str, from: usize, to: usize) -> (piece: &'a str)
    requires
        from <= to,
        is_char_boundary(text.spec_bytes(), from as int),
        is_char_boundary(text.spec_bytes(), to as int),
    ensures
        piece.spec_bytes() == text.spec_bytes().subrange(from as int, to as int),
        piece@ == chars_between(text.spec_bytes(), from as int, to as int),
{
    let ghost bytes = text.spec_bytes();
    proof {
        encode_utf8_valid_utf8(text@);
        lemma_boundary_in_tail(bytes, from as int, to as int);
    }
    let (_, tail) = text.split_at(from);
    let (piece, _) = tail.split_at(to - from);
    proof {
        assert(piece.spec_bytes() =~= bytes.subrange(from as int, to as int));
        encode_utf8_decode_utf8(piece@);
    }
    piece
}

/// Whether `c` is white space: one of the 25 characters that Unicode gives
/// the property `White_Space`.
pub open spec fn is_white_space(c: char) -> bool {
    let code = c as u32;
    ||| 0x0009 <= code <= 0x000D
    ||| code == 0x0020
    ||| code == 0x0085
    ||| code == 0x00A0
    ||| code == 0x1680
    ||| 0x2000 <= code <= 0x200A
    ||| code == 0x2028
    ||| code == 0x2029
    ||| code == 0x202F
    ||| code == 0x205F
    ||| code == 0x3000
}

/// Whether `c` is white space.
pub fn is_white_space_char(c: char) -> (white: bool)
    ensures
        white == is_white_space(c),
{
    let code = c as u32;
    (0x0009 <= code && code <= 0x000D) || code == 0x0020 || code == 0x0085 || code == 0x00A0
        || code == 0x1680 || (0x2000 <= code && code <= 0x200A) || code == 0x2028 || code
        == 0x2029 || code == 0x202F || code == 0x205F || code == 0x3000
}

/// The line feed.
pub const LINE_FEED: u8 = 0x0A;

/// The carriage return.
pub const CARRIAGE_RETURN: u8 = 0x0D;

/// Whether `byte` ends a line: a line feed or a carriage return does.
pub open spec fn ends_line(byte: u8) -> bool {
    byte == LINE_FEED || byte == CARRIAGE_RETURN
}

/// How many bytes stand before the first byte that ends a line: all of them
/// where there is none.
pub open spec fn first_line_len(bytes: Seq<u8>) -> int
    decreases bytes.len(),
{
    if bytes.len() == 0 || ends_line(bytes[0]) {
        0
    } else {
        1 + first_line_len(bytes.drop_first())
    }
}

/// How many bytes the line ending at `at` takes: two for a carriage return
/// with a line feed right after it, one for a line feed or a carriage return
/// alone.
pub open spec fn line_ending_len(bytes: Seq<u8>, at: int) -> int {
    if bytes[at] == CARRIAGE_RETURN && at + 1 < bytes.len() && bytes[at + 1] == LINE_FEED {
        2
    } else {
        1
    }
}

/// The lines of a text. A line ends at a line feed, at a carriage return
/// followed by a line feed (the two end one line), at a carriage return
/// alone, and at the end of a text that does not end in one of these. No line
/// holds what ended it.
pub open spec fn lines_of(bytes: Seq<u8>) -> Seq<Seq<u8>>
    decreases bytes.len(),
{
    if bytes.len() == 0 {
        Seq::empty()
    } else {
        let n = first_line_len(bytes);
        if 0 <= n < bytes.len() {
            seq![bytes.subrange(0, n)] + lines_of(
                bytes.subrange(n + line_ending_len(bytes, n), bytes.len() as int),
            )
        } else {
            seq![bytes]
        }
    }
}

/// The bytes of each of the given pieces of text.
pub open spec fn bytes_of_each(pieces: Seq<&str>) -> Seq<Seq<u8>> {
    Seq::new(pieces.len(), |i: int| pieces[i].spec_bytes())
}

/// A text that starts with an ASCII byte has a character boundary after it.
proof fn lemma_boundary_after_ascii(bytes: Seq<u8>)
    requires
        valid_utf8(bytes),
        bytes.len() > 0,
        bytes[0] <= 0x7f,
    ensures
        is_char_boundary(bytes, 1),
{
    if bytes.len() > 1 {
        reveal_with_fuel(is_char_boundary, 2);
        reveal_with_fuel(valid_utf8, 2);
    } else {
        is_char_boundary_start_end_of_seq(bytes);
    }
}

/// The offset of the first byte of `bytes` that ends a line, or their number
/// where there is none.
fn line_end_offset(bytes: &[u8]) -> (offset: usize)
    ensures
        offset == first_line_len(bytes@),
        offset <= bytes@.len(),
        offset < bytes@.len() ==> ends_line(bytes@[offset as int]),
{
    let mut i: usize = 0;
    assert(bytes@.subrange(0, bytes@.len() as int) =~= bytes@);
    while i < bytes.len() && bytes[i] != LINE_FEED && bytes[i] != CARRIAGE_RETURN
        invariant
            i <= bytes@.len(),
            first_line_len(bytes@) == i + first_line_len(bytes@.subrange(i as int, bytes@.len() as int)),
        decreases bytes@.len() - i,
    {
        proof {
            let here = bytes@.subrange(i as int, bytes@.len() as int);
            assert(here[0] == bytes@[i as int]);
            assert(here.drop_first() =~= bytes@.subrange(i + 1, bytes@.len() as int));
        }
        i += 1;
    }
    proof {
        let here = bytes@.subrange(i as int, bytes@.len() as int);
        if i < bytes@.len() {
            assert(here[0] == bytes@[i as int]);
        }
        assert(first_line_len(here) == 0);
    }
    i
}

/// The text without its first byte, which is an ASCII one.
fn skip_ascii<'a>(text: &'a str) -> (rest: &'a str)
    requires
        text.spec_bytes().len() > 0,
        text.spec_bytes()[0] <= 0x7f,
    ensures
        rest.spec_bytes() == text.spec_bytes().subrange(1, text.spec_bytes().len() as int),
{
    proof {
        encode_utf8_valid_utf8(text@);
        lemma_boundary_after_ascii(text.spec_bytes());
    }
    let (_, rest) = text.split_at(1);
    rest
}

/// The lines of `content`, in order: see `lines_of`.
pub fn split_lines<'a>(content: &'a str) -> (lines: Vec<&'a str>)
    ensures
        bytes_of_each(lines@) == lines_of(content.spec_bytes()),
{
    let mut lines: Vec<&'a str> = Vec::new();
    let mut rest: &'a str = content;
    assert(bytes_of_each(lines@) =~= Seq::<Seq<u8>>::empty());
    while rest.as_bytes().len() > 0
        invariant
            lines_of(content.spec_bytes()) == bytes_of_each(lines@) + lines_of(rest.spec_bytes()),
        decreases rest.spec_bytes().len(),
    {
        let ghost bytes = rest.spec_bytes();
        let ghost before = lines@;
        let offset = line_end_offset(rest.as_bytes());
        proof {
            encode_utf8_valid_utf8(rest@);
            if offset < bytes.len() {
                is_char_boundary_iff_not_is_continuation_byte(bytes, offset as int);
            } else {
                is_char_boundary_start_end_of_seq(bytes);
            }
        }
        let (head, tail) = rest.split_at(offset);
        lines.push(head);
        if tail.as_bytes().len() == 0 {
            proof {
                assert(head.spec_bytes() =~= bytes);
                assert(lines_of(tail.spec_bytes()) =~= Seq::<Seq<u8>>::empty());
                assert(bytes_of_each(lines@) =~= bytes_of_each(before) + seq![bytes]);
            }
            rest = tail;
        } else {
            let ending = tail.as_bytes()[0];
            assert(ending == bytes[offset as int]);
            let after = skip_ascii(tail);
            let doubled = ending == CARRIAGE_RETURN && after.as_bytes().len() > 0
                && after.as_bytes()[0] == LINE_FEED;
            proof {
                assert(after.spec_bytes() =~= bytes.subrange(offset + 1, bytes.len() as int));
                if after.spec_bytes().len() > 0 {
                    assert(after.spec_bytes()[0] == bytes[offset + 1]);
                }
                assert(doubled <==> line_ending_len(bytes, offset as int) == 2);
                assert(bytes_of_each(lines@) =~= bytes_of_each(before) + seq![
                    bytes.subrange(0, offset as int),
                ]);
            }
            if doubled {
                rest = skip_ascii(after);
                assert(rest.spec_bytes() =~= bytes.subrange(offset + 2, bytes.len() as int));
            } else {
                rest = after;
            }
        }
    }
    proof {
        assert(lines_of(rest.spec_bytes()) =~= Seq::<Seq<u8>>::empty());
    }
    lines
}

} // verus!
