//! Reading a line of lyrics: every `[MM:SS.mmm]` marker anchors the
//! characters that follow it, up to the next marker, to a moment in
//! milliseconds.

use crate::pattern::{find_captures, regex_captures};
use crate::text::{
    bytes_of_each, chars_between, is_white_space, is_white_space_char, lemma_boundary_in_range,
    lines_of, slice_between, split_lines,
};
use vstd::prelude::*;
use vstd::std_specs::iter::IteratorSpec;
use vstd::string::*;
use vstd::utf8::*;

verus! {

/// One visible character and the window `[start, end)`, in milliseconds, in
/// which it is the one being sung.
#[derive(Debug, Clone, Copy, PartialEq, Eq)]
pub struct Word {
    pub start: u64,
    pub end: u64,
    pub ch: char,
}

/// Why a line could not be read.
#[derive(Debug, Clone, Copy, PartialEq, Eq)]
pub enum ParseError {
    /// The marker pattern itself was refused.
    InvalidPattern,
    /// A match does not have the shape of a timestamp: a whole match and
    /// three groups of decimal digits, in the order of the text, that give a
    /// moment in range.
    InvalidTimestamp,
}

/// The pattern of a marker: two digits of minutes, two of seconds, three of
/// milliseconds.
pub const MARKER_PATTERN: &'static str = r"\[(\d{2}):(\d{2})\.(\d{3})\]";

/// How long the last character of a line stays, in milliseconds.
pub const TRAILING_MS: u64 = 500;

/// Milliseconds in a minute.
pub const MS_PER_MINUTE: u64 = 60_000;

/// Milliseconds in a second.
pub const MS_PER_SECOND: u64 = 1_000;

/// A marker as found in a line: the bytes `from..to` hold it, and it stands
/// for the moment `start_ms`.
pub struct Marker {
    pub from: usize,
    pub to: usize,
    pub start_ms: u64,
}

/// Whether `byte` is an ASCII decimal digit.
pub open spec fn is_digit(byte: u8) -> bool {
    0x30 <= byte <= 0x39
}

/// Whether `bytes` is a run of one or more ASCII decimal digits.
pub open spec fn all_digits(bytes: Seq<u8>) -> bool {
    bytes.len() > 0 && forall|i: int| 0 <= i < bytes.len() ==> is_digit(#[trigger] bytes[i])
}

/// The number that a run of decimal digits spells.
pub open spec fn decimal_value(bytes: Seq<u8>) -> nat
    decreases bytes.len(),
{
    if bytes.len() == 0 {
        0
    } else {
        10 * decimal_value(bytes.drop_last()) + (bytes.last() - 0x30) as nat
    }
}

/// The number that a capture group spells in `text`, where the group took
/// part in the match, lies inside the text and holds only digits.
pub open spec fn group_number(text: Seq<u8>, group: Option<(usize, usize)>) -> Option<nat> {
    match group {
        Some((from, to)) => if from <= to <= text.len() && all_digits(
            text.subrange(from as int, to as int),
        ) {
            Some(decimal_value(text.subrange(from as int, to as int)))
        } else {
            None
        },
        None => None,
    }
}

/// The moment, in milliseconds, that a timestamp names.
pub open spec fn timestamp_ms(minutes: nat, seconds: nat, millis: nat) -> nat {
    minutes * (MS_PER_MINUTE as nat) + seconds * (MS_PER_SECOND as nat) + millis
}

/// The marker that one match stands for, where it has the shape of one: four
/// groups, of which the first is the whole match and runs between two
/// character boundaries of the text, and the other three spell minutes,
/// seconds and milliseconds of a moment whose trailing window still fits in
/// 64 bits.
pub open spec fn marker_of(text: Seq<u8>, groups: Seq<Option<(usize, usize)>>) -> Option<Marker> {
    if groups.len() == 4 && groups[0] is Some && group_number(text, groups[1]) is Some
        && group_number(text, groups[2]) is Some && group_number(text, groups[3]) is Some {
        let (from, to) = groups[0]->0;
        let moment = timestamp_ms(
            group_number(text, groups[1])->0,
            group_number(text, groups[2])->0,
            group_number(text, groups[3])->0,
        );
        if from <= to && is_char_boundary(text, from as int) && is_char_boundary(text, to as int)
            && moment + TRAILING_MS <= u64::MAX {
            Some(Marker { from, to, start_ms: moment as u64 })
        } else {
            None
        }
    } else {
        None
    }
}

/// A longer run of digits never spells a smaller number than its beginning.
proof fn lemma_decimal_value_grows(bytes: Seq<u8>, n: int)
    requires
        all_digits(bytes),
        0 <= n <= bytes.len(),
    ensures
        decimal_value(bytes.subrange(0, n)) <= decimal_value(bytes),
    decreases bytes.len() - n,
{
    if n == bytes.len() {
        assert(bytes.subrange(0, n) =~= bytes);
    } else {
        let longer = bytes.subrange(0, n + 1);
        assert(longer.drop_last() =~= bytes.subrange(0, n));
        assert(is_digit(bytes[n]));
        assert(longer.last() == bytes[n]);
        lemma_decimal_value_grows(bytes, n + 1);
    }
}

/// The number that the digits `from..to` of `bytes` spell, where they are
/// digits and the number fits in 64 bits.
fn read_decimal(bytes: &[u8], from: usize, to: usize) -> (value: Option<u64>)
    requires
        from <= to <= bytes@.len(),
    ensures
        value == if all_digits(bytes@.subrange(from as int, to as int)) && decimal_value(
            bytes@.subrange(from as int, to as int),
        ) <= u64::MAX {
            Some(decimal_value(bytes@.subrange(from as int, to as int)) as u64)
        } else {
            None::<u64>
        },
{
    let ghost run = bytes@.subrange(from as int, to as int);
    if from == to {
        return None;
    }
    let mut value: u64 = 0;
    let mut i: usize = from;
    assert(run.subrange(0, 0) =~= Seq::<u8>::empty());
    while i < to
        invariant
            from <= i <= to <= bytes@.len(),
            run == bytes@.subrange(from as int, to as int),
            forall|k: int| 0 <= k < i - from ==> is_digit(#[trigger] run[k]),
            value == decimal_value(run.subrange(0, i - from)),
        decreases to - i,
    {
        let byte = bytes[i];
        assert(byte == run[i - from]);
        if byte < 0x30 || byte > 0x39 {
            return None;
        }
        let ghost longer = run.subrange(0, i - from + 1);
        proof {
            assert(longer.drop_last() =~= run.subrange(0, i - from));
            assert(longer.last() == byte);
        }
        let digit: u64 = (byte - 0x30) as u64;
        let next = match value.checked_mul(10) {
            Some(tens) => tens.checked_add(digit),
            None => None,
        };
        match next {
            Some(n) => {
                value = n;
            },
            None => {
                proof {
                    assert(decimal_value(longer) > u64::MAX);
                    if all_digits(run) {
                        lemma_decimal_value_grows(run, i - from + 1);
                    }
                }
                return None;
            },
        }
        i += 1;
    }
    proof {
        assert(run.subrange(0, to - from) =~= run);
    }
    Some(value)
}

/// The number that a capture group spells in `bytes`, where it spells one
/// that fits in 64 bits.
fn read_group(bytes: &[u8], group: Option<(usize, usize)>) -> (value: Option<u64>)
    ensures
        value == match group_number(bytes@, group) {
            Some(n) => if n <= u64::MAX {
                Some(n as u64)
            } else {
                None::<u64>
            },
            None => None::<u64>,
        },
{
    match group {
        Some((from, to)) => {
            if from <= to && to <= bytes.len() {
                read_decimal(bytes, from, to)
            } else {
                None
            }
        },
        None => None,
    }
}

/// The marker that one match stands for, where it has the shape of one.
fn read_marker(line: &str, groups: &Vec<Option<(usize, usize)>>) -> (marker: Option<Marker>)
    ensures
        marker == marker_of(line.spec_bytes(), groups@),
{
    if groups.len() != 4 {
        return None;
    }
    let bytes = line.as_bytes();
    let (from, to) = match groups[0] {
        Some(whole) => whole,
        None => {
            return None;
        },
    };
    let minutes = match read_group(bytes, groups[1]) {
        Some(n) => n,
        None => {
            return None;
        },
    };
    let seconds = match read_group(bytes, groups[2]) {
        Some(n) => n,
        None => {
            return None;
        },
    };
    let millis = match read_group(bytes, groups[3]) {
        Some(n) => n,
        None => {
            return None;
        },
    };
    if from > to || !line.is_char_boundary(from) || !line.is_char_boundary(to) {
        return None;
    }
    let whole_minutes = match minutes.checked_mul(MS_PER_MINUTE) {
        Some(n) => n,
        None => {
            return None;
        },
    };
    let whole_seconds = match seconds.checked_mul(MS_PER_SECOND) {
        Some(n) => n,
        None => {
            return None;
        },
    };
    let start_ms = match whole_minutes.checked_add(whole_seconds) {
        Some(n) => match n.checked_add(millis) {
            Some(m) => m,
            None => {
                return None;
            },
        },
        None => {
            return None;
        },
    };
    if start_ms > u64::MAX - TRAILING_MS {
        return None;
    }
    Some(Marker { from, to, start_ms })
}

/// Whether match `i` ends before match `i + 1` starts.
pub open spec fn in_order(text: Seq<u8>, found: Seq<Seq<Option<(usize, usize)>>>, i: int) -> bool {
    marker_of(text, found[i])->0.to <= marker_of(text, found[i + 1])->0.from
}

/// The markers of a line, where every match has the shape of one and they
/// follow each other in the text without overlap.
pub open spec fn markers_of(text: Seq<u8>, found: Seq<Seq<Option<(usize, usize)>>>) -> Option<
    Seq<Marker>,
> {
    if (forall|i: int| 0 <= i < found.len() ==> marker_of(text, #[trigger] found[i]) is Some) && (
    forall|i: int| 0 <= i < found.len() - 1 ==> #[trigger] in_order(text, found, i)) {
        Some(Seq::new(found.len(), |i: int| marker_of(text, found[i])->0))
    } else {
        None
    }
}

/// Where the text that marker `i` anchors ends: at the next marker, or at the
/// end of the line.
pub open spec fn text_end(text: Seq<u8>, markers: Seq<Marker>, i: int) -> int {
    if i + 1 < markers.len() {
        markers[i + 1].from as int
    } else {
        text.len() as int
    }
}

/// Whether a character is shown: white space is not.
pub open spec fn shown() -> spec_fn(char) -> bool {
    |c: char| !is_white_space(c)
}

/// The characters that are shown, in their order.
pub open spec fn visible(chars: Seq<char>) -> Seq<char> {
    chars.filter(shown())
}

/// The word for the character `ch` that starts at `start_ms`, its end not
/// settled yet.
pub open spec fn unsettled(start_ms: u64, ch: char) -> Word {
    Word { start: start_ms, end: 0, ch }
}

/// One word for each character, all starting at `start_ms`, their ends not
/// settled yet.
pub open spec fn anchored(start_ms: u64, chars: Seq<char>) -> Seq<Word> {
    chars.map_values(|c: char| unsettled(start_ms, c))
}

/// The words that marker `i` anchors.
pub open spec fn marker_words(text: Seq<u8>, markers: Seq<Marker>, i: int) -> Seq<Word> {
    anchored(
        markers[i].start_ms,
        visible(chars_between(text, markers[i].to as int, text_end(text, markers, i))),
    )
}

/// The words of the first `n` markers, in order.
pub open spec fn words_of_markers(text: Seq<u8>, markers: Seq<Marker>, n: int) -> Seq<Word>
    decreases n,
{
    if n <= 0 {
        Seq::empty()
    } else {
        words_of_markers(text, markers, n - 1) + marker_words(text, markers, n - 1)
    }
}

/// The words with their ends settled: each ends where the next one starts, and
/// the last one `TRAILING_MS` after its own start.
pub open spec fn settled(words: Seq<Word>) -> Seq<Word> {
    Seq::new(
        words.len(),
        |i: int|
            Word {
                start: words[i].start,
                end: if i + 1 < words.len() {
                    words[i + 1].start
                } else {
                    (words[i].start + TRAILING_MS) as u64
                },
                ch: words[i].ch,
            },
    )
}

/// What a line gives, from its bytes and from what the search for markers
/// found in it.
pub open spec fn line_words(
    text: Seq<u8>,
    found: Option<Seq<Seq<Option<(usize, usize)>>>>,
) -> Result<Seq<Word>, ParseError> {
    match found {
        None => Err(ParseError::InvalidPattern),
        Some(matches) => match markers_of(text, matches) {
            None => Err(ParseError::InvalidTimestamp),
            Some(markers) => Ok(settled(words_of_markers(text, markers, markers.len() as int))),
        },
    }
}

/// The groups of a match as a sequence are what the vector holds.
proof fn lemma_groups_view(groups: Vec<Option<(usize, usize)>>)
    ensures
        groups.deep_view() == groups@,
{
    assert(groups.deep_view() =~= groups@);
}

/// The markers of a line, where every match has the shape of one and they
/// follow each other in the text without overlap.
fn read_markers(line: &str, found: &Vec<Vec<Option<(usize, usize)>>>) -> (markers: Option<
    Vec<Marker>,
>)
    ensures
        markers is Some <==> markers_of(line.spec_bytes(), found.deep_view()) is Some,
        markers is Some ==> markers->0@ == markers_of(line.spec_bytes(), found.deep_view())->0,
{
    let ghost text = line.spec_bytes();
    let ghost matches = found.deep_view();
    let mut markers: Vec<Marker> = Vec::new();
    let mut i: usize = 0;
    while i < found.len()
        invariant
            i <= found.len(),
            text == line.spec_bytes(),
            matches == found.deep_view(),
            markers@.len() == i,
            forall|k: int| 0 <= k < i ==> marker_of(text, #[trigger] matches[k]) == Some(markers@[k]),
            forall|k: int| 0 <= k < i - 1 ==> #[trigger] in_order(text, matches, k),
        decreases found.len() - i,
    {
        proof {
            lemma_groups_view(found@[i as int]);
            assert(matches[i as int] == found@[i as int]@);
        }
        let marker = match read_marker(line, &found[i]) {
            Some(m) => m,
            None => {
                return None;
            },
        };
        if i > 0 && markers[i - 1].to > marker.from {
            proof {
                assert(!in_order(text, matches, i - 1));
            }
            return None;
        }
        proof {
            if i > 0 {
                assert(in_order(text, matches, i - 1));
            }
        }
        markers.push(marker);
        i += 1;
    }
    proof {
        assert(markers@ =~= markers_of(text, matches)->0);
    }
    Some(markers)
}

/// `anchored` keeps the characters and their order.
proof fn lemma_anchored(start_ms: u64, chars: Seq<char>)
    ensures
        anchored(start_ms, chars).len() == chars.len(),
        forall|i: int|
            0 <= i < chars.len() ==> #[trigger] anchored(start_ms, chars)[i] == unsettled(
                start_ms,
                chars[i],
            ),
{
}

/// Appends one word for each visible character of `piece`, all starting at
/// `start_ms`.
fn push_visible(words: &mut Vec<Word>, piece: &str, start_ms: u64)
    ensures
        final(words)@ == old(words)@ + anchored(start_ms, visible(piece@)),
{
    let ghost before = words@;
    let ghost mut seen: Seq<char> = Seq::empty();
    let mut chars = piece.chars();
    proof {
        assert(seen.filter(shown()) =~= Seq::<char>::empty()) by {
            reveal(Seq::filter);
        }
        assert(words@ =~= before + anchored(start_ms, visible(seen)));
    }
    loop
        invariant
            chars.decrease() is Some,
            seen + chars.remaining() == piece@,
            words@ == before + anchored(start_ms, visible(seen)),
        ensures
            words@ == before + anchored(start_ms, visible(piece@)),
        decreases chars.decrease()->0,
    {
        match chars.next() {
            Some(c) => {
                if !is_white_space_char(c) {
                    words.push(Word { start: start_ms, end: 0, ch: c });
                }
                proof {
                    let shown_before = visible(seen);
                    seen.lemma_filter_push(c, shown());
                    seen = seen.push(c);
                    assert(seen + chars.remaining() =~= piece@);
                    if shown()(c) {
                        assert(visible(seen) == shown_before.push(c));
                        assert(anchored(start_ms, visible(seen)) =~= anchored(
                            start_ms,
                            shown_before,
                        ).push(unsettled(start_ms, c)));
                    } else {
                        assert(visible(seen) == shown_before);
                    }
                    assert(words@ =~= before + anchored(start_ms, visible(seen)));
                }
            },
            None => {
                proof {
                    assert(seen =~= piece@);
                }
                break ;
            },
        }
    }
}

/// Settles the end of each word: see `settled`.
fn settle_ends(words: &mut Vec<Word>)
    requires
        windows_fit(old(words)@),
    ensures
        final(words)@ == settled(old(words)@),
{
    let ghost before = words@;
    let len = words.len();
    let mut i: usize = 0;
    while i < len
        invariant
            i <= len,
            len == before.len(),
            words@.len() == len,
            windows_fit(before),
            forall|k: int| 0 <= k < i ==> #[trigger] words@[k] == settled(before)[k],
            forall|k: int| i <= k < len ==> #[trigger] words@[k] == before[k],
        decreases len - i,
    {
        let word = words[i];
        let end = if i + 1 < len {
            words[i + 1].start
        } else {
            word.start + TRAILING_MS
        };
        words.set(i, Word { start: word.start, end, ch: word.ch });
        i += 1;
    }
    proof {
        assert(words@ =~= settled(before));
    }
}

/// What a line gives, from the line and from what the search for markers
/// found in it: the words of the line, or why it cannot be read.
pub fn words_from_captures(line: &str, found: &Option<Vec<Vec<Option<(usize, usize)>>>>) -> (words:
    Result<Vec<Word>, ParseError>)
    ensures
        words is Ok <==> line_words(line.spec_bytes(), found.deep_view()) is Ok,
        words is Ok ==> words->Ok_0@ == line_words(line.spec_bytes(), found.deep_view())->Ok_0,
        words is Err ==> words->Err_0 == line_words(line.spec_bytes(), found.deep_view())->Err_0,
{
    let ghost text = line.spec_bytes();
    let matches = match found {
        Some(matches) => matches,
        None => {
            return Err(ParseError::InvalidPattern);
        },
    };
    let markers = match read_markers(line, matches) {
        Some(markers) => markers,
        None => {
            return Err(ParseError::InvalidTimestamp);
        },
    };
    let ghost all = matches.deep_view();
    proof {
        encode_utf8_valid_utf8(line@);
    }
    let text_len = line.as_bytes().len();
    let mut words: Vec<Word> = Vec::new();
    let mut i: usize = 0;
    while i < markers.len()
        invariant
            i <= markers.len(),
            text == line.spec_bytes(),
            valid_utf8(text),
            text_len == text.len(),
            markers_of(text, all) == Some(markers@),
            words@ == words_of_markers(text, markers@, i as int),
            windows_fit(words@),
        decreases markers.len() - i,
    {
        let from = markers[i].to;
        let to = if i + 1 < markers.len() {
            markers[i + 1].from
        } else {
            text_len
        };
        proof {
            assert(marker_of(text, all[i as int]) == Some(markers@[i as int]));
            lemma_boundary_in_range(text, from as int);
            if i + 1 < markers.len() {
                assert(marker_of(text, all[i + 1]) == Some(markers@[i + 1]));
                assert(in_order(text, all, i as int));
            } else {
                is_char_boundary_start_end_of_seq(text);
            }
            assert(to == text_end(text, markers@, i as int));
        }
        let piece = slice_between(line, from, to);
        let ghost earlier = words@;
        push_visible(&mut words, piece, markers[i].start_ms);
        proof {
            assert(words@ == earlier + marker_words(text, markers@, i as int));
            assert forall|k: int| 0 <= k < words@.len() implies (#[trigger] words@[k]).start
                + TRAILING_MS <= u64::MAX by {
                if k >= earlier.len() {
                    let added = marker_words(text, markers@, i as int);
                    assert(words@[k] == added[k - earlier.len()]);
                    assert(added[k - earlier.len()].start == markers@[i as int].start_ms);
                }
            }
        }
        i += 1;
    }
    settle_ends(&mut words);
    Ok(words)
}

/// The words of an outcome: none where the line could not be read.
pub open spec fn words_or_none(outcome: Result<Seq<Word>, ParseError>) -> Seq<Word> {
    match outcome {
        Ok(words) => words,
        Err(_) => Seq::empty(),
    }
}

/// The words of a line: what `line_words` gives for the markers that the
/// search for `MARKER_PATTERN` finds in it, and nothing where the line
/// cannot be read.
pub open spec fn parsed_line(line: Seq<char>) -> Seq<Word> {
    words_or_none(line_words(encode_utf8(line), regex_captures(MARKER_PATTERN@, line)))
}

/// The words of the given lines, one line after the other.
pub open spec fn words_of_lines(lines: Seq<Seq<u8>>) -> Seq<Word>
    decreases lines.len(),
{
    if lines.len() == 0 {
        Seq::empty()
    } else {
        words_of_lines(lines.drop_last()) + parsed_line(decode_utf8(lines.last()))
    }
}

/// The words of a whole text: those of its lines, in order.
pub open spec fn parsed_lines(content: Seq<char>) -> Seq<Word> {
    words_of_lines(lines_of(encode_utf8(content)))
}

/// Every word but the last ends where the next one starts.
pub open spec fn chained(words: Seq<Word>) -> bool {
    forall|i: int| 0 <= i < words.len() - 1 ==> (#[trigger] words[i]).end == words[i + 1].start
}

/// The last word, where there is one, ends `TRAILING_MS` after its start.
pub open spec fn ends_with_trailing_window(words: Seq<Word>) -> bool {
    words.len() > 0 ==> words.last().end == words.last().start + TRAILING_MS
}

/// No word holds a white-space character.
pub open spec fn none_white(words: Seq<Word>) -> bool {
    forall|i: int| 0 <= i < words.len() ==> !is_white_space((#[trigger] words[i]).ch)
}

/// Every word starts early enough for a trailing window to fit in 64 bits.
pub open spec fn windows_fit(words: Seq<Word>) -> bool {
    forall|i: int| 0 <= i < words.len() ==> (#[trigger] words[i]).start + TRAILING_MS <= u64::MAX
}

/// The words of the first `n` markers start at moments of those markers and
/// hold no white space.
proof fn lemma_words_of_markers(text: Seq<u8>, markers: Seq<Marker>, n: int)
    requires
        0 <= n <= markers.len(),
        forall|i: int| 0 <= i < markers.len() ==> (#[trigger] markers[i]).start_ms + TRAILING_MS <= u64::MAX,
    ensures
        windows_fit(words_of_markers(text, markers, n)),
        none_white(words_of_markers(text, markers, n)),
    decreases n,
{
    if n > 0 {
        lemma_words_of_markers(text, markers, n - 1);
        let earlier = words_of_markers(text, markers, n - 1);
        let chars = chars_between(text, markers[n - 1].to as int, text_end(text, markers, n - 1));
        let added = marker_words(text, markers, n - 1);
        let all = words_of_markers(text, markers, n);
        lemma_anchored(markers[n - 1].start_ms, visible(chars));
        assert forall|k: int| 0 <= k < all.len() implies (#[trigger] all[k]).start + TRAILING_MS
            <= u64::MAX && !is_white_space(all[k].ch) by {
            if k >= earlier.len() {
                let j = k - earlier.len();
                assert(all[k] == added[j]);
                chars.lemma_filter_pred(shown(), j);
                assert(shown()(visible(chars)[j]));
            } else {
                assert(all[k] == earlier[k]);
            }
        }
    }
}

/// Settling the ends chains the words, gives the last one its trailing
/// window, and changes no character.
proof fn lemma_settled(words: Seq<Word>)
    requires
        windows_fit(words),
    ensures
        chained(settled(words)),
        ends_with_trailing_window(settled(words)),
        none_white(words) ==> none_white(settled(words)),
{
    let after = settled(words);
    assert forall|i: int| 0 <= i < after.len() - 1 implies (#[trigger] after[i]).end == after[i
        + 1].start by {}
    if words.len() > 0 {
        assert(after.last() == after[words.len() - 1]);
        assert(words[words.len() - 1].start + TRAILING_MS <= u64::MAX);
    }
    if none_white(words) {
        assert forall|i: int| 0 <= i < after.len() implies !is_white_space((#[trigger] after[i]).ch) by {
            assert(after[i].ch == words[i].ch);
        }
    }
}

/// Whatever the search for markers found: where the line can be read, its
/// words are chained, the last one has its trailing window, and none holds
/// white space.
pub proof fn lemma_line_words(text: Seq<u8>, found: Option<Seq<Seq<Option<(usize, usize)>>>>)
    ensures
        chained(words_or_none(line_words(text, found))),
        ends_with_trailing_window(words_or_none(line_words(text, found))),
        none_white(words_or_none(line_words(text, found))),
{
    if line_words(text, found) is Ok {
        let markers = markers_of(text, found->0)->0;
        assert forall|i: int| 0 <= i < markers.len() implies (#[trigger] markers[i]).start_ms
            + TRAILING_MS <= u64::MAX by {
            assert(marker_of(text, found->0[i]) == Some(markers[i]));
        }
        lemma_words_of_markers(text, markers, markers.len() as int);
        lemma_settled(words_of_markers(text, markers, markers.len() as int));
    }
}

/// In the words of any line, each word but the last ends where the next one
/// starts.
pub proof fn lemma_units_chain(line: Seq<char>)
    ensures
        chained(parsed_line(line)),
{
    lemma_line_words(encode_utf8(line), regex_captures(MARKER_PATTERN@, line));
}

/// In the words of any line that has some, the last word ends `TRAILING_MS`
/// after its own start.
pub proof fn lemma_last_unit_window(line: Seq<char>)
    ensures
        ends_with_trailing_window(parsed_line(line)),
{
    lemma_line_words(encode_utf8(line), regex_captures(MARKER_PATTERN@, line));
}

/// No word of any line holds a white-space character.
pub proof fn lemma_line_has_no_white_space(line: Seq<char>)
    ensures
        none_white(parsed_line(line)),
{
    lemma_line_words(encode_utf8(line), regex_captures(MARKER_PATTERN@, line));
}

/// No word of any of the given lines holds a white-space character.
proof fn lemma_lines_have_no_white_space(lines: Seq<Seq<u8>>)
    ensures
        none_white(words_of_lines(lines)),
    decreases lines.len(),
{
    if lines.len() > 0 {
        lemma_lines_have_no_white_space(lines.drop_last());
        lemma_line_has_no_white_space(decode_utf8(lines.last()));
        let earlier = words_of_lines(lines.drop_last());
        let all = words_of_lines(lines);
        assert forall|i: int| 0 <= i < all.len() implies !is_white_space((#[trigger] all[i]).ch) by {
            if i >= earlier.len() {
                assert(all[i] == parsed_line(decode_utf8(lines.last()))[i - earlier.len()]);
            } else {
                assert(all[i] == earlier[i]);
            }
        }
    }
}

/// No word of any text holds a white-space character.
pub proof fn lemma_text_has_no_white_space(content: Seq<char>)
    ensures
        none_white(parsed_lines(content)),
{
    lemma_lines_have_no_white_space(lines_of(encode_utf8(content)));
}

/// The words of one line in which `pattern` says what a marker is: a pattern
/// with three groups, for minutes, seconds and milliseconds. Every marker of
/// the line anchors the visible characters between it and the next marker (or
/// the end of the line) to its moment; each word ends where the next one
/// starts, and the last one `TRAILING_MS` after its start. The line cannot be
/// read where the pattern is refused, or where a match does not give a
/// timestamp.
pub fn parse_line_with(pattern: &str, line: &str) -> (words: Result<Vec<Word>, ParseError>)
    ensures
        words is Ok <==> line_words(line.spec_bytes(), regex_captures(pattern@, line@)) is Ok,
        words is Ok ==> words->Ok_0@ == line_words(
            line.spec_bytes(),
            regex_captures(pattern@, line@),
        )->Ok_0,
        words is Err ==> words->Err_0 == line_words(
            line.spec_bytes(),
            regex_captures(pattern@, line@),
        )->Err_0,
        words is Ok ==> chained(words->Ok_0@) && ends_with_trailing_window(words->Ok_0@)
            && none_white(words->Ok_0@),
{
    let found = find_captures(pattern, line);
    proof {
        lemma_line_words(line.spec_bytes(), found.deep_view());
    }
    words_from_captures(line, &found)
}

/// The words of one line of lyrics, with markers as `MARKER_PATTERN` has
/// them. A line without markers has no words, and neither has a line that
/// cannot be read.
pub fn parse_line(line: &str) -> (words: Vec<Word>)
    ensures
        words@ == parsed_line(line@),
        chained(words@),
        ends_with_trailing_window(words@),
        none_white(words@),
{
    match parse_line_with(MARKER_PATTERN, line) {
        Ok(words) => words,
        Err(_) => Vec::new(),
    }
}

/// The words of a whole text: those of each of its lines, in order, as one
/// flat sequence.
pub fn parse_lines(content: &str) -> (words: Vec<Word>)
    ensures
        words@ == parsed_lines(content@),
        none_white(words@),
{
    let lines = split_lines(content);
    let ghost texts = lines_of(content.spec_bytes());
    let mut words: Vec<Word> = Vec::new();
    let mut i: usize = 0;
    assert(texts.subrange(0, 0) =~= Seq::<Seq<u8>>::empty());
    while i < lines.len()
        invariant
            i <= lines.len(),
            texts == bytes_of_each(lines@),
            words@ == words_of_lines(texts.subrange(0, i as int)),
        decreases lines.len() - i,
    {
        let mut line_words = parse_line(lines[i]);
        proof {
            let upto = texts.subrange(0, i + 1);
            assert(upto.drop_last() =~= texts.subrange(0, i as int));
            assert(upto.last() == lines@[i as int].spec_bytes());
            encode_utf8_decode_utf8(lines@[i as int]@);
        }
        words.append(&mut line_words);
        i += 1;
    }
    proof {
        assert(texts.subrange(0, lines.len() as int) =~= texts);
        lemma_text_has_no_white_space(content@);
    }
    words
}

} // verus!
