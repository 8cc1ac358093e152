//! The state of one karaoke session and what it shows: which characters of
//! which line are lit at the current position.

use crate::lyrics::{parse_line, parsed_line, Word};
use crate::text::{bytes_of_each, lines_of, split_lines};
use crate::timer::Timer;
use vstd::prelude::*;
use vstd::string::*;
use vstd::utf8::*;

verus! {

/// What can happen to a session.
#[derive(Debug, Clone, Copy, PartialEq, Eq)]
pub enum Message {
    /// A frame is due: the position follows the stopwatch.
    Tick,
    /// The play button: a paused session plays, a playing one pauses.
    TogglePlay,
    /// The reset button: back to the start, paused.
    Reset,
}

/// One character as it is shown.
#[derive(Debug, Clone, Copy, PartialEq, Eq)]
pub struct Glyph {
    pub ch: char,
    pub highlighted: bool,
}

/// The window title.
pub const TITLE: &'static str = "Iced 逐字歌词";

/// Milliseconds between two frames while the session plays.
pub const TICK_MS: u64 = 16;

/// Where a line without words starts: later than every position.
pub const NEVER_STARTS: u64 = u64::MAX;

/// Where a line without words ends: before every position.
pub const NEVER_ENDS: u64 = u64::MIN;

/// The start of a line: that of its first word.
pub open spec fn line_start(words: Seq<Word>) -> u64 {
    if words.len() > 0 {
        words.first().start
    } else {
        NEVER_STARTS
    }
}

/// The end of a line: that of its last word.
pub open spec fn line_end(words: Seq<Word>) -> u64 {
    if words.len() > 0 {
        words.last().end
    } else {
        NEVER_ENDS
    }
}

/// Whether the line is the one being sung at `now`: it has started and its
/// end is not behind.
pub open spec fn is_current(words: Seq<Word>, now: u64) -> bool {
    !(line_end(words) < now) && line_start(words) <= now
}

/// Whether word `i` of the line is lit at `now`: the line is the current one
/// and the word has started.
pub open spec fn is_highlighted(words: Seq<Word>, i: int, now: u64) -> bool {
    is_current(words, now) && now >= words[i].start
}

/// Word `i` of the line as it is shown at `now`.
pub open spec fn glyph_at(words: Seq<Word>, i: int, now: u64) -> Glyph {
    Glyph { ch: words[i].ch, highlighted: is_highlighted(words, i, now) }
}

/// The line as it is shown at `now`.
pub open spec fn glyphs_of(words: Seq<Word>, now: u64) -> Seq<Glyph> {
    Seq::new(words.len(), |i: int| glyph_at(words, i, now))
}

/// The lines of a text as they are shown at `now`.
pub open spec fn frame_of(content: Seq<char>, now: u64) -> Seq<Seq<Glyph>> {
    let lines = lines_of(encode_utf8(content));
    Seq::new(lines.len(), |i: int| glyphs_of(parsed_line(decode_utf8(lines[i])), now))
}

/// Whole seconds in `now_ms` milliseconds.
pub open spec fn whole_seconds(now_ms: u64) -> int {
    now_ms as int / 1000
}

/// The start of a line in milliseconds, `NEVER_STARTS` for a line without
/// words.
pub fn line_start_ms(words: &Vec<Word>) -> (start: u64)
    ensures
        start == line_start(words@),
{
    if words.len() > 0 {
        words[0].start
    } else {
        NEVER_STARTS
    }
}

/// The end of a line in milliseconds, `NEVER_ENDS` for a line without words.
pub fn line_end_ms(words: &Vec<Word>) -> (end: u64)
    ensures
        end == line_end(words@),
{
    if words.len() > 0 {
        words[words.len() - 1].end
    } else {
        NEVER_ENDS
    }
}

/// Whether the line is the one being sung at `now`.
pub fn is_current_line(words: &Vec<Word>, now: u64) -> (current: bool)
    ensures
        current == is_current(words@, now),
{
    let is_past_line = line_end_ms(words) < now;
    !is_past_line && line_start_ms(words) <= now
}

/// The line as it is shown at `now`: its characters, each lit or not.
pub fn line_glyphs(words: &Vec<Word>, now: u64) -> (glyphs: Vec<Glyph>)
    ensures
        glyphs@ == glyphs_of(words@, now),
{
    let current = is_current_line(words, now);
    let mut glyphs: Vec<Glyph> = Vec::new();
    let mut i: usize = 0;
    while i < words.len()
        invariant
            i <= words.len(),
            current == is_current(words@, now),
            glyphs@.len() == i,
            forall|k: int| 0 <= k < i ==> #[trigger] glyphs@[k] == glyph_at(words@, k, now),
        decreases words.len() - i,
    {
        let word = words[i];
        glyphs.push(Glyph { ch: word.ch, highlighted: current && now >= word.start });
        i += 1;
    }
    assert(glyphs@ =~= glyphs_of(words@, now));
    glyphs
}

/// A position as hours, minutes and seconds of a clock: minutes and seconds
/// below 60, hours as many as it takes.
pub fn clock_parts(now_ms: u64) -> (parts: (u64, u64, u64))
    ensures
        parts.0 == whole_seconds(now_ms) / 3600,
        parts.1 == (whole_seconds(now_ms) % 3600) / 60,
        parts.2 == whole_seconds(now_ms) % 60,
        parts.1 < 60 && parts.2 < 60,
        parts.0 * 3600 + parts.1 * 60 + parts.2 == whole_seconds(now_ms),
{
    let now_s: u64 = now_ms / 1000;
    let hours: u64 = now_s / 3600;
    let remaining_secs: u64 = now_s % 3600;
    let minutes: u64 = remaining_secs / 60;
    let seconds: u64 = remaining_secs % 60;
    (hours, minutes, seconds)
}

/// Whether `after` is what the message `msg`, at the moment `now` of the
/// stopwatch, makes of `before`.
pub open spec fn updated_at(before: Karaoke, msg: Message, now: nat, after: Karaoke) -> bool {
    &&& after.lrc@ == before.lrc@
    &&& after.timer.origin() == before.timer.origin()
    &&& match msg {
        Message::Tick => {
            &&& after.timer == before.timer
            &&& after.is_playing == before.is_playing
            &&& after.pos == before.timer.millis_at(now)
        },
        Message::TogglePlay => {
            &&& after.pos == before.pos
            &&& after.is_playing == !before.is_playing
            &&& after.timer.paused() == !before.timer.paused()
            &&& after.timer.banked() == before.timer.nanos_at(now)
            &&& after.timer.started() == if before.timer.paused() {
                now
            } else {
                before.timer.started()
            }
        },
        Message::Reset => {
            &&& after.pos == before.pos
            &&& after.is_playing == before.is_playing
            &&& after.timer.paused()
            &&& after.timer.banked() == 0
            &&& after.timer.started() == now
        },
    }
}

/// One karaoke session: the lyrics, the stopwatch that drives them, the
/// position that the last frame showed, and whether frames are being asked
/// for.
pub struct Karaoke {
    pub lrc: String,
    pub timer: Timer,
    pub pos: u64,
    pub is_playing: bool,
}

impl Karaoke {
    /// A session on the given lyrics: at the start, and paused.
    pub fn new(lrc: String) -> (session: Karaoke)
        ensures
            session.lrc@ == lrc@,
            session.timer.paused(),
            session.timer.banked() == 0,
            session.pos == 0,
            !session.is_playing,
    {
        Karaoke { lrc, timer: Timer::new(), pos: 0, is_playing: false }
    }

    /// The window title.
    pub fn title(&self) -> (title: String)
        ensures
            title@ == TITLE@,
    {
        TITLE.to_owned()
    }

    /// What a message does to the session at the moment `now` of its
    /// stopwatch. A tick moves the position to the stopwatch's elapsed
    /// milliseconds. The play button flips `is_playing` and starts a paused
    /// stopwatch or pauses a running one. The reset button resets the
    /// stopwatch and leaves the rest, `is_playing` too, as it is.
    pub fn update_at(&mut self, msg: Message, now: u128)
        ensures
            updated_at(*old(self), msg, now as nat, *final(self)),
    {
        match msg {
            Message::Tick => {
                self.pos = self.timer.elapsed_at(now);
            },
            Message::TogglePlay => {
                self.is_playing = !self.is_playing;
                if self.timer.is_paused() {
                    self.timer.resume_at(now);
                } else {
                    self.timer.pause_at(now);
                }
            },
            Message::Reset => {
                self.timer.reset_at(now);
            },
        }
    }

    /// What a message does to the session now: see `update_at`.
    pub fn update(&mut self, msg: Message)
        ensures
            exists|now: u128| updated_at(*old(self), msg, now as nat, *final(self)),
    {
        let now = self.timer.running_nanos();
        self.update_at(msg, now);
    }

    /// How often a frame is due: every `TICK_MS` milliseconds while the
    /// session plays, never while it does not.
    pub fn tick_interval_ms(&self) -> (interval: Option<u64>)
        ensures
            interval == if self.is_playing {
                Some(TICK_MS)
            } else {
                None::<u64>
            },
    {
        if self.is_playing {
            Some(TICK_MS)
        } else {
            None
        }
    }

    /// What the session shows at its position: for each line of the lyrics,
    /// its characters, each lit or not.
    pub fn frame(&self) -> (lines: Vec<Vec<Glyph>>)
        ensures
            lines@.len() == frame_of(self.lrc@, self.pos).len(),
            forall|i: int| 0 <= i < lines@.len() ==> (#[trigger] lines@[i])@ == frame_of(self.lrc@, self.pos)[i],
    {
        let pieces = split_lines(self.lrc.as_str());
        let ghost texts = lines_of(encode_utf8(self.lrc@));
        let mut lines: Vec<Vec<Glyph>> = Vec::new();
        let mut i: usize = 0;
        while i < pieces.len()
            invariant
                i <= pieces.len(),
                texts == bytes_of_each(pieces@),
                texts == lines_of(encode_utf8(self.lrc@)),
                lines@.len() == i,
                forall|k: int| 0 <= k < i ==> (#[trigger] lines@[k])@ == frame_of(self.lrc@, self.pos)[k],
            decreases pieces.len() - i,
        {
            let words = parse_line(pieces[i]);
            proof {
                encode_utf8_decode_utf8(pieces@[i as int]@);
                assert(texts[i as int] == pieces@[i as int].spec_bytes());
            }
            lines.push(line_glyphs(&words, self.pos));
            i += 1;
        }
        lines
    }
}

} // verus!
