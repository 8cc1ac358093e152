//! Timing engine for character-by-character lyric highlighting: a stopwatch
//! that survives pause and resume, and a reader for lines of text that carry
//! `[MM:SS.mmm]` markers.

pub mod lyrics;
pub mod pattern;
pub mod session;
pub mod text;
pub mod timer;
