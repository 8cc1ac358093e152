use karaoke::lyrics::{parse_line, Word};
use karaoke::session::{
    clock_parts, is_current_line, line_end_ms, line_glyphs, line_start_ms, Glyph, Karaoke, Message,
    NEVER_ENDS, NEVER_STARTS, TICK_MS, TITLE,
};

fn lit(ch: char) -> Glyph {
    Glyph { ch, highlighted: true }
}

fn dim(ch: char) -> Glyph {
    Glyph { ch, highlighted: false }
}

#[test]
fn new_session_is_at_the_start_and_paused() {
    let session = Karaoke::new(String::from("[00:00.000]a"));
    assert_eq!(session.lrc, "[00:00.000]a");
    assert_eq!(session.pos, 0);
    assert!(!session.is_playing);
    assert!(session.timer.is_paused());
    assert_eq!(session.timer.elapsed(), 0);
}

#[test]
fn title_is_the_window_title() {
    let session = Karaoke::new(String::new());
    assert_eq!(session.title(), "Iced 逐字歌词");
    assert_eq!(TITLE, "Iced 逐字歌词");
}

#[test]
fn toggle_play_starts_and_stops() {
    let mut session = Karaoke::new(String::new());
    session.update(Message::TogglePlay);
    assert!(session.is_playing);
    assert!(!session.timer.is_paused());
    assert_eq!(session.pos, 0);
    session.update(Message::TogglePlay);
    assert!(!session.is_playing);
    assert!(session.timer.is_paused());
}

#[test]
fn tick_follows_the_stopwatch() {
    let mut session = Karaoke::new(String::new());
    session.update(Message::Tick);
    assert_eq!(session.pos, 0);
    session.timer.resume_at(0);
    session.timer.pause_at(83_456_000_000);
    session.update(Message::Tick);
    assert_eq!(session.pos, 83_456);
    assert!(!session.is_playing);
    assert!(session.timer.is_paused());
}

#[test]
fn update_at_a_given_moment() {
    let mut session = Karaoke::new(String::from("x"));
    session.update_at(Message::Tick, 9_000_000);
    assert_eq!(session.pos, 0);
    session.update_at(Message::TogglePlay, 10_000_000);
    assert!(session.is_playing);
    assert!(!session.timer.is_paused());
    assert_eq!(session.pos, 0);
    session.update_at(Message::Tick, 93_456_000_000);
    assert_eq!(session.pos, 93_446);
    session.update_at(Message::TogglePlay, 100_010_000_000);
    assert!(!session.is_playing);
    assert!(session.timer.is_paused());
    assert_eq!(session.pos, 93_446);
    session.update_at(Message::Tick, 500_000_000_000);
    assert_eq!(session.pos, 100_000);
    session.update_at(Message::TogglePlay, 600_000_000_000);
    session.update_at(Message::Tick, 600_002_000_000);
    assert_eq!(session.pos, 100_002);
    session.update_at(Message::Reset, 700_000_000_000);
    assert!(session.timer.is_paused());
    assert!(session.is_playing);
    assert_eq!(session.pos, 100_002);
    session.update_at(Message::Tick, 800_000_000_000);
    assert_eq!(session.pos, 0);
    assert_eq!(session.lrc, "x");
}

#[test]
fn tick_while_playing_does_not_go_back() {
    let mut session = Karaoke::new(String::new());
    session.timer.resume_at(0);
    session.timer.pause_at(2_000_000);
    session.update(Message::TogglePlay);
    let mut last = 2;
    for _ in 0..1_000 {
        session.update(Message::Tick);
        assert!(session.pos >= last);
        last = session.pos;
    }
}

#[test]
fn reset_stops_the_stopwatch_and_keeps_the_rest() {
    let mut session = Karaoke::new(String::from("x"));
    session.update(Message::TogglePlay);
    session.pos = 77;
    session.update(Message::Reset);
    assert!(session.timer.is_paused());
    assert_eq!(session.timer.elapsed(), 0);
    assert!(session.is_playing);
    assert_eq!(session.pos, 77);
    assert_eq!(session.lrc, "x");
    session.update(Message::Tick);
    assert_eq!(session.pos, 0);
}

#[test]
fn frames_are_due_only_while_playing() {
    let mut session = Karaoke::new(String::new());
    assert_eq!(session.tick_interval_ms(), None);
    session.update(Message::TogglePlay);
    assert_eq!(session.tick_interval_ms(), Some(16));
    assert_eq!(TICK_MS, 16);
    session.update(Message::TogglePlay);
    assert_eq!(session.tick_interval_ms(), None);
}

#[test]
fn line_without_words_never_starts_and_never_ends() {
    let none: Vec<Word> = Vec::new();
    assert_eq!(line_start_ms(&none), u64::MAX);
    assert_eq!(line_end_ms(&none), 0);
    assert_eq!(NEVER_STARTS, u64::MAX);
    assert_eq!(NEVER_ENDS, u64::MIN);
    assert!(!is_current_line(&none, 0));
    assert!(!is_current_line(&none, 1_000));
    assert!(!is_current_line(&none, u64::MAX));
}

#[test]
fn line_runs_from_its_first_start_to_its_last_end() {
    let words = parse_line("[00:01.000]ab[00:02.000]c");
    assert_eq!(line_start_ms(&words), 1_000);
    assert_eq!(line_end_ms(&words), 2_500);
    assert!(!is_current_line(&words, 999));
    assert!(is_current_line(&words, 1_000));
    assert!(is_current_line(&words, 2_500));
    assert!(!is_current_line(&words, 2_501));
}

#[test]
fn words_light_up_as_they_start() {
    let words = parse_line("[00:01.000]ab[00:02.000]c");
    assert_eq!(line_glyphs(&words, 0), vec![dim('a'), dim('b'), dim('c')]);
    assert_eq!(line_glyphs(&words, 1_000), vec![lit('a'), lit('b'), dim('c')]);
    assert_eq!(line_glyphs(&words, 1_999), vec![lit('a'), lit('b'), dim('c')]);
    assert_eq!(line_glyphs(&words, 2_000), vec![lit('a'), lit('b'), lit('c')]);
    assert_eq!(line_glyphs(&words, 2_500), vec![lit('a'), lit('b'), lit('c')]);
    assert_eq!(line_glyphs(&words, 2_501), vec![dim('a'), dim('b'), dim('c')]);
    assert_eq!(line_glyphs(&Vec::new(), 5), vec![]);
}

#[test]
fn frame_shows_each_line_at_the_position() {
    let mut session = Karaoke::new(String::from("[00:01.000]ab\r\n\n[00:02.000]c d\nplain"));
    assert_eq!(
        session.frame(),
        vec![vec![dim('a'), dim('b')], vec![], vec![dim('c'), dim('d')], vec![]]
    );
    session.pos = 1_200;
    assert_eq!(
        session.frame(),
        vec![vec![lit('a'), lit('b')], vec![], vec![dim('c'), dim('d')], vec![]]
    );
    session.pos = 2_100;
    assert_eq!(
        session.frame(),
        vec![vec![dim('a'), dim('b')], vec![], vec![lit('c'), lit('d')], vec![]]
    );
    assert_eq!(Karaoke::new(String::new()).frame(), Vec::<Vec<Glyph>>::new());
}

#[test]
fn clock_shows_hours_minutes_seconds() {
    assert_eq!(clock_parts(0), (0, 0, 0));
    assert_eq!(clock_parts(999), (0, 0, 0));
    assert_eq!(clock_parts(83_456), (0, 1, 23));
    assert_eq!(clock_parts(3_599_999), (0, 59, 59));
    assert_eq!(clock_parts(3_600_000), (1, 0, 0));
    assert_eq!(clock_parts(360_000_000 + 61_000), (100, 1, 1));
    assert_eq!(clock_parts(u64::MAX), (5_124_095_576_030, 25, 51));
}
