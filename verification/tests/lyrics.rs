use karaoke::lyrics::{
    parse_line, parse_line_with, parse_lines, words_from_captures, ParseError, Word,
    MARKER_PATTERN, TRAILING_MS,
};

fn word(start: u64, end: u64, ch: char) -> Word {
    Word { start, end, ch }
}

fn groups(spans: &[(usize, usize)]) -> Vec<Option<(usize, usize)>> {
    spans.iter().map(|span| Some(*span)).collect()
}

#[test]
fn two_markers_give_ten_units() {
    let words = parse_line("[01:23.456]Hello[01:24.000]World");
    let expected = vec![
        word(83456, 83456, 'H'),
        word(83456, 83456, 'e'),
        word(83456, 83456, 'l'),
        word(83456, 83456, 'l'),
        word(83456, 84000, 'o'),
        word(84000, 84000, 'W'),
        word(84000, 84000, 'o'),
        word(84000, 84000, 'r'),
        word(84000, 84000, 'l'),
        word(84000, 84500, 'd'),
    ];
    assert_eq!(words, expected);
}

#[test]
fn one_marker_one_character() {
    assert_eq!(parse_line("[00:00.000]A"), vec![word(0, 500, 'A')]);
}

#[test]
fn no_marker_no_units() {
    assert_eq!(parse_line("just some text"), vec![]);
    assert_eq!(parse_line(""), vec![]);
    assert_eq!(parse_line("[0:00.000]short minutes"), vec![]);
    assert_eq!(parse_line("[00:00.00]short millis"), vec![]);
}

#[test]
fn marker_followed_by_spaces_only() {
    assert_eq!(parse_line("[00:00.000]   "), vec![]);
}

#[test]
fn marker_without_text_gives_nothing_for_it() {
    assert_eq!(parse_line("[00:01.000][00:02.000]x"), vec![word(2000, 2500, 'x')]);
    assert_eq!(parse_line("[00:01.000]"), vec![]);
}

#[test]
fn text_before_the_first_marker_is_dropped() {
    assert_eq!(parse_line("intro[00:01.000]a"), vec![word(1000, 1500, 'a')]);
}

#[test]
fn characters_of_one_token_share_start_and_end() {
    let words = parse_line("[00:10.000]JJ[00:11.500]Lin");
    let expected = vec![
        word(10000, 10000, 'J'),
        word(10000, 11500, 'J'),
        word(11500, 11500, 'L'),
        word(11500, 11500, 'i'),
        word(11500, 12000, 'n'),
    ];
    assert_eq!(words, expected);
}

#[test]
fn white_space_inside_a_span_is_dropped() {
    let words = parse_line("[00:01.000] a\tb\u{3000}c \u{a0}[00:02.000] d ");
    let expected = vec![
        word(1000, 1000, 'a'),
        word(1000, 1000, 'b'),
        word(1000, 2000, 'c'),
        word(2000, 2500, 'd'),
    ];
    assert_eq!(words, expected);
}

#[test]
fn characters_are_scalar_values_not_bytes() {
    let words = parse_line("[00:01.000]逐字[00:02.250]歌é");
    let expected = vec![
        word(1000, 1000, '逐'),
        word(1000, 2250, '字'),
        word(2250, 2250, '歌'),
        word(2250, 2750, 'é'),
    ];
    assert_eq!(words, expected);
}

#[test]
fn a_modified_emoji_is_split_into_its_scalars() {
    let words = parse_line("[00:00.001]\u{1F44D}\u{1F3FD}");
    assert_eq!(words, vec![word(1, 1, '\u{1F44D}'), word(1, 501, '\u{1F3FD}')]);
}

#[test]
fn out_of_range_minutes_and_seconds_are_taken_as_they_are() {
    assert_eq!(parse_line("[99:99.999]z"), vec![word(6_039_999, 6_040_499, 'z')]);
}

#[test]
fn later_marker_may_name_an_earlier_moment() {
    let words = parse_line("[00:05.000]a[00:01.000]b");
    assert_eq!(words, vec![word(5000, 1000, 'a'), word(1000, 1500, 'b')]);
}

#[test]
fn digits_of_another_script_make_the_line_unreadable() {
    assert_eq!(parse_line("[٠٠:٠٠.٠٠٠]x"), vec![]);
    assert_eq!(parse_line("[00:01.000]a[٠٠:٠٢.٠٠٠]b"), vec![]);
}

#[test]
fn units_chain_and_the_last_one_trails() {
    let lines = [
        "[00:01.000]ab[00:02.000]c d[00:07.125]e",
        "[01:23.456]Hello[01:24.000]World",
        "[00:00.000]A",
        "[10:00.000]漢 字[10:00.500] か な",
    ];
    for line in lines {
        let words = parse_line(line);
        assert!(!words.is_empty());
        for pair in words.windows(2) {
            assert_eq!(pair[0].end, pair[1].start);
        }
        let last = words[words.len() - 1];
        assert_eq!(last.end, last.start + 500);
        assert_eq!(TRAILING_MS, 500);
    }
}

#[test]
fn no_unit_holds_white_space() {
    let text = "[00:01.000] a b \t c\u{2003}d\n[00:02.000]\u{3000}e\u{a0}f \r\n[00:03.000] g";
    let words = parse_lines(text);
    assert_eq!(words.len(), 7);
    for w in words {
        assert!(!w.ch.is_whitespace());
    }
}

#[test]
fn lines_are_read_one_by_one_and_joined() {
    let words = parse_lines("[00:01.000]ab\n\nno marker here\r\n[00:02.000]c\n");
    let expected = vec![
        word(1000, 1000, 'a'),
        word(1000, 1500, 'b'),
        word(2000, 2500, 'c'),
    ];
    assert_eq!(words, expected);
}

#[test]
fn a_marker_does_not_reach_over_a_line_break() {
    let words = parse_lines("[00:01.000]a\nb[00:02.000]c");
    assert_eq!(words, vec![word(1000, 1500, 'a'), word(2000, 2500, 'c')]);
    assert_eq!(parse_lines("[00:01\n.000]a"), vec![]);
}

#[test]
fn an_unreadable_line_is_skipped_and_the_rest_is_read() {
    let words = parse_lines("[00:01.000]a\n[٠٠:٠٠.٠٠٠]x\n[00:03.000]b");
    assert_eq!(words, vec![word(1000, 1500, 'a'), word(3000, 3500, 'b')]);
}

#[test]
fn empty_text_has_no_units() {
    assert_eq!(parse_lines(""), vec![]);
    assert_eq!(parse_lines("\n\n"), vec![]);
}

#[test]
fn parse_lines_is_parse_line_on_each_line() {
    let text = "[00:01.000]ab cd\r\nplain\n[00:02.000]\n[00:03.500]e[00:04.000]f";
    let mut expected = Vec::new();
    for line in text.lines() {
        expected.extend(parse_line(line));
    }
    assert_eq!(parse_lines(text), expected);
}

#[test]
fn the_pattern_is_the_marker_pattern() {
    assert_eq!(MARKER_PATTERN, r"\[(\d{2}):(\d{2})\.(\d{3})\]");
}

#[test]
fn captures_of_one_marker() {
    let found = Some(vec![groups(&[(0, 11), (1, 3), (4, 6), (7, 10)])]);
    assert_eq!(words_from_captures("[01:02.003]A", &found), Ok(vec![word(62003, 62503, 'A')]));
}

#[test]
fn captures_with_other_digit_widths() {
    let found = Some(vec![groups(&[(0, 10), (1, 2), (3, 4), (5, 9)])]);
    assert_eq!(words_from_captures("[1:2.0034]A", &found), Ok(vec![word(62034, 62534, 'A')]));
}

#[test]
fn no_captures_no_words() {
    assert_eq!(words_from_captures("[00:00.000]A", &Some(vec![])), Ok(vec![]));
}

#[test]
fn refused_pattern_is_an_error() {
    assert_eq!(words_from_captures("[00:00.000]A", &None), Err(ParseError::InvalidPattern));
}

#[test]
fn wrong_number_of_groups_is_an_error() {
    let found = Some(vec![groups(&[(0, 11), (1, 3), (4, 6)])]);
    assert_eq!(words_from_captures("[01:02.003]A", &found), Err(ParseError::InvalidTimestamp));
    let found = Some(vec![groups(&[(0, 11), (1, 3), (4, 6), (7, 10), (7, 10)])]);
    assert_eq!(words_from_captures("[01:02.003]A", &found), Err(ParseError::InvalidTimestamp));
}

#[test]
fn missing_group_is_an_error() {
    let found = Some(vec![vec![Some((0, 11)), Some((1, 3)), None, Some((7, 10))]]);
    assert_eq!(words_from_captures("[01:02.003]A", &found), Err(ParseError::InvalidTimestamp));
    let found = Some(vec![vec![None, Some((1, 3)), Some((4, 6)), Some((7, 10))]]);
    assert_eq!(words_from_captures("[01:02.003]A", &found), Err(ParseError::InvalidTimestamp));
}

#[test]
fn group_that_is_not_a_number_is_an_error() {
    let found = Some(vec![groups(&[(0, 11), (0, 3), (4, 6), (7, 10)])]);
    assert_eq!(words_from_captures("[01:02.003]A", &found), Err(ParseError::InvalidTimestamp));
    let found = Some(vec![groups(&[(0, 11), (1, 1), (4, 6), (7, 10)])]);
    assert_eq!(words_from_captures("[01:02.003]A", &found), Err(ParseError::InvalidTimestamp));
}

#[test]
fn group_outside_the_line_is_an_error() {
    let found = Some(vec![groups(&[(0, 11), (1, 3), (4, 6), (7, 13)])]);
    assert_eq!(words_from_captures("[01:02.003]A", &found), Err(ParseError::InvalidTimestamp));
    let found = Some(vec![groups(&[(0, 11), (3, 1), (4, 6), (7, 10)])]);
    assert_eq!(words_from_captures("[01:02.003]A", &found), Err(ParseError::InvalidTimestamp));
    let found = Some(vec![groups(&[(0, 14), (1, 3), (4, 6), (7, 10)])]);
    assert_eq!(words_from_captures("[01:02.003]A", &found), Err(ParseError::InvalidTimestamp));
}

#[test]
fn match_that_cuts_a_character_is_an_error() {
    let found = Some(vec![groups(&[(0, 12), (1, 3), (4, 6), (7, 10)])]);
    assert_eq!(words_from_captures("[01:02.003]é", &found), Err(ParseError::InvalidTimestamp));
    let found = Some(vec![groups(&[(0, 13), (1, 3), (4, 6), (7, 10)])]);
    assert_eq!(words_from_captures("[01:02.003]é", &found), Ok(vec![]));
}

#[test]
fn overlapping_matches_are_an_error() {
    let line = "[00:01.000][00:02.000]x";
    let first = groups(&[(0, 11), (1, 3), (4, 6), (7, 10)]);
    let second = groups(&[(11, 22), (12, 14), (15, 17), (18, 21)]);
    let found = Some(vec![first.clone(), second.clone()]);
    assert_eq!(words_from_captures(line, &found), Ok(vec![word(2000, 2500, 'x')]));
    let found = Some(vec![second, first]);
    assert_eq!(words_from_captures(line, &found), Err(ParseError::InvalidTimestamp));
}

#[test]
fn moment_out_of_range_is_an_error() {
    let line = "[307445734561825:51.115]A";
    let found = Some(vec![groups(&[(0, 24), (1, 16), (17, 19), (20, 23)])]);
    assert_eq!(
        words_from_captures(line, &found),
        Ok(vec![word(u64::MAX - 500, u64::MAX, 'A')])
    );
    let line = "[307445734561825:51.116]A";
    assert_eq!(words_from_captures(line, &found), Err(ParseError::InvalidTimestamp));
    let line = "[99999999999999999999:00.000]A";
    let found = Some(vec![groups(&[(0, 29), (1, 21), (22, 24), (25, 28)])]);
    assert_eq!(words_from_captures(line, &found), Err(ParseError::InvalidTimestamp));
}

#[test]
fn pattern_that_the_engine_refuses() {
    assert_eq!(parse_line_with(r"\[(\d{2}", "[00:01.000]a"), Err(ParseError::InvalidPattern));
    assert_eq!(parse_line_with(r"(?P<x>a)(?P<x>b)", ""), Err(ParseError::InvalidPattern));
}

#[test]
fn pattern_with_other_digit_widths() {
    let pattern = r"\[(\d+):(\d+)\.(\d+)\]";
    assert_eq!(
        parse_line_with(pattern, "[1:02.5]a[100:00.0000]b"),
        Ok(vec![word(62_005, 6_000_000, 'a'), word(6_000_000, 6_000_500, 'b')])
    );
}

#[test]
fn pattern_without_three_groups_gives_no_timestamp() {
    assert_eq!(
        parse_line_with(r"\[(\d{2}):(\d{2})\]", "[00:01]a"),
        Err(ParseError::InvalidTimestamp)
    );
    assert_eq!(parse_line_with(r"\[(\d{2}):(\d{2})\]", "no marker"), Ok(vec![]));
    assert_eq!(
        parse_line_with(r"\[(\d{2}):(\d{2})(\.\d{3})?()\]", "[00:01]a"),
        Err(ParseError::InvalidTimestamp)
    );
}

#[test]
fn marker_pattern_through_the_general_reader() {
    assert_eq!(
        parse_line_with(MARKER_PATTERN, "[01:23.456]Hi"),
        Ok(vec![word(83456, 83456, 'H'), word(83456, 83956, 'i')])
    );
    assert_eq!(
        parse_line_with(MARKER_PATTERN, "[٠٠:٠٠.٠٠٠]x"),
        Err(ParseError::InvalidTimestamp)
    );
    assert_eq!(parse_line_with(MARKER_PATTERN, "[00:00.000]   "), Ok(vec![]));
}

#[test]
fn a_carriage_return_alone_ends_a_line() {
    assert_eq!(
        parse_lines("[00:00.000]A\r[00:01.000]B"),
        vec![word(0, 500, 'A'), word(1000, 1500, 'B')]
    );
    assert_eq!(
        parse_lines("[00:00.000]A\n[00:01.000]B"),
        vec![word(0, 500, 'A'), word(1000, 1500, 'B')]
    );
    assert_eq!(
        parse_lines("[00:00.000]A\r\n[00:01.000]B"),
        vec![word(0, 500, 'A'), word(1000, 1500, 'B')]
    );
    assert_eq!(
        parse_line("[00:00.000]A\r[00:01.000]B"),
        vec![word(0, 1000, 'A'), word(1000, 1500, 'B')]
    );
}
