use chapter_time::chapters::Chapter;
use chapter_time::free_text::parse_free_text;

fn chapter(time: &str, title: &str) -> Chapter {
    Chapter { time: time.to_string(), title: title.to_string() }
}

#[test]
fn single_line_with_three_tokens() {
    let got = parse_free_text("0:00 Intro - 1:30 Verse - 3:00 Chorus");
    assert_eq!(
        got,
        vec![
            chapter("0:00:00.000", "Intro"),
            chapter("0:01:30.000", "Verse"),
            chapter("0:03:00.000", "Chorus"),
        ]
    );
}

#[test]
fn multi_line_drops_lines_without_tokens_and_blanks() {
    let got = parse_free_text("Intro\n0:00 Start\n\n1:30 Verse");
    assert_eq!(got, vec![chapter("0:00:00.000", "Start"), chapter("0:01:30.000", "Verse")]);
}

#[test]
fn single_token_line_yields_nothing() {
    assert_eq!(parse_free_text("0:05"), Vec::new());
    assert_eq!(parse_free_text("0:05 A lone timestamp with text"), Vec::new());
}

#[test]
fn empty_and_unrecognized_text_yield_nothing() {
    assert_eq!(parse_free_text(""), Vec::new());
    assert_eq!(parse_free_text("no times here\nnone here either"), Vec::new());
}

#[test]
fn single_line_with_two_tokens() {
    let got = parse_free_text("0:00 One 2:30 Two");
    assert_eq!(got, vec![chapter("0:00:00.000", "One"), chapter("0:02:30.000", "Two")]);
}

#[test]
fn multi_line_uses_first_token_only() {
    let got = parse_free_text("0:00 Start 9:59 extra\n1:30 Verse");
    assert_eq!(
        got,
        vec![chapter("0:00:00.000", "Start 9:59 extra"), chapter("0:01:30.000", "Verse")]
    );
}

#[test]
fn multi_line_strips_dashes_and_whitespace_around_titles() {
    let got = parse_free_text("  0:00 - Intro  \n1:30 -- Verse\n3:00   Chorus");
    assert_eq!(
        got,
        vec![
            chapter("0:00:00.000", "Intro"),
            chapter("0:01:30.000", "Verse"),
            chapter("0:03:00.000", "Chorus"),
        ]
    );
}

#[test]
fn multi_line_drops_empty_titles() {
    let got = parse_free_text("0:00\n1:30 -\n3:00 Kept");
    assert_eq!(got, vec![chapter("0:03:00.000", "Kept")]);
}

#[test]
fn token_shapes_are_normalized() {
    let got = parse_free_text("1:02:03.450 Full\n1:30.500 Fraction\n2:03:04 Plain\n7:08 Short");
    assert_eq!(
        got,
        vec![
            chapter("1:02:03.450", "Full"),
            chapter("0:01:30.500", "Fraction"),
            chapter("2:03:04.000", "Plain"),
            chapter("0:07:08.000", "Short"),
        ]
    );
}

#[test]
fn two_digit_runs_win_over_one() {
    let got = parse_free_text("12:34 Both digits\n123:45 Overlong run");
    assert_eq!(
        got,
        vec![chapter("0:12:34.000", "Both digits"), chapter("0:23:45.000", "Overlong run")]
    );
}

#[test]
fn fraction_needs_exactly_three_digits_to_join_token() {
    let got = parse_free_text("1:23.5 Loose fraction\n4:56 Anchor");
    assert_eq!(
        got,
        vec![chapter("0:01:23.000", ".5 Loose fraction"), chapter("0:04:56.000", "Anchor")]
    );
}

#[test]
fn multi_line_keeps_trailing_dashes() {
    let got = parse_free_text("0:00 A -\n1:30 Verse - ");
    assert_eq!(got, vec![chapter("0:00:00.000", "A -"), chapter("0:01:30.000", "Verse -")]);
}

#[test]
fn single_line_strips_separators_on_both_sides() {
    let got = parse_free_text("0:00 A - 1:30 B");
    assert_eq!(got, vec![chapter("0:00:00.000", "A"), chapter("0:01:30.000", "B")]);
}

#[test]
fn unicode_whitespace_is_trimmed_from_titles() {
    let got = parse_free_text("0:00\u{3000}Start\u{3000}\n\u{a0}\u{3000}\n1:30 Verse");
    assert_eq!(got, vec![chapter("0:00:00.000", "Start"), chapter("0:01:30.000", "Verse")]);
}

#[test]
fn crlf_lines_are_trimmed() {
    let got = parse_free_text("0:00 Start\r\n1:30 Verse\r\n");
    assert_eq!(got, vec![chapter("0:00:00.000", "Start"), chapter("0:01:30.000", "Verse")]);
}
