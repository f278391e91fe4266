use chapter_time::chapters::{deserialize_lines, normalize_time, serialize_lines, Chapter};
use chapter_time::text::parse_digits_or_zero;

fn chapter(time: &str, title: &str) -> Chapter {
    Chapter { time: time.to_string(), title: title.to_string() }
}

#[test]
fn normalize_two_and_three_components() {
    assert_eq!(normalize_time("1:30"), "0:01:30.000");
    assert_eq!(normalize_time("1:02:03.5"), "1:02:03.500");
}

#[test]
fn normalize_pads_and_truncates_fraction() {
    assert_eq!(normalize_time("1:02:03.12345"), "1:02:03.123");
    assert_eq!(normalize_time("0:00."), "0:00:00.000");
    assert_eq!(normalize_time("2:03:04"), "2:03:04.000");
}

#[test]
fn normalize_returns_other_shapes_unchanged() {
    assert_eq!(normalize_time("1:2:3:4"), "1:2:3:4");
    assert_eq!(normalize_time("90"), "90");
    assert_eq!(normalize_time(""), "");
}

#[test]
fn normalize_defaults_unparsable_components_to_zero() {
    assert_eq!(normalize_time("aa:bb"), "0:00:00.000");
    assert_eq!(normalize_time("1:xx:30"), "1:00:30.000");
    assert_eq!(normalize_time("99999999999:30"), "0:00:30.000");
}

#[test]
fn parse_digits_defaults() {
    assert_eq!(parse_digits_or_zero("042"), 42);
    assert_eq!(parse_digits_or_zero("2147483647"), 2147483647);
    assert_eq!(parse_digits_or_zero("2147483648"), 0);
    assert_eq!(parse_digits_or_zero(""), 0);
    assert_eq!(parse_digits_or_zero("+5"), 0);
    assert_eq!(parse_digits_or_zero("1a"), 0);
}

#[test]
fn serialize_joins_lines_without_trailing_newline() {
    let list = vec![chapter("0:00:00.000", "Intro"), chapter("0:01:30.000", "Main part")];
    assert_eq!(serialize_lines(&list), "0:00:00.000 Intro\n0:01:30.000 Main part");
    let one = vec![chapter("0:00:00.000", "Only")];
    assert_eq!(serialize_lines(&one), "0:00:00.000 Only");
    assert_eq!(serialize_lines(&Vec::new()), "");
}

#[test]
fn deserialize_splits_at_first_space() {
    let got = deserialize_lines("0:00:00.000 Intro\n0:01:30.000 Main part");
    assert_eq!(got, vec![chapter("0:00:00.000", "Intro"), chapter("0:01:30.000", "Main part")]);
}

#[test]
fn deserialize_drops_blank_lines() {
    let got = deserialize_lines("0:00:00.000 A\n\n   \n\t\n0:01:00.000 B\n");
    assert_eq!(got, vec![chapter("0:00:00.000", "A"), chapter("0:01:00.000", "B")]);
}

#[test]
fn deserialize_line_without_space_has_empty_title() {
    let got = deserialize_lines("0:00:00.000");
    assert_eq!(got, vec![chapter("0:00:00.000", "")]);
}

#[test]
fn deserialize_strips_one_trailing_carriage_return() {
    let got = deserialize_lines("0:00:00.000 A\r\n0:01:00.000 B\r\n");
    assert_eq!(got, vec![chapter("0:00:00.000", "A"), chapter("0:01:00.000", "B")]);
}

#[test]
fn deserialize_drops_unicode_whitespace_lines() {
    let got = deserialize_lines("\u{3000}\u{a0} \n0:00:00.000 A");
    assert_eq!(got, vec![chapter("0:00:00.000", "A")]);
}

#[test]
fn lines_round_trip() {
    let list = vec![
        chapter("0:00:00.000", "Intro"),
        chapter("0:01:30.000", "A title with spaces"),
        chapter("0:01:30.000", "Duplicate time passes through"),
        chapter("1:02:03.500", ""),
    ];
    assert_eq!(deserialize_lines(&serialize_lines(&list)), list);
}
