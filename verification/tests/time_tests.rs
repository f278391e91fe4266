use chapter_time::time_position::TimePosition;

#[test]
fn from_milliseconds_decomposes() {
    let t = TimePosition::from_milliseconds(3_723_500);
    assert_eq!(t.hours, 1);
    assert_eq!(t.minutes, 2);
    assert_eq!(t.seconds, 3);
    assert_eq!(t.milliseconds, 500);
}

#[test]
fn milliseconds_round_trip_exact() {
    for ms in [
        0u64,
        1,
        999,
        1000,
        59_999,
        60_000,
        3_599_999,
        3_600_000,
        86_400_000,
        123_456_789,
        u64::MAX,
    ] {
        let t = TimePosition::from_milliseconds(ms);
        assert_eq!(t.to_milliseconds(), ms);
    }
}

#[test]
fn display_with_and_without_milliseconds() {
    let t = TimePosition { hours: 1, minutes: 2, seconds: 3, milliseconds: 500 };
    assert_eq!(t.to_display_string(false), "1:02:03");
    assert_eq!(t.to_display_string(true), "1:02:03.500");
}

#[test]
fn display_pads_fields() {
    let t = TimePosition { hours: 0, minutes: 0, seconds: 0, milliseconds: 7 };
    assert_eq!(t.to_display_string(true), "0:00:00.007");
    let t = TimePosition { hours: 12, minutes: 34, seconds: 56, milliseconds: 789 };
    assert_eq!(t.to_display_string(true), "12:34:56.789");
    assert_eq!(t.to_display_string(false), "12:34:56");
}

#[test]
fn display_round_trip_to_millisecond_precision() {
    for t in [
        TimePosition { hours: 0, minutes: 0, seconds: 0, milliseconds: 0 },
        TimePosition { hours: 0, minutes: 0, seconds: 0, milliseconds: 1 },
        TimePosition { hours: 1, minutes: 2, seconds: 3, milliseconds: 500 },
        TimePosition { hours: 99, minutes: 59, seconds: 59, milliseconds: 999 },
    ] {
        let s = t.to_display_string(true);
        assert_eq!(TimePosition::from_display_string(&s), Some(t));
    }
}

#[test]
fn three_digit_hours_format_but_do_not_parse() {
    let t = TimePosition::from_milliseconds(100 * 3_600_000);
    let s = t.to_display_string(true);
    assert_eq!(s, "100:00:00.000");
    assert_eq!(TimePosition::from_display_string(&s), None);
}

#[test]
fn parse_display_strings() {
    assert_eq!(
        TimePosition::from_display_string("1:02:03"),
        Some(TimePosition { hours: 1, minutes: 2, seconds: 3, milliseconds: 0 })
    );
    assert_eq!(
        TimePosition::from_display_string("12:34:56.789"),
        Some(TimePosition { hours: 12, minutes: 34, seconds: 56, milliseconds: 789 })
    );
}

#[test]
fn parse_scales_short_fractions() {
    assert_eq!(
        TimePosition::from_display_string("1:02:03.5"),
        Some(TimePosition { hours: 1, minutes: 2, seconds: 3, milliseconds: 500 })
    );
    assert_eq!(
        TimePosition::from_display_string("1:02:03.55"),
        Some(TimePosition { hours: 1, minutes: 2, seconds: 3, milliseconds: 550 })
    );
}

#[test]
fn parse_checks_digit_counts_not_ranges() {
    assert_eq!(
        TimePosition::from_display_string("0:99:99"),
        Some(TimePosition { hours: 0, minutes: 99, seconds: 99, milliseconds: 0 })
    );
}

#[test]
fn parse_rejects_malformed_strings() {
    assert_eq!(TimePosition::from_display_string(""), None);
    assert_eq!(TimePosition::from_display_string("abc"), None);
    assert_eq!(TimePosition::from_display_string("1:2:03"), None);
    assert_eq!(TimePosition::from_display_string("1:02:3"), None);
    assert_eq!(TimePosition::from_display_string(":02:03"), None);
    assert_eq!(TimePosition::from_display_string("123:02:03"), None);
    assert_eq!(TimePosition::from_display_string("1:02:03."), None);
    assert_eq!(TimePosition::from_display_string("1:02:03.1234"), None);
    assert_eq!(TimePosition::from_display_string("1:02:03x"), None);
    assert_eq!(TimePosition::from_display_string("1:02"), None);
}
