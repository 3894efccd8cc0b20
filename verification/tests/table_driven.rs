use ics_glance::{
    parse_calendar, parse_date_time, parse_property, unescape_value, unfold, DateTimeValue,
    TimeKind,
};

#[test]
fn unfold_handles_awkward_line_endings_and_folding() {
    let cases: &[(&str, &str, &[&str])] = &[
        ("space continuation", "SUMMARY:Team\n meeting\n", &["SUMMARY:Teammeeting"]),
        ("tab continuation", "SUMMARY:Team\n\tmeeting", &["SUMMARY:Teammeeting"]),
        (
            "crlf line endings, no folding",
            "BEGIN:VCALENDAR\r\nEND:VCALENDAR\r\n",
            &["BEGIN:VCALENDAR", "END:VCALENDAR"],
        ),
        ("bare lf, no folding", "UID:abc\nSUMMARY:x", &["UID:abc", "SUMMARY:x"]),
        (
            "fold across three physical lines",
            "DESCRIPTION:one\n two\n three",
            &["DESCRIPTION:onetwothree"],
        ),
    ];

    for (name, input, want) in cases {
        let got = unfold(input);
        assert_eq!(got, *want, "case failed: {}", name);
    }
}

#[test]
fn unescape_value_handles_backslash_sequences() {
    let cases: &[(&str, &str, &str)] = &[
        ("escaped comma", r"a\,b", "a,b"),
        ("escaped semicolon", r"a\;b", "a;b"),
        ("escaped backslash", r"a\\b", "a\\b"),
        ("escaped newline lowercase n", r"a\nb", "a\nb"),
        ("escaped newline uppercase N", r"a\Nb", "a\nb"),
        ("unrecognized escape kept literal", r"a\qb", r"a\qb"),
        ("trailing lone backslash", r"a\", r"a\"),
        ("no escapes at all", "plain text", "plain text"),
    ];

    for (name, input, want) in cases {
        let got = unescape_value(input);
        assert_eq!(got, *want, "case failed: {}", name);
    }
}

#[test]
fn parse_property_splits_name_params_and_value() {
    let cases: &[(&str, &str, &str, &str, &[(&str, &str)])] = &[
        ("plain value, no params", "UID:1234-5678", "UID", "1234-5678", &[]),
        (
            "single param",
            "DTSTART;VALUE=DATE:20260101",
            "DTSTART",
            "20260101",
            &[("VALUE", "DATE")],
        ),
        (
            "quoted param value with a colon is not the value separator",
            r#"ATTACH;FMTTYPE=text/plain;X-URI="http://example.com:8080/x":https://example.com/real"#,
            "ATTACH",
            "https://example.com/real",
            &[("FMTTYPE", "text/plain"), ("X-URI", "http://example.com:8080/x")],
        ),
        (
            "value with an escaped comma is unescaped",
            r"SUMMARY:Coffee\, then lunch",
            "SUMMARY",
            "Coffee, then lunch",
            &[],
        ),
    ];

    for (name, line, want_name, want_value, want_params) in cases {
        let prop = parse_property(line)
            .unwrap_or_else(|| panic!("case failed to parse at all: {}", name));
        assert_eq!(prop.name, *want_name, "case failed (name): {}", name);
        assert_eq!(prop.value, *want_value, "case failed (value): {}", name);
        let want_params: Vec<(String, String)> = want_params
            .iter()
            .map(|(k, v)| (k.to_string(), v.to_string()))
            .collect();
        assert_eq!(prop.params, want_params, "case failed (params): {}", name);
    }
}

#[test]
fn parse_calendar_extracts_events_table_driven() {
    let cases: &[(&str, &str, &[&str])] = &[
        (
            "single event",
            "BEGIN:VCALENDAR\r\nBEGIN:VEVENT\r\nUID:1\r\nSUMMARY:Standup\r\nEND:VEVENT\r\nEND:VCALENDAR\r\n",
            &["Standup"],
        ),
        (
            "two events back to back",
            "BEGIN:VEVENT\nSUMMARY:One\nEND:VEVENT\nBEGIN:VEVENT\nSUMMARY:Two\nEND:VEVENT\n",
            &["One", "Two"],
        ),
        (
            "unterminated event is dropped, not half-emitted",
            "BEGIN:VEVENT\nSUMMARY:Orphan\n",
            &[],
        ),
        ("empty calendar has no events", "BEGIN:VCALENDAR\nEND:VCALENDAR\n", &[]),
        (
            "folded summary inside an event",
            "BEGIN:VEVENT\nSUMMARY:Long\n title\nEND:VEVENT\n",
            &["Longtitle"],
        ),
    ];

    for (name, input, want_summaries) in cases {
        let calendar = parse_calendar(input);
        let got: Vec<&str> = calendar
            .events
            .iter()
            .map(|e| e.summary.as_deref().unwrap_or(""))
            .collect();
        assert_eq!(got, *want_summaries, "case failed: {}", name);
    }
}

#[test]
fn parse_date_time_handles_date_and_datetime_shapes() {
    let cases: &[(&str, &str, Option<&str>)] = &[
        ("explicit VALUE=DATE", "DTSTART;VALUE=DATE:20260101", Some("2026-01-01")),
        ("bare date value with no VALUE param", "DTSTART:20260101", Some("2026-01-01")),
        (
            "floating date-time, no Z and no TZID",
            "DTSTART:20260112T090000",
            Some("2026-01-12 09:00:00"),
        ),
        ("utc date-time", "DTSTART:20260112T090000Z", Some("2026-01-12 09:00:00 UTC")),
        (
            "date-time with TZID",
            "DTSTART;TZID=America/New_York:20260112T090000",
            Some("2026-01-12 09:00:00 America/New_York"),
        ),
        ("malformed date is rejected", "DTSTART;VALUE=DATE:2026-01-01", None),
        ("hour out of range is rejected", "DTSTART:20260112T250000", None),
    ];

    for (name, line, want) in cases {
        let prop = parse_property(line)
            .unwrap_or_else(|| panic!("property failed to parse at all: {}", name));
        let got = parse_date_time(&prop).map(|v| v.to_string());
        assert_eq!(got.as_deref(), *want, "case failed: {}", name);
    }
}

#[test]
fn parse_date_time_reports_timezone_kind() {
    let floating = parse_property("DTSTART:20260112T090000").unwrap();
    match parse_date_time(&floating) {
        Some(DateTimeValue::DateTime { kind, .. }) => assert_eq!(kind, TimeKind::Floating),
        other => panic!("expected floating date-time, got {other:?}"),
    }

    let utc = parse_property("DTSTART:20260112T090000Z").unwrap();
    match parse_date_time(&utc) {
        Some(DateTimeValue::DateTime { kind, .. }) => assert_eq!(kind, TimeKind::Utc),
        other => panic!("expected utc date-time, got {other:?}"),
    }

    let zoned = parse_property("DTSTART;TZID=America/Chicago:20260112T090000").unwrap();
    match parse_date_time(&zoned) {
        Some(DateTimeValue::DateTime { kind, .. }) => {
            assert_eq!(kind, TimeKind::Zone("America/Chicago".to_string()))
        }
        other => panic!("expected zoned date-time, got {other:?}"),
    }
}
