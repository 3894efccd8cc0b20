use ics_glance::{
    parse_calendar, parse_date_time, parse_property, split_lines, unescape_value, unfold,
    Calendar, Date, DateTimeValue, Event, Time, TimeKind,
};

fn date_time_text(line: &str) -> Option<String> {
    let prop = parse_property(line).expect("line should parse as a property");
    parse_date_time(&prop).map(|v| v.to_string())
}

fn summaries(text: &str) -> Vec<Option<String>> {
    parse_calendar(text).events.into_iter().map(|e| e.summary).collect()
}

#[test]
fn split_lines_accepts_every_terminator() {
    assert_eq!(split_lines("a\r\nb\rc\nd"), vec!["a", "b", "c", "d"]);
    assert_eq!(split_lines("a\r\rb"), vec!["a", "", "b"]);
    assert_eq!(split_lines("a\n\nb\n"), vec!["a", "", "b"]);
    assert_eq!(split_lines("\r\n\r\n"), vec!["", ""]);
    assert_eq!(split_lines("\n"), vec![""]);
    assert_eq!(split_lines(""), Vec::<String>::new());
    assert_eq!(split_lines("no terminator"), vec!["no terminator"]);
}

#[test]
fn split_lines_of_joined_lines_gives_them_back() {
    let lines = ["BEGIN:VEVENT", "", "SUMMARY:x", "END:VEVENT"];
    for t in ["\r\n", "\n", "\r"] {
        let mut text = String::new();
        for l in lines {
            text.push_str(l);
            text.push_str(t);
        }
        assert_eq!(split_lines(&text), lines.to_vec(), "terminator {:?}", t);
    }
}

#[test]
fn unfold_reverses_folding_with_any_terminator() {
    for t in ["\r\n", "\n", "\r"] {
        let text = format!("DESCRIPTION:ab{t} cd{t}\tef{t}UID:1{t}SUMMARY:{t}  x{t}");
        assert_eq!(
            unfold(&text),
            vec!["DESCRIPTION:abcdef", "UID:1", "SUMMARY: x"],
            "terminator {:?}",
            t
        );
    }
}

#[test]
fn unfold_edge_cases() {
    assert_eq!(unfold(""), Vec::<String>::new());
    assert_eq!(unfold(" lead\nnext"), vec![" lead", "next"]);
    assert_eq!(unfold("a\n\n  y"), vec!["a", " y"]);
    assert_eq!(unfold("a\n \n b"), vec!["ab"]);
    for line in unfold("A\r\n B\rC\n\tD") {
        assert!(!line.contains('\r') && !line.contains('\n'));
    }
}

#[test]
fn unescape_gives_back_escaped_values() {
    let value = "a,b;c\\d\ne";
    let escaped = r"a\,b\;c\\d\ne";
    assert_eq!(unescape_value(escaped), value);
    assert_eq!(unescape_value(r"é\,ü"), "é,ü");
    assert_eq!(unescape_value(r"\\\"), "\\\\");
    assert_eq!(unescape_value("\\"), "\\");
    assert_eq!(unescape_value(""), "");
    assert_eq!(unescape_value(r"\t\x"), r"\t\x");
    let plain = "no backslash: here; or, there";
    assert_eq!(unescape_value(plain), plain);
    for s in [r"\,\,\,", r"\\", r"a\", r"\n\N"] {
        assert!(unescape_value(s).chars().count() <= s.chars().count());
    }
}

#[test]
fn parse_property_rejects_lines_without_name_or_value_colon() {
    assert!(parse_property("NOCOLON").is_none());
    assert!(parse_property(":value").is_none());
    assert!(parse_property("").is_none());
    assert!(parse_property(r#"A;B="x:y""#).is_none());
    assert!(parse_property(r#"A;B=":v"#).is_none());
    assert!(parse_property(";B=1:v").is_none());
}

#[test]
fn parse_property_segment_rules() {
    let p = parse_property(r#"A;B="x:y":v"#).unwrap();
    assert_eq!(p.name, "A");
    assert_eq!(p.params, vec![("B".to_string(), "x:y".to_string())]);
    assert_eq!(p.value, "v");

    let p = parse_property("X;FOO;A=b;C:v").unwrap();
    assert_eq!(p.params, vec![("A".to_string(), "b".to_string())]);

    let p = parse_property(r#"A;B="":v"#).unwrap();
    assert_eq!(p.params, vec![("B".to_string(), String::new())]);

    let p = parse_property(r#"A;B=x"y":v"#).unwrap();
    assert_eq!(p.params, vec![("B".to_string(), "x\"y\"".to_string())]);

    let p = parse_property("A;B=c=d:v").unwrap();
    assert_eq!(p.params, vec![("B".to_string(), "c=d".to_string())]);

    let p = parse_property("A;;B=1:v").unwrap();
    assert_eq!(p.params, vec![("B".to_string(), "1".to_string())]);

    let p = parse_property(r#"A;B="x;y":v"#).unwrap();
    assert_eq!(p.params, vec![("B".to_string(), "x;y".to_string())]);

    let p = parse_property(r#"X;P="a;b":v"#).unwrap();
    assert_eq!(p.name, "X");
    assert_eq!(p.params, vec![("P".to_string(), "a;b".to_string())]);
    assert_eq!(p.value, "v");

    let p = parse_property(r#"X;P="a;b:c";Q="d";R=e:v"#).unwrap();
    assert_eq!(
        p.params,
        vec![
            ("P".to_string(), "a;b:c".to_string()),
            ("Q".to_string(), "d".to_string()),
            ("R".to_string(), "e".to_string()),
        ]
    );

    let p = parse_property(r#"A"x;y"B;C=1:v"#).unwrap();
    assert_eq!(p.name, "A\"x");
    assert_eq!(p.params, vec![("C".to_string(), "1".to_string())]);

    let p = parse_property(r#"A"x;Q=1"B;C=1:v"#).unwrap();
    assert_eq!(p.name, "A\"x");
    assert_eq!(
        p.params,
        vec![("Q".to_string(), "1\"B".to_string()), ("C".to_string(), "1".to_string())]
    );

    let p = parse_property(r#"A;P="a;b"c;Q=1:v"#).unwrap();
    assert_eq!(
        p.params,
        vec![("P".to_string(), "\"a;b\"c".to_string()), ("Q".to_string(), "1".to_string())]
    );

    let p = parse_property(r#"A;P=x"y;Q=z":v"#).unwrap();
    assert_eq!(
        p.params,
        vec![("P".to_string(), "x\"y".to_string()), ("Q".to_string(), "z\"".to_string())]
    );

    let p = parse_property("A:b:c").unwrap();
    assert_eq!(p.value, "b:c");

    let p = parse_property(r"A:x\ny").unwrap();
    assert_eq!(p.value, "x\ny");
}

#[test]
fn parse_property_reads_back_written_lines() {
    let line = r#"ATTACH;FMTTYPE="text/plain";X-URI="http://e.com:80/x":a\,b\;c\\d\ne"#;
    let p = parse_property(line).unwrap();
    assert_eq!(p.name, "ATTACH");
    assert_eq!(
        p.params,
        vec![
            ("FMTTYPE".to_string(), "text/plain".to_string()),
            ("X-URI".to_string(), "http://e.com:80/x".to_string()),
        ]
    );
    assert_eq!(p.value, "a,b;c\\d\ne");
    let q = p.clone();
    assert_eq!(p, q);
}

#[test]
fn parse_date_time_value_and_zone_rules() {
    assert_eq!(date_time_text("DTSTART;value=date:20260101").as_deref(), Some("2026-01-01"));
    assert_eq!(date_time_text("DTSTART;VALUE=DATE:20260101T090000"), None);
    assert_eq!(
        date_time_text("DTSTART;VALUE=DATE-TIME:20260112T090000").as_deref(),
        Some("2026-01-12 09:00:00")
    );
    assert_eq!(
        date_time_text("DTSTART;tzid=Europe/Paris:20260112T090000").as_deref(),
        Some("2026-01-12 09:00:00 Europe/Paris")
    );
    assert_eq!(
        date_time_text("DTSTART;TZID=Europe/Paris:20260112T090000Z").as_deref(),
        Some("2026-01-12 09:00:00 UTC")
    );
    assert_eq!(
        date_time_text("DTSTART;TZID=A;TZID=B:20260112T090000").as_deref(),
        Some("2026-01-12 09:00:00 A")
    );
}

#[test]
fn parse_date_time_range_rules() {
    assert_eq!(date_time_text("DTSTART:20260112T"), None);
    assert_eq!(date_time_text("DTSTART:20260112TZ"), None);
    assert_eq!(date_time_text("DTSTART:20260112T0900"), None);
    assert_eq!(date_time_text("DTSTART:2026011T090000"), None);
    assert_eq!(date_time_text("DTSTART:20260112T235960").as_deref(), Some("2026-01-12 23:59:60"));
    assert_eq!(date_time_text("DTSTART:20260112T235961"), None);
    assert_eq!(date_time_text("DTSTART:20260112T236000"), None);
    assert_eq!(date_time_text("DTSTART:20260112T240000"), None);
    assert_eq!(date_time_text("DTSTART:20261301"), None);
    assert_eq!(date_time_text("DTSTART:20260001"), None);
    assert_eq!(date_time_text("DTSTART:20260100"), None);
    assert_eq!(date_time_text("DTSTART:20260132"), None);
    assert_eq!(date_time_text("DTSTART:20260231"), None);
    assert_eq!(date_time_text("DTSTART:20260228").as_deref(), Some("2026-02-28"));
    assert_eq!(date_time_text("DTSTART:20260229"), None);
    assert_eq!(date_time_text("DTSTART:20240229").as_deref(), Some("2024-02-29"));
    assert_eq!(date_time_text("DTSTART:20000229").as_deref(), Some("2000-02-29"));
    assert_eq!(date_time_text("DTSTART:19000229"), None);
    assert_eq!(date_time_text("DTSTART:20260430").as_deref(), Some("2026-04-30"));
    assert_eq!(date_time_text("DTSTART:20260431"), None);
    assert_eq!(date_time_text("DTSTART:20261131"), None);
    assert_eq!(date_time_text("DTSTART:20261231").as_deref(), Some("2026-12-31"));
    assert_eq!(date_time_text("DTSTART:00000101").as_deref(), Some("0000-01-01"));
    assert_eq!(date_time_text("DTSTART:99991231").as_deref(), Some("9999-12-31"));
}

#[test]
fn date_and_time_parse_directly() {
    assert_eq!(Date::parse("20260101"), Some(Date { year: 2026, month: 1, day: 1 }));
    assert_eq!(Date::parse("２０２６０１０１"), None);
    assert_eq!(Date::parse("2026-1-1"), None);
    assert_eq!(Time::parse("120000"), Some(Time { hour: 12, minute: 0, second: 0 }));
    assert_eq!(Time::parse("12000"), None);
    assert_eq!(Time::parse("12a000"), None);
}

#[test]
fn written_date_times_read_back() {
    for (d, t) in [
        (Date { year: 1999, month: 12, day: 31 }, Time { hour: 23, minute: 59, second: 60 }),
        (Date { year: 7, month: 2, day: 3 }, Time { hour: 0, minute: 0, second: 0 }),
    ] {
        let value = format!("{:04}{:02}{:02}T{:02}{:02}{:02}", d.year, d.month, d.day, t.hour, t.minute, t.second);
        let prop = parse_property(&format!("DTSTART:{value}Z")).unwrap();
        assert_eq!(
            parse_date_time(&prop),
            Some(DateTimeValue::DateTime { date: d, time: t, kind: TimeKind::Utc })
        );
        let prop = parse_property(&format!("DTSTART;TZID=Here:{value}")).unwrap();
        assert_eq!(
            parse_date_time(&prop),
            Some(DateTimeValue::DateTime { date: d, time: t, kind: TimeKind::Zone("Here".to_string()) })
        );
    }
}

#[test]
fn text_forms_match_zero_padded_formatting() {
    assert_eq!(Date { year: 5, month: 3, day: 7 }.to_string(), "0005-03-07");
    assert_eq!(Date { year: -5, month: 1, day: 1 }.to_string(), "-005-01-01");
    assert_eq!(Date { year: 12345, month: 10, day: 20 }.to_string(), "12345-10-20");
    assert_eq!(Time { hour: 1, minute: 2, second: 3 }.to_string(), "01:02:03");
    assert_eq!(Time { hour: 100, minute: 0, second: 9 }.to_string(), "100:00:09");
    for year in [i32::MIN, -1000, -1, 0, 9, 99, 999, 1000, i32::MAX] {
        for (m, d) in [(0u32, 0u32), (1, 9), (10, 31), (u32::MAX, 100)] {
            let date = Date { year, month: m, day: d };
            assert_eq!(date.to_string(), format!("{:04}-{:02}-{:02}", year, m, d));
            let time = Time { hour: m, minute: d, second: 7 };
            assert_eq!(time.to_string(), format!("{:02}:{:02}:{:02}", m, d, 7));
        }
    }
    let v = DateTimeValue::DateTime {
        date: Date { year: 2026, month: 1, day: 12 },
        time: Time { hour: 9, minute: 0, second: 0 },
        kind: TimeKind::Zone("Pacific/Auckland".to_string()),
    };
    assert_eq!(v.to_string(), "2026-01-12 09:00:00 Pacific/Auckland");
}

#[test]
fn calendar_state_machine_rules() {
    assert_eq!(
        summaries("BEGIN:VEVENT\nSUMMARY:A\nBEGIN:VEVENT\nSUMMARY:B\nEND:VEVENT\n"),
        vec![Some("B".to_string())]
    );
    assert_eq!(
        summaries("END:VEVENT\nBEGIN:VEVENT\nSUMMARY:A\nEND:VEVENT\nEND:VEVENT"),
        vec![Some("A".to_string())]
    );
    assert_eq!(summaries("SUMMARY:outside\nBEGIN:VEVENT\nEND:VEVENT"), vec![None]);
    assert_eq!(summaries("begin:vevent\nSUMMARY:x\nend:vevent\n"), Vec::<Option<String>>::new());
    assert_eq!(summaries("BEGIN:VTODO\nSUMMARY:x\nEND:VTODO\n"), Vec::<Option<String>>::new());
    assert_eq!(summaries(""), Vec::<Option<String>>::new());
    assert_eq!(
        summaries("BEGIN:VEVENT\nSUMMARY:x\nEND:VEVENT\nBEGIN:VEVENT\nSUMMARY:y"),
        vec![Some("x".to_string())]
    );
}

#[test]
fn calendar_reads_every_event_field() {
    let text = "BEGIN:VCALENDAR\r\nBEGIN:VEVENT\r\nUID:u\\,1\r\nSUMMARY:Plan\\; review\r\n \
                later\r\nDTSTART;VALUE=DATE:20260101\r\nDTEND;TZID=Europe/Oslo:20260102T100000\r\n\
                END:VEVENT\r\nEND:VCALENDAR\r\n";
    let cal = parse_calendar(text);
    assert_eq!(cal.events.len(), 1);
    let e = &cal.events[0];
    assert_eq!(e.uid.as_deref(), Some("u,1"));
    assert_eq!(e.summary.as_deref(), Some("Plan; reviewlater"));
    assert_eq!(e.dtstart, Some(DateTimeValue::Date(Date { year: 2026, month: 1, day: 1 })));
    assert_eq!(
        e.dtend,
        Some(DateTimeValue::DateTime {
            date: Date { year: 2026, month: 1, day: 2 },
            time: Time { hour: 10, minute: 0, second: 0 },
            kind: TimeKind::Zone("Europe/Oslo".to_string()),
        })
    );

    let cal = parse_calendar("BEGIN:VEVENT\nDTSTART:20260101\nDTSTART:bad\nEND:VEVENT\n");
    assert_eq!(cal.events[0].dtstart, None);
}

#[test]
fn calendars_concatenate() {
    let a = "BEGIN:VEVENT\nSUMMARY:One\nEND:VEVENT\n";
    let b = "BEGIN:VEVENT\nSUMMARY:Two\nEND:VEVENT\nBEGIN:VEVENT\nSUMMARY:Three\nEND:VEVENT\n";
    let mut both = summaries(a);
    both.extend(summaries(b));
    assert_eq!(summaries(&format!("{a}{b}")), both);
}

#[test]
fn defaults_are_empty() {
    let e = Event::default();
    assert!(e.uid.is_none() && e.summary.is_none() && e.dtstart.is_none() && e.dtend.is_none());
    let c = Calendar::default();
    assert!(c.events.is_empty());
}

#[test]
fn written_event_reads_back_with_any_terminator() {
    for t in ["\r\n", "\n", "\r"] {
        let text = format!("BEGIN:VEVENT{t}UID:a\\,b{t}SUMMARY:x:y\\nz{t}END:VEVENT{t}");
        let cal = parse_calendar(&text);
        assert_eq!(cal.events.len(), 1, "terminator {:?}", t);
        assert_eq!(cal.events[0].uid.as_deref(), Some("a,b"));
        assert_eq!(cal.events[0].summary.as_deref(), Some("x:y\nz"));
        assert!(cal.events[0].dtstart.is_none() && cal.events[0].dtend.is_none());
    }
}

#[test]
fn tab_and_space_folding_unfold_alike() {
    let text = "SUMMARY:a\r\n\tb\r\n c\r\n\t\td\r\nUID:x\r\n";
    assert_eq!(unfold(text), vec!["SUMMARY:abc\td", "UID:x"]);
}

#[test]
fn joined_documents_give_events_in_turn() {
    let a = "BEGIN:VEVENT\r\nSUMMARY:A\r\nEND:VEVENT\r\nX-OTHER:1\n";
    let b = "BEGIN:VEVENT\rSUMMARY:B\rEND:VEVENT\r";
    let joined = summaries(&format!("{a}{b}"));
    assert_eq!(joined, vec![Some("A".to_string()), Some("B".to_string())]);
}
