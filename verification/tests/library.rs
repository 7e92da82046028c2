use racelogic_vbo::{
    channel_key, escape_xml, event_order, find_channel, is_float_literal, normalise, AccelerationUnit,
    AngularRateUnit, Channel, CoordinateFormat, GateDirection, GateEvent, LapStep, LapTracker, LengthUnit,
    LineAccumulator, ParseError, ParseIssueKind, ParseOptions, Parser, SatelliteQuality, Side,
    SpeedUnit,
};
use Side::{Negative, On, Positive};

fn lenient() -> Parser {
    Parser::new(ParseOptions {
        strict: false,
        ..ParseOptions::default()
    })
}

#[test]
fn numeric_fields_follow_the_standard_float_syntax() {
    let accepted = [
        "0", "-0", "+7", "42", "-3.125", ".5", "1.", "6.022e23", "-1E-9", "1e+5", "inf", "-INF",
        "Infinity", "+infinity", "NaN", "nan", "000.140", "+03119.09973",
    ];
    for field in accepted {
        assert!(is_float_literal(field.as_bytes()), "accepts {field}");
        assert!(field.parse::<f64>().is_ok(), "std accepts {field}");
    }
    let rejected = [
        "", ".", "+", "-", "e5", "1e", "1e+", "--1", "1.2.3", "0x1p0", "in", "infinit", "nope",
        "1,5", "1_000", " 1", "1 ", "١",
    ];
    for field in rejected {
        assert!(!is_float_literal(field.as_bytes()), "rejects {field:?}");
        assert!(field.parse::<f64>().is_err(), "std rejects {field:?}");
    }
}

#[test]
fn markers_are_trimmed_and_case_insensitive() {
    let source = "[ COLUMN NAMES ]\na\n[\u{00A0}Data\u{3000}]\n1\n";
    let vbo = Parser::default().parse_str(source).ok().expect("markers recognised");
    assert_eq!(vbo.row_count(), 1);
    assert_eq!(vbo.column_count(), 1);
}

#[test]
fn header_sections_are_kept_by_name_in_name_order() {
    let source = "intro\nFile created today\n[header]\nh1\n[vendor]\nv1\n[comments]\nc1\n[header]\nh2\n[column names]\na\n[data]\n1\n";
    let vbo = Parser::default().parse_str(source).ok().expect("parses");
    let names: Vec<&str> = vbo.header().sections.iter().map(|s| s.name.as_str()).collect();
    assert_eq!(names, vec!["comments", "header", "other", "preamble"]);
    assert_eq!(vbo.header().sections[1].lines, vec!["h1".to_string(), "h2".to_string()]);
    assert_eq!(vbo.header().sections[2].lines, vec!["v1".to_string()]);
    assert_eq!(vbo.header().sections[3].lines, vec!["intro".to_string()]);
    assert_eq!(vbo.header().created.as_deref(), Some("File created today"));
}

#[test]
fn every_parse_error_is_reported_with_its_line() {
    assert!(matches!(
        Parser::default().parse_bytes(b"[column names]\na\n[data]\n\xff\n"),
        Err(ParseError::InvalidUtf8 { line: 4 })
    ));
    assert!(matches!(
        Parser::default().parse_str("x\n[data]\n1\n"),
        Err(ParseError::MissingColumnNames { line: 2 })
    ));
    assert!(matches!(
        Parser::default().parse_str("[column names]\na\n"),
        Err(ParseError::MissingData)
    ));
    assert!(matches!(
        Parser::default().parse_str("[column names]\na b\n[data]\n1\n"),
        Err(ParseError::WrongColumnCount { line: 4, expected: 2, found: 1 })
    ));
    let capped = Parser::new(ParseOptions {
        max_rows: 1,
        ..ParseOptions::default()
    });
    assert!(matches!(
        capped.parse_str("[column names]\na\n[data]\n1\n2\n"),
        Err(ParseError::RowLimit { line: 5, limit: 1 })
    ));
    let tight = Parser::new(ParseOptions {
        strict: false,
        max_issues: 0,
        ..ParseOptions::default()
    });
    assert!(matches!(
        tight.parse_str("[column names]\na\n[data]\nx\n"),
        Err(ParseError::IssueLimit { line: 4, limit: 0 })
    ));
    let short = Parser::new(ParseOptions {
        max_line_bytes: 3,
        strict: false,
        ..ParseOptions::default()
    });
    assert!(matches!(
        short.parse_str("long header line\n[column names]\na\n[data]\n1\n"),
        Err(ParseError::LineTooLong { line: 1, limit: 3 })
    ));
    match Parser::default().parse_str("[column names]\na b\n[data]\n1 2x\n") {
        Err(ParseError::InvalidNumber { line, column, value }) => {
            assert_eq!((line, column, value.as_str()), (4, 2, "2x"));
        },
        _ => panic!("expected an invalid number"),
    }
}

#[test]
fn recovery_reports_each_kind_of_defect() {
    let parser = Parser::new(ParseOptions {
        max_line_bytes: 14,
        ..ParseOptions::default()
    });
    let report = parser
        .parse_str_recovering("[column names]\na b\n[data]\n1\n1 x\n1234567890 12345\n5 6\n")
        .ok()
        .expect("recovers");
    assert_eq!(report.vbo.row_count(), 1);
    assert_eq!(report.issues.len(), 3);
    assert!(matches!(
        report.issues[0].kind,
        ParseIssueKind::WrongColumnCount { expected: 2, found: 1 }
    ));
    assert_eq!(report.issues[0].line, 4);
    assert!(matches!(
        report.issues[1].kind,
        ParseIssueKind::InvalidNumber { column: 2, .. }
    ));
    assert!(matches!(
        report.issues[2].kind,
        ParseIssueKind::LineTooLong { limit: 14 }
    ));
    assert_eq!(report.issues[2].line, 6);
}

#[test]
fn strict_success_and_recovery_agree() {
    let source = "[channel units]\ns kmh\n[column names]\ntime speed\n[data]\n1 2\n3 4\n";
    let strict = Parser::default().parse_str(source).ok().unwrap();
    let recovered = Parser::default().parse_str_recovering(source).ok().unwrap();
    assert!(recovered.issues.is_empty());
    assert_eq!(strict.values(), recovered.vbo.values());
    assert_eq!(strict.row_count(), recovered.vbo.row_count());
    assert_eq!(strict.channels()[1].unit, recovered.vbo.channels()[1].unit);
}

#[test]
fn crlf_and_lf_inputs_parse_alike() {
    let lf = "[column names]\na b\n[data]\n1 2\n3 4\n";
    let crlf = lf.replace('\n', "\r\n");
    let a = Parser::default().parse_str(lf).ok().unwrap();
    let b = Parser::default().parse_str(&crlf).ok().unwrap();
    assert_eq!(a.values(), b.values());
    assert_eq!(a.channels()[1].name, b.channels()[1].name);
}

#[test]
fn units_are_applied_by_position_and_names_may_be_non_ascii() {
    let source = "[column names]\nzeit geschwindigkeit_ü extra\n[channel units]\ns km/h\n[data]\n1 2 3\n";
    let vbo = Parser::default().parse_str(source).ok().unwrap();
    assert_eq!(vbo.channels()[1].name, "geschwindigkeit_ü");
    assert_eq!(vbo.channels()[0].unit.as_deref(), Some("s"));
    assert_eq!(vbo.channels()[1].unit.as_deref(), Some("km/h"));
    assert_eq!(vbo.channels()[2].unit, None);
    assert_eq!(vbo.channel_index("GESCHWINDIGKEIT-ü"), Some(1));
    assert_eq!(vbo.channel_index("Geschwindigkeit"), None);
}

#[test]
fn normalisation_keeps_lower_case_letters_and_digits() {
    assert_eq!(normalise("Vert-Vel_2 (m/s)"), b"vertvel2ms".to_vec());
    assert_eq!(normalise("ÜBER"), b"ber".to_vec());
}

#[test]
fn channels_are_found_by_alias() {
    let channels = vec![
        Channel { name: "Sats".to_string(), unit: None },
        Channel { name: "Long".to_string(), unit: None },
        Channel { name: "lat".to_string(), unit: None },
    ];
    assert_eq!(find_channel(&channels, &["lat", "latitude"]), Some(2));
    assert_eq!(find_channel(&channels, &["long", "longitude", "lon"]), Some(1));
    assert_eq!(find_channel(&channels, &["time"]), None);
}

#[test]
fn unit_labels_are_recognised() {
    assert_eq!(SpeedUnit::from_label("km/h"), Some(SpeedUnit::KilometresPerHour));
    assert_eq!(SpeedUnit::from_label("KTS"), Some(SpeedUnit::Knots));
    assert_eq!(SpeedUnit::from_label("mph"), Some(SpeedUnit::MilesPerHour));
    assert_eq!(SpeedUnit::from_label("m/s"), Some(SpeedUnit::MetresPerSecond));
    assert_eq!(SpeedUnit::from_label("furlongs"), None);
    assert_eq!(AccelerationUnit::from_label("g"), Some(AccelerationUnit::StandardGravity));
    assert_eq!(
        AccelerationUnit::from_label("m/s2"),
        Some(AccelerationUnit::MetresPerSecondSquared)
    );
    assert_eq!(AccelerationUnit::from_label("m/s²"), None);
    assert_eq!(
        AccelerationUnit::from_label("ft/s2"),
        Some(AccelerationUnit::FeetPerSecondSquared)
    );
    assert_eq!(AngularRateUnit::from_label("rad/s"), Some(AngularRateUnit::RadiansPerSecond));
    assert_eq!(AngularRateUnit::from_label("deg/s"), Some(AngularRateUnit::DegreesPerSecond));
    assert_eq!(LengthUnit::from_label("ft"), Some(LengthUnit::Feet));
    assert_eq!(LengthUnit::from_label("Kilometres"), Some(LengthUnit::Kilometres));
    assert_eq!(LengthUnit::from_label("miles"), Some(LengthUnit::Miles));
    assert_eq!(LengthUnit::from_label("m"), Some(LengthUnit::Metres));
}

#[test]
fn satellite_flags_are_decoded() {
    let q = SatelliteQuality::from_sats_field(137);
    assert_eq!((q.satellites, q.dgps, q.brake_trigger), (9, true, false));
    let q = SatelliteQuality::from_sats_field(64 + 12);
    assert_eq!((q.satellites, q.dgps, q.brake_trigger), (12, false, true));
}

#[test]
fn coordinate_format_follows_the_majority() {
    assert_eq!(CoordinateFormat::from_counts(0, 0), CoordinateFormat::PackedDegreesMinutes);
    assert_eq!(CoordinateFormat::from_counts(10, 5), CoordinateFormat::PackedDegreesMinutes);
    assert_eq!(CoordinateFormat::from_counts(10, 4), CoordinateFormat::ContinuousMinutes);
    assert_eq!(CoordinateFormat::default(), CoordinateFormat::PackedDegreesMinutes);
}

#[test]
fn gate_directions_accept_only_strict_crossings() {
    assert!(GateDirection::Either.accepts_crossing(Negative, Positive));
    assert!(GateDirection::Either.accepts_crossing(Positive, Negative));
    assert!(!GateDirection::Either.accepts_crossing(Negative, On));
    assert!(!GateDirection::Either.accepts_crossing(Positive, Positive));
    assert!(GateDirection::PositiveToNegative.accepts_crossing(Positive, Negative));
    assert!(!GateDirection::PositiveToNegative.accepts_crossing(Negative, Positive));
    assert!(GateDirection::NegativeToPositive.accepts_crossing(Negative, Positive));
    assert!(GateDirection::NegativeToPositive.matches(Negative, Positive));
    assert!(!GateDirection::NegativeToPositive.matches(On, Positive));
    assert_eq!(GateDirection::default(), GateDirection::Either);
    assert_eq!(event_order(GateEvent::StartFinish), 0);
    assert_eq!(event_order(GateEvent::Sector(2)), 3);
}

#[test]
fn xml_markup_is_escaped() {
    assert_eq!(
        escape_xml("File created Test & <recording> \"q\" 'a'"),
        b"File created Test &amp; &lt;recording&gt; &quot;q&quot; &apos;a&apos;".to_vec()
    );
    assert_eq!(escape_xml("plain ü"), "plain ü".as_bytes().to_vec());
}

#[test]
fn bounded_lines_retain_one_byte_past_the_limit() {
    let mut acc = LineAccumulator::new(4);
    assert_eq!(acc.absorb(b"abc"), (3, false));
    assert_eq!(acc.absorb(b"defg\nrest"), (5, true));
    assert_eq!(acc.retained().as_slice(), b"abcde");
    assert!(acc.cut());
    acc.reset();
    assert_eq!(acc.absorb(b"abcd\r\n"), (6, true));
    assert_eq!(acc.retained().as_slice(), b"abcd\r");
    assert!(!acc.cut());
    acc.reset();
    assert_eq!(acc.absorb(b"\n"), (1, true));
    assert!(!acc.has_bytes());
}

#[test]
fn a_line_exactly_at_the_limit_with_crlf_is_accepted() {
    let parser = Parser::new(ParseOptions {
        max_line_bytes: 14,
        ..ParseOptions::default()
    });
    let vbo = parser
        .parse_str("[column names]\r\na\r\n[data]\r\n12345678901234\r\n")
        .ok()
        .expect("a row of exactly the limit fits");
    assert_eq!(vbo.row_count(), 1);
    assert!(matches!(
        parser.parse_str("[column names]\na\n[data]\n123456789012345\n"),
        Err(ParseError::LineTooLong { line: 4, limit: 14 })
    ));
}

#[test]
fn lap_timer_records_sectors_only_in_order() {
    let mut timer = LapTracker::new(2);
    assert_eq!(timer.on_event(GateEvent::Sector(0), false), LapStep::Ignore);
    assert_eq!(
        timer.on_event(GateEvent::StartFinish, false),
        LapStep::StartFinish { completes: false, recorded: 0 }
    );
    assert_eq!(timer.on_event(GateEvent::Sector(1), true), LapStep::Ignore);
    assert_eq!(timer.on_event(GateEvent::Sector(0), true), LapStep::RecordSector(0));
    assert_eq!(timer.on_event(GateEvent::Sector(0), true), LapStep::Ignore);
    assert_eq!(timer.on_event(GateEvent::Sector(1), true), LapStep::RecordSector(1));
    assert_eq!(
        timer.on_event(GateEvent::StartFinish, true),
        LapStep::StartFinish { completes: true, recorded: 2 }
    );
    assert_eq!(
        timer.on_event(GateEvent::StartFinish, false),
        LapStep::StartFinish { completes: false, recorded: 0 }
    );
    assert_eq!(timer.on_event(GateEvent::Sector(1), true), LapStep::Ignore);
}

#[test]
fn recovery_survives_malformed_records_and_cites_lines_in_order() {
    let source = "[column names]\na b\n[data]\nx\n\n1 y\n1 2 3\n";
    assert!(matches!(
        Parser::default().parse_str(source),
        Err(ParseError::WrongColumnCount { line: 4, expected: 2, found: 1 })
    ));
    let report = Parser::default()
        .parse_str_recovering(source)
        .ok()
        .expect("malformed records never end a recovering parse");
    assert_eq!(report.vbo.row_count(), 0);
    let lines: Vec<usize> = report.issues.iter().map(|issue| issue.line).collect();
    assert_eq!(lines, vec![4, 6, 7]);
}

#[test]
fn channel_lookup_ignores_only_case_whitespace_underscore_and_hyphen() {
    let vbo = Parser::default()
        .parse_str("[column names]\nTime long_acc Vert-Vel\n[data]\n1 2 3\n")
        .ok()
        .expect("parses");
    assert_eq!(vbo.channel_index("time"), Some(0));
    assert_eq!(vbo.channel_index("LONG ACC"), Some(1));
    assert_eq!(vbo.channel_index("vert_vel"), Some(2));
    assert_eq!(vbo.channel_index("vertical_velocity"), None);
    assert_eq!(vbo.channel_index("long.acc"), None);
    assert_eq!(channel_key("Long\t_-Acc.x"), b"longacc.x".to_vec());
}

#[test]
fn column_names_are_fixed_once_data_begins() {
    let redeclared = "[column names]\na\n[data]\n1\n[column names]\nb\n[data]\n1 2\n";
    assert!(matches!(
        Parser::default().parse_str(redeclared),
        Err(ParseError::SchemaAfterData { line: 6 })
    ));
    assert!(matches!(
        Parser::default().parse_str_recovering(redeclared),
        Err(ParseError::SchemaAfterData { line: 6 })
    ));
    let late_units = "[column names]\na b\n[data]\n1 2\n[channel units]\ns kmh\n";
    let vbo = Parser::default().parse_str(late_units).ok().expect("late units are accepted");
    assert_eq!(vbo.row_count(), 1);
    assert_eq!(vbo.channels()[0].unit.as_deref(), Some("s"));
    assert_eq!(vbo.channels()[1].unit.as_deref(), Some("kmh"));
    let markers_only = "[column names]\na b\n[data]\n1 2\n[column names]\n[data]\n3 4\n";
    let vbo = Parser::default().parse_str(markers_only).ok().expect("no new schema line");
    assert_eq!(vbo.row_count(), 2);
}

#[test]
fn tables_are_rectangular_and_hold_the_delivered_rows() {
    let source = "[column names]\na b c\n[data]\n1 2 3\n4 x 6\n7 8\n9 10 11\n";
    let report = Parser::default()
        .parse_str_recovering(source)
        .ok()
        .expect("recovers");
    let vbo = &report.vbo;
    assert_eq!(vbo.row_count(), 2);
    assert_eq!(vbo.values().len(), vbo.row_count() * vbo.column_count());
    let expected: [[&[u8]; 3]; 2] = [[b"1", b"2", b"3"], [b"9", b"10", b"11"]];
    for (row, fields) in expected.iter().enumerate() {
        for (column, field) in fields.iter().enumerate() {
            assert_eq!(vbo.value(row, column).map(|f| f.as_slice()), Some(*field));
        }
    }
    assert_eq!(vbo.value(2, 0), None);
    assert_eq!(vbo.value(0, 3), None);
}

#[test]
fn late_units_do_not_stop_a_parse_at_a_later_defect() {
    let source = "[column names]\na b\n[data]\n1 2\n[channel units]\ns kmh\n[data]\n3\n4 5\n";
    assert!(matches!(
        Parser::default().parse_str(source),
        Err(ParseError::WrongColumnCount { line: 8, expected: 2, found: 1 })
    ));
    let report = Parser::default()
        .parse_str_recovering(source)
        .ok()
        .expect("recovers");
    assert_eq!(report.vbo.row_count(), 2);
    assert_eq!(report.issues.len(), 1);
    assert_eq!(report.issues[0].line, 8);
    assert_eq!(report.vbo.channels()[1].unit.as_deref(), Some("kmh"));
    let limited = Parser::new(ParseOptions {
        max_rows: 1,
        ..ParseOptions::default()
    });
    assert!(matches!(
        limited.parse_str("[column names]\na\n[data]\n1\n[channel units]\ns\n[data]\n2\n"),
        Err(ParseError::RowLimit { line: 8, limit: 1 })
    ));
}
