use racelogic_vbo::{ParseError, ParseIssueKind, ParseOptions, Parser, SatelliteQuality};

/// The example recording of the VBO format reference, with three samples.
const BASIC: &str = "File created on 31/07/2006 at 09:55:20\n[header]\nsatellites\ntime\nlatitude\nlongitude\nvelocity kmh\nheading\nheight\nvertical velocity kmh\n[channel units]\nsats s deg deg kmh deg m kmh\n[comments]\nVBOX II 5Hz\n[column names]\nsats time lat long velocity heading height vertvel\n[data]\n137 162235.40 +03119.09973 +00058.49277 000.140 321.85 +00152.58 +000.000\n137 162235.90 +03119.09975 +00058.49279 000.250 321.85 +00152.58 +000.000\n137 162236.40 +03119.09978 +00058.49281 000.180 321.85 +00152.58 +000.000\n";

#[test]
fn strict_mode_is_transactional_on_bad_rows() {
    let bad = BASIC.replacen("137 162235.90", "137 nope", 1);
    let error = Parser::default()
        .parse_bytes(bad.as_bytes())
        .err()
        .expect("must reject");
    assert!(matches!(error, ParseError::InvalidNumber { .. }));
}

#[test]
fn recovery_omits_bad_rows_and_reports_them() {
    let bad = BASIC.replacen("137 162235.90", "137 nope", 1);
    let report = Parser::default()
        .parse_bytes_recovering(bad.as_bytes())
        .ok()
        .expect("recover");
    assert_eq!(report.vbo.row_count(), 2);
    assert!(matches!(
        report.issues[0].kind,
        ParseIssueKind::InvalidNumber { .. }
    ));
}

#[test]
fn malformed_inputs_are_bounded_and_precisely_located() {
    let options = ParseOptions {
        max_line_bytes: 20,
        ..ParseOptions::default()
    };
    let error = Parser::new(options)
        .parse_str("[column names]\na\n[data]\n123456789012345678901\n")
        .err()
        .expect("line cap");
    assert!(matches!(error, ParseError::LineTooLong { line: 4, .. }));
}

#[test]
fn parses_documented_shape() {
    let vbo = Parser::default().parse_str(BASIC).ok().expect("fixture parses");
    assert_eq!(vbo.row_count(), 3);
    assert_eq!(vbo.column_count(), 8);
    assert_eq!(vbo.channels()[4].unit.as_deref(), Some("kmh"));
    assert_eq!(vbo.channel_index("vertical_velocity"), None);
    assert_eq!(vbo.channel_index("VERT-VEL"), Some(7));
    let sats_literal = std::str::from_utf8(vbo.value(0, 0).expect("sats")).expect("ascii");
    let sats = sats_literal.parse::<f64>().expect("number") as u8;
    let quality = SatelliteQuality::from_sats_field(sats);
    assert_eq!(quality.satellites, 9);
    assert!(quality.dgps);
    assert_eq!(
        vbo.header().created.as_deref(),
        Some("File created on 31/07/2006 at 09:55:20")
    );
    assert_eq!(vbo.value(1, 4).map(|f| f.as_slice()), Some(&b"000.250"[..]));
    assert_eq!(vbo.value(3, 0), None);
    assert_eq!(vbo.value(0, 8), None);
    let sample = vbo.sample(2).expect("third sample");
    assert_eq!(sample.row_index(), 2);
    assert_eq!(sample.get(1).map(|f| f.as_slice()), Some(&b"162236.40"[..]));
    assert!(vbo.sample(3).is_none());
}
