use racelogic_vbo::{
    Channel, Header, LineAccumulator, ParseError, ParseIssueKind, ParseOptions, Parser,
    StreamReport,
};

const SOURCE: &str = "File created: 2026-07-22\n[header]\n[channel units]\nhhmmss kmh\n[column names]\ntime velocity\n[data]\n120000.0 10.5\n120001.0 20.5\n";

/// One accepted row as the streaming visitor sees it.
struct Sample<'a> {
    row: usize,
    line: usize,
    values: Vec<f64>,
    header: &'a Header,
    channels: &'a [Channel],
}

/// Drives the parser's state machine over `source` the way a buffered reader does: the input
/// arrives in chunks of `chunk` bytes, lines are collected with a bounded accumulator, and
/// every accepted row is handed to `visit`.
fn stream<F: FnMut(Sample<'_>)>(
    parser: &Parser,
    source: &str,
    force_recovery: bool,
    chunk: usize,
    mut visit: F,
) -> Result<StreamReport, ParseError> {
    let mut machine = parser.stream(force_recovery);
    let mut accumulator = LineAccumulator::new(parser.options().max_line_bytes);
    let mut row = Vec::new();
    let bytes = source.as_bytes();
    let mut pos = 0;
    loop {
        accumulator.reset();
        let mut complete = false;
        while pos < bytes.len() {
            let end = (pos + chunk).min(bytes.len());
            let (consumed, done) = accumulator.absorb(&bytes[pos..end]);
            pos += consumed;
            if done {
                complete = true;
                break;
            }
        }
        if !complete && !accumulator.has_bytes() {
            break;
        }
        if machine.feed_line(accumulator.retained(), accumulator.cut(), &mut row)? {
            let values = row
                .iter()
                .map(|field| std::str::from_utf8(field).unwrap().parse::<f64>().unwrap())
                .collect();
            visit(Sample {
                row: machine.row_count() - 1,
                line: machine.line_number(),
                values,
                header: machine.header(),
                channels: machine.channels(),
            });
        }
    }
    machine.finish()
}

#[test]
fn streaming_visits_rows_without_constructing_a_vbo_table() {
    let mut samples = Vec::new();
    let report = stream(&Parser::default(), SOURCE, false, 7, |sample| {
        assert_eq!(sample.channels[1].unit.as_deref(), Some("kmh"));
        assert_eq!(sample.header.created.as_deref(), Some("File created: 2026-07-22"));
        samples.push((sample.row, sample.line, sample.values));
    })
    .ok()
    .expect("stream parses");

    assert_eq!(report.row_count(), 2);
    assert_eq!(report.column_count(), 2);
    assert!(report.issues.is_empty());
    assert_eq!(
        samples,
        vec![(0, 8, vec![120_000.0, 10.5]), (1, 9, vec![120_001.0, 20.5])]
    );
}

#[test]
fn streaming_recovery_skips_invalid_and_oversized_rows() {
    let source = "[column names]\na b\n[data]\n1 2\nnope 3\n123456789012345678901\n4 5\n";
    let parser = Parser::new(ParseOptions {
        max_line_bytes: 20,
        ..ParseOptions::default()
    });
    let mut accepted = Vec::new();
    let report = stream(&parser, source, true, 4, |sample| {
        accepted.push(sample.values[0]);
    })
    .ok()
    .expect("recovery continues");

    assert_eq!(accepted, vec![1.0, 4.0]);
    assert_eq!(report.rows, 2);
    assert!(matches!(
        report.issues[0].kind,
        ParseIssueKind::InvalidNumber { column: 1, .. }
    ));
    assert!(matches!(
        report.issues[1].kind,
        ParseIssueKind::LineTooLong { limit: 20 }
    ));
}

#[test]
fn streaming_strict_mode_stops_at_the_first_bad_row() {
    let source = "[column names]\na\n[data]\n1\nbad\n2\n";
    let mut accepted = 0;
    let error = stream(&Parser::default(), source, false, 64, |_| accepted += 1)
        .err()
        .expect("strict parser rejects malformed row");

    assert_eq!(accepted, 1);
    assert!(matches!(
        error,
        ParseError::InvalidNumber {
            line: 5,
            column: 1,
            ..
        }
    ));
}

#[test]
fn streaming_handles_many_rows_with_a_reused_callback_buffer() {
    let mut source = String::from("[column names]\na\n[data]\n");
    for value in 0..50_000 {
        source.push_str(&format!("{value}\n"));
    }

    let mut sum = 0.0;
    let report = stream(&Parser::default(), &source, false, 8192, |sample| {
        sum += sample.values[0];
    })
    .ok()
    .expect("large stream parses");

    assert_eq!(report.rows, 50_000);
    assert!((sum - 1_249_975_000.0_f64).abs() < f64::EPSILON);
}

#[test]
fn streaming_recovery_bounds_retained_diagnostics() {
    let source = "[column names]\na\n[data]\nbad\nstill-bad\n";
    let parser = Parser::new(ParseOptions {
        max_issues: 1,
        ..ParseOptions::default()
    });
    let error = stream(&parser, source, true, 64, |_| {})
        .err()
        .expect("diagnostic collection must be bounded");
    assert!(matches!(
        error,
        ParseError::IssueLimit { line: 5, limit: 1 }
    ));
}

#[test]
fn streaming_and_in_memory_parsing_agree() {
    let source = "x\r\n[column names]\r\na b\r\n[data]\r\n1 2\r\nbad 2\r\n3 4";
    let parser = Parser::new(ParseOptions {
        strict: false,
        ..ParseOptions::default()
    });
    let mut streamed = Vec::new();
    let report = stream(&parser, source, false, 3, |sample| {
        streamed.extend(sample.values);
    })
    .ok()
    .unwrap();
    let table = parser.parse_str(source).ok().unwrap();
    assert_eq!(report.rows, table.row_count());
    let in_memory: Vec<f64> = table
        .values()
        .iter()
        .map(|field| std::str::from_utf8(field).unwrap().parse::<f64>().unwrap())
        .collect();
    assert_eq!(streamed, in_memory);
    assert_eq!(report.issues.len(), 1);
}
