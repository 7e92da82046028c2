//! The VBO parser: a line-by-line state machine, its specification, and in-memory parsing.
//!
//! The state machine (`StreamParser`) receives one physical line at a time and decides what
//! it means; reading the lines from a source is left to the caller. `step` below states what
//! one line does to the state, `parse_input` what a whole in-memory input yields.

use vstd::prelude::*;
use vstd::string::StringSliceAdditionalSpecFns;
use vstd::utf8::*;

use crate::laws::law_table_holds_the_delivered_rows;
use crate::lines::find_byte;
use crate::number::{float_literal, is_float_literal};
use crate::section::{
    lower_starts_with, lower_starts_with_exec, marker_section, section_name, Section,
};
use crate::text::{
    chars_of, is_delimited_span, trim_ascii, lemma_ascii_delimited_valid_utf8, text_from_utf8, trimmed_ascii, word_spans,
    words,
};
use crate::types::{
    channels_view, fields_view, issues_view, strings_view, Channel, Header, HeaderSection,
    ParseReport, StreamReport, Vbo, VboView, ParseError, ParseIssue, ParseIssueKind,
    ChannelView, HeaderView, ParseErrorView, ParseIssueKindView, ParseIssueView,
};

verus! {

/// Numeric conversion backend that callers use for accepted data fields.
#[derive(Clone, Copy, Debug, PartialEq, Eq, Structural)]
pub enum FloatParser {
    /// Rust's standard `f64` parser; the default compatibility backend.
    Standard,
    /// `lexical-core`'s optimised float parser.
    Fast,
}

/// Resource and compatibility controls for [`Parser`].
#[derive(Clone, Copy, Debug, PartialEq, Eq, Structural)]
pub struct ParseOptions {
    /// Reject a bad data row rather than omitting it. Enabled by default.
    pub strict: bool,
    /// Hard cap for a physical input line, protecting services from pathological inputs.
    pub max_line_bytes: usize,
    /// Hard cap for accepted data rows.
    pub max_rows: usize,
    /// Hard cap for retained recovery diagnostics.
    pub max_issues: usize,
    /// Numeric conversion backend used for data fields.
    pub float_parser: FloatParser,
}

impl Default for ParseOptions {
    fn default() -> (r: Self)
        ensures
            r == (ParseOptions {
                strict: true,
                max_line_bytes: 1048576,
                max_rows: 20000000,
                max_issues: 10000,
                float_parser: FloatParser::Standard,
            }),
    {
        ParseOptions {
            strict: true,
            max_line_bytes: 1024 * 1024,
            max_rows: 20_000_000,
            max_issues: 10_000,
            float_parser: FloatParser::Standard,
        }
    }
}

/// The state of a parse after some lines: everything the parser has learnt so far.
pub ghost struct StreamState {
    pub header: HeaderView,
    pub channels: Seq<ChannelView>,
    pub units: Seq<Seq<char>>,
    pub issues: Seq<ParseIssueView>,
    pub section: Section,
    pub data_seen: bool,
    pub rows: nat,
    pub line: nat,
}

/// The state before the first line.
pub open spec fn initial_state() -> StreamState {
    StreamState {
        header: HeaderView { created: None, sections: Seq::empty() },
        channels: Seq::empty(),
        units: Seq::empty(),
        issues: Seq::empty(),
        section: Section::Preamble,
        data_seen: false,
        rows: 0,
        line: 0,
    }
}

/// `raw` without one trailing carriage return.
pub open spec fn strip_cr(raw: Seq<u8>) -> Seq<u8> {
    if raw.len() > 0 && raw.last() == 13u8 {
        raw.drop_last()
    } else {
        raw
    }
}

/// Declared units are given to the channels by position; channels without a unit keep theirs.
pub open spec fn with_units(channels: Seq<ChannelView>, units: Seq<Seq<char>>) -> Seq<
    ChannelView,
> {
    Seq::new(
        channels.len(),
        |i: int|
            if i < units.len() {
                ChannelView { name: channels[i].name, unit: Some(units[i]) }
            } else {
                channels[i]
            },
    )
}

/// Retains an issue unless `limit` issues are already retained.
pub open spec fn with_issue(
    issues: Seq<ParseIssueView>,
    issue: ParseIssueView,
    limit: usize,
    line: usize,
) -> Result<Seq<ParseIssueView>, ParseErrorView> {
    if issues.len() >= limit {
        Err(ParseErrorView::IssueLimit { line, limit })
    } else {
        Ok(issues.push(issue))
    }
}

/// The diagnostic that recovery mode keeps for a record-local error.
pub open spec fn issue_for(error: ParseErrorView) -> ParseIssueView {
    match error {
        ParseErrorView::WrongColumnCount { line, expected, found } => ParseIssueView {
            line,
            kind: ParseIssueKindView::WrongColumnCount { expected, found },
        },
        ParseErrorView::InvalidNumber { line, column, value } => ParseIssueView {
            line,
            kind: ParseIssueKindView::InvalidNumber { column, value },
        },
        ParseErrorView::LineTooLong { line, limit } => ParseIssueView {
            line,
            kind: ParseIssueKindView::LineTooLong { limit },
        },
        _ => ParseIssueView { line: 0, kind: ParseIssueKindView::LineTooLong { limit: 0 } },
    }
}

/// Index of the first word from `i` on that is not a numeric literal (or the count).
pub open spec fn first_invalid_from(fields: Seq<Seq<u8>>, i: int) -> int
    decreases fields.len() - i,
{
    if 0 <= i < fields.len() && float_literal(fields[i]) {
        first_invalid_from(fields, i + 1)
    } else {
        i
    }
}

/// The fields of a data record `text` (trimmed, UTF-8) for a table of `expected` columns.
pub open spec fn row_fields(text: Seq<u8>, expected: nat, line: usize) -> Result<
    Seq<Seq<u8>>,
    ParseErrorView,
> {
    let fields = words(text);
    if fields.len() != expected {
        Err(
            ParseErrorView::WrongColumnCount {
                line,
                expected: expected as usize,
                found: fields.len() as usize,
            },
        )
    } else {
        let bad = first_invalid_from(fields, 0);
        if bad < fields.len() {
            Err(
                ParseErrorView::InvalidNumber {
                    line,
                    column: (bad + 1) as usize,
                    value: decode_utf8(fields[bad]),
                },
            )
        } else {
            Ok(fields)
        }
    }
}

/// Lexicographic order of character sequences from index `i` on, by code point: the order of
/// `String`'s `Ord`.
pub open spec fn lex_lt_from(a: Seq<char>, b: Seq<char>, i: int) -> bool
    decreases a.len() - i,
{
    if i < 0 || i >= a.len() {
        0 <= i < b.len()
    } else if i >= b.len() {
        false
    } else if a[i] != b[i] {
        (a[i] as u32) < (b[i] as u32)
    } else {
        lex_lt_from(a, b, i + 1)
    }
}

pub open spec fn lex_lt(a: Seq<char>, b: Seq<char>) -> bool {
    lex_lt_from(a, b, 0)
}

/// Index of the section named `name` from `i` on (or the count).
pub open spec fn section_index_from(
    sections: Seq<(Seq<char>, Seq<Seq<char>>)>,
    name: Seq<char>,
    i: int,
) -> int
    decreases sections.len() - i,
{
    if 0 <= i < sections.len() && sections[i].0 != name {
        section_index_from(sections, name, i + 1)
    } else {
        i
    }
}

/// Index of the first section from `i` on whose name sorts after `name` (or the count).
pub open spec fn insert_index_from(
    sections: Seq<(Seq<char>, Seq<Seq<char>>)>,
    name: Seq<char>,
    i: int,
) -> int
    decreases sections.len() - i,
{
    if 0 <= i < sections.len() && !lex_lt(name, sections[i].0) {
        insert_index_from(sections, name, i + 1)
    } else {
        i
    }
}

/// Appends `line` to the header section of `section`, creating it in name order when absent:
/// the `entry(name).or_default().push(line)` of an ordered map.
pub open spec fn with_header_line(header: HeaderView, section: Section, line: Seq<char>) -> HeaderView {
    let name = section_name(section);
    let at = section_index_from(header.sections, name, 0);
    if at < header.sections.len() {
        HeaderView {
            created: header.created,
            sections: header.sections.update(at, (name, header.sections[at].1.push(line))),
        }
    } else {
        HeaderView {
            created: header.created,
            sections: header.sections.insert(
                insert_index_from(header.sections, name, 0),
                (name, seq![line]),
            ),
        }
    }
}

pub open spec fn file_created_word() -> Seq<char> {
    seq!['f', 'i', 'l', 'e', ' ', 'c', 'r', 'e', 'a', 't', 'e', 'd']
}

/// What a non-blank line that is not a marker does in the current section. `bytes` is the
/// trimmed line, `text` its characters.
pub open spec fn content_step(
    options: ParseOptions,
    recover: bool,
    st: StreamState,
    bytes: Seq<u8>,
    text: Seq<char>,
) -> Result<(StreamState, Option<Seq<Seq<u8>>>), ParseErrorView> {
    let line = st.line as usize;
    match st.section {
        Section::Preamble => {
            if st.header.created is None && lower_starts_with(text, file_created_word()) {
                Ok(
                    (
                        StreamState {
                            header: HeaderView { created: Some(text), sections: st.header.sections },
                            ..st
                        },
                        None,
                    ),
                )
            } else {
                Ok((StreamState { header: with_header_line(st.header, Section::Preamble, text), ..st }, None))
            }
        },
        Section::ColumnNames => {
            if st.data_seen {
                Err(ParseErrorView::SchemaAfterData { line })
            } else {
                let names = words(bytes).map_values(
                    |w: Seq<u8>| ChannelView { name: decode_utf8(w), unit: None },
                );
                Ok((StreamState { channels: st.channels + names, ..st }, None))
            }
        },
        Section::ChannelUnits => {
            let units = words(bytes).map_values(|w: Seq<u8>| decode_utf8(w));
            Ok((StreamState { units: st.units + units, ..st }, None))
        },
        Section::Data => {
            if st.rows >= options.max_rows {
                Err(ParseErrorView::RowLimit { line, limit: options.max_rows })
            } else {
                match row_fields(bytes, st.channels.len(), line) {
                    Ok(fields) => Ok((StreamState { rows: st.rows + 1, ..st }, Some(fields))),
                    Err(error) => {
                        if recover {
                            match with_issue(st.issues, issue_for(error), options.max_issues, line) {
                                Ok(issues) => Ok((StreamState { issues, ..st }, None)),
                                Err(e) => Err(e),
                            }
                        } else {
                            Err(error)
                        }
                    },
                }
            }
        },
        _ => Ok((StreamState { header: with_header_line(st.header, st.section, text), ..st }, None)),
    }
}

/// What one physical line does. `raw` is the line without its line feed, or its first bytes
/// when `cut` says that the rest was not retained. On success, the new state and the fields of
/// the data row that the line holds, if it is one.
pub open spec fn step(
    options: ParseOptions,
    recover: bool,
    st0: StreamState,
    raw: Seq<u8>,
    cut: bool,
) -> Result<(StreamState, Option<Seq<Seq<u8>>>), ParseErrorView> {
    let line = (st0.line + 1) as usize;
    let st = StreamState { line: line as nat, ..st0 };
    let stripped = strip_cr(raw);
    if cut || stripped.len() > options.max_line_bytes {
        if recover && st.section == Section::Data {
            let issue = ParseIssueView {
                line,
                kind: ParseIssueKindView::LineTooLong { limit: options.max_line_bytes },
            };
            match with_issue(st.issues, issue, options.max_issues, line) {
                Ok(issues) => Ok((StreamState { issues, ..st }, None)),
                Err(e) => Err(e),
            }
        } else {
            Err(ParseErrorView::LineTooLong { line, limit: options.max_line_bytes })
        }
    } else {
        let bytes = trimmed_ascii(stripped);
        if bytes.len() == 0 {
            Ok((st, None))
        } else if !valid_utf8(bytes) {
            Err(ParseErrorView::InvalidUtf8 { line })
        } else {
            let text = decode_utf8(bytes);
            match marker_section(text) {
                Some(next) => {
                    if next == Section::Data && st.channels.len() == 0 {
                        Err(ParseErrorView::MissingColumnNames { line })
                    } else if next == Section::Data {
                        Ok(
                            (
                                StreamState {
                                    section: next,
                                    data_seen: true,
                                    channels: with_units(st.channels, st.units),
                                    ..st
                                },
                                None,
                            ),
                        )
                    } else {
                        Ok((StreamState { section: next, ..st }, None))
                    }
                },
                None => content_step(options, recover, st, bytes, text),
            }
        }
    }
}

/// The end of input: a parse without a `[data]` marker fails, otherwise units are applied
/// once more.
pub open spec fn finish_state(st: StreamState) -> Result<StreamState, ParseErrorView> {
    if !st.data_seen {
        Err(ParseErrorView::MissingData)
    } else {
        Ok(StreamState { channels: with_units(st.channels, st.units), ..st })
    }
}

/// Index of the first line feed in `s` at or after `i` (or the length).
pub open spec fn newline_from(s: Seq<u8>, i: int) -> int
    decreases s.len() - i,
{
    if 0 <= i < s.len() && s[i] != 10u8 {
        newline_from(s, i + 1)
    } else {
        i
    }
}

/// The physical lines of `input` from index `pos` on, without their line feeds. A final
/// line without a line feed counts only when it is not empty.
pub open spec fn lines_from(input: Seq<u8>, pos: int) -> Seq<Seq<u8>>
    decreases input.len() - pos,
{
    if pos < 0 || pos >= input.len() {
        Seq::empty()
    } else {
        let nl = newline_from(input, pos);
        proof {
            lemma_newline_from(input, pos);
        }
        if nl >= input.len() {
            seq![input.subrange(pos, nl)]
        } else {
            seq![input.subrange(pos, nl)] + lines_from(input, nl + 1)
        }
    }
}

pub proof fn lemma_newline_from(s: Seq<u8>, i: int)
    requires
        0 <= i <= s.len(),
    ensures
        i <= newline_from(s, i) <= s.len(),
        forall|m: int| i <= m < newline_from(s, i) ==> #[trigger] s[m] != 10u8,
        newline_from(s, i) < s.len() ==> s[newline_from(s, i)] == 10u8,
    decreases s.len() - i,
{
    if i < s.len() && s[i] != 10u8 {
        lemma_newline_from(s, i + 1);
    }
}

/// Feeds `lines` to the state machine, collecting the fields of accepted rows after `values`.
pub open spec fn run(
    options: ParseOptions,
    recover: bool,
    st: StreamState,
    values: Seq<Seq<u8>>,
    lines: Seq<Seq<u8>>,
) -> Result<(StreamState, Seq<Seq<u8>>), ParseErrorView>
    decreases lines.len(),
{
    if lines.len() == 0 {
        Ok((st, values))
    } else {
        match step(options, recover, st, lines[0], false) {
            Err(e) => Err(e),
            Ok((next, row)) => run(
                options,
                recover,
                next,
                match row {
                    Some(fields) => values + fields,
                    None => values,
                },
                lines.drop_first(),
            ),
        }
    }
}

/// The result of parsing a whole in-memory input: the final state and every accepted value,
/// row-major.
pub open spec fn parse_input(options: ParseOptions, recover: bool, input: Seq<u8>) -> Result<
    (StreamState, Seq<Seq<u8>>),
    ParseErrorView,
> {
    match run(options, recover, initial_state(), Seq::empty(), lines_from(input, 0)) {
        Err(e) => Err(e),
        Ok((st, values)) => match finish_state(st) {
            Err(e) => Err(e),
            Ok(done) => Ok((done, values)),
        },
    }
}

} // verus!

verus! {

/// Retains `issue` unless `limit` issues are already retained.
fn push_issue(issues: &mut Vec<ParseIssue>, issue: ParseIssue, limit: usize, line: usize) -> (r:
    Result<(), ParseError>)
    ensures
        match with_issue(issues_view(old(issues)@), issue@, limit, line) {
            Ok(v) => r is Ok && issues_view(final(issues)@) == v,
            Err(e) => final(issues)@ == old(issues)@ && match r {
                Ok(_) => false,
                Err(got) => got@ == e,
            },
        },
{
    if issues.len() >= limit {
        return Err(ParseError::IssueLimit { line, limit });
    }
    let ghost before = issues@;
    issues.push(issue);
    assert(issues_view(issues@) == issues_view(before).push(issue@));
    Ok(())
}

/// The diagnostic that recovery mode keeps for a record-local error.
fn issue_from(error: ParseError) -> (r: ParseIssue)
    requires
        error is WrongColumnCount || error is InvalidNumber || error is LineTooLong,
    ensures
        r@ == issue_for(error@),
{
    match error {
        ParseError::WrongColumnCount { line, expected, found } => ParseIssue {
            line,
            kind: ParseIssueKind::WrongColumnCount { expected, found },
        },
        ParseError::InvalidNumber { line, column, value } => ParseIssue {
            line,
            kind: ParseIssueKind::InvalidNumber { column, value },
        },
        ParseError::LineTooLong { line, limit } => ParseIssue {
            line,
            kind: ParseIssueKind::LineTooLong { limit },
        },
        _ => {
            assert(false);
            ParseIssue { line: 0, kind: ParseIssueKind::LineTooLong { limit: 0 } }
        },
    }
}

/// Gives the declared units to the channels by position.
fn apply_units(channels: &mut Vec<Channel>, units: &Vec<String>)
    ensures
        channels_view(final(channels)@) == with_units(
            channels_view(old(channels)@),
            strings_view(units@),
        ),
{
    let ghost start = channels_view(channels@);
    let n = channels.len();
    let mut i: usize = 0;
    while i < n && i < units.len()
        invariant
            n == channels@.len(),
            i <= n,
            start.len() == n,
            forall|j: int|
                0 <= j < n ==> #[trigger] channels_view(channels@)[j] == if j < i {
                    with_units(start, strings_view(units@))[j]
                } else {
                    start[j]
                },
        decreases n - i,
    {
        let unit = units[i].clone();
        assert(unit@ == units@[i as int]@);
        let ghost before = channels@;
        channels[i].unit = Some(unit);
        proof {
            assert forall|j: int| 0 <= j < n implies #[trigger] channels_view(channels@)[j] == if j
                < i + 1 {
                with_units(start, strings_view(units@))[j]
            } else {
                start[j]
            } by {
                assert(channels@.len() == n);
                if j != i {
                    assert(channels@[j] == before[j]);
                    assert(channels_view(channels@)[j] == channels_view(before)[j]);
                } else {
                    assert(channels_view(before)[j] == start[j]);
                    assert(channels@[j].name == before[j].name);
                    assert(channels@[j].unit == Some(unit));
                    assert(strings_view(units@)[j] == units@[j]@);
                    assert(j < units@.len());
                    assert(channels_view(channels@)[j] == ChannelView {
                        name: start[j].name,
                        unit: Some(strings_view(units@)[j]),
                    });
                }
            }
        }
        i = i + 1;
    }
    assert(channels_view(channels@) == with_units(start, strings_view(units@)));
}

} // verus!

verus! {

/// Appends the fields of the data record `text` to `output` when it has `expected` fields and
/// every one is a numeric literal; otherwise reports the first defect and leaves `output` as
/// it was.
fn parse_row_into(text: &[u8], expected: usize, line: usize, output: &mut Vec<Vec<u8>>) -> (r:
    Result<(), ParseError>)
    requires
        valid_utf8(text@),
    ensures
        match row_fields(text@, expected as nat, line) {
            Ok(f) => r is Ok && fields_view(final(output)@) == fields_view(old(output)@) + f,
            Err(e) => final(output)@ == old(output)@ && match r {
                Ok(_) => false,
                Err(got) => got@ == e,
            },
        },
{
    let spans = word_spans(text);
    let found = spans.len();
    let ghost ws = words(text@);
    if found != expected {
        return Err(ParseError::WrongColumnCount { line, expected, found });
    }
    let row_start = output.len();
    let ghost start = output@;
    let mut i: usize = 0;
    while i < found
        invariant
            found == spans@.len(),
            found == ws.len(),
            found == expected,
            ws == words(text@),
            valid_utf8(text@),
            i <= found,
            row_start == start.len(),
            start == old(output)@,
            output@.len() == row_start + i,
            output@.subrange(0, row_start as int) == start,
            first_invalid_from(ws, 0) == first_invalid_from(ws, i as int),
            forall|w: int|
                0 <= w < found ==> {
                    &&& is_delimited_span(text@, #[trigger] spans@[w])
                    &&& text@.subrange(spans@[w].0 as int, spans@[w].1 as int) == ws[w]
                },
            forall|j: int| 0 <= j < i ==> #[trigger] output@[row_start + j]@ == ws[j],
        decreases found - i,
    {
        let (a, b) = spans[i];
        let field = vstd::slice::slice_subrange(text, a, b);
        assert(field@ == ws[i as int]);
        if !is_float_literal(field) {
            proof {
                lemma_ascii_delimited_valid_utf8(text@, a as int, b as int);
            }
            let value = match text_from_utf8(field) {
                Some(v) => v,
                None => {
                    assert(false);
                    String::new()
                },
            };
            output.truncate(row_start);
            assert(output@ == start);
            assert(!float_literal(ws[i as int]));
            assert(first_invalid_from(ws, i as int) == i);
            assert(value@ == decode_utf8(ws[i as int]));
            assert(ws.len() == expected);
            assert(row_fields(text@, expected as nat, line) == Err::<Seq<Seq<u8>>, ParseErrorView>(
                ParseErrorView::InvalidNumber { line, column: (i + 1) as usize, value: value@ },
            ));
            return Err(ParseError::InvalidNumber { line, column: i + 1, value });
        }
        output.push(vstd::slice::slice_to_vec(field));
        i = i + 1;
    }
    proof {
        assert(first_invalid_from(ws, found as int) == found);
        assert(fields_view(output@) == fields_view(start) + ws) by {
            assert(fields_view(output@).len() == fields_view(start).len() + ws.len());
            assert forall|k: int| 0 <= k < fields_view(output@).len() implies fields_view(
                output@,
            )[k] == (fields_view(start) + ws)[k] by {
                if k < row_start {
                    assert(output@[k] == output@.subrange(0, row_start as int)[k]);
                } else {
                    assert(output@[row_start + (k - row_start)]@ == ws[k - row_start]);
                }
            }
        }
    }
    Ok(())
}

} // verus!

verus! {

/// Whether `a` sorts strictly before `b`, comparing code points lexicographically.
fn chars_lex_lt(a: &Vec<char>, b: &Vec<char>) -> (r: bool)
    ensures
        r == lex_lt(a@, b@),
{
    let mut i: usize = 0;
    while i < a.len() && i < b.len() && a[i] == b[i]
        invariant
            i <= a@.len(),
            i <= b@.len(),
            lex_lt(a@, b@) == lex_lt_from(a@, b@, i as int),
        decreases a@.len() - i,
    {
        i = i + 1;
    }
    if i >= a.len() {
        i < b.len()
    } else if i >= b.len() {
        false
    } else {
        (a[i] as u32) < (b[i] as u32)
    }
}

/// Appends `line` to the header section of `section`, creating the section in name order
/// when it has no lines yet.
fn add_header_line(header: &mut Header, section: Section, line: String)
    ensures
        final(header)@ == with_header_line(old(header)@, section, line@),
{
    let name_str = section.name();
    let name = name_str.to_owned();
    let name_chars = chars_of(name_str);
    let ghost secs = old(header)@.sections;
    let n = header.sections.len();
    assert(secs.len() == n);
    let mut at: usize = 0;
    while at < n && !(header.sections[at].name == name)
        invariant
            n == header.sections@.len(),
            secs == header@.sections,
            name@ == section_name(section),
            at <= n,
            section_index_from(secs, name@, at as int) == section_index_from(secs, name@, 0),
        decreases n - at,
    {
        assert(secs[at as int].0 == header.sections@[at as int].name@);
        at = at + 1;
    }
    if at < n {
        assert(secs[at as int].0 == name@);
        let ghost before = header.sections@;
        header.sections[at].lines.push(line);
        proof {
            let expected = secs.update(at as int, (name@, secs[at as int].1.push(line@)));
            assert(header@.sections.len() == expected.len());
            assert forall|k: int| 0 <= k < expected.len() implies header@.sections[k]
                == expected[k] by {
                if k != at {
                    assert(header.sections@[k] == before[k]);
                } else {
                    assert(strings_view(header.sections@[k].lines@) == strings_view(
                        before[k].lines@,
                    ).push(line@));
                }
            }
            assert(header@.sections == expected);
        }
    } else {
        let mut idx: usize = 0;
        while idx < n && !chars_lex_lt(&name_chars, &chars_of(header.sections[idx].name.as_str()))
            invariant
                n == header.sections@.len(),
                secs == header@.sections,
                name_chars@ == section_name(section),
                idx <= n,
                insert_index_from(secs, name_chars@, idx as int) == insert_index_from(
                    secs,
                    name_chars@,
                    0,
                ),
            decreases n - idx,
        {
            assert(secs[idx as int].0 == header.sections@[idx as int].name@);
            idx = idx + 1;
        }
        if idx < n {
            assert(secs[idx as int].0 == header.sections@[idx as int].name@);
        }
        let mut lines: Vec<String> = Vec::new();
        lines.push(line);
        let ghost before = header.sections@;
        let entry = HeaderSection { name, lines };
        assert(entry@ == (section_name(section), seq![line@]));
        header.sections.insert(idx, entry);
        proof {
            let expected = secs.insert(idx as int, (section_name(section), seq![line@]));
            assert(header.sections@ == before.insert(idx as int, entry));
            assert(header@.sections == expected);
        }
    }
}

} // verus!

verus! {

/// Appends the words of `text` to `channels` as channels without units.
fn push_channel_names(text: &[u8], channels: &mut Vec<Channel>)
    requires
        valid_utf8(text@),
    ensures
        channels_view(final(channels)@) == channels_view(old(channels)@) + words(text@).map_values(
            |w: Seq<u8>| ChannelView { name: decode_utf8(w), unit: None },
        ),
{
    let spans = word_spans(text);
    let ghost ws = words(text@);
    let ghost start = channels_view(channels@);
    let n = spans.len();
    let mut i: usize = 0;
    while i < n
        invariant
            n == spans@.len(),
            n == ws.len(),
            ws == words(text@),
            valid_utf8(text@),
            i <= n,
            forall|w: int|
                0 <= w < n ==> {
                    &&& is_delimited_span(text@, #[trigger] spans@[w])
                    &&& text@.subrange(spans@[w].0 as int, spans@[w].1 as int) == ws[w]
                },
            channels_view(channels@) == start + ws.take(i as int).map_values(
                |w: Seq<u8>| ChannelView { name: decode_utf8(w), unit: None },
            ),
        decreases n - i,
    {
        let (a, b) = spans[i];
        let field = vstd::slice::slice_subrange(text, a, b);
        proof {
            lemma_ascii_delimited_valid_utf8(text@, a as int, b as int);
        }
        let name = match text_from_utf8(field) {
            Some(v) => v,
            None => {
                assert(false);
                String::new()
            },
        };
        let ghost before = channels@;
        channels.push(Channel { name, unit: None });
        proof {
            assert(ws.take(i + 1) == ws.take(i as int).push(ws[i as int]));
            assert(channels_view(channels@) == channels_view(before).push(
                ChannelView { name: decode_utf8(ws[i as int]), unit: None },
            ));
        }
        i = i + 1;
    }
    assert(ws.take(n as int) == ws);
}

/// Appends the words of `text` to `units`.
fn push_unit_labels(text: &[u8], units: &mut Vec<String>)
    requires
        valid_utf8(text@),
    ensures
        strings_view(final(units)@) == strings_view(old(units)@) + words(text@).map_values(
            |w: Seq<u8>| decode_utf8(w),
        ),
{
    let spans = word_spans(text);
    let ghost ws = words(text@);
    let ghost start = strings_view(units@);
    let n = spans.len();
    let mut i: usize = 0;
    while i < n
        invariant
            n == spans@.len(),
            n == ws.len(),
            ws == words(text@),
            valid_utf8(text@),
            i <= n,
            forall|w: int|
                0 <= w < n ==> {
                    &&& is_delimited_span(text@, #[trigger] spans@[w])
                    &&& text@.subrange(spans@[w].0 as int, spans@[w].1 as int) == ws[w]
                },
            strings_view(units@) == start + ws.take(i as int).map_values(
                |w: Seq<u8>| decode_utf8(w),
            ),
        decreases n - i,
    {
        let (a, b) = spans[i];
        let field = vstd::slice::slice_subrange(text, a, b);
        proof {
            lemma_ascii_delimited_valid_utf8(text@, a as int, b as int);
        }
        let unit = match text_from_utf8(field) {
            Some(v) => v,
            None => {
                assert(false);
                String::new()
            },
        };
        let ghost before = units@;
        units.push(unit);
        proof {
            assert(ws.take(i + 1) == ws.take(i as int).push(ws[i as int]));
            assert(strings_view(units@) == strings_view(before).push(decode_utf8(ws[i as int])));
        }
        i = i + 1;
    }
    assert(ws.take(n as int) == ws);
}

} // verus!

verus! {

/// The parser's state machine. It is given the physical lines of an input one at a time,
/// decides what each means, and hands back the fields of every accepted data row.
pub struct StreamParser {
    options: ParseOptions,
    recover: bool,
    header: Header,
    channels: Vec<Channel>,
    units: Vec<String>,
    issues: Vec<ParseIssue>,
    section: Section,
    data_seen: bool,
    rows: usize,
    line: usize,
}

impl View for StreamParser {
    type V = StreamState;

    closed spec fn view(&self) -> StreamState {
        StreamState {
            header: self.header@,
            channels: channels_view(self.channels@),
            units: strings_view(self.units@),
            issues: issues_view(self.issues@),
            section: self.section,
            data_seen: self.data_seen,
            rows: self.rows as nat,
            line: self.line as nat,
        }
    }
}

/// The fields of an optional row, or none.
pub open spec fn row_or_empty(row: Option<Seq<Seq<u8>>>) -> Seq<Seq<u8>> {
    match row {
        Some(fields) => fields,
        None => Seq::empty(),
    }
}

impl StreamParser {
    /// The options the parse runs with.
    pub closed spec fn config(&self) -> ParseOptions {
        self.options
    }

    /// Whether malformed data records are skipped (and reported) rather than fatal.
    pub closed spec fn recovering(&self) -> bool {
        self.recover
    }

    /// A parser in its initial state. Records are recovered from when `force_recovery` is set
    /// or the options are not strict.
    pub fn new(options: ParseOptions, force_recovery: bool) -> (r: StreamParser)
        ensures
            r@ == initial_state(),
            r.config() == options,
            r.recovering() == (force_recovery || !options.strict),
    {
        let r = StreamParser {
            options,
            recover: force_recovery || !options.strict,
            header: Header { created: None, sections: Vec::new() },
            channels: Vec::new(),
            units: Vec::new(),
            issues: Vec::new(),
            section: Section::Preamble,
            data_seen: false,
            rows: 0,
            line: 0,
        };
        assert(r.header@.sections =~= Seq::<(Seq<char>, Seq<Seq<char>>)>::empty());
        assert(r@.header == initial_state().header);
        assert(r@.channels == initial_state().channels);
        assert(r@.units == initial_state().units);
        assert(r@.issues == initial_state().issues);
        r
    }

    /// Header metadata known so far.
    pub fn header(&self) -> (r: &Header)
        ensures
            r@ == self@.header,
    {
        &self.header
    }

    /// Channels known so far, with the units declared when `[data]` was reached.
    pub fn channels(&self) -> (r: &Vec<Channel>)
        ensures
            channels_view(r@) == self@.channels,
    {
        &self.channels
    }

    /// Number of data rows accepted so far.
    pub fn row_count(&self) -> (r: usize)
        ensures
            r == self@.rows,
    {
        self.rows
    }

    /// One-based number of the last line fed (zero before the first).
    pub fn line_number(&self) -> (r: usize)
        ensures
            r == self@.line,
    {
        self.line
    }

    /// Feeds the next physical line. `raw` is the line without its line feed, or only its first
    /// bytes when `cut` says that the rest was not retained. On success, `row` holds the fields
    /// of the data row that the line was accepted as (`Ok(true)`), and is empty otherwise.
    /// After an error the parse is over and the state is unspecified.
    pub fn feed_line(&mut self, raw: &[u8], cut: bool, row: &mut Vec<Vec<u8>>) -> (r: Result<
        bool,
        ParseError,
    >)
        requires
            old(self)@.line < usize::MAX,
        ensures
            final(self).config() == old(self).config(),
            final(self).recovering() == old(self).recovering(),
            match step(old(self).config(), old(self).recovering(), old(self)@, raw@, cut) {
                Ok((st, fields)) => {
                    &&& r == Ok::<bool, ParseError>(fields is Some)
                    &&& final(self)@ == st
                    &&& fields_view(final(row)@) == row_or_empty(fields)
                },
                Err(e) => match r {
                    Ok(_) => false,
                    Err(got) => got@ == e,
                },
            },
    {
        let ghost st0 = self@;
        let ghost options = self.options;
        let ghost recover = self.recover;
        row.clear();
        assert(fields_view(row@) == Seq::<Seq<u8>>::empty());
        self.line = self.line + 1;
        let line = self.line;
        let ghost st = self@;
        assert(st == StreamState { line: line as nat, ..st0 });
        let len = raw.len();
        let stripped_len = if len > 0 && raw[len - 1] == 13u8 {
            len - 1
        } else {
            len
        };
        let stripped = vstd::slice::slice_subrange(raw, 0, stripped_len);
        assert(stripped@ == strip_cr(raw@));
        if cut || stripped_len > self.options.max_line_bytes {
            if self.recover && self.section == Section::Data {
                let issue = ParseIssue {
                    line,
                    kind: ParseIssueKind::LineTooLong { limit: self.options.max_line_bytes },
                };
                return match push_issue(
                    &mut self.issues,
                    issue,
                    self.options.max_issues,
                    line,
                ) {
                    Ok(()) => Ok(false),
                    Err(e) => Err(e),
                };
            }
            return Err(ParseError::LineTooLong { line, limit: self.options.max_line_bytes });
        }
        let bytes = trim_ascii(stripped);
        if bytes.len() == 0 {
            return Ok(false);
        }
        let text = match text_from_utf8(bytes) {
            Some(t) => t,
            None => {
                return Err(ParseError::InvalidUtf8 { line });
            },
        };
        let chars = chars_of(text.as_str());
        match Section::from_marker(&chars) {
            Some(next) => {
                if next == Section::Data && self.channels.len() == 0 {
                    return Err(ParseError::MissingColumnNames { line });
                }
                if next == Section::Data {
                    self.data_seen = true;
                    apply_units(&mut self.channels, &self.units);
                }
                self.section = next;
                return Ok(false);
            },
            None => {},
        }
        match self.section {
            Section::Preamble => {
                let file_created: [char; 12] = [
                    'f',
                    'i',
                    'l',
                    'e',
                    ' ',
                    'c',
                    'r',
                    'e',
                    'a',
                    't',
                    'e',
                    'd',
                ];
                assert(file_created@ == file_created_word());
                if self.header.created.is_none() && lower_starts_with_exec(&chars, &file_created) {
                    self.header.created = Some(text);
                } else {
                    add_header_line(&mut self.header, Section::Preamble, text);
                }
                Ok(false)
            },
            Section::ColumnNames => {
                if self.data_seen {
                    return Err(ParseError::SchemaAfterData { line });
                }
                push_channel_names(bytes, &mut self.channels);
                Ok(false)
            },
            Section::ChannelUnits => {
                push_unit_labels(bytes, &mut self.units);
                Ok(false)
            },
            Section::Data => {
                if self.rows >= self.options.max_rows {
                    return Err(ParseError::RowLimit { line, limit: self.options.max_rows });
                }
                match parse_row_into(bytes, self.channels.len(), line, row) {
                    Ok(()) => {
                        self.rows = self.rows + 1;
                        Ok(true)
                    },
                    Err(error) => {
                        if self.recover {
                            match push_issue(
                                &mut self.issues,
                                issue_from(error),
                                self.options.max_issues,
                                line,
                            ) {
                                Ok(()) => Ok(false),
                                Err(e) => Err(e),
                            }
                        } else {
                            Err(error)
                        }
                    },
                }
            },
            other => {
                add_header_line(&mut self.header, other, text);
                Ok(false)
            },
        }
    }

    /// Ends the parse: it fails without a `[data]` marker; otherwise the declared units are
    /// applied once more and the summary is returned.
    pub fn finish(self) -> (r: Result<StreamReport, ParseError>)
        ensures
            match finish_state(self@) {
                Ok(st) => match r {
                    Ok(report) => {
                        &&& report.header@ == st.header
                        &&& channels_view(report.channels@) == st.channels
                        &&& report.rows == st.rows
                        &&& issues_view(report.issues@) == st.issues
                    },
                    Err(_) => false,
                },
                Err(e) => match r {
                    Ok(_) => false,
                    Err(got) => got@ == e,
                },
            },
    {
        if !self.data_seen {
            return Err(ParseError::MissingData);
        }
        let mut channels = self.channels;
        apply_units(&mut channels, &self.units);
        Ok(StreamReport { header: self.header, channels, rows: self.rows, issues: self.issues })
    }
}

} // verus!

verus! {

proof fn lemma_newline_at(s: Seq<u8>, i: int, e: int)
    requires
        0 <= i <= e <= s.len(),
        forall|m: int| i <= m < e ==> s[m] != 10u8,
        e == s.len() || s[e] == 10u8,
    ensures
        newline_from(s, i) == e,
    decreases e - i,
{
    if i < e {
        lemma_newline_at(s, i + 1, e);
    }
}

/// Parser for legacy ASCII Racelogic VBOX `.vbo` recordings.
#[derive(Clone, Copy, Debug)]
pub struct Parser {
    options: ParseOptions,
}

impl Default for Parser {
    fn default() -> (r: Self)
        ensures
            r.config() == (ParseOptions {
                strict: true,
                max_line_bytes: 1048576,
                max_rows: 20000000,
                max_issues: 10000,
                float_parser: FloatParser::Standard,
            }),
    {
        Parser { options: ParseOptions::default() }
    }
}

/// The table that a successful in-memory parse yields.
pub open spec fn table_of(st: StreamState, values: Seq<Seq<u8>>) -> VboView {
    VboView { header: st.header, channels: st.channels, values, rows: st.rows }
}

impl Parser {
    /// The options this parser runs with.
    pub closed spec fn config(&self) -> ParseOptions {
        self.options
    }

    pub fn new(options: ParseOptions) -> (r: Self)
        ensures
            r.config() == options,
    {
        Parser { options }
    }

    pub fn options(&self) -> (r: &ParseOptions)
        ensures
            *r == self.config(),
    {
        &self.options
    }

    /// A state machine for a line-by-line parse with this parser's options.
    pub fn stream(&self, force_recovery: bool) -> (r: StreamParser)
        ensures
            r@ == initial_state(),
            r.config() == self.config(),
            r.recovering() == (force_recovery || !self.config().strict),
    {
        StreamParser::new(self.options, force_recovery)
    }

    /// Parses a whole in-memory input, returning the summary and every accepted value.
    fn parse_all(&self, input: &[u8], force_recovery: bool) -> (r: Result<
        (StreamReport, Vec<Vec<u8>>),
        ParseError,
    >)
        ensures
            match parse_input(self.config(), force_recovery || !self.config().strict, input@) {
                Ok((st, values)) => match r {
                    Ok((report, got)) => {
                        &&& report.header@ == st.header
                        &&& channels_view(report.channels@) == st.channels
                        &&& report.rows == st.rows
                        &&& issues_view(report.issues@) == st.issues
                        &&& fields_view(got@) == values
                    },
                    Err(_) => false,
                },
                Err(e) => match r {
                    Ok(_) => false,
                    Err(got) => got@ == e,
                },
            },
    {
        let ghost options = self.options;
        let ghost recover = force_recovery || !self.options.strict;
        let mut machine = StreamParser::new(self.options, force_recovery);
        let mut values: Vec<Vec<u8>> = Vec::new();
        let mut row: Vec<Vec<u8>> = Vec::new();
        let n = input.len();
        let mut pos: usize = 0;
        let ghost target = run(options, recover, initial_state(), Seq::empty(), lines_from(input@, 0));
        assert(fields_view(values@) == Seq::<Seq<u8>>::empty());
        while pos < n
            invariant
                n == input@.len(),
                pos <= n,
                machine.config() == options,
                machine.recovering() == recover,
                options == self.config(),
                recover == (force_recovery || !self.config().strict),
                machine@.line <= pos,
                target == run(options, recover, initial_state(), Seq::empty(), lines_from(input@, 0)),
                target == run(options, recover, machine@, fields_view(values@), lines_from(input@, pos as int)),
            decreases n - pos,
        {
            let rest = vstd::slice::slice_subrange(input, pos, n);
            let end = match find_byte(10u8, rest) {
                Some(i) => pos + i,
                None => n,
            };
            proof {
                assert forall|m: int| pos <= m < end implies input@[m] != 10u8 by {
                    assert(rest@[m - pos] == input@[m]);
                }
                if end < n {
                    assert(rest@[end - pos] == input@[end as int]);
                }
                lemma_newline_at(input@, pos as int, end as int);
            }
            let line = vstd::slice::slice_subrange(input, pos, end);
            let ghost lines = lines_from(input@, pos as int);
            let ghost next_pos: int = if end < n { end + 1 } else { n as int };
            assert(lines[0] == line@);
            assert(lines.drop_first() == lines_from(input@, next_pos));
            let ghost before = machine@;
            let ghost before_values = fields_view(values@);
            match machine.feed_line(line, false, &mut row) {
                Ok(accepted) => {
                    if accepted {
                        values.append(&mut row);
                    }
                    proof {
                        assert(fields_view(values@) == before_values + match step(options, recover, before, line@, false) {
                            Ok((_, fields)) => row_or_empty(fields),
                            Err(_) => Seq::empty(),
                        });
                    }
                },
                Err(e) => {
                    proof {
                        assert(lines.len() > 0);
                        assert(step(options, recover, before, lines[0], false) is Err);
                        assert(target == run(options, recover, before, before_values, lines));
                    }
                    return Err(e);
                },
            }
            pos = if end < n {
                end + 1
            } else {
                n
            };
        }
        assert(lines_from(input@, n as int) == Seq::<Seq<u8>>::empty());
        let report = match machine.finish() {
            Ok(report) => report,
            Err(e) => {
                return Err(e);
            },
        };
        Ok((report, values))
    }
}

impl Parser {
    /// Parses a complete in-memory VBO input. Strict mode is transactional: no partial table
    /// is returned.
    pub fn parse_bytes(&self, input: &[u8]) -> (r: Result<Vbo, ParseError>)
        ensures
            match parse_input(self.config(), !self.config().strict, input@) {
                Ok((st, values)) => r matches Ok(vbo) && vbo@ == table_of(st, values),
                Err(e) => r matches Err(got) && got@ == e,
            },
    {
        proof {
            law_table_holds_the_delivered_rows(self.config(), !self.config().strict, input@);
        }
        match self.parse_all(input, false) {
            Ok((report, values)) => Ok(Vbo::new(report.header, report.channels, values, report.rows)),
            Err(e) => Err(e),
        }
    }

    /// Parses a complete in-memory input, omitting malformed data records and collecting
    /// their diagnostics. Header-structure errors remain fatal because they make column
    /// alignment ambiguous.
    pub fn parse_bytes_recovering(&self, input: &[u8]) -> (r: Result<ParseReport, ParseError>)
        ensures
            match parse_input(self.config(), true, input@) {
                Ok((st, values)) => r matches Ok(report) && report.vbo@ == table_of(st, values)
                    && issues_view(report.issues@) == st.issues,
                Err(e) => r matches Err(got) && got@ == e,
            },
    {
        proof {
            law_table_holds_the_delivered_rows(self.config(), true, input@);
        }
        match self.parse_all(input, true) {
            Ok((report, values)) => Ok(
                ParseReport {
                    vbo: Vbo::new(report.header, report.channels, values, report.rows),
                    issues: report.issues,
                },
            ),
            Err(e) => Err(e),
        }
    }

    /// Parses VBO text held in memory, as [`Self::parse_bytes`] parses its UTF-8 encoding.
    pub fn parse_str(&self, input: &str) -> (r: Result<Vbo, ParseError>)
        ensures
            match parse_input(self.config(), !self.config().strict, input.spec_bytes()) {
                Ok((st, values)) => r matches Ok(vbo) && vbo@ == table_of(st, values),
                Err(e) => r matches Err(got) && got@ == e,
            },
    {
        self.parse_bytes(input.as_bytes())
    }

    /// Recovery-mode parse of VBO text held in memory, as [`Self::parse_bytes_recovering`]
    /// parses its UTF-8 encoding.
    pub fn parse_str_recovering(&self, input: &str) -> (r: Result<ParseReport, ParseError>)
        ensures
            match parse_input(self.config(), true, input.spec_bytes()) {
                Ok((st, values)) => r matches Ok(report) && report.vbo@ == table_of(st, values)
                    && issues_view(report.issues@) == st.issues,
                Err(e) => r matches Err(got) && got@ == e,
            },
    {
        self.parse_bytes_recovering(input.as_bytes())
    }
}

} // verus!
