//! The data types that parsing produces, and their mathematical views.

use vstd::prelude::*;

use crate::text::{channel_key, lookup_key};
use vstd::string::StringSliceAdditionalSpecFns;
use vstd::utf8::encode_utf8;

verus! {

/// A named data channel declared by `[column names]`.
#[derive(Clone, Debug, PartialEq, Eq)]
pub struct Channel {
    pub name: String,
    pub unit: Option<String>,
}

/// The view of a [`Channel`]: its name and optional unit as character sequences.
pub ghost struct ChannelView {
    pub name: Seq<char>,
    pub unit: Option<Seq<char>>,
}

pub open spec fn opt_string_view(s: Option<String>) -> Option<Seq<char>> {
    match s {
        Some(v) => Some(v@),
        None => None,
    }
}

impl View for Channel {
    type V = ChannelView;

    open spec fn view(&self) -> ChannelView {
        ChannelView { name: self.name@, unit: opt_string_view(self.unit) }
    }
}

pub open spec fn strings_view(v: Seq<String>) -> Seq<Seq<char>> {
    v.map_values(|s: String| s@)
}

pub open spec fn channels_view(v: Seq<Channel>) -> Seq<ChannelView> {
    v.map_values(|c: Channel| c@)
}

/// The lines of one named header section, in source order.
#[derive(Clone, Debug, PartialEq, Eq)]
pub struct HeaderSection {
    pub name: String,
    pub lines: Vec<String>,
}

impl View for HeaderSection {
    type V = (Seq<char>, Seq<Seq<char>>);

    open spec fn view(&self) -> (Seq<char>, Seq<Seq<char>>) {
        (self.name@, strings_view(self.lines@))
    }
}

/// The non-tabular contents of a VBO header, preserved in source order by section.
///
/// `sections` holds one entry per section that has lines, ordered by name.
#[derive(Clone, Debug, PartialEq, Eq)]
pub struct Header {
    pub created: Option<String>,
    pub sections: Vec<HeaderSection>,
}

pub ghost struct HeaderView {
    pub created: Option<Seq<char>>,
    pub sections: Seq<(Seq<char>, Seq<Seq<char>>)>,
}

impl View for Header {
    type V = HeaderView;

    open spec fn view(&self) -> HeaderView {
        HeaderView {
            created: opt_string_view(self.created),
            sections: self.sections@.map_values(|s: HeaderSection| s@),
        }
    }
}

/// What is wrong with a data record that recovery mode skipped.
#[derive(Clone, Debug, PartialEq, Eq)]
pub enum ParseIssueKind {
    InvalidNumber { column: usize, value: String },
    WrongColumnCount { expected: usize, found: usize },
    LineTooLong { limit: usize },
}

pub ghost enum ParseIssueKindView {
    InvalidNumber { column: usize, value: Seq<char> },
    WrongColumnCount { expected: usize, found: usize },
    LineTooLong { limit: usize },
}

impl View for ParseIssueKind {
    type V = ParseIssueKindView;

    open spec fn view(&self) -> ParseIssueKindView {
        match self {
            ParseIssueKind::InvalidNumber { column, value } => ParseIssueKindView::InvalidNumber {
                column: *column,
                value: value@,
            },
            ParseIssueKind::WrongColumnCount { expected, found } =>
                ParseIssueKindView::WrongColumnCount { expected: *expected, found: *found },
            ParseIssueKind::LineTooLong { limit } => ParseIssueKindView::LineTooLong {
                limit: *limit,
            },
        }
    }
}

/// A non-fatal defect encountered in recovery mode.
#[derive(Clone, Debug, PartialEq, Eq)]
pub struct ParseIssue {
    pub line: usize,
    pub kind: ParseIssueKind,
}

pub ghost struct ParseIssueView {
    pub line: usize,
    pub kind: ParseIssueKindView,
}

impl View for ParseIssue {
    type V = ParseIssueView;

    open spec fn view(&self) -> ParseIssueView {
        ParseIssueView { line: self.line, kind: self.kind@ }
    }
}

pub open spec fn issues_view(v: Seq<ParseIssue>) -> Seq<ParseIssueView> {
    v.map_values(|i: ParseIssue| i@)
}

/// A failure while decoding VBO input.
#[derive(Clone, Debug, PartialEq, Eq)]
pub enum ParseError {
    InvalidUtf8 { line: usize },
    LineTooLong { line: usize, limit: usize },
    MissingColumnNames { line: usize },
    /// A `[column names]` line after the first `[data]` marker: every record must follow the
    /// one schema declared before the data. (Late `[channel units]` lines are accepted and
    /// applied when the parse ends.)
    SchemaAfterData { line: usize },
    MissingData,
    WrongColumnCount { line: usize, expected: usize, found: usize },
    InvalidNumber { line: usize, column: usize, value: String },
    RowLimit { line: usize, limit: usize },
    IssueLimit { line: usize, limit: usize },
}

pub ghost enum ParseErrorView {
    InvalidUtf8 { line: usize },
    LineTooLong { line: usize, limit: usize },
    MissingColumnNames { line: usize },
    /// A `[column names]` line after the first `[data]` marker: every record must follow the
    /// one schema declared before the data. (Late `[channel units]` lines are accepted and
    /// applied when the parse ends.)
    SchemaAfterData { line: usize },
    MissingData,
    WrongColumnCount { line: usize, expected: usize, found: usize },
    InvalidNumber { line: usize, column: usize, value: Seq<char> },
    RowLimit { line: usize, limit: usize },
    IssueLimit { line: usize, limit: usize },
}

impl View for ParseError {
    type V = ParseErrorView;

    open spec fn view(&self) -> ParseErrorView {
        match self {
            ParseError::InvalidUtf8 { line } => ParseErrorView::InvalidUtf8 { line: *line },
            ParseError::LineTooLong { line, limit } => ParseErrorView::LineTooLong {
                line: *line,
                limit: *limit,
            },
            ParseError::MissingColumnNames { line } => ParseErrorView::MissingColumnNames {
                line: *line,
            },
            ParseError::SchemaAfterData { line } => ParseErrorView::SchemaAfterData {
                line: *line,
            },
            ParseError::MissingData => ParseErrorView::MissingData,
            ParseError::WrongColumnCount { line, expected, found } =>
                ParseErrorView::WrongColumnCount {
                line: *line,
                expected: *expected,
                found: *found,
            },
            ParseError::InvalidNumber { line, column, value } => ParseErrorView::InvalidNumber {
                line: *line,
                column: *column,
                value: value@,
            },
            ParseError::RowLimit { line, limit } => ParseErrorView::RowLimit {
                line: *line,
                limit: *limit,
            },
            ParseError::IssueLimit { line, limit } => ParseErrorView::IssueLimit {
                line: *line,
                limit: *limit,
            },
        }
    }
}

/// An owned VBO table. Every value is kept as the numeric literal that was logged, row-major:
/// the value of `column` in `row` is at `row * column_count() + column`.
#[derive(Debug, PartialEq)]
pub struct Vbo {
    header: Header,
    channels: Vec<Channel>,
    values: Vec<Vec<u8>>,
    rows: usize,
}

pub open spec fn fields_view(v: Seq<Vec<u8>>) -> Seq<Seq<u8>> {
    v.map_values(|f: Vec<u8>| f@)
}

/// The first channel whose lookup key equals `target`, if any.
pub open spec fn first_channel_named(channels: Seq<ChannelView>, target: Seq<u8>) -> Option<
    usize,
> {
    if exists|i: int|
        0 <= i < channels.len() && lookup_key(encode_utf8(#[trigger] channels[i].name))
            == target {
        let i = choose|i: int|
            0 <= i < channels.len() && lookup_key(encode_utf8(#[trigger] channels[i].name))
                == target && forall|j: int|
                0 <= j < i ==> lookup_key(encode_utf8(#[trigger] channels[j].name)) != target;
        Some(i as usize)
    } else {
        None
    }
}

/// The view of a [`Vbo`]: metadata, the row-major literals and the row count.
pub ghost struct VboView {
    pub header: HeaderView,
    pub channels: Seq<ChannelView>,
    pub values: Seq<Seq<u8>>,
    pub rows: nat,
}

impl View for Vbo {
    type V = VboView;

    closed spec fn view(&self) -> VboView {
        VboView {
            header: self.header@,
            channels: channels_view(self.channels@),
            values: fields_view(self.values@),
            rows: self.rows as nat,
        }
    }
}

impl Vbo {
    /// The table is rectangular: `rows` records of one value per channel.
    #[verifier::type_invariant]
    closed spec fn rectangular(self) -> bool {
        self.values@.len() == self.rows * self.channels@.len()
    }

    pub(crate) fn new(header: Header, channels: Vec<Channel>, values: Vec<Vec<u8>>, rows: usize) -> (r: Vbo)
        requires
            values@.len() == rows * channels@.len(),
        ensures
            r@ == (VboView {
                header: header@,
                channels: channels_view(channels@),
                values: fields_view(values@),
                rows: rows as nat,
            }),
    {
        Vbo { header, channels, values, rows }
    }

    pub fn row_count(&self) -> (r: usize)
        ensures
            r == self@.rows,
    {
        self.rows
    }

    pub fn column_count(&self) -> (r: usize)
        ensures
            r == self@.channels.len(),
    {
        self.channels.len()
    }

    pub fn is_empty(&self) -> (r: bool)
        ensures
            r == (self@.rows == 0),
    {
        self.rows == 0
    }

    /// The metadata kept from the header sections.
    pub fn header(&self) -> (r: &Header)
        ensures
            r@ == self@.header,
    {
        &self.header
    }

    /// The channels declared by `[column names]`, with their units.
    pub fn channels(&self) -> (r: &Vec<Channel>)
        ensures
            channels_view(r@) == self@.channels,
    {
        &self.channels
    }

    /// All values, row-major, as logged: `row_count()` records of `column_count()` values.
    pub fn values(&self) -> (r: &Vec<Vec<u8>>)
        ensures
            fields_view(r@) == self@.values,
            self@.values.len() == self@.rows * self@.channels.len(),
    {
        proof {
            use_type_invariant(self);
        }
        &self.values
    }

    /// The logged literal of `column` in `row`, when both are in range.
    pub fn value(&self, row: usize, column: usize) -> (r: Option<&Vec<u8>>)
        ensures
            r is Some <==> row < self@.rows && column < self@.channels.len(),
            r matches Some(f) ==> f@ == self@.values[row * self@.channels.len() + column],
    {
        proof {
            use_type_invariant(self);
        }
        let width = self.channels.len();
        if row >= self.rows || column >= width {
            return None;
        }
        let total = self.values.len();
        proof {
            assert(row * width + column < self.rows * width) by (nonlinear_arith)
                requires
                    row < self.rows,
                    column < width,
            ;
            assert(self.rows * width == total);
        }
        Some(&self.values[row * width + column])
    }

    /// Looks up a column case-insensitively, ignoring whitespace, `_`, and `-`.
    pub fn channel_index(&self, name: &str) -> (r: Option<usize>)
        ensures
            r == first_channel_named(self@.channels, lookup_key(name.spec_bytes())),
    {
        let target = channel_key(name);
        let n = self.channels.len();
        let ghost cv = channels_view(self.channels@);
        let mut i: usize = 0;
        while i < n
            invariant
                n == self@.channels.len(),
                cv == channels_view(self.channels@),
                i <= n,
                target@ == lookup_key(name.spec_bytes()),
                forall|j: int| 0 <= j < i ==> lookup_key(encode_utf8(#[trigger] cv[j].name)) != target@,
            decreases n - i,
        {
            let candidate = channel_key(self.channels[i].name.as_str());
            if vec_u8_eq(&candidate, &target) {
                assert(cv[i as int].name == self.channels@[i as int].name@);
                let ghost k = i as int;
                assert(lookup_key(encode_utf8(cv[k].name)) == target@);
                proof {
                    let c = choose|c: int|
                        0 <= c < cv.len() && lookup_key(encode_utf8(#[trigger] cv[c].name))
                            == target@ && forall|j: int|
                            0 <= j < c ==> lookup_key(encode_utf8(#[trigger] cv[j].name))
                                != target@;
                    assert(c == k) by {
                        if c < k {
                        } else if c > k {
                            assert(lookup_key(encode_utf8(cv[k].name)) != target@);
                        }
                    }
                }
                return Some(i);
            }
            assert(cv[i as int].name == self.channels@[i as int].name@);
            i = i + 1;
        }
        None
    }

    /// A view of one logged sample, when `row` is in range.
    pub fn sample(&self, row: usize) -> (r: Option<SampleRef<'_>>)
        ensures
            r is Some <==> row < self@.rows,
            r matches Some(s) ==> s.table() == *self && s.row_number() == row,
    {
        if row < self.rows {
            Some(SampleRef { vbo: self, row })
        } else {
            None
        }
    }
}

impl Clone for Vbo {
    fn clone(&self) -> (r: Self)
        ensures
            r@.rows == self@.rows,
            r@.values.len() == self@.values.len(),
            r@.channels.len() == self@.channels.len(),
    {
        proof {
            use_type_invariant(self);
        }
        Vbo {
            header: self.header.clone(),
            channels: self.channels.clone(),
            values: self.values.clone(),
            rows: self.rows,
        }
    }
}

/// Byte-string equality.
pub fn vec_u8_eq(a: &Vec<u8>, b: &Vec<u8>) -> (r: bool)
    ensures
        r == (a@ == b@),
{
    if a.len() != b.len() {
        return false;
    }
    let n = a.len();
    let mut i: usize = 0;
    while i < n
        invariant
            n == a@.len(),
            n == b@.len(),
            i <= n,
            forall|j: int| 0 <= j < i ==> a@[j] == b@[j],
        decreases n - i,
    {
        if a[i] != b[i] {
            return false;
        }
        i = i + 1;
    }
    assert(a@ == b@);
    true
}

/// A view of one logged sample.
pub struct SampleRef<'a> {
    pub(crate) vbo: &'a Vbo,
    pub(crate) row: usize,
}

impl<'a> SampleRef<'a> {
    /// The table the sample belongs to.
    pub closed spec fn table(&self) -> Vbo {
        *self.vbo
    }

    /// The sample's row.
    pub closed spec fn row_number(&self) -> usize {
        self.row
    }

    pub fn row_index(&self) -> (r: usize)
        ensures
            r == self.row_number(),
    {
        self.row
    }

    /// The logged literal of `column` in this sample's row.
    pub fn get(&self, column: usize) -> (r: Option<&'a Vec<u8>>)
        ensures
            r is Some <==> self.row_number() < self.table()@.rows && column
                < self.table()@.channels.len(),
            r matches Some(f) ==> f@ == self.table()@.values[self.row_number()
                * self.table()@.channels.len() + column],
    {
        self.vbo.value(self.row, column)
    }
}

/// The result of recovery parsing. Malformed data records are omitted, never partially retained.
#[derive(Clone, Debug, PartialEq)]
pub struct ParseReport {
    pub vbo: Vbo,
    pub issues: Vec<ParseIssue>,
}

/// Summary produced after a streaming parse completes: the metadata, the count of accepted
/// samples, and any recovery diagnostics, but no data rows.
#[derive(Clone, Debug, PartialEq)]
pub struct StreamReport {
    pub header: Header,
    pub channels: Vec<Channel>,
    pub rows: usize,
    pub issues: Vec<ParseIssue>,
}

impl StreamReport {
    pub fn row_count(&self) -> (r: usize)
        ensures
            r == self.rows,
    {
        self.rows
    }

    pub fn column_count(&self) -> (r: usize)
        ensures
            r == self.channels@.len(),
    {
        self.channels.len()
    }
}

} // verus!
