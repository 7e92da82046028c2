//! The bracketed sections of a VBO file and the recognition of their marker lines.

use vstd::prelude::*;

verus! {

/// The part of a VBO file that a line belongs to, set by the last marker line before it.
#[derive(Clone, Copy, Debug, PartialEq, Eq, Structural)]
pub enum Section {
    Preamble,
    Header,
    ChannelUnits,
    Comments,
    ColumnNames,
    Data,
    Other,
}

/// Unicode `White_Space`, the set that `char::is_whitespace` and `str::trim` use.
pub open spec fn is_white_space(c: char) -> bool {
    let v = c as u32;
    ||| 9 <= v <= 13
    ||| v == 32
    ||| v == 0x85
    ||| v == 0xA0
    ||| v == 0x1680
    ||| 0x2000 <= v <= 0x200A
    ||| v == 0x2028
    ||| v == 0x2029
    ||| v == 0x202F
    ||| v == 0x205F
    ||| v == 0x3000
}

/// The code of the ASCII lower-case form of `c`.
pub open spec fn lower_code(c: char) -> u32 {
    let v = c as u32;
    if 65 <= v <= 90 {
        (v + 32) as u32
    } else {
        v
    }
}

/// `s` equals `lit` (a lower-case ASCII word) once ASCII letters of `s` are lower-cased.
pub open spec fn lower_eq(s: Seq<char>, lit: Seq<char>) -> bool {
    &&& s.len() == lit.len()
    &&& forall|i: int| 0 <= i < lit.len() ==> lower_code(#[trigger] s[i]) == lit[i] as u32
}

/// `lit` (a lower-case ASCII word) is a prefix of `s` once ASCII letters are lower-cased.
pub open spec fn lower_starts_with(s: Seq<char>, lit: Seq<char>) -> bool {
    &&& s.len() >= lit.len()
    &&& forall|i: int| 0 <= i < lit.len() ==> lower_code(#[trigger] s[i]) == lit[i] as u32
}

/// First index in `[i, e)` whose character is not white space (or `e`).
pub open spec fn white_end(s: Seq<char>, i: int, e: int) -> int
    decreases e - i,
{
    if 0 <= i < e && e <= s.len() && is_white_space(s[i]) {
        white_end(s, i + 1, e)
    } else {
        i
    }
}

/// One past the last index in `[a, e)` whose character is not white space (or `a`).
pub open spec fn white_start_back(s: Seq<char>, a: int, e: int) -> int
    decreases e - a,
{
    if 0 <= a < e && e <= s.len() && is_white_space(s[e - 1]) {
        white_start_back(s, a, e - 1)
    } else {
        e
    }
}

/// `s` without leading and trailing Unicode white space, as `str::trim` returns it.
pub open spec fn unicode_trim(s: Seq<char>) -> Seq<char> {
    let a = white_end(s, 0, s.len() as int);
    let b = white_start_back(s, a, s.len() as int);
    s.subrange(a, b)
}

pub open spec fn header_word() -> Seq<char> {
    seq!['h', 'e', 'a', 'd', 'e', 'r']
}

pub open spec fn channel_units_word() -> Seq<char> {
    seq!['c', 'h', 'a', 'n', 'n', 'e', 'l', ' ', 'u', 'n', 'i', 't', 's']
}

pub open spec fn comments_word() -> Seq<char> {
    seq!['c', 'o', 'm', 'm', 'e', 'n', 't', 's']
}

pub open spec fn column_names_word() -> Seq<char> {
    seq!['c', 'o', 'l', 'u', 'm', 'n', ' ', 'n', 'a', 'm', 'e', 's']
}

pub open spec fn data_word() -> Seq<char> {
    seq!['d', 'a', 't', 'a']
}

pub open spec fn preamble_word() -> Seq<char> {
    seq!['p', 'r', 'e', 'a', 'm', 'b', 'l', 'e']
}

pub open spec fn other_word() -> Seq<char> {
    seq!['o', 't', 'h', 'e', 'r']
}

/// The section a marker line opens: a line `[name]` whose trimmed, case-folded name selects
/// one of the known sections, or any other section for an unknown name. Not a marker line
/// when `None`.
pub open spec fn marker_section(text: Seq<char>) -> Option<Section> {
    if text.len() >= 2 && text[0] == '[' && text.last() == ']' {
        let name = unicode_trim(text.subrange(1, text.len() - 1));
        Some(
            if lower_eq(name, header_word()) {
                Section::Header
            } else if lower_eq(name, channel_units_word()) {
                Section::ChannelUnits
            } else if lower_eq(name, comments_word()) {
                Section::Comments
            } else if lower_eq(name, column_names_word()) {
                Section::ColumnNames
            } else if lower_eq(name, data_word()) {
                Section::Data
            } else {
                Section::Other
            },
        )
    } else {
        None
    }
}

/// The name under which a section's lines are kept in the header.
pub open spec fn section_name(section: Section) -> Seq<char> {
    match section {
        Section::Preamble => preamble_word(),
        Section::Header => header_word(),
        Section::ChannelUnits => channel_units_word(),
        Section::Comments => comments_word(),
        Section::ColumnNames => column_names_word(),
        Section::Data => data_word(),
        Section::Other => other_word(),
    }
}

pub fn is_white_space_char(c: char) -> (r: bool)
    ensures
        r == is_white_space(c),
{
    let v = c as u32;
    (9 <= v && v <= 13) || v == 32 || v == 0x85 || v == 0xA0 || v == 0x1680 || (0x2000 <= v && v
        <= 0x200A) || v == 0x2028 || v == 0x2029 || v == 0x202F || v == 0x205F || v == 0x3000
}

fn lower_code_exec(c: char) -> (r: u32)
    ensures
        r == lower_code(c),
{
    let v = c as u32;
    if 65 <= v && v <= 90 {
        v + 32
    } else {
        v
    }
}

/// Compares `s[a..b]` with `lit` as `lower_eq` does.
fn lower_eq_range(s: &Vec<char>, a: usize, b: usize, lit: &[char]) -> (r: bool)
    requires
        a <= b <= s@.len(),
    ensures
        r == lower_eq(s@.subrange(a as int, b as int), lit@),
{
    let ln = lit.len();
    if b - a != ln {
        return false;
    }
    let mut i: usize = 0;
    while i < ln
        invariant
            ln == lit@.len(),
            a <= b <= s@.len(),
            b - a == ln,
            i <= ln,
            forall|q: int| 0 <= q < i ==> lower_code(#[trigger] s@[a + q]) == lit@[q] as u32,
        decreases ln - i,
    {
        if lower_code_exec(s[a + i]) != lit[i] as u32 {
            assert(s@.subrange(a as int, b as int)[i as int] == s@[a + i]);
            return false;
        }
        i = i + 1;
    }
    proof {
        let sub = s@.subrange(a as int, b as int);
        assert forall|q: int| 0 <= q < lit@.len() implies lower_code(#[trigger] sub[q])
            == lit@[q] as u32 by {
            assert(sub[q] == s@[a + q]);
        }
    }
    true
}

/// Whether `text` starts with `lit` (a lower-case ASCII word), ignoring ASCII case.
pub fn lower_starts_with_exec(text: &Vec<char>, lit: &[char]) -> (r: bool)
    ensures
        r == lower_starts_with(text@, lit@),
{
    let ln = lit.len();
    if text.len() < ln {
        return false;
    }
    let mut i: usize = 0;
    while i < ln
        invariant
            ln == lit@.len(),
            text@.len() >= ln,
            i <= ln,
            forall|q: int| 0 <= q < i ==> lower_code(#[trigger] text@[q]) == lit@[q] as u32,
        decreases ln - i,
    {
        if lower_code_exec(text[i]) != lit[i] as u32 {
            return false;
        }
        i = i + 1;
    }
    true
}

impl Section {
    /// The section that a marker line `[name]` opens, or `None` for any other line.
    pub fn from_marker(text: &Vec<char>) -> (r: Option<Section>)
        ensures
            r == marker_section(text@),
    {
        let n = text.len();
        if !(n >= 2 && text[0] == '[' && text[n - 1] == ']') {
            return None;
        }
        let e = n - 1;
        let mut a: usize = 1;
        while a < e && is_white_space_char(text[a])
            invariant
                n == text@.len(),
                e == n - 1,
                1 <= a <= e,
                white_end(text@.subrange(1, e as int), a - 1, e - 1) == white_end(
                    text@.subrange(1, e as int),
                    0,
                    e - 1,
                ),
            decreases e - a,
        {
            assert(text@.subrange(1, e as int)[a - 1] == text@[a as int]);
            a = a + 1;
        }
        let mut b: usize = e;
        while b > a && is_white_space_char(text[b - 1])
            invariant
                n == text@.len(),
                e == n - 1,
                1 <= a <= b <= e,
                white_start_back(text@.subrange(1, e as int), a - 1, b - 1) == white_start_back(
                    text@.subrange(1, e as int),
                    a - 1,
                    e - 1,
                ),
            decreases b,
        {
            assert(text@.subrange(1, e as int)[b - 2] == text@[b - 1]);
            b = b - 1;
        }
        let ghost inner = text@.subrange(1, e as int);
        assert(text@.subrange(a as int, b as int) == inner.subrange(a - 1, b - 1));
        assert(unicode_trim(inner) == inner.subrange(a - 1, b - 1));
        let header: [char; 6] = ['h', 'e', 'a', 'd', 'e', 'r'];
        let channel_units: [char; 13] = [
            'c',
            'h',
            'a',
            'n',
            'n',
            'e',
            'l',
            ' ',
            'u',
            'n',
            'i',
            't',
            's',
        ];
        let comments: [char; 8] = ['c', 'o', 'm', 'm', 'e', 'n', 't', 's'];
        let column_names: [char; 12] = [
            'c',
            'o',
            'l',
            'u',
            'm',
            'n',
            ' ',
            'n',
            'a',
            'm',
            'e',
            's',
        ];
        let data: [char; 4] = ['d', 'a', 't', 'a'];
        assert(header@ == header_word());
        assert(channel_units@ == channel_units_word());
        assert(comments@ == comments_word());
        assert(column_names@ == column_names_word());
        assert(data@ == data_word());
        Some(
            if lower_eq_range(text, a, b, &header) {
                Section::Header
            } else if lower_eq_range(text, a, b, &channel_units) {
                Section::ChannelUnits
            } else if lower_eq_range(text, a, b, &comments) {
                Section::Comments
            } else if lower_eq_range(text, a, b, &column_names) {
                Section::ColumnNames
            } else if lower_eq_range(text, a, b, &data) {
                Section::Data
            } else {
                Section::Other
            },
        )
    }

    /// The name under which the section's lines are kept in the header.
    pub fn name(self) -> (r: &'static str)
        ensures
            r@ == section_name(self),
    {
        proof {
            reveal_strlit("preamble");
            reveal_strlit("header");
            reveal_strlit("channel units");
            reveal_strlit("comments");
            reveal_strlit("column names");
            reveal_strlit("data");
            reveal_strlit("other");
        }
        match self {
            Section::Preamble => "preamble",
            Section::Header => "header",
            Section::ChannelUnits => "channel units",
            Section::Comments => "comments",
            Section::ColumnNames => "column names",
            Section::Data => "data",
            Section::Other => "other",
        }
    }
}

} // verus!
