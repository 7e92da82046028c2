//! Properties of the parser that hold for every input.

use vstd::prelude::*;

use crate::lines::storage_limit;
use crate::number::{digits_end, exponent_from, float_literal, inf_word, infinity_word, nan_word, number_from};
use crate::number::lower_eq_from;
use crate::parser::{
    first_invalid_from, issue_for, row_fields, with_units, initial_state, insert_index_from, lemma_newline_from, lex_lt, lex_lt_from,
    lines_from, newline_from,
    finish_state, parse_input, run, section_index_from, step, strip_cr, with_header_line, ParseOptions,
    StreamState,
};
use crate::section::{
    is_white_space, lower_code, lower_eq, marker_section, section_name, unicode_trim, white_end,
    white_start_back, Section,
};
use crate::types::{ChannelView, ParseErrorView, ParseIssueKindView, ParseIssueView};
use crate::export::{escape_byte, xml_escaped};
use crate::text::{is_ascii_ws, lemma_nonws_end, lemma_ws_end, lemma_ws_start_back, nonws_end, ws_end, ws_start_back, words_from, trimmed_ascii, ascii_lower, is_ascii_alnum, is_lookup_separator, lookup_key, normalised, words};

verus! {

/// Every field before the first non-literal is a literal.
proof fn lemma_first_invalid(fields: Seq<Seq<u8>>, i: int)
    requires
        0 <= i <= fields.len(),
    ensures
        i <= first_invalid_from(fields, i) <= fields.len(),
        forall|k: int| i <= k < first_invalid_from(fields, i) ==> float_literal(#[trigger] fields[k]),
    decreases fields.len() - i,
{
    if i < fields.len() && float_literal(fields[i]) {
        lemma_first_invalid(fields, i + 1);
    }
}

/// A line accepted as a data row yields one field per channel known at that point, each a
/// numeric literal, and counts one more row.
pub proof fn law_accepted_rows_are_complete(
    options: ParseOptions,
    recover: bool,
    st: StreamState,
    raw: Seq<u8>,
    cut: bool,
)
    ensures
        step(options, recover, st, raw, cut) matches Ok((next, Some(fields))) ==> {
            &&& fields.len() == st.channels.len()
            &&& forall|k: int| 0 <= k < fields.len() ==> float_literal(#[trigger] fields[k])
            &&& next.rows == st.rows + 1
            &&& next.section == Section::Data
        },
{
    lemma_accepted_rows_are_literal(options, recover, st, raw, cut);
}

proof fn lemma_accepted_rows_are_literal(
    options: ParseOptions,
    recover: bool,
    st: StreamState,
    raw: Seq<u8>,
    cut: bool,
)
    ensures
        step(options, recover, st, raw, cut) matches Ok((next, Some(fields))) ==> {
            &&& forall|k: int| 0 <= k < fields.len() ==> float_literal(#[trigger] fields[k])
            &&& fields == words(crate::text::trimmed_ascii(strip_cr(raw)))
            &&& fields.len() == st.channels.len()
            &&& next.rows == st.rows + 1
            &&& next.section == Section::Data
        },
{
    let t = crate::text::trimmed_ascii(strip_cr(raw));
    let ws = words(t);
    lemma_first_invalid(ws, 0);
}

/// A strict parse (no recovery) leaves the recovery diagnostics as they were.
proof fn lemma_strict_step_keeps_issues(options: ParseOptions, st: StreamState, raw: Seq<u8>, cut: bool)
    ensures
        step(options, false, st, raw, cut) matches Ok((next, _)) ==> next.issues == st.issues,
{
}

proof fn lemma_strict_run_keeps_issues(
    options: ParseOptions,
    st: StreamState,
    values: Seq<Seq<u8>>,
    lines: Seq<Seq<u8>>,
)
    ensures
        run(options, false, st, values, lines) matches Ok((end, _)) ==> end.issues == st.issues,
    decreases lines.len(),
{
    if lines.len() > 0 {
        lemma_strict_step_keeps_issues(options, st, lines[0], false);
        if let Ok((next, row)) = step(options, false, st, lines[0], false) {
            lemma_strict_run_keeps_issues(
                options,
                next,
                match row {
                    Some(fields) => values + fields,
                    None => values,
                },
                lines.drop_first(),
            );
        }
    }
}

/// Strict parsing is all-or-nothing: a successful strict parse has no recovery diagnostics,
/// so every malformed record made it fail.
pub proof fn law_strict_parse_keeps_no_issues(options: ParseOptions, input: Seq<u8>)
    ensures
        parse_input(options, false, input) matches Ok((st, _)) ==> st.issues.len() == 0,
{
    lemma_strict_run_keeps_issues(
        options,
        initial_state(),
        Seq::empty(),
        lines_from(input, 0),
    );
}

/// Where a line succeeds without recovery, recovery changes nothing.
proof fn lemma_step_recovery_agrees(options: ParseOptions, st: StreamState, raw: Seq<u8>, cut: bool)
    ensures
        step(options, false, st, raw, cut) is Ok ==> step(options, true, st, raw, cut) == step(
            options,
            false,
            st,
            raw,
            cut,
        ),
{
}

proof fn lemma_run_recovery_agrees(
    options: ParseOptions,
    st: StreamState,
    values: Seq<Seq<u8>>,
    lines: Seq<Seq<u8>>,
)
    ensures
        run(options, false, st, values, lines) is Ok ==> run(options, true, st, values, lines)
            == run(options, false, st, values, lines),
    decreases lines.len(),
{
    if lines.len() > 0 {
        lemma_step_recovery_agrees(options, st, lines[0], false);
        if let Ok((next, row)) = step(options, false, st, lines[0], false) {
            lemma_run_recovery_agrees(
                options,
                next,
                match row {
                    Some(fields) => values + fields,
                    None => values,
                },
                lines.drop_first(),
            );
        }
    }
}

/// An input that parses strictly parses to the same table, with no diagnostics, in recovery
/// mode: recovery only ever changes the outcome of inputs that strict parsing rejects.
pub proof fn law_recovery_agrees_with_strict_success(options: ParseOptions, input: Seq<u8>)
    ensures
        parse_input(options, false, input) is Ok ==> parse_input(options, true, input)
            == parse_input(options, false, input),
{
    lemma_run_recovery_agrees(
        options,
        initial_state(),
        Seq::empty(),
        lines_from(input, 0),
    );
}

/// The resource limits hold in a state.
pub open spec fn within_limits(options: ParseOptions, st: StreamState) -> bool {
    st.rows <= options.max_rows && st.issues.len() <= options.max_issues
}

/// Every retained value is a numeric literal.
pub open spec fn all_literals(values: Seq<Seq<u8>>) -> bool {
    forall|k: int| 0 <= k < values.len() ==> float_literal(#[trigger] values[k])
}

/// One line keeps the resource limits.
pub proof fn law_step_keeps_limits(
    options: ParseOptions,
    recover: bool,
    st: StreamState,
    raw: Seq<u8>,
    cut: bool,
)
    requires
        within_limits(options, st),
    ensures
        step(options, recover, st, raw, cut) matches Ok((next, _)) ==> within_limits(options, next),
{
}

proof fn lemma_run_invariants(
    options: ParseOptions,
    recover: bool,
    st: StreamState,
    values: Seq<Seq<u8>>,
    lines: Seq<Seq<u8>>,
)
    requires
        within_limits(options, st),
        all_literals(values),
    ensures
        run(options, recover, st, values, lines) matches Ok((end, all)) ==> within_limits(options, end)
            && all_literals(all),
    decreases lines.len(),
{
    if lines.len() > 0 {
        law_step_keeps_limits(options, recover, st, lines[0], false);
        lemma_accepted_rows_are_literal(options, recover, st, lines[0], false);
        if let Ok((next, row)) = step(options, recover, st, lines[0], false) {
            let more = match row {
                Some(fields) => values + fields,
                None => values,
            };
            assert(all_literals(more)) by {
                if let Some(fields) = row {
                    assert forall|k: int| 0 <= k < more.len() implies float_literal(
                        #[trigger] more[k],
                    ) by {
                        if k >= values.len() {
                            assert(more[k] == fields[k - values.len()]);
                        }
                    }
                }
            }
            lemma_run_invariants(options, recover, next, more, lines.drop_first());
        }
    }
}

/// A successful parse stays within its row and diagnostic limits, and every value it keeps is
/// a numeric literal: malformed records are never partially retained.
pub proof fn law_parse_is_bounded_and_numeric(options: ParseOptions, recover: bool, input: Seq<u8>)
    ensures
        parse_input(options, recover, input) matches Ok((st, values)) ==> {
            &&& st.rows <= options.max_rows
            &&& st.issues.len() <= options.max_issues
            &&& forall|k: int| 0 <= k < values.len() ==> float_literal(#[trigger] values[k])
        },
{
    lemma_run_invariants(
        options,
        recover,
        initial_state(),
        Seq::empty(),
        lines_from(input, 0),
    );
}

/// Feeding only the retained prefix of a line together with the flag that bytes were cut off
/// (what a bounded reader does) has the same effect as feeding the whole line.
pub proof fn law_bounded_line_agrees_with_whole_line(
    options: ParseOptions,
    recover: bool,
    st: StreamState,
    line: Seq<u8>,
)
    requires
        line.len() <= usize::MAX,
    ensures
        ({
            let keep = storage_limit(options.max_line_bytes);
            let retained = if line.len() < keep {
                line
            } else {
                line.take(keep as int)
            };
            step(options, recover, st, retained, line.len() > keep) == step(
                options,
                recover,
                st,
                line,
                false,
            )
        }),
{
    let keep = storage_limit(options.max_line_bytes);
    if line.len() < keep {
    } else if line.len() == keep {
        assert(line.take(keep as int) == line);
    } else {
        assert(strip_cr(line).len() >= line.len() - 1);
    }
}


proof fn lemma_lex_irreflexive(a: Seq<char>, i: int)
    requires
        0 <= i,
    ensures
        !lex_lt_from(a, a, i),
    decreases a.len() - i,
{
    if i < a.len() {
        lemma_lex_irreflexive(a, i + 1);
    }
}

proof fn lemma_lex_transitive(a: Seq<char>, b: Seq<char>, c: Seq<char>, i: int)
    requires
        0 <= i,
        lex_lt_from(a, b, i),
        lex_lt_from(b, c, i),
    ensures
        lex_lt_from(a, c, i),
    decreases a.len() - i,
{
    if i < a.len() && i < b.len() && i < c.len() && a[i] == b[i] && b[i] == c[i] {
        lemma_lex_transitive(a, b, c, i + 1);
    }
}

proof fn lemma_lex_total(a: Seq<char>, b: Seq<char>, i: int)
    requires
        0 <= i <= a.len(),
        i <= b.len(),
        forall|k: int| 0 <= k < i ==> a[k] == b[k],
        a != b,
    ensures
        lex_lt_from(a, b, i) || lex_lt_from(b, a, i),
    decreases a.len() - i,
{
    if i < a.len() && i < b.len() && a[i] == b[i] {
        lemma_lex_total(a, b, i + 1);
    } else if i < a.len() && i < b.len() {
        vstd::utf8::char_u32_cast(a[i], a[i] as u32);
        vstd::utf8::char_u32_cast(b[i], b[i] as u32);
        assert((a[i] as u32) != (b[i] as u32));
    } else if i == a.len() && i == b.len() {
        assert(a =~= b);
    }
}

/// Header sections are kept in strictly increasing name order, so each name occurs once.
pub open spec fn sections_sorted(sections: Seq<(Seq<char>, Seq<Seq<char>>)>) -> bool {
    forall|i: int, j: int|
        0 <= i < j < sections.len() ==> lex_lt(#[trigger] sections[i].0, #[trigger] sections[j].0)
}

proof fn lemma_section_index(sections: Seq<(Seq<char>, Seq<Seq<char>>)>, name: Seq<char>, i: int)
    requires
        0 <= i <= sections.len(),
    ensures
        i <= section_index_from(sections, name, i) <= sections.len(),
        forall|k: int|
            i <= k < section_index_from(sections, name, i) ==> #[trigger] sections[k].0 != name,
        section_index_from(sections, name, i) < sections.len() ==> sections[section_index_from(
            sections,
            name,
            i,
        )].0 == name,
    decreases sections.len() - i,
{
    if i < sections.len() && sections[i].0 != name {
        lemma_section_index(sections, name, i + 1);
    }
}

proof fn lemma_insert_index(sections: Seq<(Seq<char>, Seq<Seq<char>>)>, name: Seq<char>, i: int)
    requires
        0 <= i <= sections.len(),
    ensures
        i <= insert_index_from(sections, name, i) <= sections.len(),
        forall|k: int|
            i <= k < insert_index_from(sections, name, i) ==> !lex_lt(name, #[trigger] sections[k].0),
        insert_index_from(sections, name, i) < sections.len() ==> lex_lt(
            name,
            sections[insert_index_from(sections, name, i)].0,
        ),
    decreases sections.len() - i,
{
    if i < sections.len() && !lex_lt(name, sections[i].0) {
        lemma_insert_index(sections, name, i + 1);
    }
}

proof fn lemma_with_header_line_sorted(
    header: crate::types::HeaderView,
    section: Section,
    line: Seq<char>,
)
    requires
        sections_sorted(header.sections),
    ensures
        sections_sorted(with_header_line(header, section, line).sections),
{
    let secs = header.sections;
    let name = crate::section::section_name(section);
    let at = section_index_from(secs, name, 0);
    lemma_section_index(secs, name, 0);
    if at < secs.len() {
        let next = secs.update(at, (name, secs[at].1.push(line)));
        assert forall|i: int, j: int| 0 <= i < j < next.len() implies lex_lt(
            #[trigger] next[i].0,
            #[trigger] next[j].0,
        ) by {
            assert(next[i].0 == secs[i].0);
            assert(next[j].0 == secs[j].0);
        }
    } else {
        let p = insert_index_from(secs, name, 0);
        lemma_insert_index(secs, name, 0);
        let next = secs.insert(p, (name, seq![line]));
        assert forall|k: int| 0 <= k < p implies lex_lt(#[trigger] secs[k].0, name) by {
            lemma_lex_total(secs[k].0, name, 0);
        }
        assert forall|k: int| p <= k < secs.len() implies lex_lt(name, #[trigger] secs[k].0) by {
            if k > p {
                lemma_lex_transitive(name, secs[p].0, secs[k].0, 0);
            }
        }
        assert forall|i: int, j: int| 0 <= i < j < next.len() implies lex_lt(
            #[trigger] next[i].0,
            #[trigger] next[j].0,
        ) by {
            if j < p {
                assert(next[i] == secs[i] && next[j] == secs[j]);
            } else if j == p {
                assert(next[i] == secs[i]);
            } else if i < p {
                assert(next[i] == secs[i] && next[j] == secs[j - 1]);
                lemma_lex_transitive(secs[i].0, name, secs[j - 1].0, 0);
            } else if i == p {
                assert(next[j] == secs[j - 1]);
            } else {
                assert(next[i] == secs[i - 1] && next[j] == secs[j - 1]);
            }
        }
    }
}

/// One line keeps the header sections in strictly increasing name order.
pub proof fn law_step_keeps_sections_sorted(
    options: ParseOptions,
    recover: bool,
    st: StreamState,
    raw: Seq<u8>,
    cut: bool,
)
    requires
        sections_sorted(st.header.sections),
    ensures
        step(options, recover, st, raw, cut) matches Ok((next, _)) ==> sections_sorted(
            next.header.sections,
        ),
{
    let t = crate::text::trimmed_ascii(strip_cr(raw));
    let text = vstd::utf8::decode_utf8(t);
    lemma_with_header_line_sorted(st.header, Section::Preamble, text);
    lemma_with_header_line_sorted(st.header, st.section, text);
}

proof fn lemma_run_keeps_sections_sorted(
    options: ParseOptions,
    recover: bool,
    st: StreamState,
    values: Seq<Seq<u8>>,
    lines: Seq<Seq<u8>>,
)
    requires
        sections_sorted(st.header.sections),
    ensures
        run(options, recover, st, values, lines) matches Ok((end, _)) ==> sections_sorted(
            end.header.sections,
        ),
    decreases lines.len(),
{
    if lines.len() > 0 {
        law_step_keeps_sections_sorted(options, recover, st, lines[0], false);
        if let Ok((next, row)) = step(options, recover, st, lines[0], false) {
            lemma_run_keeps_sections_sorted(
                options,
                recover,
                next,
                match row {
                    Some(fields) => values + fields,
                    None => values,
                },
                lines.drop_first(),
            );
        }
    }
}

/// The header of a successful parse lists each section once, in ascending name order, as an
/// ordered map keyed by section name would.
pub proof fn law_header_sections_sorted(options: ParseOptions, recover: bool, input: Seq<u8>)
    ensures
        parse_input(options, recover, input) matches Ok((st, _)) ==> sections_sorted(
            st.header.sections,
        ),
{
    lemma_run_keeps_sections_sorted(
        options,
        recover,
        initial_state(),
        Seq::empty(),
        lines_from(input, 0),
    );
}


/// A line ending in CR LF means what the same line ending in LF means.
pub proof fn law_crlf_lines_parse_like_lf_lines(
    options: ParseOptions,
    recover: bool,
    st: StreamState,
    line: Seq<u8>,
)
    requires
        line.len() == 0 || line.last() != 13u8,
    ensures
        step(options, recover, st, line.push(13u8), false) == step(
            options,
            recover,
            st,
            line,
            false,
        ),
{
    assert(line.push(13u8).drop_last() == line);
}

proof fn lemma_normalised_concat(x: Seq<u8>, y: Seq<u8>)
    ensures
        normalised(x + y) == normalised(x) + normalised(y),
    decreases y.len(),
{
    if y.len() == 0 {
        assert(x + y == x);
        assert(normalised(y) == Seq::<u8>::empty());
    } else {
        lemma_normalised_concat(x, y.drop_last());
        assert((x + y).drop_last() == x + y.drop_last());
        assert((x + y).last() == y.last());
    }
}

/// Normalised names keep exactly the ASCII letters and digits, letters lower-cased:
/// inserting whitespace, `_`, `-` or any other byte that is not an ASCII letter or digit
/// anywhere leaves them unchanged, and an ASCII letter or digit adds itself, lower-cased, at
/// its place.
pub proof fn law_normalise_ignores_separators(before: Seq<u8>, separator: u8, after: Seq<u8>)
    ensures
        !((48u8 <= separator <= 57u8) || (65u8 <= separator <= 90u8) || (97u8 <= separator
            <= 122u8)) ==> normalised(before + seq![separator] + after) == normalised(
            before + after,
        ),
        (48u8 <= separator <= 57u8) || (97u8 <= separator <= 122u8) ==> normalised(
            before + seq![separator] + after,
        ) == normalised(before) + seq![separator] + normalised(after),
        65u8 <= separator <= 90u8 ==> normalised(before + seq![separator] + after) == normalised(
            before,
        ) + seq![(separator + 32) as u8] + normalised(after),
{
    lemma_normalised_concat(before + seq![separator], after);
    lemma_normalised_concat(before, seq![separator]);
    lemma_normalised_concat(before, after);
    let single = seq![separator];
    assert(single.drop_last() == Seq::<u8>::empty());
    assert(single.last() == separator);
    assert(normalised(single.drop_last()) == Seq::<u8>::empty());
    if is_ascii_alnum(separator) {
        assert(normalised(single) == seq![ascii_lower(separator)]);
    } else {
        assert(normalised(single) == Seq::<u8>::empty());
        assert(normalised(before) + Seq::<u8>::empty() == normalised(before));
    }
}

/// Normalised names do not depend on ASCII case.
pub proof fn law_normalise_ignores_ascii_case(s: Seq<u8>)
    ensures
        normalised(s.map_values(|b: u8| ascii_lower(b))) == normalised(s),
    decreases s.len(),
{
    if s.len() > 0 {
        law_normalise_ignores_ascii_case(s.drop_last());
        assert(s.map_values(|b: u8| ascii_lower(b)).drop_last() == s.drop_last().map_values(
            |b: u8| ascii_lower(b),
        ));
    }
}

/// Escaped text holds none of `<`, `>`, `"` and `'` and so cannot open or close markup or an
/// attribute value.
pub proof fn law_escaped_text_has_no_markup(s: Seq<u8>)
    ensures
        forall|k: int|
            0 <= k < xml_escaped(s).len() ==> {
                let b = #[trigger] xml_escaped(s)[k];
                b != 60u8 && b != 62u8 && b != 34u8 && b != 39u8
            },
    decreases s.len(),
{
    if s.len() > 0 {
        law_escaped_text_has_no_markup(s.drop_last());
        let prefix = xml_escaped(s.drop_last());
        let tail = escape_byte(s.last());
        assert forall|k: int| 0 <= k < xml_escaped(s).len() implies {
            let b = #[trigger] xml_escaped(s)[k];
            b != 60u8 && b != 62u8 && b != 34u8 && b != 39u8
        } by {
            if k >= prefix.len() {
                assert(xml_escaped(s)[k] == tail[k - prefix.len()]);
            } else {
                assert(xml_escaped(s)[k] == prefix[k]);
            }
        }
    }
}


/// A failure that a malformed data record causes on its own.
pub open spec fn record_error(e: ParseErrorView) -> bool {
    e is WrongColumnCount || e is InvalidNumber
}

proof fn lemma_recovering_step_survives_records(
    options: ParseOptions,
    st: StreamState,
    raw: Seq<u8>,
    cut: bool,
)
    ensures
        step(options, true, st, raw, cut) matches Err(e) ==> !record_error(e),
{
}

proof fn lemma_recovering_run_survives_records(
    options: ParseOptions,
    st: StreamState,
    values: Seq<Seq<u8>>,
    lines: Seq<Seq<u8>>,
)
    ensures
        run(options, true, st, values, lines) matches Err(e) ==> !record_error(e),
    decreases lines.len(),
{
    if lines.len() > 0 {
        lemma_recovering_step_survives_records(options, st, lines[0], false);
        if let Ok((next, row)) = step(options, true, st, lines[0], false) {
            lemma_recovering_run_survives_records(
                options,
                next,
                match row {
                    Some(fields) => values + fields,
                    None => values,
                },
                lines.drop_first(),
            );
        }
    }
}

/// A malformed data record never ends a recovering parse: it fails only on the header
/// structure, the encoding, a missing `[data]` section or a configured limit, never with a
/// wrong field count or an invalid number.
pub proof fn law_recovery_never_fails_on_a_record(options: ParseOptions, input: Seq<u8>)
    ensures
        parse_input(options, true, input) matches Err(e) ==> !record_error(e),
{
    lemma_recovering_run_survives_records(options, initial_state(), Seq::empty(), lines_from(input, 0));
}


/// The diagnostics cite lines `1..=line`, each once, in increasing order.
pub open spec fn issues_in_line_order(issues: Seq<ParseIssueView>, line: nat) -> bool {
    &&& forall|i: int| 0 <= i < issues.len() ==> 1 <= (#[trigger] issues[i]).line <= line
    &&& forall|i: int, j: int|
        0 <= i < j < issues.len() ==> (#[trigger] issues[i]).line < (#[trigger] issues[j]).line
}

proof fn lemma_step_keeps_issue_order(
    options: ParseOptions,
    recover: bool,
    st: StreamState,
    raw: Seq<u8>,
    cut: bool,
)
    requires
        st.line < usize::MAX,
        issues_in_line_order(st.issues, st.line),
    ensures
        step(options, recover, st, raw, cut) matches Ok((next, _)) ==> {
            &&& next.line == st.line + 1
            &&& issues_in_line_order(next.issues, next.line)
        },
{
}

proof fn lemma_lines_count(input: Seq<u8>, pos: int)
    requires
        0 <= pos,
    ensures
        lines_from(input, pos).len() <= if pos < input.len() { input.len() - pos } else { 0 },
    decreases input.len() - pos,
{
    if pos < input.len() {
        lemma_newline_from(input, pos);
        let nl = newline_from(input, pos);
        if nl < input.len() {
            lemma_lines_count(input, nl + 1);
        }
    }
}

proof fn lemma_run_keeps_issue_order(
    options: ParseOptions,
    recover: bool,
    st: StreamState,
    values: Seq<Seq<u8>>,
    lines: Seq<Seq<u8>>,
)
    requires
        st.line + lines.len() <= usize::MAX,
        issues_in_line_order(st.issues, st.line),
    ensures
        run(options, recover, st, values, lines) matches Ok((end, _)) ==> issues_in_line_order(
            end.issues,
            end.line,
        ),
    decreases lines.len(),
{
    if lines.len() > 0 {
        lemma_step_keeps_issue_order(options, recover, st, lines[0], false);
        if let Ok((next, row)) = step(options, recover, st, lines[0], false) {
            lemma_run_keeps_issue_order(
                options,
                recover,
                next,
                match row {
                    Some(fields) => values + fields,
                    None => values,
                },
                lines.drop_first(),
            );
        }
    }
}

/// Diagnostics are line-level: a successful parse of an input that fits in memory reports
/// each skipped record under its own physical line number, at most once per line, in
/// increasing line order.
pub proof fn law_issues_in_line_order(options: ParseOptions, recover: bool, input: Seq<u8>)
    requires
        input.len() <= usize::MAX,
    ensures
        parse_input(options, recover, input) matches Ok((st, _)) ==> issues_in_line_order(
            st.issues,
            st.line,
        ),
{
    lemma_lines_count(input, 0);
    lemma_run_keeps_issue_order(options, recover, initial_state(), Seq::empty(), lines_from(input, 0));
}


/// `values` holds the records of `rows` one after another, each of `width` fields: the table
/// is rectangular, and record `i` is the `i`-th block of `width` values.
pub open spec fn table_holds(values: Seq<Seq<u8>>, width: nat, rows: Seq<Seq<Seq<u8>>>) -> bool {
    &&& values.len() == rows.len() * width
    &&& forall|i: int|
        0 <= i < rows.len() ==> #[trigger] rows[i] == values.subrange(i * width, i * width + width)
}

/// The data records delivered, in order, while the lines are parsed from state `st`: the
/// fields of each line accepted as a row, up to the first error.
pub open spec fn delivered_rows(
    options: ParseOptions,
    recover: bool,
    st: StreamState,
    lines: Seq<Seq<u8>>,
) -> Seq<Seq<Seq<u8>>>
    decreases lines.len(),
{
    if lines.len() == 0 {
        Seq::empty()
    } else {
        match step(options, recover, st, lines[0], false) {
            Err(_) => Seq::empty(),
            Ok((next, row)) => {
                let rest = delivered_rows(options, recover, next, lines.drop_first());
                match row {
                    Some(fields) => seq![fields] + rest,
                    None => rest,
                }
            },
        }
    }
}

proof fn lemma_table_push(values: Seq<Seq<u8>>, width: nat, rows: Seq<Seq<Seq<u8>>>, fields: Seq<Seq<u8>>)
    requires
        table_holds(values, width, rows),
        fields.len() == width,
    ensures
        table_holds(values + fields, width, rows.push(fields)),
{
    let k: int = rows.len() as int;
    let all = values + fields;
    assert((k + 1) * width == k * width + width) by (nonlinear_arith);
    assert forall|i: int| 0 <= i < rows.push(fields).len() implies #[trigger] rows.push(fields)[i]
        == all.subrange(i * width, i * width + width) by {
        if i < k {
            assert(i * width + width <= k * width) by (nonlinear_arith)
                requires
                    0 <= i < k,
            ;
            assert(0 <= i * width) by (nonlinear_arith)
                requires
                    0 <= i,
            ;
            assert(all.subrange(i * width, i * width + width) =~= values.subrange(
                i * width,
                i * width + width,
            ));
        } else {
            assert(all.subrange(k * width, k * width + width) =~= fields);
        }
    }
}

/// A step keeps the table laid out as `width`-field records of the rows delivered so far.
/// While no row has been delivered the schema may still grow; once `[data]` has been seen it
/// is fixed.
proof fn lemma_step_keeps_table(
    options: ParseOptions,
    recover: bool,
    st: StreamState,
    values: Seq<Seq<u8>>,
    prior: Seq<Seq<Seq<u8>>>,
    raw: Seq<u8>,
)
    requires
        st.section == Section::Data ==> st.data_seen,
        !st.data_seen ==> st.rows == 0,
        prior.len() == st.rows,
        table_holds(values, st.channels.len(), prior),
    ensures
        step(options, recover, st, raw, false) matches Ok((next, row)) ==> {
            let values2 = match row {
                Some(fields) => values + fields,
                None => values,
            };
            let prior2 = match row {
                Some(fields) => prior.push(fields),
                None => prior,
            };
            &&& next.section == Section::Data ==> next.data_seen
            &&& !next.data_seen ==> next.rows == 0
            &&& prior2.len() == next.rows
            &&& table_holds(values2, next.channels.len(), prior2)
        },
{
    lemma_accepted_rows_are_literal(options, recover, st, raw, false);
    if let Ok((next, row)) = step(options, recover, st, raw, false) {
        match row {
            Some(fields) => {
                lemma_table_push(values, st.channels.len(), prior, fields);
            },
            None => {
                if st.rows == 0 {
                    assert(values.len() == 0) by (nonlinear_arith)
                        requires
                            values.len() == prior.len() * st.channels.len(),
                            prior.len() == 0,
                    ;
                    assert(0 * next.channels.len() == 0) by (nonlinear_arith);
                } else {
                    assert(next.channels.len() == st.channels.len());
                }
            },
        }
    }
}

proof fn lemma_run_keeps_table(
    options: ParseOptions,
    recover: bool,
    st: StreamState,
    values: Seq<Seq<u8>>,
    prior: Seq<Seq<Seq<u8>>>,
    lines: Seq<Seq<u8>>,
)
    requires
        st.section == Section::Data ==> st.data_seen,
        !st.data_seen ==> st.rows == 0,
        prior.len() == st.rows,
        table_holds(values, st.channels.len(), prior),
    ensures
        run(options, recover, st, values, lines) matches Ok((end, all)) ==> {
            let rows = prior + delivered_rows(options, recover, st, lines);
            &&& rows.len() == end.rows
            &&& table_holds(all, end.channels.len(), rows)
        },
    decreases lines.len(),
{
    if lines.len() == 0 {
        assert(prior + delivered_rows(options, recover, st, lines) =~= prior);
    } else {
        lemma_step_keeps_table(options, recover, st, values, prior, lines[0]);
        if let Ok((next, row)) = step(options, recover, st, lines[0], false) {
            let values2 = match row {
                Some(fields) => values + fields,
                None => values,
            };
            let prior2 = match row {
                Some(fields) => prior.push(fields),
                None => prior,
            };
            lemma_run_keeps_table(options, recover, next, values2, prior2, lines.drop_first());
            let rest = delivered_rows(options, recover, next, lines.drop_first());
            match row {
                Some(fields) => {
                    assert(prior2 + rest =~= prior + (seq![fields] + rest));
                },
                None => {},
            }
        }
    }
}

/// The table of a successful parse is rectangular and row-major: it holds exactly the records
/// delivered line by line, in order, each with one field per channel, and counts exactly those
/// records as its rows. Record `i` is the values `i * width .. (i + 1) * width`.
pub proof fn law_table_holds_the_delivered_rows(options: ParseOptions, recover: bool, input: Seq<u8>)
    ensures
        parse_input(options, recover, input) matches Ok((st, values)) ==> {
            let rows = delivered_rows(options, recover, initial_state(), lines_from(input, 0));
            &&& rows.len() == st.rows
            &&& values.len() == st.rows * st.channels.len()
            &&& table_holds(values, st.channels.len(), rows)
        },
{
    let empty_rows = Seq::<Seq<Seq<u8>>>::empty();
    assert(table_holds(Seq::empty(), 0, empty_rows));
    lemma_run_keeps_table(
        options,
        recover,
        initial_state(),
        Seq::empty(),
        empty_rows,
        lines_from(input, 0),
    );
    assert(empty_rows + delivered_rows(options, recover, initial_state(), lines_from(input, 0))
        =~= delivered_rows(options, recover, initial_state(), lines_from(input, 0)));
}

/// Each line advances the line number by one, and the row count by one exactly when the line
/// is delivered as a row: a streaming consumer sees rows numbered `0, 1, 2, ...` from strictly
/// increasing lines, and the final row count is the number of rows delivered.
pub proof fn law_step_counts_rows_and_lines(
    options: ParseOptions,
    recover: bool,
    st: StreamState,
    raw: Seq<u8>,
    cut: bool,
)
    requires
        st.line < usize::MAX,
    ensures
        step(options, recover, st, raw, cut) matches Ok((next, row)) ==> {
            &&& next.line == st.line + 1
            &&& next.rows == st.rows + if row is Some { 1int } else { 0int }
        },
{
}


proof fn lemma_lookup_key_concat(x: Seq<u8>, y: Seq<u8>)
    ensures
        lookup_key(x + y) == lookup_key(x) + lookup_key(y),
    decreases y.len(),
{
    if y.len() == 0 {
        assert(x + y == x);
        assert(lookup_key(y) == Seq::<u8>::empty());
    } else {
        lemma_lookup_key_concat(x, y.drop_last());
        assert((x + y).drop_last() == x + y.drop_last());
        assert((x + y).last() == y.last());
    }
}

/// Column lookup compares names one byte at a time: the key of `before`, one byte and
/// `after` is the key of `before`, that byte's contribution, then the key of `after`. A
/// separator (ASCII whitespace, `_`, `-`) contributes nothing; any other byte contributes
/// itself, ASCII letters lower-cased, so `.` or `/` still tell names apart.
pub proof fn law_lookup_ignores_only_separators(before: Seq<u8>, b: u8, after: Seq<u8>)
    ensures
        (b == 32u8 || b == 9u8 || b == 10u8 || b == 12u8 || b == 13u8 || b == 95u8 || b == 45u8)
            ==> lookup_key(before + seq![b] + after) == lookup_key(before + after),
        !(b == 32u8 || b == 9u8 || b == 10u8 || b == 12u8 || b == 13u8 || b == 95u8 || b == 45u8)
            && !(65u8 <= b <= 90u8) ==> lookup_key(before + seq![b] + after) == lookup_key(before)
            + seq![b] + lookup_key(after),
        65u8 <= b <= 90u8 ==> lookup_key(before + seq![b] + after) == lookup_key(before)
            + seq![(b + 32) as u8] + lookup_key(after),
{
    lemma_lookup_key_concat(before + seq![b], after);
    lemma_lookup_key_concat(before, seq![b]);
    lemma_lookup_key_concat(before, after);
    let single = seq![b];
    assert(single.drop_last() == Seq::<u8>::empty());
    assert(single.last() == b);
    assert(lookup_key(single.drop_last()) == Seq::<u8>::empty());
    if is_lookup_separator(b) {
        assert(lookup_key(single) == Seq::<u8>::empty());
        assert(lookup_key(before) + Seq::<u8>::empty() == lookup_key(before));
    } else {
        assert(lookup_key(single) == seq![ascii_lower(b)]);
    }
}

/// Column lookup does not depend on ASCII case.
pub proof fn law_lookup_ignores_ascii_case(s: Seq<u8>)
    ensures
        lookup_key(s.map_values(|b: u8| ascii_lower(b))) == lookup_key(s),
    decreases s.len(),
{
    if s.len() > 0 {
        law_lookup_ignores_ascii_case(s.drop_last());
        assert(s.map_values(|b: u8| ascii_lower(b)).drop_last() == s.drop_last().map_values(
            |b: u8| ascii_lower(b),
        ));
    }
}


/// Recovery handles every line as strict parsing does, except a malformed data record: such a
/// line is not delivered, strict parsing would fail on it (wrong field count, invalid number
/// or over-long), and recovery records exactly one diagnostic citing that line.
pub proof fn law_recovery_cites_each_malformed_record_once(
    options: ParseOptions,
    st: StreamState,
    raw: Seq<u8>,
    cut: bool,
)
    ensures
        step(options, true, st, raw, cut) matches Ok((next, row)) ==> {
            ||| {
                &&& next.issues == st.issues
                &&& step(options, false, st, raw, cut) == step(options, true, st, raw, cut)
            }
            ||| {
                &&& row is None
                &&& st.section == Section::Data
                &&& next.issues.len() == st.issues.len() + 1
                &&& next.issues.drop_last() == st.issues
                &&& next.issues.last().line == next.line
                &&& step(options, false, st, raw, cut) matches Err(e) && (record_error(e)
                    || e is LineTooLong)
            }
        },
{
    lemma_step_recovery_agrees(options, st, raw, cut);
}


/// What a streaming consumer observes when it feeds `lines` one at a time from state `st` and
/// then finishes: the rows handed out, in order, each with the physical line it came from, and
/// the final report state or the first error.
pub open spec fn stream_run(
    options: ParseOptions,
    recover: bool,
    st: StreamState,
    lines: Seq<Seq<u8>>,
) -> (Seq<(nat, Seq<Seq<u8>>)>, Result<StreamState, ParseErrorView>)
    decreases lines.len(),
{
    if lines.len() == 0 {
        (Seq::empty(), finish_state(st))
    } else {
        match step(options, recover, st, lines[0], false) {
            Err(e) => (Seq::empty(), Err(e)),
            Ok((next, row)) => {
                let (rest, outcome) = stream_run(options, recover, next, lines.drop_first());
                match row {
                    Some(fields) => (seq![(next.line, fields)] + rest, outcome),
                    None => (rest, outcome),
                }
            },
        }
    }
}

/// The rows of a list of handed-out `(line, row)` pairs.
pub open spec fn rows_of(calls: Seq<(nat, Seq<Seq<u8>>)>) -> Seq<Seq<Seq<u8>>> {
    calls.map_values(|c: (nat, Seq<Seq<u8>>)| c.1)
}

proof fn lemma_stream_run_is_run(
    options: ParseOptions,
    recover: bool,
    st: StreamState,
    values: Seq<Seq<u8>>,
    lines: Seq<Seq<u8>>,
)
    ensures
        rows_of(stream_run(options, recover, st, lines).0) == delivered_rows(
            options,
            recover,
            st,
            lines,
        ),
        stream_run(options, recover, st, lines).1 == match run(options, recover, st, values, lines) {
            Err(e) => Err(e),
            Ok((end, _)) => finish_state(end),
        },
    decreases lines.len(),
{
    if lines.len() == 0 {
        assert(rows_of(Seq::<(nat, Seq<Seq<u8>>)>::empty()) =~= Seq::<Seq<Seq<u8>>>::empty());
    } else {
        match step(options, recover, st, lines[0], false) {
            Err(_) => {
                assert(rows_of(Seq::<(nat, Seq<Seq<u8>>)>::empty()) =~= Seq::<Seq<Seq<u8>>>::empty());
            },
            Ok((next, row)) => {
                let values2 = match row {
                    Some(fields) => values + fields,
                    None => values,
                };
                lemma_stream_run_is_run(options, recover, next, values2, lines.drop_first());
                let rest = stream_run(options, recover, next, lines.drop_first()).0;
                match row {
                    Some(fields) => {
                        assert(rows_of(seq![(next.line, fields)] + rest) =~= seq![fields]
                            + rows_of(rest));
                    },
                    None => {},
                }
            },
        }
    }
}

/// The calls of a streaming run: each row's line lies in `(from, to]`, lines strictly increase
/// from call to call, and each row holds the words of its own line.
pub open spec fn calls_in_line_order(
    calls: Seq<(nat, Seq<Seq<u8>>)>,
    lines: Seq<Seq<u8>>,
    from: nat,
) -> bool {
    &&& forall|k: int|
        0 <= k < calls.len() ==> from < (#[trigger] calls[k]).0 <= from + lines.len()
    &&& forall|k: int, j: int|
        0 <= k < j < calls.len() ==> (#[trigger] calls[k]).0 < (#[trigger] calls[j]).0
    &&& forall|k: int|
        0 <= k < calls.len() ==> (#[trigger] calls[k]).1 == words(
            trimmed_ascii(strip_cr(lines[calls[k].0 - from - 1])),
        )
}

proof fn lemma_stream_calls(
    options: ParseOptions,
    recover: bool,
    st: StreamState,
    lines: Seq<Seq<u8>>,
)
    requires
        st.line + lines.len() <= usize::MAX,
        st.section == Section::Data ==> st.data_seen,
    ensures
        calls_in_line_order(stream_run(options, recover, st, lines).0, lines, st.line),
        stream_run(options, recover, st, lines).1 matches Ok(end) ==> {
            &&& end.rows == st.rows + stream_run(options, recover, st, lines).0.len()
            &&& end.line == st.line + lines.len()
            &&& (st.data_seen ==> end.channels.len() == st.channels.len())
            &&& forall|k: int|
                0 <= k < stream_run(options, recover, st, lines).0.len() ==> (#[trigger] stream_run(
                    options,
                    recover,
                    st,
                    lines,
                ).0[k]).1.len() == end.channels.len()
        },
    decreases lines.len(),
{
    let (calls, outcome) = stream_run(options, recover, st, lines);
    if lines.len() > 0 {
        lemma_accepted_rows_are_literal(options, recover, st, lines[0], false);
        if let Ok((next, row)) = step(options, recover, st, lines[0], false) {
            let tail = lines.drop_first();
            lemma_stream_calls(options, recover, next, tail);
            let (rest, out2) = stream_run(options, recover, next, tail);
            assert(next.line == st.line + 1);
            assert forall|k: int| 0 <= k < rest.len() implies (#[trigger] rest[k]).1 == words(
                trimmed_ascii(strip_cr(lines[rest[k].0 - st.line - 1])),
            ) by {
                assert(rest[k].1 == words(trimmed_ascii(strip_cr(tail[rest[k].0 - next.line - 1]))));
                assert(tail[rest[k].0 - next.line - 1] == lines[rest[k].0 - st.line - 1]);
            }
            match row {
                Some(fields) => {
                    let head = seq![(next.line, fields)];
                    assert(calls == head + rest);
                    assert forall|k: int| 0 <= k < calls.len() implies st.line < (#[trigger] calls[k]).0
                        <= st.line + lines.len() by {
                        if k > 0 {
                            assert(calls[k] == rest[k - 1]);
                        }
                    }
                    assert forall|k: int, j: int| 0 <= k < j < calls.len() implies (#[trigger] calls[k]).0
                        < (#[trigger] calls[j]).0 by {
                        assert(calls[j] == rest[j - 1]);
                        if k > 0 {
                            assert(calls[k] == rest[k - 1]);
                        }
                    }
                    assert forall|k: int| 0 <= k < calls.len() implies (#[trigger] calls[k]).1 == words(
                        trimmed_ascii(strip_cr(lines[calls[k].0 - st.line - 1])),
                    ) by {
                        if k > 0 {
                            assert(calls[k] == rest[k - 1]);
                        } else {
                            assert(lines[0] == lines[calls[k].0 - st.line - 1]);
                        }
                    }
                    if let Ok(end) = outcome {
                        assert forall|k: int| 0 <= k < calls.len() implies (#[trigger] calls[k]).1.len()
                            == end.channels.len() by {
                            if k > 0 {
                                assert(calls[k] == rest[k - 1]);
                            }
                        }
                    }
                },
                None => {},
            }
        }
    }
}

/// A streaming run over any lines, fed one at a time to a fresh parser, hands out its rows
/// from strictly increasing physical lines (numbered from 1), each row holding the words of
/// its own line; when the run finishes, the report counts exactly the rows handed out, and
/// each of them has one value per reported channel. Handing row `k` out is the `k`-th call,
/// so row indices count `0, 1, 2, ...`.
pub proof fn law_stream_calls_match_the_report(
    options: ParseOptions,
    recover: bool,
    lines: Seq<Seq<u8>>,
)
    requires
        lines.len() <= usize::MAX,
    ensures
        ({
            let (calls, outcome) = stream_run(options, recover, initial_state(), lines);
            &&& calls_in_line_order(calls, lines, 0)
            &&& outcome matches Ok(end) ==> {
                &&& end.rows == calls.len()
                &&& end.line == lines.len()
                &&& forall|k: int| 0 <= k < calls.len() ==> (#[trigger] calls[k]).1.len() == end.channels.len()
            }
        }),
{
    lemma_stream_calls(options, recover, initial_state(), lines);
}

/// Parsing bytes in memory and streaming their lines agree, in strict and in recovery mode:
/// both fail with the same error, or the table's metadata, channels, row count and
/// diagnostics are the streaming report's, and its rows are exactly the rows the stream
/// handed out, in order, laid out row-major.
pub proof fn law_stream_and_table_agree(options: ParseOptions, recover: bool, input: Seq<u8>)
    ensures
        ({
            let (calls, outcome) = stream_run(options, recover, initial_state(), lines_from(input, 0));
            match parse_input(options, recover, input) {
                Err(e) => outcome == Err::<StreamState, ParseErrorView>(e),
                Ok((st, values)) => {
                    &&& outcome == Ok::<StreamState, ParseErrorView>(st)
                    &&& st.rows == calls.len()
                    &&& table_holds(values, st.channels.len(), rows_of(calls))
                },
            }
        }),
{
    lemma_stream_run_is_run(options, recover, initial_state(), Seq::empty(), lines_from(input, 0));
    law_table_holds_the_delivered_rows(options, recover, input);
}


/// A skipped record's diagnostic keeps what made the record malformed: its line, and the
/// expected and found field counts, the column and text of the invalid number, or the line
/// limit.
pub proof fn law_issues_keep_the_defect(e: ParseErrorView)
    ensures
        e matches ParseErrorView::WrongColumnCount { line, expected, found } ==> issue_for(e)
            == (ParseIssueView {
            line,
            kind: ParseIssueKindView::WrongColumnCount { expected, found },
        }),
        e matches ParseErrorView::InvalidNumber { line, column, value } ==> issue_for(e)
            == (ParseIssueView { line, kind: ParseIssueKindView::InvalidNumber { column, value } }),
        e matches ParseErrorView::LineTooLong { line, limit } ==> issue_for(e) == (ParseIssueView {
            line,
            kind: ParseIssueKindView::LineTooLong { limit },
        }),
{
}

/// Units are assigned by position: the `i`-th declared unit labels the `i`-th channel, a
/// channel beyond the declared units keeps the unit it had, units beyond the channels are
/// ignored, and no channel is added, removed or renamed.
pub proof fn law_units_by_position(channels: Seq<ChannelView>, units: Seq<Seq<char>>)
    ensures
        with_units(channels, units).len() == channels.len(),
        forall|i: int|
            0 <= i < channels.len() ==> (#[trigger] with_units(channels, units)[i]).name
                == channels[i].name,
        forall|i: int|
            0 <= i < channels.len() && i < units.len() ==> (#[trigger] with_units(
                channels,
                units,
            )[i]).unit == Some(units[i]),
        forall|i: int|
            0 <= i < channels.len() && units.len() <= i ==> (#[trigger] with_units(
                channels,
                units,
            )[i]).unit == channels[i].unit,
{
}


/// The bytes that separate fields and that trimming removes: space, tab, line feed, form feed
/// and carriage return.
pub open spec fn field_separator(b: u8) -> bool {
    b == 32u8 || b == 9u8 || b == 10u8 || b == 12u8 || b == 13u8
}

proof fn lemma_words_from_shape(s: Seq<u8>, i: int)
    requires
        0 <= i <= s.len(),
    ensures
        forall|k: int|
            0 <= k < words_from(s, i).len() ==> (#[trigger] words_from(s, i)[k]).len() > 0
                && forall|m: int|
                0 <= m < words_from(s, i)[k].len() ==> !field_separator(words_from(s, i)[k][m]),
    decreases s.len() - i,
{
    lemma_ws_end(s, i);
    let j = ws_end(s, i);
    if j < s.len() {
        lemma_nonws_end(s, j);
        let e = nonws_end(s, j);
        lemma_words_from_shape(s, e);
        let w = s.subrange(j, e);
        let rest = words_from(s, e);
        assert(words_from(s, i) == seq![w] + rest);
        assert forall|k: int| 0 <= k < words_from(s, i).len() implies (#[trigger] words_from(
            s,
            i,
        )[k]).len() > 0 && forall|m: int|
            0 <= m < words_from(s, i)[k].len() ==> !field_separator(words_from(s, i)[k][m]) by {
            if k == 0 {
                assert(words_from(s, i)[k] == w);
                assert forall|m: int| 0 <= m < w.len() implies !field_separator(w[m]) by {
                    assert(w[m] == s[j + m]);
                }
            } else {
                assert(words_from(s, i)[k] == rest[k - 1]);
            }
        }
    }
}

/// Fields are split at ASCII whitespace and nowhere else: every word is non-empty and holds
/// no space, tab, line feed, form feed or carriage return; a non-empty text without such a byte
/// is a single word, itself; and a text made only of such bytes has no word.
pub proof fn law_words_split_at_ascii_whitespace(s: Seq<u8>)
    ensures
        forall|k: int|
            0 <= k < words(s).len() ==> (#[trigger] words(s)[k]).len() > 0 && forall|m: int|
                0 <= m < words(s)[k].len() ==> !field_separator(words(s)[k][m]),
        s.len() > 0 && (forall|m: int| 0 <= m < s.len() ==> !field_separator(#[trigger] s[m]))
            ==> words(s) == seq![s],
        (forall|m: int| 0 <= m < s.len() ==> field_separator(#[trigger] s[m])) ==> words(s).len()
            == 0,
{
    lemma_words_from_shape(s, 0);
    lemma_ws_end(s, 0);
    if s.len() > 0 && (forall|m: int| 0 <= m < s.len() ==> !field_separator(#[trigger] s[m])) {
        assert(ws_end(s, 0) == 0) by {
            assert(!field_separator(s[0]));
        }
        lemma_nonws_end(s, 0);
        if nonws_end(s, 0) < s.len() {
            assert(!field_separator(s[nonws_end(s, 0)]));
        }
        assert(nonws_end(s, 0) == s.len());
        assert(s.subrange(0, s.len() as int) == s);
        lemma_ws_end(s, s.len() as int);
        assert(ws_end(s, s.len() as int) == s.len());
        assert(words_from(s, s.len() as int) =~= Seq::<Seq<u8>>::empty());
        assert(words_from(s, 0) == seq![s.subrange(0, s.len() as int)] + words_from(
            s,
            s.len() as int,
        ));
        assert(words(s) =~= seq![s]);
    }
    if forall|m: int| 0 <= m < s.len() ==> field_separator(#[trigger] s[m]) {
        if ws_end(s, 0) < s.len() {
            assert(field_separator(s[ws_end(s, 0)]));
        }
    }
}

/// Trimming removes exactly the leading and trailing ASCII whitespace: the result is a
/// contiguous part of the text, everything cut off on either side is a space, tab, line feed,
/// form feed or carriage return, and the result neither starts nor ends with one.
pub proof fn law_trim_removes_only_outer_whitespace(s: Seq<u8>)
    ensures
        exists|a: int, b: int|
            #![trigger s.subrange(a, b)]
            {
                &&& 0 <= a <= b <= s.len()
                &&& trimmed_ascii(s) == s.subrange(a, b)
                &&& forall|m: int| 0 <= m < a ==> field_separator(#[trigger] s[m])
                &&& forall|m: int| b <= m < s.len() ==> field_separator(#[trigger] s[m])
            },
        trimmed_ascii(s).len() > 0 ==> !field_separator(trimmed_ascii(s)[0]) && !field_separator(
            trimmed_ascii(s).last(),
        ),
{
    lemma_ws_end(s, 0);
    lemma_ws_start_back(s, s.len() as int);
    let a = ws_end(s, 0);
    let b = ws_start_back(s, s.len() as int);
    if b <= a {
        assert(trimmed_ascii(s) == s.subrange(a, a));
        assert forall|m: int| a <= m < s.len() implies field_separator(#[trigger] s[m]) by {}
    } else {
        assert(trimmed_ascii(s) == s.subrange(a, b));
        assert(trimmed_ascii(s)[0] == s[a]);
        assert(trimmed_ascii(s).last() == s[b - 1]);
    }
}


/// Every byte of `d` is an ASCII digit.
pub open spec fn all_digits(d: Seq<u8>) -> bool {
    forall|m: int| 0 <= m < d.len() ==> 48u8 <= #[trigger] d[m] <= 57u8
}

/// A byte that may occur in a numeric literal: a digit, a sign, the decimal point, or an ASCII
/// letter (of an exponent marker, `inf`, `infinity` or `nan`).
pub open spec fn literal_byte(b: u8) -> bool {
    ||| 48u8 <= b <= 57u8
    ||| b == 43u8
    ||| b == 45u8
    ||| b == 46u8
    ||| 65u8 <= b <= 90u8
    ||| 97u8 <= b <= 122u8
}

proof fn lemma_digits_end(s: Seq<u8>, i: int)
    requires
        0 <= i <= s.len(),
    ensures
        i <= digits_end(s, i) <= s.len(),
        forall|m: int| i <= m < digits_end(s, i) ==> 48u8 <= #[trigger] s[m] <= 57u8,
        digits_end(s, i) < s.len() ==> !(48u8 <= s[digits_end(s, i)] <= 57u8),
    decreases s.len() - i,
{
    if i < s.len() && 48u8 <= s[i] <= 57u8 {
        lemma_digits_end(s, i + 1);
    }
}

proof fn lemma_exponent_bytes(s: Seq<u8>, i: int)
    requires
        0 <= i <= s.len(),
        exponent_from(s, i),
    ensures
        forall|m: int| i <= m < s.len() ==> literal_byte(#[trigger] s[m]),
{
    if i < s.len() {
        let j = if i + 1 < s.len() && (s[i + 1] == 43u8 || s[i + 1] == 45u8) {
            i + 2
        } else {
            i + 1
        };
        lemma_digits_end(s, j);
        assert forall|m: int| i <= m < s.len() implies literal_byte(#[trigger] s[m]) by {
            if m >= j {
                assert(48u8 <= s[m] <= 57u8);
            }
        }
    }
}

proof fn lemma_word_bytes(s: Seq<u8>, i: int, w: Seq<u8>)
    requires
        lower_eq_from(s, i, w),
        forall|q: int| 0 <= q < w.len() ==> 97u8 <= #[trigger] w[q] <= 122u8,
    ensures
        forall|m: int| i <= m < s.len() ==> literal_byte(#[trigger] s[m]),
{
    assert forall|m: int| i <= m < s.len() implies literal_byte(#[trigger] s[m]) by {
        assert(ascii_lower(s[i + (m - i)]) == w[m - i]);
        assert(97u8 <= w[m - i] <= 122u8);
    }
}

/// Number syntax: a literal is never empty and consists only of digits, signs, the decimal
/// point and ASCII letters, so a comma, a space, a colon or any other byte makes a field
/// invalid. Conversely every non-empty run of digits is a literal, with or without a leading
/// `+` or `-`; so is a decimal `digits.digits` with digits on at least one side of the point,
/// and such a decimal followed by `e` or `E` and a non-empty run of digits.
pub proof fn law_number_syntax(s: Seq<u8>, d1: Seq<u8>, d2: Seq<u8>, d3: Seq<u8>)
    requires
        all_digits(d1),
        all_digits(d2),
        all_digits(d3),
    ensures
        float_literal(s) ==> s.len() > 0 && forall|m: int| 0 <= m < s.len() ==> literal_byte(
            #[trigger] s[m],
        ),
        d1.len() > 0 ==> float_literal(d1),
        d1.len() > 0 ==> float_literal(seq![45u8] + d1),
        d1.len() > 0 ==> float_literal(seq![43u8] + d1),
        d1.len() + d2.len() > 0 ==> float_literal(d1 + seq![46u8] + d2),
        d1.len() + d2.len() > 0 && d3.len() > 0 ==> float_literal(
            d1 + seq![46u8] + d2 + seq![101u8] + d3,
        ),
        d1.len() + d2.len() > 0 && d3.len() > 0 ==> float_literal(
            d1 + seq![46u8] + d2 + seq![69u8] + seq![45u8] + d3,
        ),
{
    if float_literal(s) {
        let i: int = if s.len() > 0 && (s[0] == 43u8 || s[0] == 45u8) {
            1
        } else {
            0
        };
        assert forall|q: int| 0 <= q < inf_word().len() implies 97u8 <= #[trigger] inf_word()[q]
            <= 122u8 by {
            if q == 0 {
            } else if q == 1 {
            } else {
            }
        }
        assert forall|q: int| 0 <= q < nan_word().len() implies 97u8 <= #[trigger] nan_word()[q]
            <= 122u8 by {
            if q == 0 {
            } else if q == 1 {
            } else {
            }
        }
        assert forall|q: int| 0 <= q < infinity_word().len() implies 97u8 <= #[trigger] infinity_word()[q]
            <= 122u8 by {
            if q == 0 {
            } else if q == 1 {
            } else if q == 2 {
            } else if q == 3 {
            } else if q == 4 {
            } else if q == 5 {
            } else if q == 6 {
            } else {
            }
        }
        if lower_eq_from(s, i, inf_word()) {
            lemma_word_bytes(s, i, inf_word());
        } else if lower_eq_from(s, i, infinity_word()) {
            lemma_word_bytes(s, i, infinity_word());
        } else if lower_eq_from(s, i, nan_word()) {
            lemma_word_bytes(s, i, nan_word());
        } else {
            assert(number_from(s, i));
            lemma_digits_end(s, i);
            let e1 = digits_end(s, i);
            if e1 < s.len() && s[e1] == 46u8 {
                lemma_digits_end(s, e1 + 1);
                let e2 = digits_end(s, e1 + 1);
                lemma_exponent_bytes(s, e2);
                assert forall|m: int| 0 <= m < s.len() implies literal_byte(#[trigger] s[m]) by {
                    if m < i {
                    } else if m < e1 {
                        assert(48u8 <= s[m] <= 57u8);
                    } else if m == e1 {
                    } else if m < e2 {
                        assert(48u8 <= s[m] <= 57u8);
                    }
                }
            } else {
                lemma_exponent_bytes(s, e1);
                assert forall|m: int| 0 <= m < s.len() implies literal_byte(#[trigger] s[m]) by {
                    if m < i {
                    } else if m < e1 {
                        assert(48u8 <= s[m] <= 57u8);
                    }
                }
            }
        }
    }
    if d1.len() > 0 {
        lemma_digits_run(d1, 0);
        let neg = seq![45u8] + d1;
        let pos = seq![43u8] + d1;
        lemma_digits_run(neg, 1);
        lemma_digits_run(pos, 1);
    }
    if d1.len() + d2.len() > 0 {
        let t = d1 + seq![46u8] + d2;
        lemma_digits_run_to(t, 0, d1.len() as int);
        lemma_digits_run(t, d1.len() + 1int);
        assert(t[d1.len() as int] == 46u8);
        if d3.len() > 0 {
            let u = d1 + seq![46u8] + d2 + seq![101u8] + d3;
            let k: int = (d1.len() + 1 + d2.len()) as int;
            lemma_digits_run_to(u, 0, d1.len() as int);
            assert(u[d1.len() as int] == 46u8);
            lemma_digits_run_to(u, d1.len() + 1int, k);
            assert(u[k] == 101u8);
            lemma_digits_run(u, k + 1);
            assert(48u8 <= u[k + 1] <= 57u8);
            let v = d1 + seq![46u8] + d2 + seq![69u8] + seq![45u8] + d3;
            lemma_digits_run_to(v, 0, d1.len() as int);
            assert(v[d1.len() as int] == 46u8);
            lemma_digits_run_to(v, d1.len() + 1int, k);
            assert(v[k] == 69u8);
            assert(v[k + 1] == 45u8);
            lemma_digits_run(v, k + 2);
        }
    }
}

/// `digits_end` runs to the end of a tail made only of digits.
proof fn lemma_digits_run(s: Seq<u8>, i: int)
    requires
        0 <= i <= s.len(),
        forall|m: int| i <= m < s.len() ==> 48u8 <= #[trigger] s[m] <= 57u8,
    ensures
        digits_end(s, i) == s.len(),
    decreases s.len() - i,
{
    if i < s.len() {
        lemma_digits_run(s, i + 1);
    }
}

/// `digits_end` stops at `j` when `s[i..j]` are digits and `s[j]` is not.
proof fn lemma_digits_run_to(s: Seq<u8>, i: int, j: int)
    requires
        0 <= i <= j < s.len(),
        forall|m: int| i <= m < j ==> 48u8 <= #[trigger] s[m] <= 57u8,
        !(48u8 <= s[j] <= 57u8),
    ensures
        digits_end(s, i) == j,
    decreases j - i,
{
    if i < j {
        lemma_digits_run_to(s, i + 1, j);
    }
}


/// Section markers and section names agree. Each section is kept under its own name
/// (`preamble`, `header`, `channel units`, `comments`, `column names`, `data`, `other`),
/// distinct sections have distinct names, the marker `[name]` for a known section's name
/// opens that section, and a line that is not enclosed in `[` and `]` is never a marker.
pub proof fn law_markers_open_their_sections(s: Section, t: Section, text: Seq<char>)
    ensures
        section_name(Section::Preamble) == seq!['p', 'r', 'e', 'a', 'm', 'b', 'l', 'e'],
        section_name(Section::Header) == seq!['h', 'e', 'a', 'd', 'e', 'r'],
        section_name(Section::ChannelUnits) == seq!['c', 'h', 'a', 'n', 'n', 'e', 'l', ' ', 'u', 'n', 'i', 't', 's'],
        section_name(Section::Comments) == seq!['c', 'o', 'm', 'm', 'e', 'n', 't', 's'],
        section_name(Section::ColumnNames) == seq!['c', 'o', 'l', 'u', 'm', 'n', ' ', 'n', 'a', 'm', 'e', 's'],
        section_name(Section::Data) == seq!['d', 'a', 't', 'a'],
        section_name(Section::Other) == seq!['o', 't', 'h', 'e', 'r'],
        s != t ==> section_name(s) != section_name(t),
        s != Section::Preamble && s != Section::Other ==> marker_section(
            seq!['['] + section_name(s) + seq![']'],
        ) == Some(s),
        (text.len() < 2 || text[0] != '[' || text.last() != ']') ==> marker_section(text) is None,
{
    if s != t {
        assert(section_name(s).len() != section_name(t).len() || section_name(s)[0] != section_name(t)[0]);
    }
    if s != Section::Preamble && s != Section::Other {
        let name = section_name(s);
        let text2 = seq!['['] + name + seq![']'];
        assert(text2.subrange(1, text2.len() - 1) =~= name);
        assert(!is_white_space(name[0]));
        assert(!is_white_space(name[name.len() - 1]));
        assert(white_end(name, 0, name.len() as int) == 0);
        assert(white_start_back(name, 0, name.len() as int) == name.len());
        assert(unicode_trim(name) =~= name);
        assert(text2[0] == '[');
        assert(text2.last() == ']');
        assert(lower_eq(name, name)) by {
            assert forall|i: int| 0 <= i < name.len() implies lower_code(#[trigger] name[i])
                == name[i] as u32 by {
                assert(!(65 <= name[i] as u32 <= 90)) by {
                    if s == Section::Header {
                    } else if s == Section::ChannelUnits {
                    } else if s == Section::Comments {
                    } else if s == Section::ColumnNames {
                    } else {
                    }
                }
            }
        }
    }
}


proof fn lemma_lex_at(a: Seq<char>, b: Seq<char>, i: int, k: int)
    requires
        0 <= i <= k <= a.len(),
        k <= b.len(),
        forall|m: int| 0 <= m < k ==> a[m] == b[m],
    ensures
        lex_lt_from(a, b, i) == lex_lt_from(a, b, k),
    decreases k - i,
{
    if i < k {
        lemma_lex_at(a, b, i + 1, k);
    }
}

/// Header sections are ordered as the original's ordered map orders its keys: by code point,
/// position by position. A name sorts before every longer name it is a prefix of, and at the
/// first position where two names differ the one with the smaller code point sorts first; a
/// name never sorts before itself, and of two distinct names exactly one sorts first.
pub proof fn law_section_name_order(a: Seq<char>, b: Seq<char>, k: int)
    ensures
        (a.len() < b.len() && a =~= b.take(a.len() as int)) ==> lex_lt(a, b),
        (0 <= k < a.len() && k < b.len() && (forall|m: int| 0 <= m < k ==> a[m] == b[m]) && (
        a[k] as u32) < (b[k] as u32)) ==> lex_lt(a, b) && !lex_lt(b, a),
        !lex_lt(a, a),
        a != b ==> (lex_lt(a, b) != lex_lt(b, a)),
{
    lemma_lex_irreflexive(a, 0);
    if a.len() < b.len() && a =~= b.take(a.len() as int) {
        lemma_lex_at(a, b, 0, a.len() as int);
    }
    if 0 <= k < a.len() && k < b.len() && (forall|m: int| 0 <= m < k ==> a[m] == b[m]) && (
    a[k] as u32) < (b[k] as u32) {
        lemma_lex_at(a, b, 0, k);
        lemma_lex_at(b, a, 0, k);
    }
    if a != b {
        lemma_lex_total(a, b, 0);
        if lex_lt(a, b) && lex_lt(b, a) {
            lemma_lex_transitive(a, b, a, 0);
        }
    }
}

proof fn lemma_first_invalid_stops(fields: Seq<Seq<u8>>, i: int)
    requires
        0 <= i <= fields.len(),
    ensures
        first_invalid_from(fields, i) < fields.len() ==> !float_literal(
            fields[first_invalid_from(fields, i)],
        ),
    decreases fields.len() - i,
{
    if i < fields.len() && float_literal(fields[i]) {
        lemma_first_invalid_stops(fields, i + 1);
    }
}

/// A data record is rejected for the first field that is not a numeric literal, counted from
/// 1: every field before it is a literal, the reported text is that field, and the record had
/// the expected number of fields. A wrong field count reports the expected and the found
/// count; a record with the expected count of literals is accepted as exactly its words.
pub proof fn law_row_defects_are_located(text: Seq<u8>, expected: nat, line: usize)
    requires
        expected <= usize::MAX,
    ensures
        row_fields(text, expected, line) matches Err(ParseErrorView::InvalidNumber { line: l, column, value }) ==> {
            &&& l == line
            &&& 1 <= column <= words(text).len()
            &&& words(text).len() == expected
            &&& !float_literal(words(text)[column - 1])
            &&& forall|m: int| 0 <= m < column - 1 ==> float_literal(#[trigger] words(text)[m])
            &&& value == vstd::utf8::decode_utf8(words(text)[column - 1])
        },
        row_fields(text, expected, line) matches Err(ParseErrorView::WrongColumnCount { line: l, expected: e, found }) ==> {
            &&& l == line
            &&& e == expected
            &&& words(text).len() != expected
            &&& found == words(text).len() as usize
        },
        row_fields(text, expected, line) matches Ok(fields) ==> {
            &&& fields == words(text)
            &&& fields.len() == expected
            &&& forall|m: int| 0 <= m < fields.len() ==> float_literal(#[trigger] fields[m])
        },
        row_fields(text, expected, line) is Err ==> (row_fields(text, expected, line) matches Err(e) && record_error(e)),
{
    let ws = words(text);
    lemma_first_invalid(ws, 0);
    let bad = first_invalid_from(ws, 0);
    if ws.len() == expected && bad < ws.len() {
        assert(bad + 1 <= usize::MAX);
        assert(((bad + 1) as usize) as int - 1 == bad);
        lemma_first_invalid_stops(ws, 0);
    }
}


/// The lines kept under the header section named `name` (none when there is no such section).
pub open spec fn lines_named(sections: Seq<(Seq<char>, Seq<Seq<char>>)>, name: Seq<char>) -> Seq<
    Seq<char>,
>
    decreases sections.len(),
{
    if sections.len() == 0 {
        Seq::empty()
    } else if sections.last().0 == name {
        sections.last().1
    } else {
        lines_named(sections.drop_last(), name)
    }
}

/// Each section name occurs at most once.
pub open spec fn names_unique(sections: Seq<(Seq<char>, Seq<Seq<char>>)>) -> bool {
    forall|i: int, j: int|
        0 <= i < j < sections.len() ==> (#[trigger] sections[i]).0 != (#[trigger] sections[j]).0
}

proof fn lemma_lines_named(sections: Seq<(Seq<char>, Seq<Seq<char>>)>, name: Seq<char>)
    requires
        names_unique(sections),
    ensures
        forall|i: int|
            0 <= i < sections.len() && (#[trigger] sections[i]).0 == name ==> lines_named(
                sections,
                name,
            ) == sections[i].1,
        (forall|i: int| 0 <= i < sections.len() ==> (#[trigger] sections[i]).0 != name)
            ==> lines_named(sections, name) == Seq::<Seq<char>>::empty(),
    decreases sections.len(),
{
    if sections.len() > 0 {
        let init = sections.drop_last();
        assert(names_unique(init)) by {
            assert forall|i: int, j: int| 0 <= i < j < init.len() implies (#[trigger] init[i]).0
                != (#[trigger] init[j]).0 by {
                assert(init[i] == sections[i]);
                assert(init[j] == sections[j]);
            }
        }
        lemma_lines_named(init, name);
        assert forall|i: int|
            0 <= i < sections.len() && (#[trigger] sections[i]).0 == name implies lines_named(
                sections,
                name,
            ) == sections[i].1 by {
            if i < sections.len() - 1 {
                assert(init[i] == sections[i]);
                assert(sections[i].0 != sections[sections.len() - 1].0);
            }
        }
        if forall|i: int| 0 <= i < sections.len() ==> (#[trigger] sections[i]).0 != name {
            assert(sections.last() == sections[sections.len() - 1]);
            assert forall|i: int| 0 <= i < init.len() implies (#[trigger] init[i]).0 != name by {
                assert(init[i] == sections[i]);
            }
        }
    }
}

proof fn lemma_sorted_unique(sections: Seq<(Seq<char>, Seq<Seq<char>>)>)
    requires
        sections_sorted(sections),
    ensures
        names_unique(sections),
{
    assert forall|i: int, j: int| 0 <= i < j < sections.len() implies (#[trigger] sections[i]).0
        != (#[trigger] sections[j]).0 by {
        lemma_lex_irreflexive(sections[i].0, 0);
    }
}

/// Unknown and known header lines are preserved verbatim by section: adding a line to a
/// section appends it after that section's earlier lines, leaves every other section's lines
/// and the `File created` line as they were, and keeps one entry per name in name order.
pub proof fn law_header_lines_are_preserved(
    header: crate::types::HeaderView,
    section: Section,
    line: Seq<char>,
    other: Seq<char>,
)
    requires
        sections_sorted(header.sections),
    ensures
        ({
            let after = with_header_line(header, section, line);
            &&& after.created == header.created
            &&& sections_sorted(after.sections)
            &&& lines_named(after.sections, section_name(section)) == lines_named(
                header.sections,
                section_name(section),
            ).push(line)
            &&& other != section_name(section) ==> lines_named(after.sections, other)
                == lines_named(header.sections, other)
        }),
{
    let name = section_name(section);
    let secs = header.sections;
    let after = with_header_line(header, section, line);
    lemma_with_header_line_sorted(header, section, line);
    lemma_sorted_unique(secs);
    lemma_sorted_unique(after.sections);
    lemma_lines_named(secs, name);
    lemma_lines_named(secs, other);
    lemma_lines_named(after.sections, name);
    lemma_lines_named(after.sections, other);
    lemma_section_index(secs, name, 0);
    let at = section_index_from(secs, name, 0);
    if at < secs.len() {
        assert(after.sections[at] == (name, secs[at].1.push(line)));
        if other != name {
            if exists|i: int| 0 <= i < secs.len() && (#[trigger] secs[i]).0 == other {
                let i = choose|i: int| 0 <= i < secs.len() && (#[trigger] secs[i]).0 == other;
                assert(after.sections[i] == secs[i]);
            } else {
                assert forall|i: int| 0 <= i < after.sections.len() implies (
                #[trigger] after.sections[i]).0 != other by {
                    if i != at {
                        assert(after.sections[i] == secs[i]);
                    }
                }
            }
        }
    } else {
        lemma_insert_index(secs, name, 0);
        let p = insert_index_from(secs, name, 0);
        assert(after.sections == secs.insert(p, (name, seq![line])));
        assert(after.sections[p] == (name, seq![line]));
        assert(lines_named(secs, name) == Seq::<Seq<char>>::empty()) by {
            assert forall|i: int| 0 <= i < secs.len() implies (#[trigger] secs[i]).0 != name by {}
        }
        assert(seq![line] =~= Seq::<Seq<char>>::empty().push(line));
        if other != name {
            if exists|i: int| 0 <= i < secs.len() && (#[trigger] secs[i]).0 == other {
                let i = choose|i: int| 0 <= i < secs.len() && (#[trigger] secs[i]).0 == other;
                if i < p {
                    assert(after.sections[i] == secs[i]);
                } else {
                    assert(after.sections[i + 1] == secs[i]);
                }
            } else {
                assert forall|i: int| 0 <= i < after.sections.len() implies (
                #[trigger] after.sections[i]).0 != other by {
                    if i < p {
                        assert(after.sections[i] == secs[i]);
                    } else if i > p {
                        assert(after.sections[i] == secs[i - 1]);
                    }
                }
            }
        }
    }
}


/// One carriage return before the line feed is removed, and only one: a line's content is
/// everything before that final carriage return, whatever it ends with, and a line that does
/// not end in a carriage return is kept whole.
pub proof fn law_one_carriage_return_is_removed(raw: Seq<u8>)
    ensures
        strip_cr(raw.push(13u8)) == raw,
        (raw.len() == 0 || raw.last() != 13u8) ==> strip_cr(raw) == raw,
{
    assert(raw.push(13u8).drop_last() =~= raw);
}

/// Where a literal may start and end: after an optional sign comes a digit, a decimal point
/// followed by a digit, or the first letter of `inf`, `infinity` or `nan` (in either case);
/// and a literal ends in a digit, a decimal point, or the last letter of one of those words.
/// So an exponent marker or a sign is never the last byte, and a lone point is not a number.
pub proof fn law_literal_bounds(s: Seq<u8>)
    ensures
        float_literal(s) ==> ({
            let i: int = if s.len() > 0 && (s[0] == 43u8 || s[0] == 45u8) {
                1
            } else {
                0
            };
            &&& i < s.len()
            &&& {
                ||| 48u8 <= s[i] <= 57u8
                ||| (s[i] == 46u8 && i + 1 < s.len() && 48u8 <= s[i + 1] <= 57u8)
                ||| s[i] == 105u8 || s[i] == 73u8 || s[i] == 110u8 || s[i] == 78u8
            }
            &&& {
                let z = s.last();
                ||| 48u8 <= z <= 57u8
                ||| z == 46u8
                ||| z == 102u8 || z == 70u8 || z == 121u8 || z == 89u8 || z == 110u8 || z == 78u8
            }
        }),
{
    if float_literal(s) {
        let i: int = if s.len() > 0 && (s[0] == 43u8 || s[0] == 45u8) {
            1
        } else {
            0
        };
        let n = s.len() - 1;
        if lower_eq_from(s, i, inf_word()) {
            assert(ascii_lower(s[i + 0]) == 105u8);
            assert(ascii_lower(s[i + 2]) == 102u8);
            assert(n == i + 2);
        } else if lower_eq_from(s, i, infinity_word()) {
            assert(ascii_lower(s[i + 0]) == 105u8);
            assert(ascii_lower(s[i + 7]) == 121u8);
            assert(n == i + 7);
        } else if lower_eq_from(s, i, nan_word()) {
            assert(ascii_lower(s[i + 0]) == 110u8);
            assert(ascii_lower(s[i + 2]) == 110u8);
            assert(n == i + 2);
        } else {
            lemma_digits_end(s, i);
            let e1 = digits_end(s, i);
            if e1 < s.len() && s[e1] == 46u8 {
                lemma_digits_end(s, e1 + 1);
                let e2 = digits_end(s, e1 + 1);
                if e2 < s.len() {
                    let j = if e2 + 1 < s.len() && (s[e2 + 1] == 43u8 || s[e2 + 1] == 45u8) {
                        e2 + 2
                    } else {
                        e2 + 1
                    };
                    lemma_digits_end(s, j);
                    assert(48u8 <= s[n] <= 57u8);
                } else if e2 > e1 + 1 {
                    assert(48u8 <= s[n] <= 57u8);
                }
                if e1 == i {
                    assert(48u8 <= s[i + 1] <= 57u8);
                }
            } else {
                if e1 < s.len() {
                    let j = if e1 + 1 < s.len() && (s[e1 + 1] == 43u8 || s[e1 + 1] == 45u8) {
                        e1 + 2
                    } else {
                        e1 + 1
                    };
                    lemma_digits_end(s, j);
                    assert(48u8 <= s[n] <= 57u8);
                } else {
                    assert(48u8 <= s[n] <= 57u8);
                }
            }
        }
    }
}


/// Section markers ignore ASCII case: a bracketed name that differs from a known section's
/// name only in the case of some letters (`[DATA]`, `[Column Names]`) opens that section.
pub proof fn law_markers_ignore_ascii_case(s: Section, x: Seq<char>)
    requires
        s != Section::Preamble,
        s != Section::Other,
        x.len() == section_name(s).len(),
        forall|i: int|
            0 <= i < x.len() ==> (#[trigger] x[i]) == section_name(s)[i] || (97 <= section_name(
                s,
            )[i] as u32 <= 122 && x[i] as u32 == section_name(s)[i] as u32 - 32),
    ensures
        marker_section(seq!['['] + x + seq![']']) == Some(s),
{
    let name = section_name(s);
    let text = seq!['['] + x + seq![']'];
    assert(text.subrange(1, text.len() - 1) =~= x);
    assert(text[0] == '[');
    assert(text.last() == ']');
    assert(!is_white_space(x[0])) by {
        assert(x[0] == name[0] || x[0] as u32 == name[0] as u32 - 32);
    }
    let z = x.len() - 1;
    assert(!is_white_space(x[z])) by {
        assert(x[z] == name[z] || x[z] as u32 == name[z] as u32 - 32);
    }
    assert(white_end(x, 0, x.len() as int) == 0);
    assert(white_start_back(x, 0, x.len() as int) == x.len());
    assert(unicode_trim(x) =~= x);
    assert(lower_eq(x, name)) by {
        assert forall|i: int| 0 <= i < name.len() implies lower_code(#[trigger] x[i]) == name[i] as u32 by {
            assert(x[i] == name[i] || (97 <= name[i] as u32 <= 122 && x[i] as u32 == name[i] as u32 - 32));
            assert(!(65 <= name[i] as u32 <= 90)) by {
                if s == Section::Header {
                } else if s == Section::ChannelUnits {
                } else if s == Section::Comments {
                } else if s == Section::ColumnNames {
                } else {
                }
            }
        }
    }
    if s != Section::Header {
        assert(!lower_eq(x, crate::section::header_word()));
    }
    if s != Section::Header && s != Section::ChannelUnits {
        assert(!lower_eq(x, crate::section::channel_units_word()));
    }
    if s == Section::ColumnNames || s == Section::Data {
        assert(!lower_eq(x, crate::section::comments_word()));
    }
    if s == Section::Data {
        assert(!lower_eq(x, crate::section::column_names_word()));
    }
}


/// The schema is declared before the data and then fixed: a line can start the data only
/// when at least one column has been named, once the data has started it stays started, and
/// from then on no line adds, removes or renames a column (late unit lines change units only).
pub proof fn law_schema_is_fixed_once_data_starts(
    options: ParseOptions,
    recover: bool,
    st: StreamState,
    raw: Seq<u8>,
    cut: bool,
)
    requires
        st.data_seen ==> st.channels.len() > 0,
    ensures
        step(options, recover, st, raw, cut) matches Ok((next, _)) ==> {
            &&& next.data_seen ==> next.channels.len() > 0
            &&& st.data_seen ==> next.data_seen
            &&& st.data_seen ==> next.channels.len() == st.channels.len()
            &&& st.data_seen ==> forall|i: int|
                0 <= i < st.channels.len() ==> (#[trigger] next.channels[i]).name
                    == st.channels[i].name
        },
{
}

proof fn lemma_run_keeps_schema(
    options: ParseOptions,
    recover: bool,
    st: StreamState,
    values: Seq<Seq<u8>>,
    lines: Seq<Seq<u8>>,
)
    requires
        st.data_seen ==> st.channels.len() > 0,
    ensures
        run(options, recover, st, values, lines) matches Ok((end, _)) ==> (end.data_seen
            ==> end.channels.len() > 0),
    decreases lines.len(),
{
    if lines.len() > 0 {
        law_schema_is_fixed_once_data_starts(options, recover, st, lines[0], false);
        if let Ok((next, row)) = step(options, recover, st, lines[0], false) {
            lemma_run_keeps_schema(
                options,
                recover,
                next,
                match row {
                    Some(fields) => values + fields,
                    None => values,
                },
                lines.drop_first(),
            );
        }
    }
}

/// A successful parse has seen a `[data]` marker and has at least one column.
pub proof fn law_successful_parse_has_data_and_columns(
    options: ParseOptions,
    recover: bool,
    input: Seq<u8>,
)
    ensures
        parse_input(options, recover, input) matches Ok((st, _)) ==> st.data_seen
            && st.channels.len() > 0,
{
    lemma_run_keeps_schema(options, recover, initial_state(), Seq::empty(), lines_from(input, 0));
}


/// The `File created` line is recorded once: after it has been set, no later line changes it
/// (a later line of that form is kept among the preamble lines instead).
pub proof fn law_file_created_is_set_once(
    options: ParseOptions,
    recover: bool,
    st: StreamState,
    raw: Seq<u8>,
    cut: bool,
)
    ensures
        st.header.created is Some ==> (step(options, recover, st, raw, cut) matches Ok((next, _))
            ==> next.header.created == st.header.created),
{
}


/// Column lookup returns the first column whose name has the wanted lookup key: the column it
/// reports has that key and no earlier column has it; it reports none exactly when no column
/// has it.
proof fn lemma_first_key_match(channels: Seq<ChannelView>, target: Seq<u8>, k: int)
    requires
        0 <= k < channels.len(),
        lookup_key(vstd::utf8::encode_utf8(channels[k].name)) == target,
    ensures
        exists|i: int|
            0 <= i < channels.len() && lookup_key(vstd::utf8::encode_utf8(#[trigger] channels[i].name))
                == target && forall|j: int|
                0 <= j < i ==> lookup_key(vstd::utf8::encode_utf8(#[trigger] channels[j].name))
                    != target,
    decreases k,
{
    if exists|j: int|
        0 <= j < k && lookup_key(vstd::utf8::encode_utf8(#[trigger] channels[j].name)) == target {
        let j = choose|j: int|
            0 <= j < k && lookup_key(vstd::utf8::encode_utf8(#[trigger] channels[j].name)) == target;
        lemma_first_key_match(channels, target, j);
    } else {
        assert(lookup_key(vstd::utf8::encode_utf8(channels[k].name)) == target);
    }
}

pub proof fn law_channel_index_finds_the_first_match(channels: Seq<ChannelView>, target: Seq<u8>)
    requires
        channels.len() <= usize::MAX,
    ensures
        crate::types::first_channel_named(channels, target) matches Some(i) ==> {
            &&& i < channels.len()
            &&& lookup_key(vstd::utf8::encode_utf8(channels[i as int].name)) == target
            &&& forall|j: int|
                0 <= j < i ==> lookup_key(vstd::utf8::encode_utf8(#[trigger] channels[j].name))
                    != target
        },
        crate::types::first_channel_named(channels, target) is None ==> forall|j: int|
            0 <= j < channels.len() ==> lookup_key(vstd::utf8::encode_utf8(#[trigger] channels[j].name))
                != target,
{
    if exists|k: int|
        0 <= k < channels.len() && lookup_key(vstd::utf8::encode_utf8(#[trigger] channels[k].name))
            == target {
        let k = choose|k: int|
            0 <= k < channels.len() && lookup_key(vstd::utf8::encode_utf8(#[trigger] channels[k].name))
                == target;
        lemma_first_key_match(channels, target, k);
    }
}


proof fn lemma_ws_end_shift(p: Seq<u8>, q: Seq<u8>, j: int)
    requires
        0 <= j <= q.len(),
    ensures
        ws_end(p + q, p.len() + j) == p.len() + ws_end(q, j),
        nonws_end(p + q, p.len() + j) == p.len() + nonws_end(q, j),
    decreases q.len() - j,
{
    if j < q.len() {
        assert((p + q)[p.len() + j] == q[j]);
        lemma_ws_end_shift(p, q, j + 1);
    }
}

proof fn lemma_words_shift(p: Seq<u8>, q: Seq<u8>, j: int)
    requires
        0 <= j <= q.len(),
    ensures
        words_from(p + q, p.len() + j) == words_from(q, j),
    decreases q.len() - j,
{
    let s = p + q;
    lemma_ws_end_shift(p, q, j);
    lemma_ws_end(q, j);
    let jq = ws_end(q, j);
    if jq < q.len() {
        lemma_ws_end_shift(p, q, jq);
        lemma_nonws_end(q, jq);
        let kq = nonws_end(q, jq);
        lemma_words_shift(p, q, kq);
        assert(s.subrange(p.len() + jq, p.len() + kq) =~= q.subrange(jq, kq));
    }
}

proof fn lemma_ws_end_prefix(a: Seq<u8>, r: Seq<u8>, i: int)
    requires
        0 <= i <= a.len(),
        r.len() > 0,
        is_ascii_ws(r[0]),
    ensures
        ws_end(a, i) < a.len() ==> ws_end(a + r, i) == ws_end(a, i),
        ws_end(a, i) >= a.len() ==> ws_end(a + r, i) == ws_end(a + r, a.len() as int),
    decreases a.len() - i,
{
    if i < a.len() {
        assert((a + r)[i] == a[i]);
        lemma_ws_end_prefix(a, r, i + 1);
    }
}

proof fn lemma_nonws_end_prefix(a: Seq<u8>, r: Seq<u8>, i: int)
    requires
        0 <= i <= a.len(),
        r.len() > 0,
        is_ascii_ws(r[0]),
    ensures
        nonws_end(a + r, i) == nonws_end(a, i),
    decreases a.len() - i,
{
    if i < a.len() {
        assert((a + r)[i] == a[i]);
        lemma_nonws_end_prefix(a, r, i + 1);
    } else {
        assert((a + r)[a.len() as int] == r[0]);
    }
}

proof fn lemma_words_split(a: Seq<u8>, r: Seq<u8>, i: int)
    requires
        0 <= i <= a.len(),
        r.len() > 0,
        is_ascii_ws(r[0]),
    ensures
        words_from(a + r, i) == words_from(a, i) + words_from(a + r, a.len() as int),
    decreases a.len() - i,
{
    let s = a + r;
    lemma_ws_end(a, i);
    lemma_ws_end_prefix(a, r, i);
    let ja = ws_end(a, i);
    if ja < a.len() {
        lemma_nonws_end(a, ja);
        lemma_nonws_end_prefix(a, r, ja);
        let k = nonws_end(a, ja);
        lemma_words_split(a, r, k);
        assert(s.subrange(ja, k) =~= a.subrange(ja, k));
        assert(words_from(s, i) == seq![a.subrange(ja, k)] + words_from(s, k));
        assert(words_from(a, i) == seq![a.subrange(ja, k)] + words_from(a, k));
        assert(words_from(s, i) =~= words_from(a, i) + words_from(s, a.len() as int));
    } else {
        assert(words_from(a, i) =~= Seq::<Seq<u8>>::empty());
        lemma_ws_end(s, a.len() as int);
        assert(words_from(s, i) == words_from(s, a.len() as int));
        assert(words_from(s, i) =~= words_from(a, i) + words_from(s, a.len() as int));
    }
}

/// Fields are the words between separators, in order: splitting a text at one space, tab,
/// line feed, form feed or carriage return gives the words before it followed by the words
/// after it; no word is lost, merged or reordered.
pub proof fn law_words_concatenate_at_separators(a: Seq<u8>, sep: u8, b: Seq<u8>)
    requires
        field_separator(sep),
    ensures
        words(a + seq![sep] + b) == words(a) + words(b),
{
    let s = a + seq![sep] + b;
    let r = seq![sep] + b;
    assert(s =~= a + r);
    assert(r[0] == sep);
    lemma_words_split(a, r, 0);
    lemma_ws_end(s, a.len() as int);
    assert(s[a.len() as int] == sep);
    assert(ws_end(s, a.len() as int) == ws_end(s, a.len() + 1int));
    assert(words_from(s, a.len() as int) == words_from(s, a.len() + 1int));
    let p = a + seq![sep];
    assert(s =~= p + b);
    lemma_words_shift(p, b, 0);
    assert(words_from(s, a.len() + 1int) == words_from(b, 0));
}

} // verus!
