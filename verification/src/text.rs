//! Byte-level text helpers shared by the parser: ASCII whitespace handling, word splitting,
//! channel-name normalisation and UTF-8 decoding.

use vstd::prelude::*;
use vstd::std_specs::iter::IteratorSpec;
use vstd::string::StringSliceAdditionalSpecFns;
use vstd::utf8::*;

verus! {

/// ASCII whitespace as `u8::is_ascii_whitespace` defines it: space, tab, line feed,
/// form feed and carriage return.
pub open spec fn is_ascii_ws(b: u8) -> bool {
    b == 32u8 || b == 9u8 || b == 10u8 || b == 12u8 || b == 13u8
}

pub fn ascii_ws(b: u8) -> (r: bool)
    ensures
        r == is_ascii_ws(b),
{
    b == 32u8 || b == 9u8 || b == 10u8 || b == 12u8 || b == 13u8
}

/// First index at or after `i` that does not hold ASCII whitespace (or the end).
pub open spec fn ws_end(s: Seq<u8>, i: int) -> int
    decreases s.len() - i,
{
    if 0 <= i < s.len() && is_ascii_ws(s[i]) {
        ws_end(s, i + 1)
    } else {
        i
    }
}

/// First index at or after `i` that holds ASCII whitespace (or the end).
pub open spec fn nonws_end(s: Seq<u8>, i: int) -> int
    decreases s.len() - i,
{
    if 0 <= i < s.len() && !is_ascii_ws(s[i]) {
        nonws_end(s, i + 1)
    } else {
        i
    }
}

/// Index one past the last byte before `e` that is not ASCII whitespace (or 0).
pub open spec fn ws_start_back(s: Seq<u8>, e: int) -> int
    decreases e,
{
    if 0 < e <= s.len() && is_ascii_ws(s[e - 1]) {
        ws_start_back(s, e - 1)
    } else {
        e
    }
}

/// `s` without leading and trailing ASCII whitespace.
pub open spec fn trimmed_ascii(s: Seq<u8>) -> Seq<u8> {
    let a = ws_end(s, 0);
    let b = ws_start_back(s, s.len() as int);
    if b <= a {
        Seq::empty()
    } else {
        s.subrange(a, b)
    }
}

pub proof fn lemma_ws_end(s: Seq<u8>, i: int)
    requires
        0 <= i <= s.len(),
    ensures
        i <= ws_end(s, i) <= s.len(),
        forall|m: int| i <= m < ws_end(s, i) ==> is_ascii_ws(#[trigger] s[m]),
        ws_end(s, i) < s.len() ==> !is_ascii_ws(s[ws_end(s, i)]),
    decreases s.len() - i,
{
    if i < s.len() && is_ascii_ws(s[i]) {
        lemma_ws_end(s, i + 1);
    }
}

pub proof fn lemma_nonws_end(s: Seq<u8>, i: int)
    requires
        0 <= i <= s.len(),
    ensures
        i <= nonws_end(s, i) <= s.len(),
        forall|m: int| i <= m < nonws_end(s, i) ==> !is_ascii_ws(#[trigger] s[m]),
        nonws_end(s, i) < s.len() ==> is_ascii_ws(s[nonws_end(s, i)]),
    decreases s.len() - i,
{
    if i < s.len() && !is_ascii_ws(s[i]) {
        lemma_nonws_end(s, i + 1);
    }
}

pub proof fn lemma_ws_start_back(s: Seq<u8>, e: int)
    requires
        0 <= e <= s.len(),
    ensures
        0 <= ws_start_back(s, e) <= e,
        forall|m: int| ws_start_back(s, e) <= m < e ==> is_ascii_ws(#[trigger] s[m]),
        ws_start_back(s, e) > 0 ==> !is_ascii_ws(s[ws_start_back(s, e) - 1]),
    decreases e,
{
    if 0 < e && is_ascii_ws(s[e - 1]) {
        lemma_ws_start_back(s, e - 1);
    }
}

/// The words of `s` from index `i` on: maximal runs of bytes that are not ASCII whitespace,
/// in order. This is what `str::split_ascii_whitespace` yields.
pub open spec fn words_from(s: Seq<u8>, i: int) -> Seq<Seq<u8>>
    decreases s.len() - i,
{
    let j = ws_end(s, i);
    if !(0 <= i <= s.len()) || j >= s.len() {
        Seq::empty()
    } else {
        let k = nonws_end(s, j);
        proof {
            lemma_ws_end(s, i);
            lemma_nonws_end(s, j);
        }
        seq![s.subrange(j, k)] + words_from(s, k)
    }
}

/// The ASCII-whitespace separated words of `s`.
pub open spec fn words(s: Seq<u8>) -> Seq<Seq<u8>> {
    words_from(s, 0)
}

/// A word of a byte string, located by its start and end index.
pub open spec fn is_delimited_span(s: Seq<u8>, span: (usize, usize)) -> bool {
    &&& span.0 < span.1 <= s.len()
    &&& (span.0 == 0 || is_ascii_ws(s[span.0 - 1]))
    &&& (span.1 == s.len() || is_ascii_ws(s[span.1 as int]))
}

/// Start and end index of every word of `s`, in order.
pub fn word_spans(s: &[u8]) -> (r: Vec<(usize, usize)>)
    ensures
        r@.len() == words(s@).len(),
        forall|w: int|
            0 <= w < r@.len() ==> {
                &&& is_delimited_span(s@, #[trigger] r@[w])
                &&& s@.subrange(r@[w].0 as int, r@[w].1 as int) == words(s@)[w]
            },
{
    let n = s.len();
    let mut spans: Vec<(usize, usize)> = Vec::new();
    let mut i: usize = 0;
    let ghost mut acc: Seq<Seq<u8>> = Seq::empty();
    while i < n
        invariant
            n == s@.len(),
            0 <= i <= n,
            acc.len() == spans@.len(),
            acc + words_from(s@, i as int) == words(s@),
            i > 0 ==> is_ascii_ws(s@[i - 1]) || (spans@.len() > 0 && spans@.last().1 == i),
            forall|w: int|
                0 <= w < spans@.len() ==> {
                    &&& is_delimited_span(s@, #[trigger] spans@[w])
                    &&& spans@[w].1 <= i
                    &&& s@.subrange(spans@[w].0 as int, spans@[w].1 as int) == acc[w]
                },
        decreases n - i,
    {
        let mut j: usize = i;
        proof {
            lemma_ws_end(s@, i as int);
        }
        while j < n && ascii_ws(s[j])
            invariant
                n == s@.len(),
                i <= j <= n,
                ws_end(s@, j as int) == ws_end(s@, i as int),
                forall|m: int| i <= m < j ==> is_ascii_ws(#[trigger] s@[m]),
            decreases n - j,
        {
            j = j + 1;
        }
        if j == n {
            assert(words_from(s@, i as int) == Seq::<Seq<u8>>::empty());
            assert(acc + words_from(s@, i as int) == acc);
            i = n;
            assert(words_from(s@, n as int) == Seq::<Seq<u8>>::empty());
            assert(acc + words_from(s@, i as int) == acc);
        } else {
            let mut k: usize = j;
            proof {
                lemma_nonws_end(s@, j as int);
            }
            while k < n && !ascii_ws(s[k])
                invariant
                    n == s@.len(),
                    j <= k <= n,
                    nonws_end(s@, k as int) == nonws_end(s@, j as int),
                    forall|m: int| j <= m < k ==> !is_ascii_ws(#[trigger] s@[m]),
                decreases n - k,
            {
                k = k + 1;
            }
            assert(k > j);
            let ghost word = s@.subrange(j as int, k as int);
            assert(words_from(s@, i as int) == seq![word] + words_from(s@, k as int));
            assert(j == 0 || is_ascii_ws(s@[j - 1])) by {
                if j > i {
                } else {
                    // j == i: either i == 0, or the byte before i is whitespace, or a span
                    // ended at i; the last case is impossible because that span ended on
                    // whitespace or at the end.
                    if i > 0 && !is_ascii_ws(s@[i - 1]) {
                        let last = spans@.len() - 1;
                        assert(is_delimited_span(s@, spans@[last]));
                    }
                }
            }
            spans.push((j, k));
            proof {
                assert(acc.push(word) + words_from(s@, k as int) == acc + (seq![word]
                    + words_from(s@, k as int)));
                acc = acc.push(word);
            }
            i = k;
        }
    }
    assert(acc + words_from(s@, n as int) == acc);
    spans
}

} // verus!

verus! {

/// `value` without leading and trailing ASCII whitespace.
pub fn trim_ascii(value: &[u8]) -> (r: &[u8])
    ensures
        r@ == trimmed_ascii(value@),
{
    let n = value.len();
    let mut a: usize = 0;
    proof {
        lemma_ws_end(value@, 0);
    }
    while a < n && ascii_ws(value[a])
        invariant
            n == value@.len(),
            a <= n,
            ws_end(value@, a as int) == ws_end(value@, 0),
        decreases n - a,
    {
        a = a + 1;
    }
    let mut b: usize = n;
    proof {
        lemma_ws_start_back(value@, n as int);
    }
    while b > a && ascii_ws(value[b - 1])
        invariant
            n == value@.len(),
            a <= b <= n,
            ws_start_back(value@, b as int) == ws_start_back(value@, n as int),
        decreases b,
    {
        b = b - 1;
    }
    proof {
        lemma_ws_start_back(value@, n as int);
        if b == a && a < n {
            // Every byte in [ws_start_back, n) is whitespace, and value[a] is not.
            lemma_ws_end(value@, 0);
            lemma_ws_start_back(value@, b as int);
        }
    }
    vstd::slice::slice_subrange(value, a, b)
}

/// ASCII letters and digits.
pub open spec fn is_ascii_alnum(b: u8) -> bool {
    (48u8 <= b <= 57u8) || (65u8 <= b <= 90u8) || (97u8 <= b <= 122u8)
}

/// The ASCII lower-case form of a byte.
pub open spec fn ascii_lower(b: u8) -> u8 {
    if 65u8 <= b <= 90u8 {
        (b + 32) as u8
    } else {
        b
    }
}

/// The lower-cased ASCII letters and digits of `s`, in order: the form in which channel
/// names and unit labels are compared.
pub open spec fn normalised(s: Seq<u8>) -> Seq<u8>
    decreases s.len(),
{
    if s.len() == 0 {
        Seq::empty()
    } else if is_ascii_alnum(s.last()) {
        normalised(s.drop_last()).push(ascii_lower(s.last()))
    } else {
        normalised(s.drop_last())
    }
}

/// A byte that column lookup ignores: ASCII whitespace, `_` or `-`.
pub open spec fn is_lookup_separator(b: u8) -> bool {
    is_ascii_ws(b) || b == 95u8 || b == 45u8
}

/// A channel name as column lookup compares it: ASCII letters lower-cased, ASCII whitespace,
/// `_` and `-` dropped, and every other byte kept.
pub open spec fn lookup_key(s: Seq<u8>) -> Seq<u8>
    decreases s.len(),
{
    if s.len() == 0 {
        Seq::empty()
    } else if is_lookup_separator(s.last()) {
        lookup_key(s.drop_last())
    } else {
        lookup_key(s.drop_last()).push(ascii_lower(s.last()))
    }
}

/// The lookup key of `value`'s UTF-8 bytes.
pub fn channel_key(value: &str) -> (r: Vec<u8>)
    ensures
        r@ == lookup_key(value.spec_bytes()),
{
    let bytes = value.as_bytes();
    let n = bytes.len();
    let mut out: Vec<u8> = Vec::new();
    let mut i: usize = 0;
    while i < n
        invariant
            n == bytes@.len(),
            bytes@ == value.spec_bytes(),
            i <= n,
            out@ == lookup_key(bytes@.take(i as int)),
        decreases n - i,
    {
        let b = bytes[i];
        assert(bytes@.take(i + 1).drop_last() == bytes@.take(i as int));
        if ascii_ws(b) || b == 95u8 || b == 45u8 {
        } else if 65u8 <= b && b <= 90u8 {
            out.push(b + 32);
        } else {
            out.push(b);
        }
        i = i + 1;
    }
    assert(bytes@.take(n as int) == bytes@);
    out
}

/// Keeps the ASCII letters and digits of `value`, lower-cased, so that names compare
/// regardless of case, whitespace, `_` and `-`.
pub fn normalise(value: &str) -> (r: Vec<u8>)
    ensures
        r@ == normalised(value.spec_bytes()),
{
    let bytes = value.as_bytes();
    let n = bytes.len();
    let mut out: Vec<u8> = Vec::new();
    let mut i: usize = 0;
    while i < n
        invariant
            n == bytes@.len(),
            bytes@ == value.spec_bytes(),
            i <= n,
            out@ == normalised(bytes@.take(i as int)),
        decreases n - i,
    {
        let b = bytes[i];
        assert(bytes@.take(i + 1).drop_last() == bytes@.take(i as int));
        if (48u8 <= b && b <= 57u8) || (97u8 <= b && b <= 122u8) {
            out.push(b);
        } else if 65u8 <= b && b <= 90u8 {
            out.push(b + 32);
        }
        i = i + 1;
    }
    assert(bytes@.take(n as int) == bytes@);
    out
}

/// The characters of `s`, in order.
pub fn chars_of(s: &str) -> (r: Vec<char>)
    ensures
        r@ == s@,
{
    broadcast use vstd::string::group_string_axioms;

    let mut out: Vec<char> = Vec::new();
    for c in it: s.chars()
        invariant
            it.seq() == s@,
            out@ == s@.take(it.index() as int),
    {
        out.push(c);
    }
    assert(out@ == s@);
    out
}

/// Decodes UTF-8 text with `std::str::from_utf8`. Its documentation promises success exactly
/// for well-formed UTF-8, and then a string slice whose UTF-8 encoding is `bytes`; this
/// contract claims that and returns an owned copy of the slice.
#[verifier::external_body]
pub(crate) fn text_from_utf8(bytes: &[u8]) -> (res: Option<String>)
    ensures
        res is Some <==> valid_utf8(bytes@),
        res matches Some(s) ==> s@ == decode_utf8(bytes@),
{
    match std::str::from_utf8(bytes) {
        Ok(text) => Some(text.to_owned()),
        Err(_) => None,
    }
}

/// A sub-range of well-formed UTF-8 whose neighbouring bytes are ASCII is well-formed too.
pub proof fn lemma_ascii_delimited_valid_utf8(b: Seq<u8>, s: int, e: int)
    requires
        valid_utf8(b),
        0 <= s <= e <= b.len(),
        s == 0 || b[s - 1] < 0x80,
        e == b.len() || b[e] < 0x80,
    ensures
        valid_utf8(b.subrange(s, e)),
{
    let tail = b.subrange(s, b.len() as int);
    if s == 0 {
        assert(tail == b);
    } else {
        is_char_boundary_iff_not_is_continuation_byte(b, s - 1);
        valid_utf8_split(b, s - 1);
        let t = b.subrange(s - 1, b.len() as int);
        assert(t.len() > 0);
        assert(t[0] == b[s - 1]);
        assert(valid_first_scalar(t));
        assert(length_of_first_scalar(t) == 1);
        assert(pop_first_scalar(t) == tail);
    }
    assert(valid_utf8(tail));
    if e == b.len() {
        assert(tail.subrange(0, e - s) == b.subrange(s, e));
        assert(tail.subrange(0, e - s) == tail);
    } else {
        assert(tail[e - s] == b[e]);
        is_char_boundary_iff_not_is_continuation_byte(tail, e - s);
        valid_utf8_split(tail, e - s);
        assert(tail.subrange(0, e - s) == b.subrange(s, e));
    }
}

} // verus!
