//! The syntax of numeric data fields.
//!
//! A data field is accepted exactly when it is a decimal literal in the syntax that
//! `f64::from_str` documents (its EBNF, applied to the lower-cased field):
//!
//! ```text
//! Float  ::= Sign? ( 'inf' | 'infinity' | 'nan' | Number )
//! Number ::= ( Digit+ | Digit+ '.' Digit* | Digit* '.' Digit+ ) Exp?
//! Exp    ::= 'e' Sign? Digit+
//! Sign   ::= [+-]
//! Digit  ::= [0-9]
//! ```
//!
//! Converting an accepted literal to a binary floating-point value is left to the caller.

use vstd::prelude::*;

use crate::text::ascii_lower;

verus! {

pub open spec fn is_digit(b: u8) -> bool {
    48u8 <= b <= 57u8
}

pub open spec fn is_sign(b: u8) -> bool {
    b == 43u8 || b == 45u8
}

/// First index at or after `i` that does not hold an ASCII digit (or the end).
pub open spec fn digits_end(s: Seq<u8>, i: int) -> int
    decreases s.len() - i,
{
    if 0 <= i < s.len() && is_digit(s[i]) {
        digits_end(s, i + 1)
    } else {
        i
    }
}

/// `s[i..]` equals the lower-case ASCII word `lit`, ignoring ASCII case.
pub open spec fn lower_eq_from(s: Seq<u8>, i: int, lit: Seq<u8>) -> bool {
    &&& 0 <= i
    &&& s.len() - i == lit.len()
    &&& forall|m: int| 0 <= m < lit.len() ==> ascii_lower(#[trigger] s[i + m]) == lit[m]
}

pub open spec fn inf_word() -> Seq<u8> {
    seq![105u8, 110u8, 102u8]
}

pub open spec fn infinity_word() -> Seq<u8> {
    seq![105u8, 110u8, 102u8, 105u8, 110u8, 105u8, 116u8, 121u8]
}

pub open spec fn nan_word() -> Seq<u8> {
    seq![110u8, 97u8, 110u8]
}

/// `s[i..]` is empty or an exponent `e`/`E`, an optional sign and at least one digit.
pub open spec fn exponent_from(s: Seq<u8>, i: int) -> bool {
    ||| i == s.len()
    ||| {
        &&& 0 <= i < s.len()
        &&& (s[i] == 101u8 || s[i] == 69u8)
        &&& {
            let j = if i + 1 < s.len() && is_sign(s[i + 1]) {
                i + 2
            } else {
                i + 1
            };
            j < s.len() && digits_end(s, j) == s.len()
        }
    }
}

/// `s[i..]` is a `Number` of the grammar above.
pub open spec fn number_from(s: Seq<u8>, i: int) -> bool {
    let d1 = digits_end(s, i);
    if d1 < s.len() && s[d1] == 46u8 {
        let d2 = digits_end(s, d1 + 1);
        (d1 > i || d2 > d1 + 1) && exponent_from(s, d2)
    } else {
        d1 > i && exponent_from(s, d1)
    }
}

/// `s` is a `Float` of the grammar above.
pub open spec fn float_literal(s: Seq<u8>) -> bool {
    let i: int = if s.len() > 0 && is_sign(s[0]) {
        1
    } else {
        0
    };
    ||| lower_eq_from(s, i, inf_word())
    ||| lower_eq_from(s, i, infinity_word())
    ||| lower_eq_from(s, i, nan_word())
    ||| number_from(s, i)
}

fn digits_end_exec(s: &[u8], i: usize) -> (r: usize)
    requires
        i <= s@.len(),
    ensures
        r == digits_end(s@, i as int),
        i <= r <= s@.len(),
{
    let mut k = i;
    while k < s.len() && 48u8 <= s[k] && s[k] <= 57u8
        invariant
            i <= k <= s@.len(),
            digits_end(s@, k as int) == digits_end(s@, i as int),
        decreases s@.len() - k,
    {
        k = k + 1;
    }
    k
}

fn lower_eq_from_exec(s: &[u8], i: usize, lit: &[u8]) -> (r: bool)
    requires
        i <= s@.len(),
    ensures
        r == lower_eq_from(s@, i as int, lit@),
{
    if s.len() - i != lit.len() {
        return false;
    }
    let ln = lit.len();
    let sn = s.len();
    let mut m: usize = 0;
    while m < ln
        invariant
            ln == lit@.len(),
            sn == s@.len(),
            i <= s@.len(),
            s@.len() - i == lit@.len(),
            m <= lit@.len(),
            forall|q: int| 0 <= q < m ==> ascii_lower(#[trigger] s@[i + q]) == lit@[q],
        decreases lit@.len() - m,
    {
        let idx: usize = i + m;
        let b = s[idx];
        let lower = if 65u8 <= b && b <= 90u8 {
            b + 32
        } else {
            b
        };
        if lower != lit[m] {
            return false;
        }
        m = m + 1;
    }
    true
}

fn exponent_from_exec(s: &[u8], i: usize) -> (r: bool)
    requires
        i <= s@.len(),
    ensures
        r == exponent_from(s@, i as int),
{
    let n = s.len();
    if i == n {
        return true;
    }
    if s[i] != 101u8 && s[i] != 69u8 {
        return false;
    }
    let j = if i + 1 < n && (s[i + 1] == 43u8 || s[i + 1] == 45u8) {
        i + 2
    } else {
        i + 1
    };
    if j >= n {
        return false;
    }
    digits_end_exec(s, j) == n
}

/// Whether `field` is a decimal literal that `f64::from_str` accepts.
pub fn is_float_literal(field: &[u8]) -> (r: bool)
    ensures
        r == float_literal(field@),
{
    let n = field.len();
    let i: usize = if n > 0 && (field[0] == 43u8 || field[0] == 45u8) {
        1
    } else {
        0
    };
    let inf: [u8; 3] = [105u8, 110u8, 102u8];
    let infinity: [u8; 8] = [105u8, 110u8, 102u8, 105u8, 110u8, 105u8, 116u8, 121u8];
    let nan: [u8; 3] = [110u8, 97u8, 110u8];
    assert(inf@ == inf_word());
    assert(infinity@ == infinity_word());
    assert(nan@ == nan_word());
    if lower_eq_from_exec(field, i, &inf) || lower_eq_from_exec(field, i, &infinity)
        || lower_eq_from_exec(field, i, &nan) {
        return true;
    }
    let d1 = digits_end_exec(field, i);
    if d1 < n && field[d1] == 46u8 {
        let d2 = digits_end_exec(field, d1 + 1);
        (d1 > i || d2 > d1 + 1) && exponent_from_exec(field, d2)
    } else {
        d1 > i && exponent_from_exec(field, d1)
    }
}

} // verus!
