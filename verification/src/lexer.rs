//! The scalar lexer: a trimmed token becomes exactly one scalar value,
//! never failing (the fallback is a text scalar).
//!
//! Recognition order, first match wins: boolean literals, the null literal
//! (all ASCII-case-insensitive), a double-quoted text token, a signed
//! base-10 64-bit integer, a decimal floating-point literal, and finally
//! verbatim text. A floating-point scalar keeps its token text, so the
//! library never computes with floating point; the token `inf`/`nan` family
//! is deliberately not recognized as a float and falls through to text.

use vstd::prelude::*;
use crate::value::{BellandeValue, SpecValue};
use crate::text::{is_digit, lower_seq, first_idx, eq_ignore_case};
use crate::BellandeFormat;

verus! {

pub open spec fn true_bytes() -> Seq<u8> {
    seq![116u8, 114u8, 117u8, 101u8]
}

pub open spec fn false_bytes() -> Seq<u8> {
    seq![102u8, 97u8, 108u8, 115u8, 101u8]
}

pub open spec fn null_bytes() -> Seq<u8> {
    seq![110u8, 117u8, 108u8, 108u8]
}

pub open spec fn all_digits(s: Seq<u8>) -> bool {
    forall|j: int| 0 <= j < s.len() ==> is_digit(s[j])
}

/// Value of a string of decimal digits.
pub open spec fn digits_val(s: Seq<u8>) -> int
    decreases s.len(),
{
    if s.len() == 0 {
        0
    } else {
        digits_val(s.drop_last()) * 10 + (s.last() - 48)
    }
}

/// An integer token: an optional leading minus sign, then one or more
/// digits, denoting a value that fits in a signed 64-bit integer.
pub open spec fn is_int_token(t: Seq<u8>) -> bool {
    if t.len() > 0 && t[0] == 45 {
        let d = t.skip(1);
        d.len() > 0 && all_digits(d) && digits_val(d) <= 0x8000000000000000
    } else {
        t.len() > 0 && all_digits(t) && digits_val(t) <= 0x7fffffffffffffff
    }
}

/// The value denoted by an integer token.
pub open spec fn int_val(t: Seq<u8>) -> int {
    if t.len() > 0 && t[0] == 45 {
        -digits_val(t.skip(1))
    } else {
        digits_val(t)
    }
}

/// A token with one optional leading sign removed.
pub open spec fn strip_sign(t: Seq<u8>) -> Seq<u8> {
    if t.len() > 0 && (t[0] == 43 || t[0] == 45) {
        t.skip(1)
    } else {
        t
    }
}

pub open spec fn is_exp_char(c: u8) -> bool {
    c == 101 || c == 69
}

/// Index of the first exponent marker (`e` or `E`); the length when absent.
pub open spec fn exp_idx(s: Seq<u8>) -> nat
    decreases s.len(),
{
    if s.len() == 0 {
        0
    } else if is_exp_char(s[0]) {
        0
    } else {
        1 + exp_idx(s.skip(1))
    }
}

/// A mantissa: digits with at most one decimal point and at least one digit.
pub open spec fn is_mantissa(m: Seq<u8>) -> bool {
    let d = first_idx(m, 46) as int;
    if d < m.len() {
        m.len() > 1 && all_digits(m.take(d)) && all_digits(m.skip(d + 1))
    } else {
        m.len() > 0 && all_digits(m)
    }
}

/// An exponent part: an optional sign, then one or more digits.
pub open spec fn is_exp_part(x: Seq<u8>) -> bool {
    let y = strip_sign(x);
    y.len() > 0 && all_digits(y)
}

/// The sign-stripped body of a float token: a mantissa, optionally followed
/// by an exponent marker and an exponent part.
pub open spec fn is_float_body(b: Seq<u8>) -> bool {
    let e = exp_idx(b) as int;
    if e < b.len() {
        is_mantissa(b.take(e)) && is_exp_part(b.skip(e + 1))
    } else {
        is_mantissa(b)
    }
}

/// A decimal floating-point literal: optional sign, mantissa, optional
/// exponent. The `inf`/`infinity`/`nan` spellings are not included.
pub open spec fn is_float_token(t: Seq<u8>) -> bool {
    is_float_body(strip_sign(t))
}

/// A quoted token: begins and ends with a double quote and has length >= 2.
pub open spec fn is_quoted(t: Seq<u8>) -> bool {
    t.len() >= 2 && t[0] == 34 && t.last() == 34
}

/// What the lexer produces for a trimmed token, rule by rule.
pub open spec fn lex_spec(t: Seq<u8>) -> SpecValue {
    if lower_seq(t) == true_bytes() {
        SpecValue::Boolean(true)
    } else if lower_seq(t) == false_bytes() {
        SpecValue::Boolean(false)
    } else if lower_seq(t) == null_bytes() {
        SpecValue::Null
    } else if is_quoted(t) {
        SpecValue::Text(t.subrange(1, t.len() - 1))
    } else if is_int_token(t) {
        SpecValue::Integer(int_val(t))
    } else if is_float_token(t) {
        SpecValue::Float(t)
    } else {
        SpecValue::Text(t)
    }
}

pub proof fn lemma_digits_val_nonneg(s: Seq<u8>)
    requires
        all_digits(s),
    ensures
        digits_val(s) >= 0,
    decreases s.len(),
{
    if s.len() > 0 {
        assert(all_digits(s.drop_last()));
        lemma_digits_val_nonneg(s.drop_last());
    }
}

/// An index below which no exponent marker occurs, and holding one if
/// interior, is the first exponent marker's index.
pub proof fn lemma_exp_idx_is(s: Seq<u8>, i: int)
    requires
        0 <= i <= s.len(),
        forall|j: int| 0 <= j < i ==> !is_exp_char(s[j]),
        i < s.len() ==> is_exp_char(s[i]),
    ensures
        exp_idx(s) == i,
    decreases s.len(),
{
    if s.len() != 0 && !is_exp_char(s[0]) {
        assert forall|j: int| 0 <= j < i - 1 implies !is_exp_char(s.skip(1)[j]) by {
            assert(s.skip(1)[j] == s[j + 1]);
        }
        lemma_exp_idx_is(s.skip(1), i - 1);
    }
}

fn all_digits_exec(s: &[u8]) -> (r: bool)
    ensures
        r == all_digits(s@),
{
    let n = s.len();
    let mut i: usize = 0;
    while i < n
        invariant
            0 <= i <= n,
            n == s@.len(),
            forall|j: int| 0 <= j < i ==> is_digit(s@[j]),
        decreases n - i,
    {
        let c = s[i];
        if c < 48 || c > 57 {
            return false;
        }
        i = i + 1;
    }
    true
}

/// Parse a signed base-10 64-bit integer token: an optional leading minus
/// sign, then digits only. Returns the value exactly when the token has that
/// shape and the value fits.
pub fn parse_i64(t: &[u8]) -> (r: Option<i64>)
    ensures
        r is Some <==> is_int_token(t@),
        r matches Some(v) ==> v as int == int_val(t@),
{
    let n = t.len();
    if n == 0 {
        return None;
    }
    let neg = t[0] == 45;
    let start: usize = if neg { 1 } else { 0 };
    if start == n {
        return None;
    }
    let ghost digits = t@.skip(start as int);
    let mut i: usize = start;
    let mut acc: u64 = 0;
    let mut over = false;
    proof {
        assert(t@.subrange(start as int, start as int) =~= Seq::<u8>::empty());
    }
    while i < n
        invariant
            start <= i <= n,
            n == t@.len(),
            neg == (t@[0] == 45),
            start == (if neg { 1int } else { 0int }),
            forall|j: int| start <= j < i ==> is_digit(t@[j]),
            !over ==> acc as int == digits_val(t@.subrange(start as int, i as int)),
            over ==> digits_val(t@.subrange(start as int, i as int)) > u64::MAX,
        decreases n - i,
    {
        let c = t[i];
        if c < 48 || c > 57 {
            proof {
                if t@[0] == 45 {
                    assert(t@.skip(1)[i - 1] == t@[i as int]);
                    assert(!all_digits(t@.skip(1)));
                } else {
                    assert(!all_digits(t@));
                }
            }
            return None;
        }
        let d = (c - 48) as u64;
        let ghost pre = t@.subrange(start as int, i as int);
        let ghost post = t@.subrange(start as int, i + 1 as int);
        proof {
            assert(post.drop_last() =~= pre);
            assert(post.last() == c);
            assert(digits_val(post) == digits_val(pre) * 10 + d);
            assert(all_digits(pre));
            lemma_digits_val_nonneg(pre);
        }
        if over {
            proof {
                assert(digits_val(pre) * 10 >= digits_val(pre)) by (nonlinear_arith)
                    requires
                        digits_val(pre) >= 0,
                ;
            }
        } else if acc > (u64::MAX - d) / 10 {
            proof {
                let m = (u64::MAX - d) as int;
                assert(m == 10 * (m / 10) + m % 10 && 0 <= m % 10 < 10) by (nonlinear_arith);
                assert(acc as int * 10 >= (m / 10 + 1) * 10) by (nonlinear_arith)
                    requires
                        acc as int >= m / 10 + 1,
                ;
                assert(digits_val(post) > u64::MAX);
            }
            over = true;
        } else {
            proof {
                let m = (u64::MAX - d) as int;
                assert(m == 10 * (m / 10) + m % 10 && 0 <= m % 10 < 10) by (nonlinear_arith);
                assert(acc as int * 10 <= (m / 10) * 10) by (nonlinear_arith)
                    requires
                        acc as int <= m / 10,
                ;
            }
            acc = acc * 10 + d;
        }
        i = i + 1;
    }
    proof {
        assert(t@.subrange(start as int, n as int) =~= digits);
        if !neg {
            assert(t@.skip(0) =~= t@);
        }
        assert(all_digits(digits));
        lemma_digits_val_nonneg(digits);
    }
    if over {
        return None;
    }
    if neg {
        if acc <= 9223372036854775808u64 {
            let v: i64 = (-(acc as i128)) as i64;
            Some(v)
        } else {
            None
        }
    } else {
        if acc <= 9223372036854775807u64 {
            Some(acc as i64)
        } else {
            None
        }
    }
}

fn is_mantissa_exec(m: &[u8]) -> (r: bool)
    ensures
        r == is_mantissa(m@),
{
    let n = m.len();
    let d = crate::text::find_byte(m, 46);
    proof {
        crate::text::lemma_first_idx(m@, 46);
    }
    if d < n {
        let head = vstd::slice::slice_subrange(m, 0, d);
        let tail = vstd::slice::slice_subrange(m, d + 1, n);
        proof {
            assert(head@ =~= m@.take(d as int));
            assert(tail@ =~= m@.skip(d + 1));
        }
        n > 1 && all_digits_exec(head) && all_digits_exec(tail)
    } else {
        n > 0 && all_digits_exec(m)
    }
}

fn is_exp_part_exec(x: &[u8]) -> (r: bool)
    ensures
        r == is_exp_part(x@),
{
    let n = x.len();
    let start: usize = if n > 0 && (x[0] == 43 || x[0] == 45) {
        1
    } else {
        0
    };
    let y = vstd::slice::slice_subrange(x, start, n);
    proof {
        assert(y@ =~= strip_sign(x@));
    }
    y.len() > 0 && all_digits_exec(y)
}

/// Whether a token is a decimal floating-point literal.
pub fn is_float(t: &[u8]) -> (r: bool)
    ensures
        r == is_float_token(t@),
{
    let n = t.len();
    let start: usize = if n > 0 && (t[0] == 43 || t[0] == 45) {
        1
    } else {
        0
    };
    let b = vstd::slice::slice_subrange(t, start, n);
    proof {
        assert(b@ =~= strip_sign(t@));
    }
    let bn = b.len();
    let mut e: usize = 0;
    while e < bn && b[e] != 101 && b[e] != 69
        invariant
            0 <= e <= bn,
            bn == b@.len(),
            forall|j: int| 0 <= j < e ==> !is_exp_char(b@[j]),
        decreases bn - e,
    {
        e = e + 1;
    }
    proof {
        lemma_exp_idx_is(b@, e as int);
    }
    if e < bn {
        let head = vstd::slice::slice_subrange(b, 0, e);
        let tail = vstd::slice::slice_subrange(b, e + 1, bn);
        proof {
            assert(head@ =~= b@.take(e as int));
            assert(tail@ =~= b@.skip(e + 1));
        }
        is_mantissa_exec(head) && is_exp_part_exec(tail)
    } else {
        is_mantissa_exec(b)
    }
}

pub fn true_vec() -> (r: Vec<u8>)
    ensures
        r@ == true_bytes(),
{
    let mut v: Vec<u8> = Vec::new();
    v.push(116u8);
    v.push(114u8);
    v.push(117u8);
    v.push(101u8);
    proof {
        assert(v@ =~= true_bytes());
    }
    v
}

pub fn false_vec() -> (r: Vec<u8>)
    ensures
        r@ == false_bytes(),
{
    let mut v: Vec<u8> = Vec::new();
    v.push(102u8);
    v.push(97u8);
    v.push(108u8);
    v.push(115u8);
    v.push(101u8);
    proof {
        assert(v@ =~= false_bytes());
    }
    v
}

pub fn null_vec() -> (r: Vec<u8>)
    ensures
        r@ == null_bytes(),
{
    let mut v: Vec<u8> = Vec::new();
    v.push(110u8);
    v.push(117u8);
    v.push(108u8);
    v.push(108u8);
    proof {
        assert(v@ =~= null_bytes());
    }
    v
}

impl BellandeFormat {
    /// Lex one trimmed scalar token. Total: every token yields a value.
    pub fn parse_value(&self, t: &[u8]) -> (v: BellandeValue)
        ensures
            v@ == lex_spec(t@),
    {
        proof {
            assert(lower_seq(true_bytes()) =~= true_bytes());
            assert(lower_seq(false_bytes()) =~= false_bytes());
            assert(lower_seq(null_bytes()) =~= null_bytes());
        }
        let tb = true_vec();
        if eq_ignore_case(t, tb.as_slice()) {
            return BellandeValue::Boolean(true);
        }
        let fb = false_vec();
        if eq_ignore_case(t, fb.as_slice()) {
            return BellandeValue::Boolean(false);
        }
        let nb = null_vec();
        if eq_ignore_case(t, nb.as_slice()) {
            return BellandeValue::Null;
        }
        let n = t.len();
        if n >= 2 && t[0] == 34 && t[n - 1] == 34 {
            let inner = vstd::slice::slice_to_vec(vstd::slice::slice_subrange(t, 1, n - 1));
            proof {
                assert(inner@ =~= t@.subrange(1, t@.len() - 1));
            }
            return BellandeValue::Text(inner);
        }
        match parse_i64(t) {
            Option::Some(v) => {
                return BellandeValue::Integer(v);
            },
            Option::None => {},
        }
        if is_float(t) {
            return BellandeValue::Float(vstd::slice::slice_to_vec(t));
        }
        BellandeValue::Text(vstd::slice::slice_to_vec(t))
    }
}

} // verus!
