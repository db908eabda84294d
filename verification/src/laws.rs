//! Laws relating the lexer, the formatter and the parser.

use vstd::prelude::*;
use crate::value::SpecValue;
use crate::text::{is_digit, lower_seq, trim, has_byte};
use crate::lexer::{
    lex_spec, is_int_token, int_val, is_float_token, is_quoted, all_digits, digits_val,
    true_bytes, false_bytes, null_bytes,
};
use crate::serializer::{fmt_scalar, needs_quotes, dec_digits, int_to_dec};
use crate::parser::{
    key_idx, map_has, map_get, map_set, lemma_key_idx, lemma_key_idx_is, step_line, run_lines,
    parse_lines_spec, SpecState, SpecError, lemma_run_lines_err,
};

verus! {

/// The canonical decimal digits of a non-negative integer: at least one
/// digit, digits only, and they denote the integer itself.
pub proof fn lemma_dec_digits(n: int)
    requires
        n >= 0,
    ensures
        dec_digits(n).len() >= 1,
        all_digits(dec_digits(n)),
        digits_val(dec_digits(n)) == n,
    decreases n,
{
    if n < 10 {
        let d = dec_digits(n);
        assert(d =~= seq![(48 + n) as u8]);
        assert(d.drop_last() =~= Seq::<u8>::empty());
        assert(0 <= 48 + n <= 57);
        assert(d.last() == (48 + n) as u8);
        assert(d.last() as int == 48 + n);
        assert(digits_val(d.drop_last()) == 0);
        assert(digits_val(d) == digits_val(d.drop_last()) * 10 + (d.last() - 48));
        assert(digits_val(d) == n);
    } else {
        lemma_dec_digits(n / 10);
        let d = dec_digits(n);
        assert(d.drop_last() =~= dec_digits(n / 10));
        assert(d.last() == (48 + n % 10) as u8);
        assert(digits_val(d) == (n / 10) * 10 + n % 10);
        assert((n / 10) * 10 + n % 10 == n);
        assert forall|j: int| 0 <= j < d.len() implies is_digit(d[j]) by {
            if j < d.len() - 1 {
                assert(d[j] == dec_digits(n / 10)[j]);
            }
        }
    }
}

/// The canonical text of an integer lexes back to that integer.
pub proof fn lemma_int_round_trip(i: int)
    requires
        -0x8000000000000000 <= i <= 0x7fffffffffffffff,
    ensures
        lex_spec(int_to_dec(i)) == SpecValue::Integer(i),
{
    let t = int_to_dec(i);
    if i < 0 {
        lemma_dec_digits(-i);
        assert(t[0] == 45);
        assert(t.skip(1) =~= dec_digits(-i));
        assert(is_int_token(t));
        assert(int_val(t) == i);
    } else {
        lemma_dec_digits(i);
        assert(t =~= dec_digits(i));
        assert(is_digit(t[0]));
        assert(is_int_token(t));
        assert(int_val(t) == i);
    }
    assert(t.len() >= 1);
    assert(t[0] == 45 || is_digit(t[0]));
    assert(lower_seq(t)[0] == t[0]);
    assert(lower_seq(t) != true_bytes());
    assert(lower_seq(t) != false_bytes());
    assert(lower_seq(t) != null_bytes());
    assert(!is_quoted(t));
}

/// Lexing is idempotent under the canonical formatter, for every scalar
/// whose verbatim text form cannot be mistaken for another token kind: a
/// text scalar that is emitted unquoted must not itself look like a quoted,
/// integer or float token (`n: "42"` re-lexes as the integer `42`, so such
/// values are excluded).
pub proof fn lemma_lex_format_round_trip(v: SpecValue)
    requires
        v.is_scalar(),
        v matches SpecValue::Integer(i) ==> -0x8000000000000000 <= i <= 0x7fffffffffffffff,
        v matches SpecValue::Float(t) ==> is_float_token(t) && lower_seq(t) != true_bytes()
            && lower_seq(t) != false_bytes() && lower_seq(t) != null_bytes() && !is_quoted(t)
            && !is_int_token(t),
        v matches SpecValue::Text(t) ==> needs_quotes(t) || (!is_quoted(t) && !is_int_token(t)
            && !is_float_token(t)),
    ensures
        lex_spec(fmt_scalar(v)) == v,
{
    assert(lower_seq(true_bytes()) =~= true_bytes());
    assert(lower_seq(false_bytes()) =~= false_bytes());
    assert(lower_seq(null_bytes()) =~= null_bytes());
    match v {
        SpecValue::Boolean(b) => {
            if b {
                assert(lex_spec(true_bytes()) == v);
            } else {
                assert(lex_spec(false_bytes()) == v);
            }
        },
        SpecValue::Null => {
            assert(lex_spec(null_bytes()) == v);
        },
        SpecValue::Integer(i) => {
            lemma_int_round_trip(i);
        },
        SpecValue::Float(t) => {
            assert(fmt_scalar(v) == t);
        },
        SpecValue::Text(t) => {
            if needs_quotes(t) {
                let q = fmt_scalar(v);
                assert(q == seq![34u8].add(t).push(34u8));
                assert(q.len() == t.len() + 2);
                assert(q[0] == 34 && q.last() == 34);
                assert(lower_seq(q)[0] == 34);
                assert(lower_seq(q) != true_bytes());
                assert(lower_seq(q) != false_bytes());
                assert(lower_seq(q) != null_bytes());
                assert(is_quoted(q));
                assert(q.subrange(1, q.len() - 1) =~= t);
            } else {
                assert(fmt_scalar(v) == t);
                assert(lower_seq(t) != true_bytes());
                assert(lower_seq(t) != false_bytes());
                assert(lower_seq(t) != null_bytes());
            }
        },
        _ => {},
    }
}

/// A later binding of the same key at the same scope wins: after `map_set`,
/// the key is present and looks up to the new value, every other key's
/// binding is unchanged, and the key order is unchanged (or gains the new
/// key at the end).
pub proof fn lemma_last_key_wins(entries: Seq<(Seq<u8>, SpecValue)>, k: Seq<u8>, v: SpecValue)
    ensures
        map_has(map_set(entries, k, v), k),
        map_get(map_set(entries, k, v), k) == v,
        forall|k2: Seq<u8>|
            k2 != k ==> map_has(map_set(entries, k, v), k2) == map_has(entries, k2),
        forall|k2: Seq<u8>|
            k2 != k && map_has(entries, k2) ==> map_get(map_set(entries, k, v), k2) == map_get(
                entries,
                k2,
            ),
{
    lemma_key_idx(entries, k);
    let s2 = map_set(entries, k, v);
    let i = key_idx(entries, k) as int;
    if map_has(entries, k) {
        lemma_key_idx_is(s2, k, i);
    } else {
        lemma_key_idx_is(s2, k, i);
    }
    assert forall|k2: Seq<u8>| k2 != k implies map_has(s2, k2) == map_has(entries, k2) && (map_has(
        entries,
        k2,
    ) ==> map_get(s2, k2) == map_get(entries, k2)) by {
        lemma_key_idx(entries, k2);
        lemma_key_idx(s2, k2);
        let j = key_idx(entries, k2) as int;
        if map_has(entries, k2) {
            assert(s2[j].0 == k2);
            lemma_key_idx_is(s2, k2, j);
        } else {
            if map_has(entries, k) {
                lemma_key_idx_is(s2, k2, s2.len() as int);
            } else {
                lemma_key_idx_is(s2, k2, s2.len() as int);
            }
        }
    }
}

/// A blank line, or one whose first non-whitespace byte starts a comment,
/// leaves the parser state exactly as it was.
pub proof fn lemma_comment_blank_noop(st: SpecState, line: Seq<u8>, lineno: int)
    requires
        trim(line).len() == 0 || trim(line)[0] == 35,
    ensures
        step_line(st, line, lineno) == Ok::<SpecState, SpecError>(st),
{
}

/// A non-blank, non-comment line that has no colon and does not begin with
/// a dash is malformed; if every earlier line was accepted, the whole
/// document fails with that line's 1-based number.
pub proof fn lemma_malformed_document(lines: Seq<Seq<u8>>, i: int)
    requires
        0 <= i < lines.len(),
        run_lines(lines.take(i)) is Ok,
        trim(lines[i]).len() > 0,
        trim(lines[i])[0] != 35,
        !has_byte(trim(lines[i]), 58),
        trim(lines[i])[0] != 45,
    ensures
        parse_lines_spec(lines) == Err::<SpecValue, SpecError>(
            SpecError::Malformed { line: i + 1, content: lines[i] },
        ),
{
    assert(lines.take(i + 1).drop_last() =~= lines.take(i));
    assert(lines.take(i + 1).last() == lines[i]);
    let st = run_lines(lines.take(i))->Ok_0;
    assert(step_line(st, lines[i], i + 1) == Err::<SpecState, SpecError>(
        SpecError::Malformed { line: i + 1, content: lines[i] },
    ));
    lemma_run_lines_err(lines, i + 1);
}

} // verus!

use crate::roundtrip::run_from;

verus! {

/// A line's effect on the state does not depend on its line number; only a
/// reported error carries the number.
proof fn lemma_step_line_base(st: SpecState, line: Seq<u8>, n1: int, n2: int)
    requires
        step_line(st, line, n1) is Ok,
    ensures
        step_line(st, line, n2) == step_line(st, line, n1),
{
}

/// A run that succeeds, succeeds identically from any starting line number.
proof fn lemma_run_from_base(st: SpecState, lines: Seq<Seq<u8>>, b1: int, b2: int)
    requires
        run_from(st, lines, b1) is Ok,
    ensures
        run_from(st, lines, b2) == run_from(st, lines, b1),
    decreases lines.len(),
{
    if lines.len() > 0 {
        assert(step_line(st, lines[0], b1 + 1) is Ok);
        lemma_step_line_base(st, lines[0], b1 + 1, b2 + 1);
        let st2 = step_line(st, lines[0], b1 + 1)->Ok_0;
        lemma_run_from_base(st2, lines.skip(1), b1 + 1, b2 + 1);
    }
}

/// Comment and blank lines are no-ops for a whole document: inserting one
/// anywhere in a line sequence that parses successfully leaves the parsed
/// value unchanged.
pub proof fn lemma_noop_line_inserted(lines: Seq<Seq<u8>>, extra: Seq<u8>, at: int)
    requires
        0 <= at <= lines.len(),
        trim(extra).len() == 0 || trim(extra)[0] == 35,
        parse_lines_spec(lines) is Ok,
    ensures
        parse_lines_spec(lines.insert(at, extra)) == parse_lines_spec(lines),
{
    let with = lines.insert(at, extra);
    let pre = lines.take(at);
    let post = lines.skip(at);
    crate::roundtrip::lemma_run_lines_is_run_from(lines);
    crate::roundtrip::lemma_run_lines_is_run_from(with);
    assert(lines =~= pre + post);
    assert(with =~= pre + (seq![extra] + post));
    crate::roundtrip::lemma_run_from_concat(crate::parser::init_state(), pre, post, 0);
    crate::roundtrip::lemma_run_from_concat(crate::parser::init_state(), pre, seq![extra] + post, 0);
    let r_pre = run_from(crate::parser::init_state(), pre, 0);
    assert(r_pre is Ok);
    let st1 = r_pre->Ok_0;
    lemma_comment_blank_noop(st1, extra, at + 1);
    assert((seq![extra] + post)[0] == extra);
    assert((seq![extra] + post).skip(1) =~= post);
    let r_post = run_from(st1, post, at as int);
    assert(r_post is Ok);
    lemma_run_from_base(st1, post, at as int, at + 1);
}

} // verus!
