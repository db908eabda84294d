//! Byte-level text utilities shared by the lexer, parser and serializer:
//! whitespace trimming, indent measurement, first-occurrence search,
//! case folding for ASCII, and splitting a document into lines.

use vstd::prelude::*;

verus! {

/// Whitespace for this format: space and horizontal tab. Lines are split on
/// `\n` (a trailing `\r` is removed by the splitter), so neither occurs
/// inside a line.
pub open spec fn is_ws(c: u8) -> bool {
    c == 32 || c == 9
}

pub open spec fn is_digit(c: u8) -> bool {
    48 <= c <= 57
}

/// ASCII lower-casing of one byte.
pub open spec fn lower(c: u8) -> u8 {
    if 65 <= c <= 90 {
        (c + 32) as u8
    } else {
        c
    }
}

pub open spec fn lower_seq(s: Seq<u8>) -> Seq<u8> {
    s.map_values(|c: u8| lower(c))
}

/// Count of leading whitespace bytes: the indent width of a line.
pub open spec fn indent_of(s: Seq<u8>) -> nat
    decreases s.len(),
{
    if s.len() == 0 || !is_ws(s[0]) {
        0
    } else {
        1 + indent_of(s.skip(1))
    }
}

/// Count of trailing whitespace bytes.
pub open spec fn trailing_ws(s: Seq<u8>) -> nat
    decreases s.len(),
{
    if s.len() == 0 || !is_ws(s.last()) {
        0
    } else {
        1 + trailing_ws(s.drop_last())
    }
}

/// The line with leading and trailing whitespace removed.
pub open spec fn trim(s: Seq<u8>) -> Seq<u8> {
    let a = indent_of(s) as int;
    if a == s.len() {
        Seq::empty()
    } else {
        s.subrange(a, s.len() - trailing_ws(s.skip(a)))
    }
}

/// Index of the first occurrence of `c` in `s`; `s.len()` when absent.
pub open spec fn first_idx(s: Seq<u8>, c: u8) -> nat
    decreases s.len(),
{
    if s.len() == 0 {
        0
    } else if s[0] == c {
        0
    } else {
        1 + first_idx(s.skip(1), c)
    }
}

pub open spec fn has_byte(s: Seq<u8>, c: u8) -> bool {
    first_idx(s, c) < s.len()
}

/// One line piece with a single trailing carriage return removed.
pub open spec fn strip_cr(s: Seq<u8>) -> Seq<u8> {
    if s.len() > 0 && s.last() == 13 {
        s.drop_last()
    } else {
        s
    }
}

/// The document split into lines: pieces between `\n` bytes, the final piece
/// dropped when it is empty (so a trailing newline adds no line), and one
/// trailing `\r` removed from each piece.
pub open spec fn split_lines_spec(text: Seq<u8>) -> Seq<Seq<u8>>
    decreases text.len(),
{
    if text.len() == 0 {
        Seq::empty()
    } else {
        let i = first_idx(text, 10) as int;
        if i < text.len() {
            seq![strip_cr(text.take(i))].add(split_lines_spec(text.skip(i + 1)))
        } else {
            seq![strip_cr(text)]
        }
    }
}

/// Characterization of `first_idx`: it is the least index holding `c`.
pub proof fn lemma_first_idx(s: Seq<u8>, c: u8)
    ensures
        first_idx(s, c) <= s.len(),
        first_idx(s, c) < s.len() ==> s[first_idx(s, c) as int] == c,
        forall|j: int| 0 <= j < first_idx(s, c) ==> s[j] != c,
    decreases s.len(),
{
    if s.len() != 0 && s[0] != c {
        lemma_first_idx(s.skip(1), c);
        assert forall|j: int| 0 <= j < first_idx(s, c) implies s[j] != c by {
            if j > 0 {
                assert(s.skip(1)[j - 1] == s[j]);
            }
        }
        if first_idx(s, c) < s.len() {
            assert(s.skip(1)[first_idx(s.skip(1), c) as int] == s[first_idx(s, c) as int]);
        }
    }
}

/// Converse: an index below which `c` is absent, and holding `c` if interior,
/// is the first index.
pub proof fn lemma_first_idx_is(s: Seq<u8>, c: u8, i: int)
    requires
        0 <= i <= s.len(),
        forall|j: int| 0 <= j < i ==> s[j] != c,
        i < s.len() ==> s[i] == c,
    ensures
        first_idx(s, c) == i,
    decreases s.len(),
{
    if s.len() != 0 && s[0] != c {
        assert forall|j: int| 0 <= j < i - 1 implies s.skip(1)[j] != c by {
            assert(s.skip(1)[j] == s[j + 1]);
        }
        lemma_first_idx_is(s.skip(1), c, i - 1);
    }
}

/// Characterization of `indent_of`: the longest whitespace prefix.
pub proof fn lemma_indent_of(s: Seq<u8>)
    ensures
        indent_of(s) <= s.len(),
        indent_of(s) < s.len() ==> !is_ws(s[indent_of(s) as int]),
        forall|j: int| 0 <= j < indent_of(s) ==> is_ws(s[j]),
    decreases s.len(),
{
    if s.len() != 0 && is_ws(s[0]) {
        lemma_indent_of(s.skip(1));
        assert forall|j: int| 0 <= j < indent_of(s) implies is_ws(s[j]) by {
            if j > 0 {
                assert(s.skip(1)[j - 1] == s[j]);
            }
        }
        if indent_of(s) < s.len() {
            assert(s.skip(1)[indent_of(s.skip(1)) as int] == s[indent_of(s) as int]);
        }
    }
}

pub proof fn lemma_indent_of_is(s: Seq<u8>, i: int)
    requires
        0 <= i <= s.len(),
        forall|j: int| 0 <= j < i ==> is_ws(s[j]),
        i < s.len() ==> !is_ws(s[i]),
    ensures
        indent_of(s) == i,
    decreases s.len(),
{
    if s.len() != 0 && is_ws(s[0]) {
        assert forall|j: int| 0 <= j < i - 1 implies is_ws(s.skip(1)[j]) by {
            assert(s.skip(1)[j] == s[j + 1]);
        }
        lemma_indent_of_is(s.skip(1), i - 1);
    }
}

/// Characterization of `trailing_ws`: the longest whitespace suffix.
pub proof fn lemma_trailing_ws(s: Seq<u8>)
    ensures
        trailing_ws(s) <= s.len(),
        trailing_ws(s) < s.len() ==> !is_ws(s[s.len() - trailing_ws(s) - 1]),
        forall|j: int| s.len() - trailing_ws(s) <= j < s.len() ==> is_ws(s[j]),
    decreases s.len(),
{
    if s.len() != 0 && is_ws(s.last()) {
        let ss = s.drop_last();
        lemma_trailing_ws(ss);
        assert forall|j: int| s.len() - trailing_ws(s) <= j < s.len() implies is_ws(s[j]) by {
            if j < s.len() - 1 {
                assert(ss[j] == s[j]);
            }
        }
        if trailing_ws(s) < s.len() {
            assert(ss[ss.len() - trailing_ws(ss) - 1] == s[s.len() - trailing_ws(s) - 1]);
        }
    }
}

pub proof fn lemma_trailing_ws_is(s: Seq<u8>, t: int)
    requires
        0 <= t <= s.len(),
        forall|j: int| s.len() - t <= j < s.len() ==> is_ws(s[j]),
        t < s.len() ==> !is_ws(s[s.len() - t - 1]),
    ensures
        trailing_ws(s) == t,
    decreases s.len(),
{
    if s.len() != 0 && is_ws(s.last()) {
        lemma_trailing_ws_is(s.drop_last(), t - 1);
    }
}

fn is_ws_exec(c: u8) -> (r: bool)
    ensures
        r == is_ws(c),
{
    c == 32 || c == 9
}

/// Count of leading whitespace bytes of a line.
pub fn indent_len(s: &[u8]) -> (r: usize)
    ensures
        r == indent_of(s@),
{
    let n = s.len();
    let mut a: usize = 0;
    while a < n && is_ws_exec(s[a])
        invariant
            0 <= a <= n,
            n == s@.len(),
            forall|j: int| 0 <= j < a ==> is_ws(s@[j]),
        decreases n - a,
    {
        a = a + 1;
    }
    proof {
        lemma_indent_of_is(s@, a as int);
    }
    a
}

/// The line with leading and trailing whitespace removed.
pub fn trim_slice(s: &[u8]) -> (out: &[u8])
    ensures
        out@ == trim(s@),
{
    let n = s.len();
    let a = indent_len(s);
    if a == n {
        let out = vstd::slice::slice_subrange(s, 0, 0);
        proof {
            assert(out@ =~= trim(s@));
        }
        out
    } else {
        let mut b: usize = n;
        proof {
            lemma_indent_of(s@);
        }
        while a < b && is_ws_exec(s[b - 1])
            invariant
                a < n,
                a <= b <= n,
                n == s@.len(),
                !is_ws(s@[a as int]),
                forall|j: int| b <= j < n ==> is_ws(s@[j]),
            decreases b,
        {
            b = b - 1;
        }
        let out = vstd::slice::slice_subrange(s, a, b);
        proof {
            assert(b > a) by {
                if b == a {
                    assert(is_ws(s@[a as int]));
                }
            }
            assert(!is_ws(s@[b - 1]));
            let ls = s@.skip(a as int);
            assert forall|j: int| ls.len() - (n - b) <= j < ls.len() implies is_ws(ls[j]) by {
                assert(ls[j] == s@[j + a]);
            }
            assert(!is_ws(ls[ls.len() - (n - b) - 1]));
            lemma_trailing_ws_is(ls, n - b);
            assert(out@ =~= trim(s@));
        }
        out
    }
}

/// Index of the first occurrence of `c`, or the length when absent.
pub fn find_byte(s: &[u8], c: u8) -> (r: usize)
    ensures
        r == first_idx(s@, c),
{
    let n = s.len();
    let mut i: usize = 0;
    while i < n && s[i] != c
        invariant
            0 <= i <= n,
            n == s@.len(),
            forall|j: int| 0 <= j < i ==> s@[j] != c,
        decreases n - i,
    {
        i = i + 1;
    }
    proof {
        lemma_first_idx_is(s@, c, i as int);
    }
    i
}

/// ASCII-case-insensitive equality of two byte strings.
pub fn eq_ignore_case(a: &[u8], b: &[u8]) -> (r: bool)
    ensures
        r == (lower_seq(a@) == lower_seq(b@)),
{
    if a.len() != b.len() {
        proof {
            assert(lower_seq(a@).len() != lower_seq(b@).len());
        }
        return false;
    }
    let n = a.len();
    let mut i: usize = 0;
    while i < n
        invariant
            0 <= i <= n,
            n == a@.len() == b@.len(),
            forall|j: int| 0 <= j < i ==> lower(a@[j]) == lower(b@[j]),
        decreases n - i,
    {
        let ca = a[i];
        let cb = b[i];
        let la = if 65 <= ca && ca <= 90 { ca + 32 } else { ca };
        let lb = if 65 <= cb && cb <= 90 { cb + 32 } else { cb };
        if la != lb {
            proof {
                assert(lower_seq(a@)[i as int] != lower_seq(b@)[i as int]);
            }
            return false;
        }
        i = i + 1;
    }
    proof {
        assert(lower_seq(a@) =~= lower_seq(b@));
    }
    true
}

/// The views of a sequence of byte vectors.
pub open spec fn views_of(s: Seq<Vec<u8>>) -> Seq<Seq<u8>> {
    s.map_values(|v: Vec<u8>| v@)
}

proof fn lemma_views_of_push(s: Seq<Vec<u8>>, x: Vec<u8>)
    ensures
        views_of(s.push(x)) == views_of(s).push(x@),
{
    assert(views_of(s.push(x)) =~= views_of(s).push(x@));
}

/// Split a document into lines as `split_lines_spec` describes.
pub fn split_lines(text: &[u8]) -> (lines: Vec<Vec<u8>>)
    ensures
        views_of(lines@) == split_lines_spec(text@),
{
    let n = text.len();
    let mut lines: Vec<Vec<u8>> = Vec::new();
    let mut start: usize = 0;
    let mut i: usize = 0;
    proof {
        assert(views_of(lines@) =~= Seq::<Seq<u8>>::empty());
        assert(text@.skip(0) =~= text@);
        assert(views_of(lines@) + split_lines_spec(text@) =~= split_lines_spec(text@));
    }
    while i < n
        invariant
            0 <= start <= i <= n,
            n == text@.len(),
            forall|j: int| start <= j < i ==> text@[j] != 10,
            split_lines_spec(text@) == views_of(lines@) + split_lines_spec(
                text@.skip(start as int),
            ),
        decreases n - i,
    {
        if text[i] == 10 {
            let piece = strip_cr_slice(vstd::slice::slice_subrange(text, start, i));
            proof {
                let rest = text@.skip(start as int);
                assert forall|j: int| 0 <= j < i - start implies rest[j] != 10 by {
                    assert(rest[j] == text@[j + start]);
                }
                assert(rest[i - start] == 10);
                lemma_first_idx_is(rest, 10, i - start);
                assert(rest.take(i - start) =~= text@.subrange(start as int, i as int));
                assert(rest.skip(i - start + 1) =~= text@.skip(i + 1));
                assert(split_lines_spec(rest) == seq![piece@].add(
                    split_lines_spec(text@.skip(i + 1)),
                ));
                lemma_views_of_push(lines@, piece);
                assert(views_of(lines@).push(piece@) + split_lines_spec(text@.skip(i + 1)) =~= views_of(
                    lines@,
                ) + split_lines_spec(rest));
            }
            lines.push(piece);
            start = i + 1;
        }
        i = i + 1;
    }
    if start < n {
        let piece = strip_cr_slice(vstd::slice::slice_subrange(text, start, n));
        proof {
            let rest = text@.skip(start as int);
            assert forall|j: int| 0 <= j < rest.len() implies rest[j] != 10 by {
                assert(rest[j] == text@[j + start]);
            }
            lemma_first_idx_is(rest, 10, rest.len() as int);
            assert(rest =~= text@.subrange(start as int, n as int));
            assert(split_lines_spec(rest) == seq![strip_cr(rest)]);
            lemma_views_of_push(lines@, piece);
            assert(views_of(lines@).push(piece@) =~= views_of(lines@) + split_lines_spec(rest));
        }
        lines.push(piece);
    } else {
        proof {
            assert(text@.skip(start as int) =~= Seq::<u8>::empty());
            assert(views_of(lines@) + split_lines_spec(text@.skip(start as int)) =~= views_of(
                lines@,
            ));
        }
    }
    lines
}

/// One line piece with a single trailing carriage return removed.
fn strip_cr_slice(s: &[u8]) -> (out: Vec<u8>)
    ensures
        out@ == strip_cr(s@),
{
    let n = s.len();
    if n > 0 && s[n - 1] == 13 {
        let out = vstd::slice::slice_to_vec(vstd::slice::slice_subrange(s, 0, n - 1));
        proof {
            assert(out@ =~= strip_cr(s@));
        }
        out
    } else {
        let out = vstd::slice::slice_to_vec(s);
        out
    }
}

} // verus!
