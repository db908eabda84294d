//! The value-level round trip: a tree built only from the shapes the grammar
//! can express — a root mapping whose values are scalars or lists of
//! scalars — parses back from its canonical rendering unchanged.

use vstd::prelude::*;
use crate::value::SpecValue;
use crate::text::{
    is_ws, indent_of, trailing_ws, trim, first_idx, has_byte, strip_cr, split_lines_spec,
    lemma_indent_of_is, lemma_trailing_ws_is, lemma_first_idx_is, lemma_first_idx,
};
use crate::lexer::lex_spec;
use crate::serializer::{fmt_scalar, serialize_spec, render_map, render_entry, render_list, render_item, ws_indent};
use crate::parser::{
    map_has, map_get, map_set, lemma_key_idx_is, pop_stack, keys_between, insert_path,
    append_path, step_line, run_lines, SpecState, SpecError, init_state,
};

verus! {

/// A key that survives the trip through a rendered line: it is its own trim,
/// holds no colon and no line break, and cannot be mistaken for a comment.
pub open spec fn key_ok(k: Seq<u8>) -> bool {
    &&& indent_of(k) == 0
    &&& trailing_ws(k) == 0
    &&& !has_byte(k, 58)
    &&& !has_byte(k, 10)
    &&& !has_byte(k, 13)
    &&& (k.len() > 0 ==> k[0] != 35)
}

/// A scalar whose canonical token lexes back to the same value, is nonempty,
/// is its own trim, and holds no line break.
pub open spec fn scalar_token_ok(v: SpecValue) -> bool {
    &&& v.is_scalar()
    &&& lex_spec(fmt_scalar(v)) == v
    &&& fmt_scalar(v).len() > 0
    &&& indent_of(fmt_scalar(v)) == 0
    &&& trailing_ws(fmt_scalar(v)) == 0
    &&& !has_byte(fmt_scalar(v), 10)
    &&& !has_byte(fmt_scalar(v), 13)
}

/// A list item additionally may not hold a colon: a colon anywhere on a line
/// makes the line a key line.
pub open spec fn item_ok(v: SpecValue) -> bool {
    scalar_token_ok(v) && !has_byte(fmt_scalar(v), 58)
}

/// A mapping value the grammar can express: a round-trippable scalar, or a
/// list of round-trippable items.
pub open spec fn wf_value(v: SpecValue) -> bool {
    ||| scalar_token_ok(v)
    ||| (v matches SpecValue::List(items) && forall|i: int|
        0 <= i < items.len() ==> item_ok(#[trigger] items[i]))
}

/// A document the grammar can express: distinct well-formed keys, each bound
/// to a well-formed value.
pub open spec fn wf_doc(entries: Seq<(Seq<u8>, SpecValue)>) -> bool {
    &&& (forall|i: int, j: int|
        0 <= i < j < entries.len() ==> (#[trigger] entries[i].0) != (#[trigger] entries[j].0))
    &&& (forall|i: int|
        0 <= i < entries.len() ==> key_ok((#[trigger] entries[i]).0) && wf_value(entries[i].1))
}

/// The rendered line of one scalar entry at indent zero.
pub open spec fn scalar_line(k: Seq<u8>, f: Seq<u8>) -> Seq<u8> {
    k.push(58u8).push(32u8).add(f)
}

/// The rendered line that opens a list entry at indent zero.
pub open spec fn open_line(k: Seq<u8>) -> Seq<u8> {
    k.push(58u8)
}

/// The rendered line of one list item at indent two.
pub open spec fn item_text(v: SpecValue) -> Seq<u8> {
    seq![32u8, 32u8, 45u8, 32u8].add(fmt_scalar(v))
}

pub open spec fn item_texts(items: Seq<SpecValue>) -> Seq<Seq<u8>> {
    items.map_values(|v: SpecValue| item_text(v))
}

/// A run of the parser from an arbitrary state, with 1-based line numbers
/// continuing from `base`.
pub open spec fn run_from(st: SpecState, lines: Seq<Seq<u8>>, base: int) -> Result<
    SpecState,
    SpecError,
>
    decreases lines.len(),
{
    if lines.len() == 0 {
        Ok(st)
    } else {
        match step_line(st, lines[0], base + 1) {
            Ok(st2) => run_from(st2, lines.skip(1), base + 1),
            Err(e) => Err(e),
        }
    }
}

/// `run_from` can also be unrolled from the back.
pub proof fn lemma_run_from_back(st: SpecState, lines: Seq<Seq<u8>>, base: int)
    requires
        lines.len() > 0,
    ensures
        run_from(st, lines, base) == (match run_from(st, lines.drop_last(), base) {
            Ok(st2) => step_line(st2, lines.last(), base + lines.len() as int),
            Err(e) => Err(e),
        }),
    decreases lines.len(),
{
    if lines.len() == 1 {
        assert(lines.drop_last() =~= Seq::<Seq<u8>>::empty());
        assert(lines.skip(1) =~= Seq::<Seq<u8>>::empty());
    } else {
        assert(lines.drop_last()[0] == lines[0]);
        match step_line(st, lines[0], base + 1) {
            Ok(st2) => {
                lemma_run_from_back(st2, lines.skip(1), base + 1);
                assert(lines.skip(1).drop_last() =~= lines.drop_last().skip(1));
                assert(lines.skip(1).last() == lines.last());
            },
            Err(_) => {},
        }
    }
}

/// The two formulations of a whole-document run agree.
pub proof fn lemma_run_lines_is_run_from(lines: Seq<Seq<u8>>)
    ensures
        run_lines(lines) == run_from(init_state(), lines, 0),
    decreases lines.len(),
{
    if lines.len() > 0 {
        lemma_run_lines_is_run_from(lines.drop_last());
        lemma_run_from_back(init_state(), lines, 0);
    }
}

/// A run over a concatenation is a run over each part in turn.
pub proof fn lemma_run_from_concat(st: SpecState, a: Seq<Seq<u8>>, b: Seq<Seq<u8>>, base: int)
    ensures
        run_from(st, a + b, base) == (match run_from(st, a, base) {
            Ok(st2) => run_from(st2, b, base + a.len() as int),
            Err(e) => Err(e),
        }),
    decreases a.len(),
{
    if a.len() == 0 {
        assert(a + b =~= b);
    } else {
        assert((a + b)[0] == a[0]);
        match step_line(st, a[0], base + 1) {
            Ok(st2) => {
                assert((a + b).skip(1) =~= a.skip(1) + b);
                lemma_run_from_concat(st2, a.skip(1), b, base + 1);
            },
            Err(_) => {},
        }
    }
}

/// Splitting a text that ends before a newline, followed by more text,
/// yields the first text's lines and then the rest's.
pub proof fn lemma_split_concat(a: Seq<u8>, b: Seq<u8>)
    requires
        a.len() > 0,
        a.last() != 10,
    ensures
        split_lines_spec(a.push(10u8).add(b)) == split_lines_spec(a) + split_lines_spec(b),
    decreases a.len(),
{
    let w = a.push(10u8).add(b);
    lemma_first_idx(a, 10);
    let i = first_idx(a, 10) as int;
    if i < a.len() {
        assert forall|j: int| 0 <= j < i implies w[j] != 10 by {
            assert(w[j] == a[j]);
        }
        assert(w[i] == a[i]);
        lemma_first_idx_is(w, 10, i);
        assert(w.take(i) =~= a.take(i));
        assert(w.skip(i + 1) =~= a.skip(i + 1).push(10u8).add(b));
        assert(a[a.len() - 1] != 10);
        assert(i < a.len() - 1);
        assert(a.skip(i + 1).len() > 0);
        assert(a.skip(i + 1).last() == a.last());
        lemma_split_concat(a.skip(i + 1), b);
        assert(split_lines_spec(w) == seq![strip_cr(a.take(i))].add(
            split_lines_spec(a.skip(i + 1)) + split_lines_spec(b),
        ));
        assert(split_lines_spec(a) == seq![strip_cr(a.take(i))].add(split_lines_spec(a.skip(i + 1))));
        assert(seq![strip_cr(a.take(i))].add(split_lines_spec(a.skip(i + 1)) + split_lines_spec(b))
            =~= split_lines_spec(a) + split_lines_spec(b));
    } else {
        assert forall|j: int| 0 <= j < a.len() implies w[j] != 10 by {
            assert(w[j] == a[j]);
        }
        assert(w[a.len() as int] == 10);
        lemma_first_idx_is(w, 10, a.len() as int);
        assert(w.take(a.len() as int) =~= a);
        assert(w.skip(a.len() as int + 1) =~= b);
        assert(split_lines_spec(w) == seq![strip_cr(a)].add(split_lines_spec(b)));
        lemma_first_idx_is(a, 10, a.len() as int);
        assert(split_lines_spec(a) == seq![strip_cr(a)]);
        assert(seq![strip_cr(a)].add(split_lines_spec(b)) =~= split_lines_spec(a)
            + split_lines_spec(b));
    }
}

/// A lone newline-free, carriage-return-free text is one line.
pub proof fn lemma_split_single(a: Seq<u8>)
    requires
        a.len() > 0,
        !has_byte(a, 10),
        !has_byte(a, 13),
    ensures
        split_lines_spec(a) == seq![a],
{
    lemma_first_idx(a, 10);
    lemma_first_idx(a, 13);
    assert(a.last() != 13);
    assert(strip_cr(a) == a);
    assert(split_lines_spec(a) =~= seq![a]);
}

/// A text beginning with a newline splits into an empty line and the rest.
pub proof fn lemma_split_leading_newline(b: Seq<u8>)
    ensures
        split_lines_spec(seq![10u8].add(b)) == seq![Seq::<u8>::empty()].add(split_lines_spec(b)),
{
    let w = seq![10u8].add(b);
    lemma_first_idx_is(w, 10, 0);
    assert(w.take(0) =~= Seq::<u8>::empty());
    assert(w.skip(1) =~= b);
    assert(strip_cr(Seq::<u8>::empty()) =~= Seq::<u8>::empty());
}

} // verus!

use vstd::prelude::*;
use crate::text::lemma_indent_of;
use crate::text::lemma_trailing_ws;

verus! {

/// A text with no line break followed by one newline is a single line.
pub proof fn lemma_split_trailing_newline(a: Seq<u8>)
    requires
        a.len() > 0,
        !has_byte(a, 10),
        !has_byte(a, 13),
    ensures
        split_lines_spec(a.push(10u8)) == seq![a],
{
    let w = a.push(10u8);
    lemma_first_idx(a, 10);
    lemma_first_idx(a, 13);
    assert forall|j: int| 0 <= j < a.len() implies w[j] != 10 by {
        assert(w[j] == a[j]);
    }
    lemma_first_idx_is(w, 10, a.len() as int);
    assert(w.take(a.len() as int) =~= a);
    assert(w.skip(a.len() as int + 1) =~= Seq::<u8>::empty());
    assert(a.last() != 13);
    assert(strip_cr(a) == a);
    assert(w.len() > 0);
    assert(first_idx(w, 10) < w.len());
    assert(split_lines_spec(w) == seq![strip_cr(w.take(first_idx(w, 10) as int))].add(
        split_lines_spec(w.skip(first_idx(w, 10) as int + 1)),
    ));
    assert(split_lines_spec(Seq::<u8>::empty()) =~= Seq::<Seq<u8>>::empty());
    assert(seq![a].add(Seq::<Seq<u8>>::empty()) =~= seq![a]);
}

/// Every open scope sits at a non-negative indent, so a line at indent zero
/// closes everything but the root.
pub proof fn lemma_pop_all(stack: Seq<(int, Seq<u8>)>)
    requires
        stack.len() >= 1,
        forall|i: int| 1 <= i < stack.len() ==> (#[trigger] stack[i]).0 >= 0,
    ensures
        pop_stack(stack, 0) == seq![stack[0]],
    decreases stack.len(),
{
    if stack.len() == 1 {
        assert(stack =~= seq![stack[0]]);
    } else {
        assert(stack.last().0 >= 0);
        lemma_pop_all(stack.drop_last());
    }
}

/// The trim of a text whose whitespace prefix ends at `a` and which ends in
/// a non-whitespace byte.
proof fn lemma_trim_prefix(s: Seq<u8>, a: int)
    requires
        0 <= a < s.len(),
        forall|j: int| 0 <= j < a ==> is_ws(s[j]),
        !is_ws(s[a]),
        !is_ws(s.last()),
    ensures
        trim(s) == s.skip(a),
{
    lemma_indent_of_is(s, a);
    let ls = s.skip(a);
    assert(ls.last() == s.last());
    lemma_trailing_ws_is(ls, 0);
    assert(s.subrange(a, s.len() as int) =~= ls);
}

/// The trim of an all-whitespace or empty text is empty.
proof fn lemma_trim_empty(s: Seq<u8>)
    requires
        forall|j: int| 0 <= j < s.len() ==> is_ws(s[j]),
    ensures
        trim(s) == Seq::<u8>::empty(),
{
    lemma_indent_of_is(s, s.len() as int);
}

/// A well-formed key is its own trim.
proof fn lemma_trim_key(k: Seq<u8>)
    requires
        key_ok(k),
    ensures
        trim(k) == k,
{
    if k.len() == 0 {
        lemma_trim_empty(k);
        assert(trim(k) =~= k);
    } else {
        lemma_indent_of(k);
        lemma_trailing_ws(k);
        lemma_trim_prefix(k, 0);
        assert(k.skip(0) =~= k);
    }
}

/// The value text of a rendered line: one space, then the token.
proof fn lemma_trim_space_token(f: Seq<u8>)
    requires
        f.len() > 0,
        indent_of(f) == 0,
        trailing_ws(f) == 0,
    ensures
        trim(seq![32u8].add(f)) == f,
{
    let s = seq![32u8].add(f);
    lemma_indent_of(f);
    lemma_trailing_ws(f);
    assert(s[1] == f[0]);
    assert(s.last() == f.last());
    lemma_trim_prefix(s, 1);
    assert(s.skip(1) =~= f);
}

/// What one rendered scalar entry line does to the parser state: it closes
/// every open scope and binds the key to the scalar in the root mapping.
pub proof fn lemma_step_scalar(st: SpecState, k: Seq<u8>, v: SpecValue, n: int)
    requires
        key_ok(k),
        scalar_token_ok(v),
        st.stack.len() >= 1,
        forall|i: int| 1 <= i < st.stack.len() ==> (#[trigger] st.stack[i]).0 >= 0,
    ensures
        step_line(st, scalar_line(k, fmt_scalar(v)), n) == Ok::<SpecState, SpecError>(
            SpecState { root: map_set(st.root, k, v), stack: seq![st.stack[0]] },
        ),
{
    let f = fmt_scalar(v);
    let line = scalar_line(k, f);
    lemma_indent_of(k);
    lemma_trailing_ws(f);
    lemma_first_idx(k, 58);
    lemma_first_idx(f, 10);
    lemma_first_idx(f, 13);
    lemma_first_idx(k, 10);
    lemma_first_idx(k, 13);
    assert(line.len() == k.len() + 2 + f.len());
    assert forall|j: int| 0 <= j < line.len() implies line[j] == (if j < k.len() {
        k[j]
    } else if j == k.len() {
        58u8
    } else if j == k.len() + 1 {
        32u8
    } else {
        f[j - k.len() - 2]
    }) by {
    }
    assert(!is_ws(line[0]));
    assert(line.last() == f.last());
    assert(!is_ws(line.last()));
    lemma_trim_prefix(line, 0);
    assert(line.skip(0) =~= line);
    assert(trim(line) == line);
    assert(line[0] != 35);
    lemma_indent_of_is(line, 0);
    lemma_first_idx_is(line, 58, k.len() as int);
    assert(has_byte(line, 58));
    lemma_pop_all(st.stack);
    let popped = seq![st.stack[0]];
    assert(keys_between(popped, 1, 1) =~= Seq::<Seq<u8>>::empty());
    assert(line.take(k.len() as int) =~= k);
    lemma_trim_key(k);
    assert(line.skip(k.len() as int + 1) =~= seq![32u8].add(f));
    lemma_trim_space_token(f);
    assert(insert_path(st.root, keys_between(popped, 1, 1), k, lex_spec(f))
        == Ok::<Seq<(Seq<u8>, SpecValue)>, Seq<u8>>(map_set(st.root, k, v)));
}

/// What one rendered list-opening line does: it closes every open scope,
/// binds the key to an empty list, and opens the key's scope at indent zero.
pub proof fn lemma_step_open(st: SpecState, k: Seq<u8>, n: int)
    requires
        key_ok(k),
        st.stack.len() >= 1,
        forall|i: int| 1 <= i < st.stack.len() ==> (#[trigger] st.stack[i]).0 >= 0,
    ensures
        step_line(st, open_line(k), n) == Ok::<SpecState, SpecError>(
            SpecState {
                root: map_set(st.root, k, SpecValue::List(Seq::empty())),
                stack: seq![st.stack[0]].push((0, k)),
            },
        ),
{
    let line = open_line(k);
    lemma_indent_of(k);
    lemma_first_idx(k, 58);
    assert(line.len() == k.len() + 1);
    assert(line.last() == 58);
    assert(!is_ws(line[0]));
    assert(!is_ws(line.last()));
    lemma_trim_prefix(line, 0);
    assert(line.skip(0) =~= line);
    assert(line[0] != 35);
    lemma_indent_of_is(line, 0);
    lemma_first_idx_is(line, 58, k.len() as int);
    lemma_pop_all(st.stack);
    let popped = seq![st.stack[0]];
    assert(keys_between(popped, 1, 1) =~= Seq::<Seq<u8>>::empty());
    assert(line.take(k.len() as int) =~= k);
    lemma_trim_key(k);
    assert(line.skip(k.len() as int + 1) =~= Seq::<u8>::empty());
    lemma_trim_empty(Seq::<u8>::empty());
}

/// What one rendered item line does when the top scope is an open list key
/// at indent zero: the item is appended to that list.
pub proof fn lemma_step_item(st: SpecState, v: SpecValue, n: int)
    requires
        item_ok(v),
        st.stack.len() == 2,
        st.stack[1].0 == 0,
        map_has(st.root, st.stack[1].1),
        map_get(st.root, st.stack[1].1) is List,
    ensures
        step_line(st, item_text(v), n) == Ok::<SpecState, SpecError>(
            SpecState {
                root: map_set(
                    st.root,
                    st.stack[1].1,
                    SpecValue::List(map_get(st.root, st.stack[1].1)->List_0.push(v)),
                ),
                stack: st.stack,
            },
        ),
{
    let f = fmt_scalar(v);
    let line = item_text(v);
    lemma_trailing_ws(f);
    lemma_first_idx(f, 58);
    lemma_first_idx(f, 10);
    lemma_first_idx(f, 13);
    assert(line.len() == 4 + f.len());
    assert forall|j: int| 0 <= j < line.len() implies line[j] == (if j == 0 || j == 1 || j == 3 {
        32u8
    } else if j == 2 {
        45u8
    } else {
        f[j - 4]
    }) by {
    }
    assert(line.last() == f.last());
    assert(!is_ws(line.last()));
    lemma_indent_of_is(line, 2);
    lemma_trim_prefix(line, 2);
    let t = line.skip(2);
    assert(t.len() == 2 + f.len());
    assert(t[0] == 45 && t[1] == 32);
    assert forall|j: int| 0 <= j < t.len() implies t[j] != 58 by {
        assert(t[j] == line[j + 2]);
    }
    lemma_first_idx_is(t, 58, t.len() as int);
    assert(!has_byte(t, 58));
    assert(t[0] != 35);
    assert(pop_stack(st.stack, 2) == st.stack);
    assert(t.skip(1) =~= seq![32u8].add(f));
    lemma_trim_space_token(f);
    assert(keys_between(st.stack, 1, 1) =~= Seq::<Seq<u8>>::empty());
    assert(append_path(st.root, keys_between(st.stack, 1, 1), st.stack[1].1, lex_spec(f))
        == Ok::<Seq<(Seq<u8>, SpecValue)>, Seq<u8>>(map_set(
        st.root,
        st.stack[1].1,
        SpecValue::List(map_get(st.root, st.stack[1].1)->List_0.push(v)),
    )));
}

} // verus!

verus! {

/// A rendered mapping can be read off from the front.
pub proof fn lemma_render_map_front(es: Seq<(Seq<u8>, SpecValue)>, ind: int)
    requires
        es.len() >= 2,
    ensures
        render_map(es, ind) == render_entry(es[0], ind).push(10u8).add(
            render_map(es.skip(1), ind),
        ),
    decreases es.len(),
{
    let dl = es.drop_last();
    assert(dl[0] == es[0]);
    if es.len() == 2 {
        assert(es.skip(1)[0] == es[1]);
        assert(es.skip(1).len() == 1);
        assert(render_map(es.skip(1), ind) == render_entry(es[1], ind));
        assert(render_map(dl, ind) == render_entry(es[0], ind));
        assert(es.last() == es[1]);
    } else {
        lemma_render_map_front(dl, ind);
        assert(es.skip(1).len() >= 2);
        assert(es.skip(1).drop_last() =~= dl.skip(1));
        assert(es.skip(1).last() == es.last());
        assert(es.skip(1)[0] == es[1]);
        assert(render_map(es, ind) == render_map(dl, ind).push(10u8).add(
            render_entry(es.last(), ind),
        ));
        assert(render_map(es.skip(1), ind) == render_map(dl.skip(1), ind).push(10u8).add(
            render_entry(es.last(), ind),
        ));
        assert(render_entry(es[0], ind).push(10u8).add(render_map(dl.skip(1), ind)).push(10u8).add(
            render_entry(es.last(), ind),
        ) =~= render_entry(es[0], ind).push(10u8).add(
            render_map(dl.skip(1), ind).push(10u8).add(render_entry(es.last(), ind)),
        ));
    }
}

/// A rendered list can be read off from the front.
pub proof fn lemma_render_list_front(items: Seq<SpecValue>, ind: int)
    requires
        items.len() >= 2,
    ensures
        render_list(items, ind) == render_item(items[0], ind).push(10u8).add(
            render_list(items.skip(1), ind),
        ),
    decreases items.len(),
{
    let dl = items.drop_last();
    assert(dl[0] == items[0]);
    if items.len() == 2 {
        assert(items.skip(1)[0] == items[1]);
        assert(items.skip(1).len() == 1);
        assert(render_list(items.skip(1), ind) == render_item(items[1], ind));
        assert(render_list(dl, ind) == render_item(items[0], ind));
        assert(items.last() == items[1]);
    } else {
        lemma_render_list_front(dl, ind);
        assert(items.skip(1).drop_last() =~= dl.skip(1));
        assert(items.skip(1).last() == items.last());
        assert(items.skip(1)[0] == items[1]);
        assert(render_item(items[0], ind).push(10u8).add(render_list(dl.skip(1), ind)).push(
            10u8,
        ).add(render_item(items.last(), ind)) =~= render_item(items[0], ind).push(10u8).add(
            render_list(dl.skip(1), ind).push(10u8).add(render_item(items.last(), ind)),
        ));
    }
}

/// The rendered shapes at the indents the root mapping uses.
proof fn lemma_entry_shapes(k: Seq<u8>, v: SpecValue)
    ensures
        v.is_scalar() ==> render_entry((k, v), 0) == scalar_line(k, fmt_scalar(v)),
        v matches SpecValue::List(items) ==> render_entry((k, v), 0) == open_line(k).push(
            10u8,
        ).add(render_list(items, 2)),
        v.is_scalar() ==> render_item(v, 2) == item_text(v),
{
    assert(ws_indent(0) =~= Seq::<u8>::empty());
    assert(ws_indent(1) =~= seq![32u8]);
    assert(ws_indent(2) =~= seq![32u8, 32u8]);
    if v.is_scalar() {
        assert(render_entry((k, v), 0) =~= scalar_line(k, fmt_scalar(v)));
        assert(serialize_spec(v, 4) == fmt_scalar(v));
        assert(render_item(v, 2) =~= item_text(v));
    }
    if v is List {
        assert(ws_indent(0).add(k).push(58u8) =~= open_line(k));
    }
}

/// An item line holds no newline, carriage return or colon.
proof fn lemma_item_text_bytes(v: SpecValue)
    requires
        item_ok(v),
    ensures
        item_text(v).len() > 0,
        !has_byte(item_text(v), 10),
        !has_byte(item_text(v), 13),
        item_text(v).last() != 10,
        item_text(v).last() != 13,
{
    let f = fmt_scalar(v);
    let it = item_text(v);
    lemma_first_idx(f, 10);
    lemma_first_idx(f, 13);
    assert forall|j: int| 0 <= j < it.len() implies it[j] != 10 && it[j] != 13 by {
        if j >= 4 {
            assert(it[j] == f[j - 4]);
        }
    }
    lemma_first_idx_is(it, 10, it.len() as int);
    lemma_first_idx_is(it, 13, it.len() as int);
    assert(it.last() == f.last());
}

/// Splitting a rendered list block followed by more text yields the item
/// lines and then the rest's lines.
pub proof fn lemma_split_list(items: Seq<SpecValue>, x: Seq<u8>)
    requires
        items.len() > 0,
        forall|i: int| 0 <= i < items.len() ==> item_ok(#[trigger] items[i]),
    ensures
        split_lines_spec(render_list(items, 2).push(10u8).add(x)) == item_texts(items)
            + split_lines_spec(x),
    decreases items.len(),
{
    lemma_entry_shapes(Seq::empty(), items[0]);
    lemma_item_text_bytes(items[0]);
    let it0 = item_text(items[0]);
    if items.len() == 1 {
        assert(render_list(items, 2) == render_item(items[0], 2));
        assert(render_item(items[0], 2) == it0);
        lemma_split_concat(it0, x);
        lemma_split_single(it0);
        assert(item_texts(items) =~= seq![it0]);
        assert(seq![it0].add(split_lines_spec(x)) =~= item_texts(items) + split_lines_spec(x));
    } else {
        lemma_render_list_front(items, 2);
        let rest = render_list(items.skip(1), 2).push(10u8).add(x);
        assert(render_list(items, 2).push(10u8).add(x) =~= it0.push(10u8).add(rest));
        lemma_split_concat(it0, rest);
        lemma_split_single(it0);
        assert forall|i: int| 0 <= i < items.skip(1).len() implies item_ok(
            #[trigger] items.skip(1)[i],
        ) by {
            assert(items.skip(1)[i] == items[i + 1]);
        }
        lemma_split_list(items.skip(1), x);
        assert(item_texts(items.skip(1)) =~= item_texts(items).skip(1));
        assert(seq![it0].add(item_texts(items).skip(1) + split_lines_spec(x)) =~= item_texts(items)
            + split_lines_spec(x));
    }
}

/// Splitting a rendered list block that ends the document.
pub proof fn lemma_split_list_final(items: Seq<SpecValue>)
    requires
        items.len() > 0,
        forall|i: int| 0 <= i < items.len() ==> item_ok(#[trigger] items[i]),
    ensures
        split_lines_spec(render_list(items, 2)) == item_texts(items),
    decreases items.len(),
{
    lemma_entry_shapes(Seq::empty(), items[0]);
    lemma_item_text_bytes(items[0]);
    let it0 = item_text(items[0]);
    if items.len() == 1 {
        lemma_split_single(it0);
        assert(item_texts(items) =~= seq![it0]);
    } else {
        lemma_render_list_front(items, 2);
        lemma_split_concat(it0, render_list(items.skip(1), 2));
        lemma_split_single(it0);
        assert forall|i: int| 0 <= i < items.skip(1).len() implies item_ok(
            #[trigger] items.skip(1)[i],
        ) by {
            assert(items.skip(1)[i] == items[i + 1]);
        }
        lemma_split_list_final(items.skip(1));
        assert(item_texts(items.skip(1)) =~= item_texts(items).skip(1));
        assert(seq![it0].add(item_texts(items).skip(1)) =~= item_texts(items));
    }
}

/// Running the parser over a list's item lines appends every item, in order,
/// to the list bound to the open key.
pub proof fn lemma_run_items(
    acc: Seq<(Seq<u8>, SpecValue)>,
    k: Seq<u8>,
    done: Seq<SpecValue>,
    rest: Seq<SpecValue>,
    s0: (int, Seq<u8>),
    base: int,
)
    requires
        forall|j: int| 0 <= j < acc.len() ==> (#[trigger] acc[j]).0 != k,
        forall|i: int| 0 <= i < rest.len() ==> item_ok(#[trigger] rest[i]),
    ensures
        run_from(
            SpecState {
                root: acc.push((k, SpecValue::List(done))),
                stack: seq![s0].push((0, k)),
            },
            item_texts(rest),
            base,
        ) == Ok::<SpecState, SpecError>(
            SpecState {
                root: acc.push((k, SpecValue::List(done + rest))),
                stack: seq![s0].push((0, k)),
            },
        ),
    decreases rest.len(),
{
    let st = SpecState {
        root: acc.push((k, SpecValue::List(done))),
        stack: seq![s0].push((0, k)),
    };
    if rest.len() == 0 {
        assert(item_texts(rest) =~= Seq::<Seq<u8>>::empty());
        assert(done + rest =~= done);
    } else {
        assert(st.stack.len() == 2 && st.stack[1] == (0int, k));
        lemma_key_idx_is(st.root, k, acc.len() as int);
        assert(map_has(st.root, k));
        assert(map_get(st.root, k) == SpecValue::List(done));
        lemma_step_item(st, rest[0], base + 1);
        assert(item_texts(rest)[0] == item_text(rest[0]));
        let root2 = map_set(st.root, k, SpecValue::List(done.push(rest[0])));
        assert(root2 =~= acc.push((k, SpecValue::List(done.push(rest[0])))));
        assert(item_texts(rest).skip(1) =~= item_texts(rest.skip(1)));
        assert forall|i: int| 0 <= i < rest.skip(1).len() implies item_ok(
            #[trigger] rest.skip(1)[i],
        ) by {
            assert(rest.skip(1)[i] == rest[i + 1]);
        }
        lemma_run_items(acc, k, done.push(rest[0]), rest.skip(1), s0, base + 1);
        assert(done.push(rest[0]) + rest.skip(1) =~= done + rest);
    }
}

} // verus!

verus! {

/// A rendered scalar entry line holds no line break or carriage return.
proof fn lemma_scalar_line_clean(k: Seq<u8>, v: SpecValue)
    requires
        key_ok(k),
        scalar_token_ok(v),
    ensures
        scalar_line(k, fmt_scalar(v)).len() > 0,
        !has_byte(scalar_line(k, fmt_scalar(v)), 10),
        !has_byte(scalar_line(k, fmt_scalar(v)), 13),
        scalar_line(k, fmt_scalar(v)).last() != 10,
{
    let f = fmt_scalar(v);
    let line = scalar_line(k, f);
    lemma_first_idx(f, 10);
    lemma_first_idx(f, 13);
    lemma_first_idx(k, 10);
    lemma_first_idx(k, 13);
    assert forall|j: int| 0 <= j < line.len() implies line[j] != 10 && line[j] != 13 by {
        if j < k.len() {
            assert(line[j] == k[j]);
        } else if j >= k.len() + 2 {
            assert(line[j] == f[j - k.len() - 2]);
        }
    }
    lemma_first_idx_is(line, 10, line.len() as int);
    lemma_first_idx_is(line, 13, line.len() as int);
    assert(line[line.len() - 1] != 10);
}

/// A rendered list-opening line holds no line break or carriage return.
proof fn lemma_open_line_clean(k: Seq<u8>)
    requires
        key_ok(k),
    ensures
        open_line(k).len() > 0,
        !has_byte(open_line(k), 10),
        !has_byte(open_line(k), 13),
        open_line(k).last() != 10,
{
    let ol = open_line(k);
    lemma_first_idx(k, 10);
    lemma_first_idx(k, 13);
    assert forall|j: int| 0 <= j < ol.len() implies ol[j] != 10 && ol[j] != 13 by {
        if j < k.len() {
            assert(ol[j] == k[j]);
        }
    }
    lemma_first_idx_is(ol, 10, ol.len() as int);
    lemma_first_idx_is(ol, 13, ol.len() as int);
    assert(ol[ol.len() - 1] != 10);
}

/// A run over a single line is one step.
proof fn lemma_run_single(st: SpecState, st1: SpecState, line: Seq<u8>, base: int)
    requires
        step_line(st, line, base + 1) == Ok::<SpecState, SpecError>(st1),
    ensures
        run_from(st, seq![line], base) == Ok::<SpecState, SpecError>(st1),
{
    assert(seq![line][0] == line);
    assert(seq![line].skip(1) =~= Seq::<Seq<u8>>::empty());
    assert(run_from(st1, Seq::<Seq<u8>>::empty(), base + 1) == Ok::<SpecState, SpecError>(st1));
}

/// The lines of a document whose first entry is a scalar.
proof fn lemma_lines_scalar_head(es: Seq<(Seq<u8>, SpecValue)>, rest: Seq<Seq<u8>>)
    requires
        es.len() >= 1,
        wf_doc(es),
        scalar_token_ok(es[0].1),
        rest == (if es.len() == 1 {
            Seq::<Seq<u8>>::empty()
        } else {
            split_lines_spec(render_map(es.skip(1), 0))
        }),
    ensures
        split_lines_spec(render_map(es, 0)) == seq![
            scalar_line(es[0].0, fmt_scalar(es[0].1)),
        ] + rest,
{
    let k0 = es[0].0;
    let v0 = es[0].1;
    assert((k0, v0) == es[0]);
    lemma_entry_shapes(k0, v0);
    lemma_scalar_line_clean(k0, v0);
    let line = scalar_line(k0, fmt_scalar(v0));
    if es.len() == 1 {
        assert(render_map(es, 0) == render_entry(es[0], 0));
        lemma_split_single(line);
        assert(seq![line] + rest =~= seq![line]);
    } else {
        lemma_render_map_front(es, 0);
        lemma_split_concat(line, render_map(es.skip(1), 0));
        lemma_split_single(line);
    }
}

/// The lines of a document whose first entry is a list.
proof fn lemma_lines_list_head(es: Seq<(Seq<u8>, SpecValue)>, rest: Seq<Seq<u8>>)
    requires
        es.len() >= 1,
        wf_doc(es),
        es[0].1 is List,
        rest == (if es.len() == 1 {
            Seq::<Seq<u8>>::empty()
        } else if es[0].1->List_0.len() == 0 {
            seq![Seq::<u8>::empty()] + split_lines_spec(render_map(es.skip(1), 0))
        } else {
            split_lines_spec(render_map(es.skip(1), 0))
        }),
    ensures
        split_lines_spec(render_map(es, 0)) == seq![open_line(es[0].0)] + item_texts(
            es[0].1->List_0,
        ) + rest,
{
    let k0 = es[0].0;
    let v0 = es[0].1;
    assert((k0, v0) == es[0]);
    let items = v0->List_0;
    assert(wf_value(v0) && !scalar_token_ok(v0));
    lemma_entry_shapes(k0, v0);
    lemma_open_line_clean(k0);
    let ol = open_line(k0);
    if items.len() == 0 {
        assert(item_texts(items) =~= Seq::<Seq<u8>>::empty());
        assert(render_list(items, 2) == Seq::<u8>::empty());
        assert(render_entry(es[0], 0) =~= ol.push(10u8));
        if es.len() == 1 {
            assert(render_map(es, 0) == render_entry(es[0], 0));
            lemma_split_trailing_newline(ol);
            assert(seq![ol] + item_texts(items) + rest =~= seq![ol]);
        } else {
            lemma_render_map_front(es, 0);
            let rr = render_map(es.skip(1), 0);
            assert(render_map(es, 0) =~= ol.push(10u8).add(seq![10u8].add(rr)));
            lemma_split_concat(ol, seq![10u8].add(rr));
            lemma_split_single(ol);
            lemma_split_leading_newline(rr);
            assert(seq![ol].add(seq![Seq::<u8>::empty()].add(split_lines_spec(rr))) =~= seq![ol]
                + item_texts(items) + rest);
        }
    } else {
        if es.len() == 1 {
            assert(render_map(es, 0) == render_entry(es[0], 0));
            lemma_split_concat(ol, render_list(items, 2));
            lemma_split_single(ol);
            lemma_split_list_final(items);
            assert(seq![ol].add(item_texts(items)) =~= seq![ol] + item_texts(items) + rest);
        } else {
            lemma_render_map_front(es, 0);
            let rr = render_map(es.skip(1), 0);
            assert(render_map(es, 0) =~= ol.push(10u8).add(
                render_list(items, 2).push(10u8).add(rr),
            ));
            lemma_split_concat(ol, render_list(items, 2).push(10u8).add(rr));
            lemma_split_single(ol);
            lemma_split_list(items, rr);
            assert(seq![ol].add(item_texts(items) + split_lines_spec(rr)) =~= seq![ol]
                + item_texts(items) + rest);
        }
    }
}

/// Dropping a document's first entry keeps it well formed.
proof fn lemma_wf_skip(es: Seq<(Seq<u8>, SpecValue)>)
    requires
        es.len() >= 1,
        wf_doc(es),
    ensures
        wf_doc(es.skip(1)),
{
    assert forall|i: int, j: int|
        0 <= i < j < es.skip(1).len() implies (#[trigger] es.skip(1)[i]).0 != (
    #[trigger] es.skip(1)[j]).0 by {
        assert(es.skip(1)[i] == es[i + 1]);
        assert(es.skip(1)[j] == es[j + 1]);
    }
    assert forall|i: int|
        0 <= i < es.skip(1).len() implies key_ok((#[trigger] es.skip(1)[i]).0) && wf_value(
        es.skip(1)[i].1,
    ) by {
        assert(es.skip(1)[i] == es[i + 1]);
    }
}

/// Taking the first entry into the accumulator keeps it disjoint from the
/// remaining entries.
proof fn lemma_disjoint_step(acc: Seq<(Seq<u8>, SpecValue)>, es: Seq<(Seq<u8>, SpecValue)>)
    requires
        es.len() >= 1,
        wf_doc(es),
        forall|i: int, j: int|
            0 <= i < acc.len() && 0 <= j < es.len() ==> (#[trigger] acc[i]).0 != (
            #[trigger] es[j]).0,
    ensures
        forall|i: int, j: int|
            0 <= i < acc.push(es[0]).len() && 0 <= j < es.skip(1).len() ==> (#[trigger] acc.push(
                es[0],
            )[i]).0 != (#[trigger] es.skip(1)[j]).0,
        forall|j: int| 0 <= j < acc.len() ==> (#[trigger] acc[j]).0 != es[0].0,
{
    let acc2 = acc.push(es[0]);
    assert forall|i: int, j: int|
        0 <= i < acc2.len() && 0 <= j < es.skip(1).len() implies (#[trigger] acc2[i]).0 != (
    #[trigger] es.skip(1)[j]).0 by {
        assert(es.skip(1)[j] == es[j + 1]);
        if i < acc.len() {
            assert(acc2[i] == acc[i]);
        } else {
            assert(acc2[i] == es[0]);
        }
    }
}

} // verus!

verus! {

/// Running the parser over the split rendering of well-formed entries, from
/// any state whose open scopes sit at non-negative indents, appends exactly
/// those entries to the root.
#[verifier::rlimit(100)]
pub proof fn lemma_run_doc(
    acc: Seq<(Seq<u8>, SpecValue)>,
    es: Seq<(Seq<u8>, SpecValue)>,
    stack: Seq<(int, Seq<u8>)>,
    base: int,
)
    requires
        es.len() >= 1,
        wf_doc(es),
        forall|i: int, j: int|
            0 <= i < acc.len() && 0 <= j < es.len() ==> (#[trigger] acc[i]).0 != (
            #[trigger] es[j]).0,
        stack.len() >= 1,
        forall|i: int| 1 <= i < stack.len() ==> (#[trigger] stack[i]).0 >= 0,
    ensures
        run_from(SpecState { root: acc, stack }, split_lines_spec(render_map(es, 0)), base)
            matches Ok(st2) && st2.root == acc + es,
    decreases es.len(),
{
    let st = SpecState { root: acc, stack };
    let e0 = es[0];
    let k0 = e0.0;
    let v0 = e0.1;
    assert((k0, v0) == e0);
    assert(key_ok(k0) && wf_value(v0));
    lemma_disjoint_step(acc, es);
    lemma_wf_skip(es);
    lemma_key_idx_is(acc, k0, acc.len() as int);
    let acc2 = acc.push(e0);
    let lines = split_lines_spec(render_map(es, 0));
    let rr_lines = if es.len() == 1 {
        Seq::<Seq<u8>>::empty()
    } else {
        split_lines_spec(render_map(es.skip(1), 0))
    };
    assert(acc2 + es.skip(1) =~= acc + es);
    if scalar_token_ok(v0) {
        lemma_lines_scalar_head(es, rr_lines);
        let line = scalar_line(k0, fmt_scalar(v0));
        lemma_step_scalar(st, k0, v0, base + 1);
        let st1 = SpecState { root: map_set(acc, k0, v0), stack: seq![stack[0]] };
        assert(map_set(acc, k0, v0) =~= acc2);
        lemma_run_single(st, st1, line, base);
        lemma_run_from_concat(st, seq![line], rr_lines, base);
        if es.len() == 1 {
            assert(lines =~= seq![line]);
            assert(run_from(st1, rr_lines, base + 1) == Ok::<SpecState, SpecError>(st1));
            assert(acc2 =~= acc + es);
        } else {
            lemma_run_doc(acc2, es.skip(1), seq![stack[0]], base + 1);
            assert(st1.root == acc2);
        }
    } else {
        let items = v0->List_0;
        assert(v0 == SpecValue::List(items));
        let rest_l = if es.len() == 1 {
            Seq::<Seq<u8>>::empty()
        } else if items.len() == 0 {
            seq![Seq::<u8>::empty()] + rr_lines
        } else {
            rr_lines
        };
        lemma_lines_list_head(es, rest_l);
        let ol = open_line(k0);
        lemma_step_open(st, k0, base + 1);
        let stack2 = seq![stack[0]].push((0int, k0));
        let st1 = SpecState {
            root: map_set(acc, k0, SpecValue::List(Seq::empty())),
            stack: stack2,
        };
        assert(map_set(acc, k0, SpecValue::List(Seq::empty())) =~= acc.push(
            (k0, SpecValue::List(Seq::<SpecValue>::empty()))));
        assert(st1.root == acc.push((k0, SpecValue::List(Seq::<SpecValue>::empty()))));
        lemma_run_single(st, st1, ol, base);
        lemma_run_from_concat(st, seq![ol], item_texts(items) + rest_l, base);
        assert(lines =~= seq![ol] + (item_texts(items) + rest_l));
        lemma_run_from_concat(st1, item_texts(items), rest_l, base + 1);
        lemma_run_items(acc, k0, Seq::empty(), items, stack[0], base + 1);
        assert(Seq::<SpecValue>::empty() + items =~= items);
        let st2 = SpecState { root: acc.push((k0, SpecValue::List(items))), stack: stack2 };
        assert(st2.root =~= acc2);
        assert(run_from(st1, item_texts(items), base + 1) == Ok::<SpecState, SpecError>(st2));
        assert(forall|i: int| 1 <= i < stack2.len() ==> (#[trigger] stack2[i]).0 >= 0);
        if es.len() == 1 {
            assert(run_from(st2, rest_l, base + 1 + item_texts(items).len() as int) == Ok::<
                SpecState,
                SpecError,
            >(st2));
            assert(acc2 =~= acc + es);
        } else if items.len() == 0 {
            assert(rest_l == seq![Seq::<u8>::empty()] + rr_lines);
            lemma_run_from_concat(st2, seq![Seq::<u8>::empty()], rr_lines, base + 1);
            assert(item_texts(items).len() == 0);
            crate::laws::lemma_comment_blank_noop(st2, Seq::<u8>::empty(), base + 2);
            lemma_run_single(st2, st2, Seq::<u8>::empty(), base + 1);
            lemma_run_doc(acc2, es.skip(1), stack2, base + 2);
        } else {
            lemma_run_doc(acc2, es.skip(1), stack2, base + 1 + item_texts(items).len() as int);
        }
    }
}

/// The value-level round trip: a well-formed tree parses back from its
/// canonical rendering unchanged.
pub proof fn theorem_serialize_parse(entries: Seq<(Seq<u8>, SpecValue)>)
    requires
        wf_doc(entries),
    ensures
        crate::parser::parse_text_spec(serialize_spec(SpecValue::Mapping(entries), 0))
            == Ok::<SpecValue, SpecError>(SpecValue::Mapping(entries)),
{
    let text = serialize_spec(SpecValue::Mapping(entries), 0);
    let lines = split_lines_spec(text);
    lemma_run_lines_is_run_from(lines);
    if entries.len() == 0 {
        assert(render_map(entries, 0) == Seq::<u8>::empty());
        assert(lines =~= Seq::<Seq<u8>>::empty());
        assert(init_state().root =~= entries);
    } else {
        lemma_run_doc(Seq::empty(), entries, init_state().stack, 0);
        let st2 = run_from(init_state(), lines, 0)->Ok_0;
        assert(st2.root == Seq::<(Seq<u8>, SpecValue)>::empty() + entries);
        assert(Seq::<(Seq<u8>, SpecValue)>::empty() + entries =~= entries);
    }
}

} // verus!

use crate::lexer::{true_bytes, false_bytes, null_bytes, is_int_token, is_float_token, is_quoted};

verus! {

/// Every boolean scalar is round-trippable, and fit for a list item.
pub proof fn lemma_token_ok_boolean(b: bool)
    ensures
        item_ok(SpecValue::Boolean(b)),
{
    crate::laws::lemma_lex_format_round_trip(SpecValue::Boolean(b));
    let f = fmt_scalar(SpecValue::Boolean(b));
    assert(f == if b { true_bytes() } else { false_bytes() });
    lemma_indent_of_is(f, 0);
    lemma_trailing_ws_is(f, 0);
    lemma_first_idx_is(f, 10, f.len() as int);
    lemma_first_idx_is(f, 13, f.len() as int);
    lemma_first_idx_is(f, 58, f.len() as int);
}

/// The null scalar is round-trippable, and fit for a list item.
pub proof fn lemma_token_ok_null()
    ensures
        item_ok(SpecValue::Null),
{
    crate::laws::lemma_lex_format_round_trip(SpecValue::Null);
    let f = fmt_scalar(SpecValue::Null);
    assert(f == null_bytes());
    lemma_indent_of_is(f, 0);
    lemma_trailing_ws_is(f, 0);
    lemma_first_idx_is(f, 10, f.len() as int);
    lemma_first_idx_is(f, 13, f.len() as int);
    lemma_first_idx_is(f, 58, f.len() as int);
}

/// Every in-range integer scalar is round-trippable, and fit for a list item.
pub proof fn lemma_token_ok_integer(i: int)
    requires
        -0x8000000000000000 <= i <= 0x7fffffffffffffff,
    ensures
        item_ok(SpecValue::Integer(i)),
{
    crate::laws::lemma_lex_format_round_trip(SpecValue::Integer(i));
    let f = fmt_scalar(SpecValue::Integer(i));
    if i < 0 {
        crate::laws::lemma_dec_digits(-i);
        assert(f == seq![45u8].add(crate::serializer::dec_digits(-i)));
    } else {
        crate::laws::lemma_dec_digits(i);
        assert(f == crate::serializer::dec_digits(i));
    }
    assert forall|j: int| 0 <= j < f.len() implies f[j] == 45 || crate::text::is_digit(f[j]) by {
        if i < 0 && j >= 1 {
            assert(f[j] == crate::serializer::dec_digits(-i)[j - 1]);
        }
    }
    lemma_indent_of_is(f, 0);
    lemma_trailing_ws_is(f, 0);
    lemma_first_idx_is(f, 10, f.len() as int);
    lemma_first_idx_is(f, 13, f.len() as int);
    lemma_first_idx_is(f, 58, f.len() as int);
}

/// A text scalar that the formatter quotes is round-trippable whenever it
/// holds no line break.
pub proof fn lemma_token_ok_quoted_text(s: Seq<u8>)
    requires
        crate::serializer::needs_quotes(s),
        !has_byte(s, 10),
        !has_byte(s, 13),
    ensures
        scalar_token_ok(SpecValue::Text(s)),
{
    crate::laws::lemma_lex_format_round_trip(SpecValue::Text(s));
    let f = fmt_scalar(SpecValue::Text(s));
    assert(f == seq![34u8].add(s).push(34u8));
    lemma_first_idx(s, 10);
    lemma_first_idx(s, 13);
    assert forall|j: int| 0 <= j < f.len() implies f[j] != 10 && f[j] != 13 by {
        if 1 <= j < f.len() - 1 {
            assert(f[j] == s[j - 1]);
        }
    }
    lemma_indent_of_is(f, 0);
    lemma_trailing_ws_is(f, 0);
    lemma_first_idx_is(f, 10, f.len() as int);
    lemma_first_idx_is(f, 13, f.len() as int);
}

/// A plain text scalar is round-trippable when it is nonempty, its own trim,
/// free of line breaks, and cannot be mistaken for another token kind.
pub proof fn lemma_token_ok_plain_text(s: Seq<u8>)
    requires
        !crate::serializer::needs_quotes(s),
        s.len() > 0,
        indent_of(s) == 0,
        trailing_ws(s) == 0,
        !has_byte(s, 10),
        !has_byte(s, 13),
        !is_quoted(s),
        !is_int_token(s),
        !is_float_token(s),
    ensures
        scalar_token_ok(SpecValue::Text(s)),
        !has_byte(s, 58) ==> item_ok(SpecValue::Text(s)),
{
    crate::laws::lemma_lex_format_round_trip(SpecValue::Text(s));
    assert(fmt_scalar(SpecValue::Text(s)) == s);
}

} // verus!
