//! The serializer: renders a tree value as canonical indented text.
//!
//! A mapping entry renders as `<indent><key>:` followed by a space and the
//! inline scalar, or by a newline and the nested container rendered two
//! columns deeper. A list item renders as `<indent>- ` followed by the
//! rendering of the item. Text scalars are quoted when they contain a space
//! or a colon or spell a boolean or null literal.

use vstd::prelude::*;
use crate::value::{BellandeValue, SpecValue};
use crate::text::{has_byte, lower_seq};
use crate::lexer::{true_bytes, false_bytes, null_bytes};
use crate::BellandeFormat;

verus! {

broadcast use vstd::std_specs::vec::axiom_vec_decreases_to_view, vstd::seq::axiom_seq_index_decreases;

/// Decimal digits of a non-negative integer.
pub open spec fn dec_digits(n: int) -> Seq<u8>
    decreases n,
{
    if n < 10 {
        seq![(48 + n) as u8]
    } else {
        dec_digits(n / 10).push((48 + n % 10) as u8)
    }
}

/// Canonical decimal text of an integer.
pub open spec fn int_to_dec(i: int) -> Seq<u8> {
    if i < 0 {
        seq![45u8].add(dec_digits(-i))
    } else {
        dec_digits(i)
    }
}

/// A text scalar is quoted when emitting it verbatim could change how the
/// line is classified or how the token would lex back.
pub open spec fn needs_quotes(s: Seq<u8>) -> bool {
    has_byte(s, 32) || has_byte(s, 58) || lower_seq(s) == true_bytes() || lower_seq(s)
        == false_bytes() || lower_seq(s) == null_bytes()
}

/// Inline text of a scalar value. Containers are never passed here.
pub open spec fn fmt_scalar(v: SpecValue) -> Seq<u8> {
    match v {
        SpecValue::Text(s) => if needs_quotes(s) {
            seq![34u8].add(s).push(34u8)
        } else {
            s
        },
        SpecValue::Integer(i) => int_to_dec(i),
        SpecValue::Float(t) => t,
        SpecValue::Boolean(b) => if b {
            true_bytes()
        } else {
            false_bytes()
        },
        SpecValue::Null => null_bytes(),
        SpecValue::List(_) => Seq::empty(),
        SpecValue::Mapping(_) => Seq::empty(),
    }
}

/// `n` spaces.
pub open spec fn ws_indent(n: int) -> Seq<u8>
    decreases n,
{
    if n <= 0 {
        Seq::empty()
    } else {
        ws_indent(n - 1).push(32u8)
    }
}

/// Canonical text of a value at a given indent; scalars render inline.
pub open spec fn serialize_spec(v: SpecValue, indent: int) -> Seq<u8>
    decreases v, 0int,
{
    match v {
        SpecValue::Mapping(entries) => render_map(entries, indent),
        SpecValue::List(items) => render_list(items, indent),
        _ => fmt_scalar(v),
    }
}

/// Mapping entries, joined with newlines.
pub open spec fn render_map(entries: Seq<(Seq<u8>, SpecValue)>, indent: int) -> Seq<u8>
    decreases entries, 0int,
{
    if entries.len() == 0 {
        Seq::empty()
    } else if entries.len() == 1 {
        render_entry(entries[0], indent)
    } else {
        render_map(entries.drop_last(), indent).push(10u8).add(
            render_entry(entries.last(), indent),
        )
    }
}

/// One mapping entry: the key line, and the value inline or as a sub-block.
pub open spec fn render_entry(e: (Seq<u8>, SpecValue), indent: int) -> Seq<u8>
    decreases e, 0int,
{
    let head = ws_indent(indent).add(e.0).push(58u8);
    if e.1 is Mapping || e.1 is List {
        head.push(10u8).add(serialize_spec(e.1, indent + 2))
    } else {
        head.push(32u8).add(fmt_scalar(e.1))
    }
}

/// List items, joined with newlines.
pub open spec fn render_list(items: Seq<SpecValue>, indent: int) -> Seq<u8>
    decreases items, 0int,
{
    if items.len() == 0 {
        Seq::empty()
    } else if items.len() == 1 {
        render_item(items[0], indent)
    } else {
        render_list(items.drop_last(), indent).push(10u8).add(render_item(items.last(), indent))
    }
}

/// One list item: `<indent>- ` and the item's rendering.
pub open spec fn render_item(v: SpecValue, indent: int) -> Seq<u8>
    decreases v, 1int,
{
    ws_indent(indent).push(45u8).push(32u8).add(serialize_spec(v, indent + 2))
}

/// Nesting depth of a value: how many container levels it holds.
pub open spec fn depth(v: SpecValue) -> nat
    decreases v,
{
    match v {
        SpecValue::Mapping(entries) => 1 + depth_entries(entries),
        SpecValue::List(items) => 1 + depth_items(items),
        _ => 0,
    }
}

pub open spec fn depth_entries(entries: Seq<(Seq<u8>, SpecValue)>) -> nat
    decreases entries,
{
    if entries.len() == 0 {
        0
    } else {
        let a = depth(entries.last().1);
        let b = depth_entries(entries.drop_last());
        if a >= b {
            a
        } else {
            b
        }
    }
}

pub open spec fn depth_items(items: Seq<SpecValue>) -> nat
    decreases items,
{
    if items.len() == 0 {
        0
    } else {
        let a = depth(items.last());
        let b = depth_items(items.drop_last());
        if a >= b {
            a
        } else {
            b
        }
    }
}

pub proof fn lemma_depth_entries_at(entries: Seq<(Seq<u8>, SpecValue)>, i: int)
    requires
        0 <= i < entries.len(),
    ensures
        depth_entries(entries) >= depth(entries[i].1),
    decreases entries.len(),
{
    if i == entries.len() - 1 {
    } else {
        lemma_depth_entries_at(entries.drop_last(), i);
    }
}

pub proof fn lemma_depth_items_at(items: Seq<SpecValue>, i: int)
    requires
        0 <= i < items.len(),
    ensures
        depth_items(items) >= depth(items[i]),
    decreases items.len(),
{
    if i == items.len() - 1 {
    } else {
        lemma_depth_items_at(items.drop_last(), i);
    }
}

fn dec_digits_exec(n: u64) -> (r: Vec<u8>)
    ensures
        r@ == dec_digits(n as int),
    decreases n,
{
    if n < 10 {
        let mut v: Vec<u8> = Vec::new();
        v.push(48 + (n as u8));
        proof {
            assert(v@ =~= dec_digits(n as int));
        }
        v
    } else {
        let mut v = dec_digits_exec(n / 10);
        v.push(48 + ((n % 10) as u8));
        v
    }
}

/// Canonical decimal text of a signed 64-bit integer.
pub fn fmt_i64(i: i64) -> (r: Vec<u8>)
    ensures
        r@ == int_to_dec(i as int),
{
    if i >= 0 {
        dec_digits_exec(i as u64)
    } else {
        let m: u64 = (-(i as i128)) as u64;
        let mut out: Vec<u8> = Vec::new();
        out.push(45u8);
        let mut d = dec_digits_exec(m);
        out.append(&mut d);
        proof {
            assert(out@ =~= int_to_dec(i as int));
        }
        out
    }
}

/// `n` spaces.
fn make_indent(n: usize) -> (r: Vec<u8>)
    ensures
        r@ == ws_indent(n as int),
{
    let mut v: Vec<u8> = Vec::new();
    let mut i: usize = 0;
    proof {
        assert(v@ =~= ws_indent(0));
    }
    while i < n
        invariant
            0 <= i <= n,
            v@ == ws_indent(i as int),
        decreases n - i,
    {
        v.push(32u8);
        i = i + 1;
    }
    v
}

impl BellandeFormat {
    /// Inline text of a scalar value. Containers have no inline form.
    pub fn format_value(&self, value: &BellandeValue) -> (r: Vec<u8>)
        requires
            value@.is_scalar(),
        ensures
            r@ == fmt_scalar(value@),
    {
        match value {
            BellandeValue::Text(s) => {
                proof {
                    assert(lower_seq(true_bytes()) =~= true_bytes());
                    assert(lower_seq(false_bytes()) =~= false_bytes());
                    assert(lower_seq(null_bytes()) =~= null_bytes());
                }
                let tb = crate::lexer::true_vec();
                let fb = crate::lexer::false_vec();
                let nb = crate::lexer::null_vec();
                let quote = crate::text::find_byte(s.as_slice(), 32) < s.len()
                    || crate::text::find_byte(s.as_slice(), 58) < s.len() || crate::text::eq_ignore_case(
                    s.as_slice(),
                    tb.as_slice(),
                ) || crate::text::eq_ignore_case(s.as_slice(), fb.as_slice())
                    || crate::text::eq_ignore_case(s.as_slice(), nb.as_slice());
                proof {
                    crate::text::lemma_first_idx(s@, 32);
                    crate::text::lemma_first_idx(s@, 58);
                }
                if quote {
                    let mut out: Vec<u8> = Vec::new();
                    out.push(34u8);
                    out.extend_from_slice(s.as_slice());
                    out.push(34u8);
                    proof {
                        assert(out@ =~= fmt_scalar(value@));
                    }
                    out
                } else {
                    let out = vstd::slice::slice_to_vec(s.as_slice());
                    out
                }
            },
            BellandeValue::Integer(i) => fmt_i64(*i),
            BellandeValue::Float(t) => vstd::slice::slice_to_vec(t.as_slice()),
            BellandeValue::Boolean(b) => {
                if *b {
                    crate::lexer::true_vec()
                } else {
                    crate::lexer::false_vec()
                }
            },
            BellandeValue::Null => crate::lexer::null_vec(),
            BellandeValue::List(_) => {
                proof {
                    assert(false);
                }
                Vec::new()
            },
            BellandeValue::Mapping(_) => {
                proof {
                    assert(false);
                }
                Vec::new()
            },
        }
    }

    /// Render a value as canonical text at the given starting indent.
    ///
    /// The indent bound is a machine limit: every nesting level indents two
    /// more columns, and column counts are held in a `usize`.
    pub fn to_bellande_string(&self, data: &BellandeValue, indent: usize) -> (r: Vec<u8>)
        requires
            indent + 2 * depth(data@) <= usize::MAX,
        ensures
            r@ == serialize_spec(data@, indent as int),
        decreases data,
    {
        match data {
            BellandeValue::Mapping(entries) => {
                let ghost all = map_entries_view(entries@);
                proof {
                    assert(data@ matches SpecValue::Mapping(es) && es =~= all);
                    assert(depth(data@) == 1 + depth_entries(all));
                }
                let mut out: Vec<u8> = Vec::new();
                let n = entries.len();
                let mut j: usize = 0;
                proof {
                    assert(map_entries_view(entries@.take(0)) =~= Seq::<(Seq<u8>, SpecValue)>::empty());
                }
                while j < n
                    invariant
                        0 <= j <= n,
                        n == entries@.len(),
                        *data == BellandeValue::Mapping(*entries),
                        all == map_entries_view(entries@),
                        indent + 2 + 2 * depth_entries(all) <= usize::MAX,
                        out@ == render_map(map_entries_view(entries@.take(j as int)), indent as int),
                    decreases n - j,
                {
                    let ghost done = map_entries_view(entries@.take(j as int));
                    if j > 0 {
                        out.push(10u8);
                    }
                    let pair = vstd::std_specs::vec::vec_index(entries, j);
                    let mut head = make_indent(indent);
                    head.extend_from_slice(pair.0.as_slice());
                    head.push(58u8);
                    out.append(&mut head);
                    let scalar = match &pair.1 {
                        BellandeValue::Mapping(_) => false,
                        BellandeValue::List(_) => false,
                        _ => true,
                    };
                    proof {
                        assert(all[j as int] == (pair.0@, pair.1@));
                        assert(scalar == pair.1@.is_scalar());
                    }
                    if scalar {
                        out.push(32u8);
                        let mut body = self.format_value(&pair.1);
                        out.append(&mut body);
                    } else {
                        out.push(10u8);
                        proof {
                            lemma_depth_entries_at(all, j as int);
                            assert(decreases_to!(*data => data->Mapping_0));
                            assert(data->Mapping_0 == *entries);
                            assert(decreases_to!(*entries => entries@));
                            assert(decreases_to!(entries@ => entries@[j as int]));
                            assert(decreases_to!(entries@[j as int] => entries@[j as int].1));
                            assert(decreases_to!(*data => pair.1));
                        }
                        let mut body = self.to_bellande_string(&pair.1, indent + 2);
                        out.append(&mut body);
                    }
                    proof {
                        let next = map_entries_view(entries@.take(j + 1));
                        assert(entries@.take(j + 1).drop_last() =~= entries@.take(j as int));
                        assert(next.drop_last() =~= done);
                        assert(next.last() == (pair.0@, pair.1@));
                        assert(next[j as int] == (pair.0@, pair.1@));
                        assert(out@ =~= (if j > 0 {
                            render_map(done, indent as int).push(10u8)
                        } else {
                            Seq::<u8>::empty()
                        }).add(render_entry((pair.0@, pair.1@), indent as int)));
                        if j > 0 {
                            assert(out@ == render_map(next, indent as int));
                        } else {
                            assert(next.len() == 1);
                            assert(out@ == render_map(next, indent as int));
                        }
                    }
                    j = j + 1;
                }
                proof {
                    assert(entries@.take(n as int) =~= entries@);
                }
                out
            },
            BellandeValue::List(items) => {
                let ghost all = list_items_view(items@);
                proof {
                    assert(data@ matches SpecValue::List(its) && its =~= all);
                    assert(depth(data@) == 1 + depth_items(all));
                }
                let mut out: Vec<u8> = Vec::new();
                let n = items.len();
                let mut j: usize = 0;
                proof {
                    assert(list_items_view(items@.take(0)) =~= Seq::<SpecValue>::empty());
                }
                while j < n
                    invariant
                        0 <= j <= n,
                        n == items@.len(),
                        *data == BellandeValue::List(*items),
                        all == list_items_view(items@),
                        indent + 2 + 2 * depth_items(all) <= usize::MAX,
                        out@ == render_list(list_items_view(items@.take(j as int)), indent as int),
                    decreases n - j,
                {
                    let ghost done = list_items_view(items@.take(j as int));
                    if j > 0 {
                        out.push(10u8);
                    }
                    let item = vstd::std_specs::vec::vec_index(items, j);
                    let mut head = make_indent(indent);
                    head.push(45u8);
                    head.push(32u8);
                    out.append(&mut head);
                    proof {
                        lemma_depth_items_at(all, j as int);
                        assert(all[j as int] == item@);
                        assert(decreases_to!(*data => data->List_0));
                        assert(data->List_0 == *items);
                        assert(decreases_to!(*items => items@));
                        assert(decreases_to!(items@ => items@[j as int]));
                        assert(decreases_to!(*data => *item));
                    }
                    let mut body = self.to_bellande_string(item, indent + 2);
                    out.append(&mut body);
                    proof {
                        let next = list_items_view(items@.take(j + 1));
                        assert(items@.take(j + 1).drop_last() =~= items@.take(j as int));
                        assert(next.drop_last() =~= done);
                        assert(next.last() == item@);
                        assert(next[j as int] == item@);
                        assert(out@ =~= (if j > 0 {
                            render_list(done, indent as int).push(10u8)
                        } else {
                            Seq::<u8>::empty()
                        }).add(render_item(item@, indent as int)));
                        if j > 0 {
                            assert(out@ == render_list(next, indent as int));
                        } else {
                            assert(next.len() == 1);
                            assert(out@ == render_list(next, indent as int));
                        }
                    }
                    j = j + 1;
                }
                proof {
                    assert(items@.take(n as int) =~= items@);
                }
                out
            },
            _ => self.format_value(data),
        }
    }
}

/// The view of a mapping's entry vector.
pub open spec fn map_entries_view(entries: Seq<(Vec<u8>, BellandeValue)>) -> Seq<
    (Seq<u8>, SpecValue),
> {
    entries.map_values(|e: (Vec<u8>, BellandeValue)| (e.0@, e.1@))
}

/// The view of a list's item vector.
pub open spec fn list_items_view(items: Seq<BellandeValue>) -> Seq<SpecValue> {
    items.map_values(|v: BellandeValue| v@)
}


} // verus!
