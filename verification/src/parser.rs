//! The structural parser: a flat sequence of lines, each carrying an indent
//! width, becomes a nested tree. A scope stack of `(indent, key)` pairs
//! records which key path the current line's indentation places it under;
//! a line whose indent does not exceed the top entry's indent closes that
//! scope (equal indent also closes it: a sibling ends its predecessor).
//!
//! A key line with inline text inserts a scalar at the current path; a key
//! line without one inserts an empty list placeholder and opens a scope; an
//! item line appends to the list under the innermost open key. Navigation
//! that reaches anything but a mapping, or an append target that is not a
//! list, is reported as an unresolved path rather than dropped silently.

use vstd::prelude::*;
use crate::value::{BellandeValue, SpecValue};
use crate::text::{trim, indent_of, first_idx, has_byte, views_of, split_lines_spec};
use crate::lexer::lex_spec;
use crate::serializer::map_entries_view;
use crate::BellandeFormat;

verus! {

/// A parse failure: the offending line's 1-based number, and for path
/// failures the key whose value blocked navigation.
#[derive(Debug, PartialEq)]
pub enum ParseError {
    MalformedLine { line: usize, content: Vec<u8> },
    UnresolvedPath { line: usize, key: Vec<u8> },
}

/// Mathematical mirror of `ParseError`.
pub enum SpecError {
    Malformed { line: int, content: Seq<u8> },
    Unresolved { line: int, key: Seq<u8> },
}

impl View for ParseError {
    type V = SpecError;

    open spec fn view(&self) -> SpecError {
        match self {
            ParseError::MalformedLine { line, content } => SpecError::Malformed {
                line: *line as int,
                content: content@,
            },
            ParseError::UnresolvedPath { line, key } => SpecError::Unresolved {
                line: *line as int,
                key: key@,
            },
        }
    }
}

/// The parser state: the root mapping's entries and the scope stack.
pub struct SpecState {
    pub root: Seq<(Seq<u8>, SpecValue)>,
    pub stack: Seq<(int, Seq<u8>)>,
}

pub open spec fn init_state() -> SpecState {
    SpecState { root: Seq::empty(), stack: seq![(0int, Seq::<u8>::empty())] }
}

/// Index of the first entry with the given key; the length when absent.
pub open spec fn key_idx(entries: Seq<(Seq<u8>, SpecValue)>, k: Seq<u8>) -> nat
    decreases entries.len(),
{
    if entries.len() == 0 {
        0
    } else if entries[0].0 == k {
        0
    } else {
        1 + key_idx(entries.skip(1), k)
    }
}

pub open spec fn map_has(entries: Seq<(Seq<u8>, SpecValue)>, k: Seq<u8>) -> bool {
    key_idx(entries, k) < entries.len()
}

pub open spec fn map_get(entries: Seq<(Seq<u8>, SpecValue)>, k: Seq<u8>) -> SpecValue {
    entries[key_idx(entries, k) as int].1
}

/// Bind a key: replace in place when present (the entry keeps its position,
/// so insertion order is preserved), append otherwise.
pub open spec fn map_set(
    entries: Seq<(Seq<u8>, SpecValue)>,
    k: Seq<u8>,
    v: SpecValue,
) -> Seq<(Seq<u8>, SpecValue)> {
    if map_has(entries, k) {
        entries.update(key_idx(entries, k) as int, (k, v))
    } else {
        entries.push((k, v))
    }
}

pub proof fn lemma_key_idx(entries: Seq<(Seq<u8>, SpecValue)>, k: Seq<u8>)
    ensures
        key_idx(entries, k) <= entries.len(),
        key_idx(entries, k) < entries.len() ==> entries[key_idx(entries, k) as int].0 == k,
        forall|j: int| 0 <= j < key_idx(entries, k) ==> entries[j].0 != k,
    decreases entries.len(),
{
    if entries.len() != 0 && entries[0].0 != k {
        lemma_key_idx(entries.skip(1), k);
        assert forall|j: int| 0 <= j < key_idx(entries, k) implies entries[j].0 != k by {
            if j > 0 {
                assert(entries.skip(1)[j - 1] == entries[j]);
            }
        }
        if key_idx(entries, k) < entries.len() {
            assert(entries.skip(1)[key_idx(entries.skip(1), k) as int] == entries[key_idx(
                entries,
                k,
            ) as int]);
        }
    }
}

pub proof fn lemma_key_idx_is(entries: Seq<(Seq<u8>, SpecValue)>, k: Seq<u8>, i: int)
    requires
        0 <= i <= entries.len(),
        forall|j: int| 0 <= j < i ==> entries[j].0 != k,
        i < entries.len() ==> entries[i].0 == k,
    ensures
        key_idx(entries, k) == i,
    decreases entries.len(),
{
    if entries.len() != 0 && entries[0].0 != k {
        assert forall|j: int| 0 <= j < i - 1 implies entries.skip(1)[j].0 != k by {
            assert(entries.skip(1)[j] == entries[j + 1]);
        }
        lemma_key_idx_is(entries.skip(1), k, i - 1);
    }
}

/// Insert `key -> val` into the mapping reached by following `path` from
/// `entries`; the result is the rebuilt entry sequence, or the key whose
/// value blocked navigation.
pub open spec fn insert_path(
    entries: Seq<(Seq<u8>, SpecValue)>,
    path: Seq<Seq<u8>>,
    key: Seq<u8>,
    val: SpecValue,
) -> Result<Seq<(Seq<u8>, SpecValue)>, Seq<u8>>
    decreases path.len(),
{
    if path.len() == 0 {
        Ok(map_set(entries, key, val))
    } else if map_has(entries, path[0]) && map_get(entries, path[0]) is Mapping {
        match insert_path(map_get(entries, path[0])->Mapping_0, path.skip(1), key, val) {
            Ok(sub) => Ok(map_set(entries, path[0], SpecValue::Mapping(sub))),
            Err(e) => Err(e),
        }
    } else {
        Err(path[0])
    }
}

/// Append `val` to the list bound to `key` in the mapping reached by
/// following `path`; the target must exist and be a list.
pub open spec fn append_path(
    entries: Seq<(Seq<u8>, SpecValue)>,
    path: Seq<Seq<u8>>,
    key: Seq<u8>,
    val: SpecValue,
) -> Result<Seq<(Seq<u8>, SpecValue)>, Seq<u8>>
    decreases path.len(),
{
    if path.len() == 0 {
        if map_has(entries, key) && map_get(entries, key) is List {
            Ok(map_set(entries, key, SpecValue::List(map_get(entries, key)->List_0.push(val))))
        } else {
            Err(key)
        }
    } else if map_has(entries, path[0]) && map_get(entries, path[0]) is Mapping {
        match append_path(map_get(entries, path[0])->Mapping_0, path.skip(1), key, val) {
            Ok(sub) => Ok(map_set(entries, path[0], SpecValue::Mapping(sub))),
            Err(e) => Err(e),
        }
    } else {
        Err(path[0])
    }
}

/// Close every scope whose indent is not smaller than the line's indent;
/// the synthetic root entry is never popped.
pub open spec fn pop_stack(stack: Seq<(int, Seq<u8>)>, ind: int) -> Seq<(int, Seq<u8>)>
    decreases stack.len(),
{
    if stack.len() > 1 && stack.last().0 >= ind {
        pop_stack(stack.drop_last(), ind)
    } else {
        stack
    }
}

/// The key path named by a stack segment.
pub open spec fn keys_between(stack: Seq<(int, Seq<u8>)>, p: int, end: int) -> Seq<Seq<u8>> {
    if 0 <= p <= end <= stack.len() {
        stack.subrange(p, end).map_values(|e: (int, Seq<u8>)| e.1)
    } else {
        Seq::empty()
    }
}

/// One line of input applied to the parser state.
pub open spec fn step_line(st: SpecState, line: Seq<u8>, lineno: int) -> Result<
    SpecState,
    SpecError,
> {
    let t = trim(line);
    if t.len() == 0 || t[0] == 35 {
        Ok(st)
    } else {
        let ind = indent_of(line) as int;
        let stack = pop_stack(st.stack, ind);
        if has_byte(t, 58) {
            let c = first_idx(t, 58) as int;
            let key = trim(t.take(c));
            let vt = trim(t.skip(c + 1));
            if vt.len() > 0 {
                match insert_path(st.root, keys_between(stack, 1, stack.len() as int), key,
                    lex_spec(vt)) {
                    Ok(root2) => Ok(SpecState { root: root2, stack }),
                    Err(k) => Err(SpecError::Unresolved { line: lineno, key: k }),
                }
            } else {
                match insert_path(st.root, keys_between(stack, 1, stack.len() as int), key,
                    SpecValue::List(Seq::empty())) {
                    Ok(root2) => Ok(SpecState { root: root2, stack: stack.push((ind, key)) }),
                    Err(k) => Err(SpecError::Unresolved { line: lineno, key: k }),
                }
            }
        } else if t[0] == 45 {
            let vt = trim(t.skip(1));
            match append_path(st.root, keys_between(stack, 1, stack.len() - 1),
                stack.last().1, lex_spec(vt)) {
                Ok(root2) => Ok(SpecState { root: root2, stack }),
                Err(k) => Err(SpecError::Unresolved { line: lineno, key: k }),
            }
        } else {
            Err(SpecError::Malformed { line: lineno, content: line })
        }
    }
}

/// The parser state after the whole line sequence, or its first error.
pub open spec fn run_lines(lines: Seq<Seq<u8>>) -> Result<SpecState, SpecError>
    decreases lines.len(),
{
    if lines.len() == 0 {
        Ok(init_state())
    } else {
        match run_lines(lines.drop_last()) {
            Ok(st) => step_line(st, lines.last(), lines.len() as int),
            Err(e) => Err(e),
        }
    }
}

/// Once a prefix has failed, the whole sequence fails with the same error.
pub proof fn lemma_run_lines_err(lines: Seq<Seq<u8>>, j: int)
    requires
        0 <= j <= lines.len(),
        run_lines(lines.take(j)) is Err,
    ensures
        run_lines(lines) == run_lines(lines.take(j)),
    decreases lines.len() - j,
{
    if j < lines.len() {
        assert(lines.take(j + 1).drop_last() =~= lines.take(j));
        lemma_run_lines_err(lines, j + 1);
    } else {
        assert(lines.take(j) =~= lines);
    }
}

/// What parsing a line sequence yields: the root mapping, or the first error.
pub open spec fn parse_lines_spec(lines: Seq<Seq<u8>>) -> Result<SpecValue, SpecError> {
    match run_lines(lines) {
        Ok(st) => Ok(SpecValue::Mapping(st.root)),
        Err(e) => Err(e),
    }
}

/// What parsing a whole document yields.
pub open spec fn parse_text_spec(text: Seq<u8>) -> Result<SpecValue, SpecError> {
    parse_lines_spec(split_lines_spec(text))
}

/// The view of the exec scope stack.
pub open spec fn stack_view(stack: Seq<(usize, Vec<u8>)>) -> Seq<(int, Seq<u8>)> {
    stack.map_values(|e: (usize, Vec<u8>)| (e.0 as int, e.1@))
}

/// The view of an exec parse result.
pub open spec fn result_view(r: Result<BellandeValue, ParseError>) -> Result<
    SpecValue,
    SpecError,
> {
    match r {
        Ok(v) => Ok(v@),
        Err(e) => Err(e@),
    }
}

/// Byte-string equality.
pub fn eq_bytes(a: &[u8], b: &[u8]) -> (r: bool)
    ensures
        r == (a@ == b@),
{
    if a.len() != b.len() {
        return false;
    }
    let n = a.len();
    let mut i: usize = 0;
    while i < n
        invariant
            0 <= i <= n,
            n == a@.len() == b@.len(),
            forall|j: int| 0 <= j < i ==> a@[j] == b@[j],
        decreases n - i,
    {
        if a[i] != b[i] {
            return false;
        }
        i = i + 1;
    }
    proof {
        assert(a@ =~= b@);
    }
    true
}

/// Index of the first entry with the given key; the length when absent.
fn key_idx_exec(entries: &Vec<(Vec<u8>, BellandeValue)>, k: &[u8]) -> (r: usize)
    ensures
        r == key_idx(map_entries_view(entries@), k@),
{
    let n = entries.len();
    let mut i: usize = 0;
    while i < n
        invariant
            0 <= i <= n,
            n == entries@.len(),
            forall|j: int| 0 <= j < i ==> map_entries_view(entries@)[j].0 != k@,
        decreases n - i,
    {
        let e = vstd::std_specs::vec::vec_index(entries, i);
        if eq_bytes(e.0.as_slice(), k) {
            proof {
                lemma_key_idx_is(map_entries_view(entries@), k@, i as int);
            }
            return i;
        }
        i = i + 1;
    }
    proof {
        lemma_key_idx_is(map_entries_view(entries@), k@, n as int);
    }
    n
}

/// Bind `key -> val` in an entry vector as `map_set` describes.
fn map_set_exec(
    entries: Vec<(Vec<u8>, BellandeValue)>,
    key: &[u8],
    val: BellandeValue,
) -> (r: Vec<(Vec<u8>, BellandeValue)>)
    ensures
        map_entries_view(r@) == map_set(map_entries_view(entries@), key@, val@),
{
    let ghost before = map_entries_view(entries@);
    let mut entries = entries;
    let i = key_idx_exec(&entries, key);
    let kc = vstd::slice::slice_to_vec(key);
    proof {
        lemma_key_idx(before, key@);
    }
    if i < entries.len() {
        entries.remove(i);
        entries.insert(i, (kc, val));
        proof {
            assert(map_entries_view(entries@) =~= before.update(i as int, (key@, val@)));
        }
    } else {
        entries.push((kc, val));
        proof {
            assert(map_entries_view(entries@) =~= before.push((key@, val@)));
        }
    }
    entries
}

/// Follow the stack's keys from `p` on and insert `key -> val` at the end,
/// as `insert_path` describes.
fn insert_rec(
    entries: Vec<(Vec<u8>, BellandeValue)>,
    stack: &Vec<(usize, Vec<u8>)>,
    p: usize,
    key: &[u8],
    val: BellandeValue,
) -> (r: Result<Vec<(Vec<u8>, BellandeValue)>, Vec<u8>>)
    requires
        1 <= p <= stack@.len(),
    ensures
        ({
            let sres = insert_path(
                map_entries_view(entries@),
                keys_between(stack_view(stack@), p as int, stack@.len() as int),
                key@,
                val@,
            );
            &&& (r is Ok <==> sres is Ok)
            &&& (r matches Ok(e2) ==> sres matches Ok(se) && map_entries_view(e2@) == se)
            &&& (r matches Err(k) ==> sres matches Err(sk) && k@ == sk)
        }),
    decreases stack@.len() - p,
{
    let ghost spath = keys_between(stack_view(stack@), p as int, stack@.len() as int);
    if p == stack.len() {
        proof {
            assert(spath.len() == 0);
        }
        Ok(map_set_exec(entries, key, val))
    } else {
        proof {
            assert(spath[0] == stack@[p as int].1@);
        }
        let pk = &vstd::std_specs::vec::vec_index(stack, p).1;
        let ghost before = map_entries_view(entries@);
        let mut entries = entries;
        let i = key_idx_exec(&entries, pk.as_slice());
        proof {
            lemma_key_idx(before, pk@);
        }
        if i < entries.len() {
            let (ki, vi) = entries.remove(i);
            match vi {
                BellandeValue::Mapping(sub) => {
                    proof {
                        assert(before[i as int] == (ki@, view_of(BellandeValue::Mapping(sub))));
                        assert(map_get(before, pk@) is Mapping);
                        assert(map_get(before, pk@)->Mapping_0 =~= map_entries_view(sub@));
                        assert(keys_between(stack_view(stack@), p + 1, stack@.len() as int)
                            =~= spath.skip(1));
                    }
                    let ghost gki = ki@;
                    let ghost pre_rm = entries@;
                    match insert_rec(sub, stack, p + 1, key, val) {
                        Ok(sub2) => {
                            let ghost sub2v = map_entries_view(sub2@);
                            let pair = (ki, BellandeValue::Mapping(sub2));
                            let ghost gp = pair;
                            let mut entries = entries;
                            entries.insert(i, pair);
                            proof {
                                let se = insert_path(
                                    map_get(before, pk@)->Mapping_0,
                                    spath.skip(1),
                                    key@,
                                    val@,
                                )->Ok_0;
                                assert(se == sub2v);
                                assert(entries@ == pre_rm.insert(i as int, gp));
                                assert(gki == pk@);
                                assert(gp.1@ matches SpecValue::Mapping(s) && s =~= sub2v);
                                assert(gp.1@ == SpecValue::Mapping(se));
                                let target = before.update(i as int, (pk@, SpecValue::Mapping(se)));
                                assert forall|j: int|
                                    0 <= j < target.len() implies map_entries_view(entries@)[j]
                                    == target[j] by {
                                    if j < i {
                                        assert(entries@[j] == pre_rm[j]);
                                    } else if j == i {
                                        assert(entries@[j] == gp);
                                    } else {
                                        assert(entries@[j] == pre_rm[j - 1]);
                                    }
                                }
                                assert(map_entries_view(entries@) =~= target);
                            }
                            Ok(entries)
                        },
                        Err(k) => Err(k),
                    }
                },
                other => {
                    proof {
                        assert(before[i as int].1 == other@);
                        assert(!(map_get(before, pk@) is Mapping));
                    }
                    Err(ki)
                },
            }
        } else {
            proof {
                assert(!map_has(before, pk@));
            }
            Err(vstd::slice::slice_to_vec(pk.as_slice()))
        }
    }
}

/// Identity at spec level; names the view of a just-moved value.
pub open spec fn view_of(v: BellandeValue) -> SpecValue {
    v@
}

/// Follow the stack's keys from `p` to the last entry exclusive, then append
/// `val` to the list bound to `key`, as `append_path` describes.
fn append_rec(
    entries: Vec<(Vec<u8>, BellandeValue)>,
    stack: &Vec<(usize, Vec<u8>)>,
    p: usize,
    key: &[u8],
    val: BellandeValue,
) -> (r: Result<Vec<(Vec<u8>, BellandeValue)>, Vec<u8>>)
    requires
        1 <= p,
        stack@.len() >= 1,
        p <= stack@.len(),
        p == stack@.len() ==> stack@.len() == 1,
    ensures
        ({
            let sres = append_path(
                map_entries_view(entries@),
                keys_between(stack_view(stack@), p as int, stack@.len() - 1),
                key@,
                val@,
            );
            &&& (r is Ok <==> sres is Ok)
            &&& (r matches Ok(e2) ==> sres matches Ok(se) && map_entries_view(e2@) == se)
            &&& (r matches Err(k) ==> sres matches Err(sk) && k@ == sk)
        }),
    decreases stack@.len() - p,
{
    let ghost spath = keys_between(stack_view(stack@), p as int, stack@.len() - 1);
    if p >= stack.len() - 1 {
        proof {
            assert(spath.len() == 0);
        }
        let ghost before = map_entries_view(entries@);
        let mut entries = entries;
        let i = key_idx_exec(&entries, key);
        proof {
            lemma_key_idx(before, key@);
        }
        if i < entries.len() {
            let (ki, vi) = entries.remove(i);
            match vi {
                BellandeValue::List(mut items) => {
                    proof {
                        assert(before[i as int] == (ki@, view_of(BellandeValue::List(items))));
                        assert(map_get(before, key@) is List);
                        assert(map_get(before, key@)->List_0 =~= crate::serializer::list_items_view(
                            items@,
                        ));
                    }
                    let ghost items_before = crate::serializer::list_items_view(items@);
                    let ghost gki = ki@;
                    let ghost pre_rm = entries@;
                    let ghost gval = val@;
                    items.push(val);
                    proof {
                        assert(crate::serializer::list_items_view(items@) =~= items_before.push(
                            gval,
                        ));
                    }
                    let pair = (ki, BellandeValue::List(items));
                    let ghost gp = pair;
                    let mut entries = entries;
                    entries.insert(i, pair);
                    proof {
                        assert(entries@ == pre_rm.insert(i as int, gp));
                        assert(gki == key@);
                        assert(gp.1@ matches SpecValue::List(s) && s =~= items_before.push(gval));
                        assert(map_get(before, key@)->List_0.push(gval) == items_before.push(gval));
                        assert(gp.1@ == SpecValue::List(map_get(before, key@)->List_0.push(gval)));
                        let target = before.update(
                            i as int,
                            (key@, SpecValue::List(map_get(before, key@)->List_0.push(gval))),
                        );
                        assert forall|j: int|
                            0 <= j < target.len() implies map_entries_view(entries@)[j] == target[j] by {
                            if j < i {
                                assert(entries@[j] == pre_rm[j]);
                            } else if j == i {
                                assert(entries@[j] == gp);
                            } else {
                                assert(entries@[j] == pre_rm[j - 1]);
                            }
                        }
                        assert(map_entries_view(entries@) =~= target);
                    }
                    Ok(entries)
                },
                other => {
                    proof {
                        assert(before[i as int].1 == other@);
                        assert(!(map_get(before, key@) is List));
                    }
                    Err(ki)
                },
            }
        } else {
            proof {
                assert(!map_has(before, key@));
            }
            Err(vstd::slice::slice_to_vec(key))
        }
    } else {
        proof {
            assert(spath[0] == stack@[p as int].1@);
        }
        let pk = &vstd::std_specs::vec::vec_index(stack, p).1;
        let ghost before = map_entries_view(entries@);
        let mut entries = entries;
        let i = key_idx_exec(&entries, pk.as_slice());
        proof {
            lemma_key_idx(before, pk@);
        }
        if i < entries.len() {
            let (ki, vi) = entries.remove(i);
            match vi {
                BellandeValue::Mapping(sub) => {
                    proof {
                        assert(before[i as int] == (ki@, view_of(BellandeValue::Mapping(sub))));
                        assert(map_get(before, pk@) is Mapping);
                        assert(map_get(before, pk@)->Mapping_0 =~= map_entries_view(sub@));
                        assert(keys_between(stack_view(stack@), p + 1, stack@.len() - 1)
                            =~= spath.skip(1));
                    }
                    let ghost gki = ki@;
                    let ghost pre_rm = entries@;
                    match append_rec(sub, stack, p + 1, key, val) {
                        Ok(sub2) => {
                            let ghost sub2v = map_entries_view(sub2@);
                            let pair = (ki, BellandeValue::Mapping(sub2));
                            let ghost gp = pair;
                            let mut entries = entries;
                            entries.insert(i, pair);
                            proof {
                                let se = append_path(
                                    map_get(before, pk@)->Mapping_0,
                                    spath.skip(1),
                                    key@,
                                    val@,
                                )->Ok_0;
                                assert(se == sub2v);
                                assert(entries@ == pre_rm.insert(i as int, gp));
                                assert(gki == pk@);
                                assert(gp.1@ matches SpecValue::Mapping(s) && s =~= sub2v);
                                assert(gp.1@ == SpecValue::Mapping(se));
                                let target = before.update(i as int, (pk@, SpecValue::Mapping(se)));
                                assert forall|j: int|
                                    0 <= j < target.len() implies map_entries_view(entries@)[j]
                                    == target[j] by {
                                    if j < i {
                                        assert(entries@[j] == pre_rm[j]);
                                    } else if j == i {
                                        assert(entries@[j] == gp);
                                    } else {
                                        assert(entries@[j] == pre_rm[j - 1]);
                                    }
                                }
                                assert(map_entries_view(entries@) =~= target);
                            }
                            Ok(entries)
                        },
                        Err(k) => Err(k),
                    }
                },
                other => {
                    proof {
                        assert(before[i as int].1 == other@);
                        assert(!(map_get(before, pk@) is Mapping));
                    }
                    Err(ki)
                },
            }
        } else {
            proof {
                assert(!map_has(before, pk@));
            }
            Err(vstd::slice::slice_to_vec(pk.as_slice()))
        }
    }
}

/// Close scopes until the top entry's indent is smaller than `ind`.
fn pop_to(stack: &mut Vec<(usize, Vec<u8>)>, ind: usize)
    requires
        old(stack)@.len() >= 1,
    ensures
        stack_view(final(stack)@) == pop_stack(stack_view(old(stack)@), ind as int),
        final(stack)@.len() >= 1,
{
    let ghost orig = stack_view(old(stack)@);
    while stack.len() > 1 && stack[stack.len() - 1].0 >= ind
        invariant
            stack@.len() >= 1,
            pop_stack(orig, ind as int) == pop_stack(stack_view(stack@), ind as int),
        decreases stack@.len(),
    {
        let ghost sv = stack_view(stack@);
        proof {
            let n = stack@.len();
            assert(sv.last() == (stack@[n - 1].0 as int, stack@[n - 1].1@));
            assert(sv.len() > 1 && sv.last().0 >= ind as int);
            assert(pop_stack(sv, ind as int) == pop_stack(sv.drop_last(), ind as int));
            assert(stack_view(stack@.drop_last()) =~= sv.drop_last());
        }
        stack.pop();
    }
    proof {
        let sv = stack_view(stack@);
        let n = stack@.len();
        if n > 1 {
            assert(sv.last() == (stack@[n - 1].0 as int, stack@[n - 1].1@));
        }
        assert(!(sv.len() > 1 && sv.last().0 >= ind as int));
        assert(pop_stack(sv, ind as int) == sv);
    }
}

impl BellandeFormat {
    /// Parse a line sequence into the root mapping, or report the first
    /// malformed line or unresolved path.
    pub fn parse_lines(&self, lines: &Vec<Vec<u8>>) -> (r: Result<BellandeValue, ParseError>)
        ensures
            result_view(r) == parse_lines_spec(views_of(lines@)),
    {
        let mut root: Vec<(Vec<u8>, BellandeValue)> = Vec::new();
        let mut stack: Vec<(usize, Vec<u8>)> = Vec::new();
        stack.push((0, Vec::new()));
        let n = lines.len();
        let mut i: usize = 0;
        proof {
            assert(stack_view(stack@) =~= init_state().stack);
            assert(map_entries_view(root@) =~= init_state().root);
            assert(views_of(lines@).take(0) =~= Seq::<Seq<u8>>::empty());
        }
        while i < n
            invariant
                0 <= i <= n,
                n == lines@.len(),
                stack@.len() >= 1,
                run_lines(views_of(lines@).take(i as int)) == Ok::<SpecState, SpecError>(SpecState {
                    root: map_entries_view(root@),
                    stack: stack_view(stack@),
                }),
            decreases n - i,
        {
            let ghost prefix = views_of(lines@).take(i as int);
            let ghost st0 = SpecState { root: map_entries_view(root@), stack: stack_view(stack@) };
            let line = vstd::std_specs::vec::vec_index(lines, i);
            let t = crate::text::trim_slice(line.as_slice());
            proof {
                assert(views_of(lines@).take(i + 1).drop_last() =~= prefix);
                assert(views_of(lines@).take(i + 1).last() == line@);
            }
            let tn = t.len();
            if tn == 0 || t[0] == 35 {
                proof {
                    assert(step_line(st0, line@, i + 1) == Ok::<SpecState, SpecError>(st0));
                }
            } else {
                let ind = crate::text::indent_len(line.as_slice());
                pop_to(&mut stack, ind);
                let ghost stack1 = stack_view(stack@);
                let c = crate::text::find_byte(t, 58);
                if c < tn {
                    let key = crate::text::trim_slice(vstd::slice::slice_subrange(t, 0, c));
                    let vt = crate::text::trim_slice(vstd::slice::slice_subrange(t, c + 1, tn));
                    proof {
                        assert(t@.subrange(0, c as int) =~= t@.take(c as int));
                        assert(t@.subrange(c + 1, tn as int) =~= t@.skip(c + 1));
                        assert(key@ == trim(t@.take(c as int)));
                        assert(vt@ == trim(t@.skip(c + 1)));
                    }
                    if vt.len() > 0 {
                        let val = self.parse_value(vt);
                        match insert_rec(root, &stack, 1, key, val) {
                            Ok(root2) => {
                                root = root2;
                                proof {
                                    assert(run_lines(views_of(lines@).take(i + 1)) == Ok::<
                                        SpecState,
                                        SpecError,
                                    >(SpecState {
                                        root: map_entries_view(root@),
                                        stack: stack_view(stack@),
                                    }));
                                }
                            },
                            Err(k) => {
                                proof {
                                    assert(run_lines(views_of(lines@).take(i + 1)) == step_line(
                                        st0,
                                        line@,
                                        i + 1,
                                    ));
                                    lemma_run_lines_err(views_of(lines@), i + 1);
                                }
                                return Err(ParseError::UnresolvedPath { line: i + 1, key: k });
                            },
                        }
                    } else {
                        let kv = vstd::slice::slice_to_vec(key);
                        let empty_list = BellandeValue::List(Vec::new());
                        proof {
                            assert(empty_list@ matches SpecValue::List(s) && s =~= Seq::<
                                SpecValue,
                            >::empty());
                        }
                        match insert_rec(root, &stack, 1, key, empty_list) {
                            Ok(root2) => {
                                root = root2;
                                stack.push((ind, kv));
                                proof {
                                    assert(stack_view(stack@) =~= stack1.push((ind as int, key@)));
                                    assert(run_lines(views_of(lines@).take(i + 1)) == Ok::<
                                        SpecState,
                                        SpecError,
                                    >(SpecState {
                                        root: map_entries_view(root@),
                                        stack: stack_view(stack@),
                                    }));
                                }
                            },
                            Err(k) => {
                                proof {
                                    assert(run_lines(views_of(lines@).take(i + 1)) == step_line(
                                        st0,
                                        line@,
                                        i + 1,
                                    ));
                                    lemma_run_lines_err(views_of(lines@), i + 1);
                                }
                                return Err(ParseError::UnresolvedPath { line: i + 1, key: k });
                            },
                        }
                    }
                } else if t[0] == 45 {
                    let vt = crate::text::trim_slice(vstd::slice::slice_subrange(t, 1, tn));
                    proof {
                        assert(t@.subrange(1, tn as int) =~= t@.skip(1));
                        assert(vt@ == trim(t@.skip(1)));
                    }
                    let val = self.parse_value(vt);
                    let sn = stack.len();
                    let kt = vstd::slice::slice_to_vec(
                        vstd::std_specs::vec::vec_index(&stack, sn - 1).1.as_slice(),
                    );
                    proof {
                        assert(kt@ == stack_view(stack@).last().1);
                    }
                    match append_rec(root, &stack, 1, kt.as_slice(), val) {
                        Ok(root2) => {
                            root = root2;
                            proof {
                                assert(run_lines(views_of(lines@).take(i + 1)) == Ok::<
                                    SpecState,
                                    SpecError,
                                >(SpecState {
                                    root: map_entries_view(root@),
                                    stack: stack_view(stack@),
                                }));
                            }
                        },
                        Err(k) => {
                            proof {
                                assert(run_lines(views_of(lines@).take(i + 1)) == step_line(
                                    st0,
                                    line@,
                                    i + 1,
                                ));
                                lemma_run_lines_err(views_of(lines@), i + 1);
                            }
                            return Err(ParseError::UnresolvedPath { line: i + 1, key: k });
                        },
                    }
                } else {
                    proof {
                        assert(run_lines(views_of(lines@).take(i + 1)) == step_line(
                            st0,
                            line@,
                            i + 1,
                        ));
                        lemma_run_lines_err(views_of(lines@), i + 1);
                    }
                    return Err(ParseError::MalformedLine {
                        line: i + 1,
                        content: vstd::slice::slice_to_vec(line.as_slice()),
                    });
                }
            }
            i = i + 1;
        }
        proof {
            assert(views_of(lines@).take(n as int) =~= views_of(lines@));
        }
        let out = BellandeValue::Mapping(root);
        proof {
            assert(out@ matches SpecValue::Mapping(es) && es =~= map_entries_view(root@));
        }
        Ok(out)
    }

    /// Parse a whole document: split it into lines, then parse the lines.
    pub fn parse_text(&self, text: &[u8]) -> (r: Result<BellandeValue, ParseError>)
        ensures
            result_view(r) == parse_text_spec(text@),
    {
        let lines = crate::text::split_lines(text);
        self.parse_lines(&lines)
    }
}

} // verus!
