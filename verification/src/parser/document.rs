//! Documents: lines of key/value pairs, table headers, comments and blank
//! lines, and the tables they build.

use vstd::prelude::*;

use crate::document::Document;
use crate::key::Key;
use crate::display::{
    body_text,
    children_text,
    document_text,
    entry_line,
    header_text,
    lemma_array_text_push,
    lemma_no_children,
    lemma_text_push,
    path_text,
};
use crate::parser::edit::{
    descend_apply,
    descend_path,
    edit_model,
    empty_table,
    opt_table_model,
    TableEdit,
    TableOp,
};
use crate::parser::errors::{duplicate_key, CustomError, TomlError};
use crate::parser::key::{dotted_key_at, key, key_part_at, key_text, key_values, keys_decorated, keys_text};
use crate::parser::trivia::{
    comment,
    comment_end,
    lemma_ws_end_bounds,
    line_ending_end,
    line_trailing,
    line_trailing_end,
    newline,
    newline_end,
    ws,
    ws_end,
};
use crate::parser::value::{find_key_from, lemma_find_key_from, value, value_at};
use crate::table::{appended, lookup};
use crate::repr::Decor;
use crate::text::{chars_of, slice_string};
use crate::value::{
    lemma_entries_model,
    decorated_as,
    lemma_same_but_decor,
    value_repr_text,
    value_text,
    entries_model,
    item_model,
    table_model,
    value_model,
    Item,
    Table,
    TableKeyValue,
    TomlItem,
    TomlTable,
    TomlValue,
    Value,
};

verus! {

/// What a line of a document holds.
pub enum Stmt {
    /// A comment or a newline: nothing to build.
    Blank,
    /// `key = value`, by the parts of the key.
    KeyVal(Seq<Seq<char>>, TomlValue),
    /// `[key]`, by the parts of the key.
    StdHeader(Seq<Seq<char>>),
    /// `[[key]]`, by the parts of the key.
    ArrayHeader(Seq<Seq<char>>),
}

// expression = ws comment / ws keyval ws [ comment ] / ws table ws [ comment ] / ws
/// The line (after its leading whitespace) starting at `i`: where it ends,
/// after its line ending, and what it holds.
pub open spec fn stmt_at(s: Seq<char>, i: int) -> Option<(int, Stmt)> {
    if 0 <= i < s.len() && s[i] == '#' {
        match comment_end(s, i) {
            Some(c) => match line_ending_end(s, c) {
                Some(e) => Some((e, Stmt::Blank)),
                None => None,
            },
            None => None,
        }
    } else if 0 <= i < s.len() && s[i] == '[' {
        if i + 1 < s.len() && s[i + 1] == '[' {
            match dotted_key_at(s, i + 2) {
                Some((ke, ks)) => if ke + 1 < s.len() && s[ke] == ']' && s[ke + 1] == ']' {
                    match line_trailing_end(s, ke + 2) {
                        Some((c, e)) => Some((e, Stmt::ArrayHeader(ks))),
                        None => None,
                    }
                } else {
                    None
                },
                None => None,
            }
        } else {
            match dotted_key_at(s, i + 1) {
                Some((ke, ks)) => if 0 <= ke < s.len() && s[ke] == ']' {
                    match line_trailing_end(s, ke + 1) {
                        Some((c, e)) => Some((e, Stmt::StdHeader(ks))),
                        None => None,
                    }
                } else {
                    None
                },
                None => None,
            }
        }
    } else if newline_end(s, i) is Some {
        Some((newline_end(s, i)->0, Stmt::Blank))
    } else {
        match dotted_key_at(s, i) {
            Some((ke, ks)) => if 0 <= ke < s.len() && s[ke] == '=' {
                match value_at(s, ws_end(s, ke + 1)) {
                    Some((ve, v, _)) => match line_trailing_end(s, ve) {
                        Some((c, e)) => Some((e, Stmt::KeyVal(ks, v))),
                        None => None,
                    },
                    None => None,
                }
            } else {
                None
            },
            None => None,
        }
    }
}

/// The lines of a document from `i` (after whitespace) on, each followed by
/// whitespace; `None` where one of them is none of what a document holds.
pub open spec fn stmts_at(s: Seq<char>, i: int) -> Option<Seq<Stmt>>
    decreases s.len() - i,
{
    if i >= s.len() {
        Some(Seq::empty())
    } else {
        match stmt_at(s, i) {
            Some((e, st)) => if 0 <= i < e <= s.len() {
                proof {
                    lemma_ws_end_bounds(s, e);
                }
                match stmts_at(s, ws_end(s, e)) {
                    Some(rest) => Some(seq![st] + rest),
                    None => None,
                }
            } else {
                None
            },
            None => None,
        }
    }
}

/// The state of building the tables of a document: the root table, the
/// table of the last header with the key/value pairs after it, the path of
/// that header, and whether the header was that of an array of tables.
pub struct ParserState {
    pub root: TomlTable,
    pub current: TomlTable,
    pub path: Seq<Seq<char>>,
    pub is_array: bool,
}

/// The state before the first line.
pub open spec fn initial_state() -> ParserState {
    ParserState { root: empty_table(), current: empty_table(), path: Seq::empty(), is_array: false }
}

/// Puts the table of the last header where its path says (the root table
/// when there was no header yet).
pub open spec fn finalize_spec(st: ParserState) -> Option<ParserState> {
    if st.path.len() == 0 {
        Some(ParserState { root: st.current, current: empty_table(), path: Seq::empty(), ..st })
    } else {
        let op = if st.is_array {
            TableOp::PushTable(st.path.last(), st.current)
        } else {
            TableOp::PutTable(st.path.last(), st.current)
        };
        match descend_apply(st.root, st.path.drop_last(), false, op) {
            Some((root, _)) => Some(
                ParserState { root, current: empty_table(), path: Seq::empty(), ..st },
            ),
            None => None,
        }
    }
}

/// Starts the table of the header `[path]`, taking over the implicit table
/// of that path when there is one.
pub open spec fn start_table_spec(st: ParserState, path: Seq<Seq<char>>) -> Option<ParserState> {
    match descend_apply(st.root, path.drop_last(), false, TableOp::TakeTable(path.last())) {
        Some((root, taken)) => {
            let cur = match taken {
                Some(t) => t,
                None => st.current,
            };
            Some(
                ParserState {
                    root,
                    current: TomlTable { entries: cur.entries, implicit: false, dotted: false },
                    path,
                    is_array: false,
                },
            )
        },
        None => None,
    }
}

/// Starts the table of the header `[[path]]`.
pub open spec fn start_array_spec(st: ParserState, path: Seq<Seq<char>>) -> Option<ParserState> {
    match descend_apply(st.root, path.drop_last(), false, TableOp::OpenArray(path.last())) {
        Some((root, _)) => Some(
            ParserState {
                root,
                current: TomlTable { entries: st.current.entries, implicit: false, dotted: false },
                path,
                is_array: true,
            },
        ),
        None => None,
    }
}

/// Adds `key = v` (the key given by its parts) to the table of the last
/// header.
pub open spec fn keyval_spec(st: ParserState, kvals: Seq<Seq<char>>, v: TomlValue) -> Option<
    ParserState,
> {
    let path = kvals.drop_last();
    match descend_apply(
        st.current,
        path,
        true,
        TableOp::KeyVal(kvals.last(), TomlItem::Value(v), path.len() > 0),
    ) {
        Some((current, _)) => Some(ParserState { current, ..st }),
        None => None,
    }
}

/// The state after a line.
pub open spec fn step_spec(st: ParserState, stmt: Stmt) -> Option<ParserState> {
    match stmt {
        Stmt::Blank => Some(st),
        Stmt::KeyVal(kvals, v) => keyval_spec(st, kvals, v),
        Stmt::StdHeader(path) => match finalize_spec(st) {
            Some(st2) => start_table_spec(st2, path),
            None => None,
        },
        Stmt::ArrayHeader(path) => match finalize_spec(st) {
            Some(st2) => start_array_spec(st2, path),
            None => None,
        },
    }
}

/// The state after the lines.
pub open spec fn run_stmts(st: ParserState, stmts: Seq<Stmt>) -> Option<ParserState>
    decreases stmts.len(),
{
    if stmts.len() == 0 {
        Some(st)
    } else {
        match step_spec(st, stmts[0]) {
            Some(st2) => run_stmts(st2, stmts.drop_first()),
            None => None,
        }
    }
}

/// The root table a document builds, from the state after its lines from
/// `i` on.
pub open spec fn finish_from(s: Seq<char>, st: ParserState, i: int) -> Option<TomlTable> {
    match stmts_at(s, i) {
        Some(stmts) => match run_stmts(st, stmts) {
            Some(st2) => match finalize_spec(st2) {
                Some(st3) => Some(st3.root),
                None => None,
            },
            None => None,
        },
        None => None,
    }
}

/// The root table of a document, or `None` where the text is not a
/// document or its tables contradict each other.
pub open spec fn document_model(s: Seq<char>) -> Option<TomlTable> {
    finish_from(s, initial_state(), ws_end(s, 0))
}

/// A `key = value` line at `i` that is written back as it is read: one key
/// part, no dotted key in an inline table of the value, and a line feed to
/// end it.
pub open spec fn plain_keyval_at(s: Seq<char>, i: int) -> bool {
    match dotted_key_at(s, i) {
        Some((ke, ks)) => ks.len() == 1 && 0 <= ke < s.len() && s[ke] == '=' && match value_at(
            s,
            ws_end(s, ke + 1),
        ) {
            Some((ve, v, d)) => !d && match line_trailing_end(s, ve) {
                Some((c, e)) => e == c + 1 && 0 <= c < s.len() && s[c] == '\n',
                None => false,
            },
            None => false,
        },
        None => false,
    }
}

/// A `[key]` header at `i` that is written back as it is read: one key part
/// with no space around it, and a line feed to end the line.
pub open spec fn plain_header_at(s: Seq<char>, i: int) -> bool {
    0 <= i && i + 1 < s.len() && s[i] == '[' && s[i + 1] != '[' && match key_part_at(s, i + 1) {
        Some((a, b, c, k)) => a == i + 1 && c == b && 0 <= b < s.len() && s[b] == ']' && match line_trailing_end(
            s,
            b + 1,
        ) {
            Some((c2, e)) => e == c2 + 1 && 0 <= c2 < s.len() && s[c2] == '\n',
            None => false,
        },
        None => false,
    }
}

/// A `[[key]]` header at `i` that is written back as it is read: one key
/// part with no space around it, and a line feed to end the line.
pub open spec fn plain_array_header_at(s: Seq<char>, i: int) -> bool {
    0 <= i && i + 2 < s.len() && s[i] == '[' && s[i + 1] == '[' && match key_part_at(s, i + 2) {
        Some((a, b, c, k)) => a == i + 2 && c == b && 0 <= b && b + 1 < s.len() && s[b] == ']'
            && s[b + 1] == ']' && match line_trailing_end(s, b + 2) {
            Some((c2, e)) => e == c2 + 1 && 0 <= c2 < s.len() && s[c2] == '\n',
            None => false,
        },
        None => false,
    }
}

/// The text of the key of the header at `i` whose key starts at `k`.
pub open spec fn header_key_text(s: Seq<char>, k: int) -> Seq<char> {
    match key_part_at(s, k) {
        Some((a, b, c, v)) => s.subrange(a, b),
        None => Seq::empty(),
    }
}

/// The line at `i`, holding `st`, is a comment, a blank line, a plain
/// `key = value` line or a plain `[key]` header.
pub open spec fn plain_stmt(s: Seq<char>, i: int, st: Stmt) -> bool {
    match st {
        Stmt::Blank => true,
        Stmt::KeyVal(_, _) => plain_keyval_at(s, i),
        Stmt::StdHeader(_) => plain_header_at(s, i),
        Stmt::ArrayHeader(_) => plain_array_header_at(s, i),
    }
}

/// The headers seen so far: the values of their keys, and the value and
/// text of the key of the last header when it was that of an array of
/// tables.
pub struct PlainState {
    pub seen: Set<Seq<char>>,
    pub last_array: Option<(Seq<char>, Seq<char>)>,
}

/// The headers seen after the line at `i`, holding `st`.
pub open spec fn plain_next(s: Seq<char>, i: int, st: Stmt, ps: PlainState) -> PlainState {
    match st {
        Stmt::StdHeader(ks) => PlainState { seen: ps.seen.insert(ks[0]), last_array: None },
        Stmt::ArrayHeader(ks) => PlainState {
            seen: ps.seen.insert(ks[0]),
            last_array: Some((ks[0], header_key_text(s, i + 2))),
        },
        _ => ps,
    }
}

/// The line at `i`, holding `st`, keeps the tables in the order they are
/// written: the key of a `[[key]]` header is new, or that of the header
/// just before, written the same way.
pub open spec fn in_order(s: Seq<char>, i: int, st: Stmt, ps: PlainState) -> bool {
    match st {
        Stmt::ArrayHeader(ks) => !ps.seen.contains(ks[0]) || ps.last_array == Some(
            (ks[0], header_key_text(s, i + 2)),
        ),
        _ => true,
    }
}

/// Every line from `i` on is a comment, a blank line, a plain `key = value`
/// line, a plain `[key]` header or a plain `[[key]]` header, in order.
pub open spec fn plain_from(s: Seq<char>, i: int, ps: PlainState) -> bool
    decreases s.len() - i,
{
    if i >= s.len() {
        true
    } else {
        match stmt_at(s, i) {
            Some((e, st)) => if 0 <= i < e <= s.len() {
                proof {
                    lemma_ws_end_bounds(s, e);
                }
                plain_stmt(s, i, st) && in_order(s, i, st, ps) && plain_from(
                    s,
                    ws_end(s, e),
                    plain_next(s, i, st, ps),
                )
            } else {
                false
            },
            None => false,
        }
    }
}

/// A document the parser reads and writes back unchanged: only comments,
/// blank lines, `key = value` lines with one key part, and `[key]` and
/// `[[key]]` headers of one key part without spaces in the brackets, each
/// line ending with a line feed, no dotted key in an inline table, and the
/// headers of an array of tables one after the other.
pub open spec fn plain_document(s: Seq<char>) -> bool {
    plain_from(s, ws_end(s, 0), PlainState { seen: Set::empty(), last_array: None })
}

/// A line of a document, as parsed.
pub enum Statement {
    /// A comment with its line ending, or a newline.
    Blank,
    /// `key = value`: the parts of the key, each with the spaces around it,
    /// and the value with the spaces before it and the spaces and comment
    /// after it.
    KeyVal(Vec<Key>, Value),
    /// `[key]`: the parts of the key, and the spaces and comment after it.
    StdHeader(Vec<Key>, String),
    /// `[[key]]`: the parts of the key, and the spaces and comment after it.
    ArrayHeader(Vec<Key>, String),
}

/// What a parsed line holds.
pub open spec fn statement_model(st: Statement) -> Stmt {
    match st {
        Statement::Blank => Stmt::Blank,
        Statement::KeyVal(ks, v) => Stmt::KeyVal(key_values(ks@), value_model(v)),
        Statement::StdHeader(ks, _) => Stmt::StdHeader(key_values(ks@)),
        Statement::ArrayHeader(ks, _) => Stmt::ArrayHeader(key_values(ks@)),
    }
}

/// A parsed line has a key of at least one part where it has a key.
pub open spec fn statement_keys_ok(st: Statement) -> bool {
    match st {
        Statement::Blank => true,
        Statement::KeyVal(ks, _) => ks@.len() > 0,
        Statement::StdHeader(ks, _) => ks@.len() > 0,
        Statement::ArrayHeader(ks, _) => ks@.len() > 0,
    }
}

/// The value of the `key = value` line at `i` has no inline table with a
/// dotted key in it.
pub open spec fn keyval_value_plain(s: Seq<char>, i: int) -> bool {
    match dotted_key_at(s, i) {
        Some((ke, ks)) => match value_at(s, ws_end(s, ke + 1)) {
            Some((ve, v, d)) => !d,
            None => false,
        },
        None => false,
    }
}

/// The text of a parsed `key = value` line before its line ending: the parts
/// of the key with their spaces, `=`, and the value with the spaces around it
/// and the comment after it.
pub open spec fn keyval_line_text(ks: Seq<Key>, v: Value) -> Seq<char> {
    keys_text(ks) + seq!['='] + value_text(v)
}

/// The line from `i` to `e` is `t` followed by its line ending.
pub open spec fn line_holds(s: Seq<char>, i: int, e: int, t: Seq<char>) -> bool {
    &&& i + t.len() <= e
    &&& s.subrange(i, i + t.len()) == t
    &&& line_ending_end(s, i + t.len()) == Some(e)
}

/// Parses a `key = value` line at `i`.
#[verifier::spinoff_prover]
#[verifier::rlimit(40)]
fn keyval_line(s: &[char], i: usize) -> (r: Option<(usize, Statement)>)
    requires
        i <= s@.len(),
        !(i < s@.len() && (s@[i as int] == '#' || s@[i as int] == '[')),
        newline_end(s@, i as int) is None,
    ensures
        r matches Some((e, st)) ==> stmt_at(s@, i as int) == Some((e as int, statement_model(st)))
            && i < e <= s@.len() && statement_keys_ok(st),
        r matches Some((e, st)) ==> (st matches Statement::KeyVal(ks, v) ==> (plain_keyval_at(
            s@,
            i as int,
        ) ==> ks@.len() == 1 && keys_decorated(ks@) && key_text(ks@[0]) + seq!['='] + value_text(v)
            + seq!['\n'] == s@.subrange(i as int, e as int))),
        r matches Some((e, st)) ==> st is KeyVal,
        r matches Some((e, st)) ==> (st matches Statement::KeyVal(ks, v) ==> keys_decorated(ks@)
            && (keyval_value_plain(s@, i as int) ==> line_holds(
            s@,
            i as int,
            e as int,
            keyval_line_text(ks@, v),
        ))),
        r is None ==> stmt_at(s@, i as int) is None,
{
    match key(s, i) {
        Some((ke, ks)) => {
            if ke < s.len() && s[ke] == '=' {
                let a = ws(s, ke + 1);
                match value(s, a) {
                    Some((ve, v0)) => match line_trailing(s, ve) {
                        Some((c, e)) => {
                            let pre = slice_string(s, ke + 1, a);
                            let suf = slice_string(s, ve, c);
                            let v = v0.decorated(pre.as_str(), suf.as_str());
                            proof {
                                lemma_same_but_decor(v, v0);
                                if keyval_value_plain(s@, i as int) {
                                    let t = keyval_line_text(ks@, v);
                                    assert(value_text(v) == pre@ + value_repr_text(v0) + suf@);
                                    assert(t =~= s@.subrange(i as int, c as int));
                                    assert(s@.subrange(i as int, i + t.len()) =~= t);
                                }
                                if plain_keyval_at(s@, i as int) {
                                    assert(ks@.len() == key_values(ks@).len());
                                    assert(ks@.len() == 1);
                                    assert(keys_text(ks@) == key_text(ks@[0]));
                                    assert(value_text(v) == pre@ + value_repr_text(v0) + suf@);
                                    assert(key_text(ks@[0]) + seq!['='] + value_text(v) + seq!['\n']
                                        =~= s@.subrange(i as int, e as int));
                                }
                            }
                            Some((e, Statement::KeyVal(ks, v)))
                        },
                        None => None,
                    },
                    None => None,
                }
            } else {
                None
            }
        },
        None => None,
    }
}

/// The text of a plain array header line is its key's text in double
/// brackets, what follows on the line, and a line feed.
proof fn lemma_plain_array_header_text(
    s: Seq<char>,
    i: int,
    ke: int,
    c: int,
    e: int,
    ks: Seq<Key>,
    t: Seq<char>,
)
    requires
        plain_array_header_at(s, i),
        dotted_key_at(s, i + 2) == Some((ke, key_values(ks))),
        ks.len() > 0,
        key_part_at(s, i + 2) matches Some((a, b, c3, v)) && 0 <= a <= b <= s.len()
            && ks[0].repr_view()@ == s.subrange(a, b),
        0 <= ke && ke + 1 < s.len(),
        s[ke] == ']' && s[ke + 1] == ']',
        line_trailing_end(s, ke + 2) == Some((c, e)),
        ke + 2 <= c <= e <= s.len(),
        t == s.subrange(ke + 2, c),
    ensures
        ks.len() == 1,
        ks[0].repr_view()@ == header_key_text(s, i + 2),
        seq!['[', '['] + ks[0].repr_view()@ + seq![']', ']'] + t + seq!['\n'] == s.subrange(i, e),
{
    let (a, b, c2, k) = key_part_at(s, i + 2)->0;
    assert(a == i + 2 && c2 == b && s[b] == ']');
    assert(dotted_key_at(s, i + 2) == Some((c2, seq![k])));
    assert(ke == b);
    assert(ks.len() == key_values(ks).len());
    assert(line_trailing_end(s, b + 2) == Some((c, e)));
    assert(e == c + 1 && s[c] == '\n');
    assert(ks[0].repr_view()@ == s.subrange(i + 2, ke));
    assert(s.subrange(i, e) =~= seq![s[i], s[i + 1]] + s.subrange(i + 2, ke) + seq![
        s[ke],
        s[ke + 1],
    ] + s.subrange(ke + 2, c) + seq![s[c]]);
}

/// Parses a `[[key]]` header line at `i`, on its `[[`.
#[verifier::spinoff_prover]
#[verifier::rlimit(30)]
fn array_header_line(s: &[char], i: usize) -> (r: Option<(usize, Statement)>)
    requires
        i + 1 < s@.len(),
        s@[i as int] == '[',
        s@[i + 1] == '[',
    ensures
        r matches Some((e, st)) ==> stmt_at(s@, i as int) == Some((e as int, statement_model(st)))
            && i < e <= s@.len() && statement_keys_ok(st),
        r matches Some((e, st)) ==> (st matches Statement::ArrayHeader(ks, t) ==> (
        plain_array_header_at(s@, i as int) ==> ks@.len() == 1 && ks@[0].repr_view()@
            == header_key_text(s@, i + 2) && seq!['[', '['] + ks@[0].repr_view()@ + seq![']', ']']
            + t@ + seq!['\n'] == s@.subrange(i as int, e as int))),
        r matches Some((e, st)) ==> st is ArrayHeader,
        r is None ==> stmt_at(s@, i as int) is None,
{
    let n = s.len();
    assert(i + 2 <= n);
    match key(s, i + 2) {
        Some((ke, ks)) => {
            if s.len() - ke >= 2 && s[ke] == ']' && s[ke + 1] == ']' {
                match line_trailing(s, ke + 2) {
                    Some((c, e)) => {
                        let t = slice_string(s, ke + 2, c);
                        proof {
                            if plain_array_header_at(s@, i as int) {
                                lemma_plain_array_header_text(
                                    s@,
                                    i as int,
                                    ke as int,
                                    c as int,
                                    e as int,
                                    ks@,
                                    t@,
                                );
                            }
                        }
                        Some((e, Statement::ArrayHeader(ks, t)))
                    },
                    None => None,
                }
            } else {
                None
            }
        },
        None => None,
    }
}

/// The text of a plain header line is its key's text in brackets, what
/// follows on the line, and a line feed.
proof fn lemma_plain_header_text(
    s: Seq<char>,
    i: int,
    ke: int,
    c: int,
    e: int,
    ks: Seq<Key>,
    t: Seq<char>,
)
    requires
        plain_header_at(s, i),
        dotted_key_at(s, i + 1) == Some((ke, key_values(ks))),
        ks.len() > 0,
        key_part_at(s, i + 1) matches Some((a, b, c3, v)) && 0 <= a <= b <= s.len()
            && ks[0].repr_view()@ == s.subrange(a, b),
        0 <= ke < s.len(),
        s[ke] == ']',
        line_trailing_end(s, ke + 1) == Some((c, e)),
        ke + 1 <= c <= e <= s.len(),
        t == s.subrange(ke + 1, c),
    ensures
        ks.len() == 1,
        seq!['['] + ks[0].repr_view()@ + seq![']'] + t + seq!['\n'] == s.subrange(i, e),
{
    let (a, b, c2, k) = key_part_at(s, i + 1)->0;
    assert(a == i + 1 && c2 == b && s[b] == ']');
    assert(dotted_key_at(s, i + 1) == Some((c2, seq![k])));
    assert(ke == b);
    assert(ks.len() == key_values(ks).len());
    assert(line_trailing_end(s, b + 1) == Some((c, e)));
    assert(e == c + 1 && s[c] == '\n');
    assert(ks[0].repr_view()@ == s.subrange(i + 1, ke));
    assert(s.subrange(i, e) =~= seq![s[i]] + s.subrange(i + 1, ke) + seq![s[ke]] + s.subrange(
        ke + 1,
        c,
    ) + seq![s[c]]);
}

/// Parses a `[key]` header line at `i`, on its `[`.
#[verifier::spinoff_prover]
#[verifier::rlimit(30)]
fn std_header_line(s: &[char], i: usize) -> (r: Option<(usize, Statement)>)
    requires
        i < s@.len(),
        s@[i as int] == '[',
        !(i + 1 < s@.len() && s@[i + 1] == '['),
    ensures
        r matches Some((e, st)) ==> stmt_at(s@, i as int) == Some((e as int, statement_model(st)))
            && i < e <= s@.len() && statement_keys_ok(st),
        r matches Some((e, st)) ==> (st matches Statement::StdHeader(ks, t) ==> (plain_header_at(
            s@,
            i as int,
        ) ==> ks@.len() == 1 && seq!['['] + ks@[0].repr_view()@ + seq![']'] + t@ + seq!['\n']
            == s@.subrange(i as int, e as int))),
        r matches Some((e, st)) ==> st is StdHeader,
        r is None ==> stmt_at(s@, i as int) is None,
{
    let n = s.len();
    assert(i + 1 <= n);
    match key(s, i + 1) {
        Some((ke, ks)) => {
            if ke < s.len() && s[ke] == ']' {
                match line_trailing(s, ke + 1) {
                    Some((c, e)) => {
                        let t = slice_string(s, ke + 1, c);
                        proof {
                            if plain_header_at(s@, i as int) {
                                lemma_plain_header_text(s@, i as int, ke as int, c as int, e as int, ks@, t@);
                            }
                        }
                        Some((e, Statement::StdHeader(ks, t)))
                    },
                    None => None,
                }
            } else {
                None
            }
        },
        None => None,
    }
}

/// Parses the line (after its leading whitespace) starting at `i`.
pub fn statement(s: &[char], i: usize) -> (r: Option<(usize, Statement)>)
    requires
        i <= s@.len(),
    ensures
        r matches Some((e, st)) ==> stmt_at(s@, i as int) == Some((e as int, statement_model(st)))
            && i < e <= s@.len() && statement_keys_ok(st),
        r matches Some((e, st)) ==> (st matches Statement::KeyVal(ks, v) ==> (plain_keyval_at(
            s@,
            i as int,
        ) ==> ks@.len() == 1 && keys_decorated(ks@) && key_text(ks@[0]) + seq!['='] + value_text(v)
            + seq!['\n'] == s@.subrange(i as int, e as int))),
        r matches Some((e, st)) ==> (st matches Statement::StdHeader(ks, t) ==> (plain_header_at(
            s@,
            i as int,
        ) ==> ks@.len() == 1 && seq!['['] + ks@[0].repr_view()@ + seq![']'] + t@ + seq!['\n']
            == s@.subrange(i as int, e as int))),
        r matches Some((e, st)) ==> (st matches Statement::ArrayHeader(ks, t) ==> (
        plain_array_header_at(s@, i as int) ==> ks@.len() == 1 && ks@[0].repr_view()@
            == header_key_text(s@, i + 2) && seq!['[', '['] + ks@[0].repr_view()@ + seq![']', ']']
            + t@ + seq!['\n'] == s@.subrange(i as int, e as int))),
        r is None ==> stmt_at(s@, i as int) is None,
{
    if i < s.len() && s[i] == '#' {
        match comment(s, i) {
            Some(c) => {
                if c == s.len() {
                    Some((c, Statement::Blank))
                } else {
                    match newline(s, c) {
                        Some(e) => Some((e, Statement::Blank)),
                        None => None,
                    }
                }
            },
            None => None,
        }
    } else if i < s.len() && s[i] == '[' {
        if i + 1 < s.len() && s[i + 1] == '[' {
            array_header_line(s, i)
        } else {
            std_header_line(s, i)
        }
    } else if let Some(e) = newline(s, i) {
        Some((e, Statement::Blank))
    } else {
        keyval_line(s, i)
    }
}

/// The first `n` parts of a path of keys.
fn prefix_keys(path: &Vec<Key>, n: usize) -> (r: Vec<Key>)
    requires
        n <= path@.len(),
    ensures
        r@ == path@.subrange(0, n as int),
{
    let mut r: Vec<Key> = Vec::new();
    let mut j: usize = 0;
    while j < n
        invariant
            j <= n <= path@.len(),
            r@ == path@.subrange(0, j as int),
        decreases n - j,
    {
        r.push(path[j].duplicate());
        assert(r@ =~= path@.subrange(0, j + 1));
        j = j + 1;
    }
    r
}

/// The key with `prefix` put in front of the whitespace before it.
fn with_prefix(k: Key, prefix: String) -> (r: Key)
    ensures
        r.value() == k.value(),
        r.repr_view() == k.repr_view(),
        r.position_view() == k.position_view(),
        r.decor_view().prefix_view() == Some(
            prefix@ + crate::repr::or_default(k.decor_view().prefix_view(), Seq::empty()),
        ),
        r.decor_view().suffix_view() == Some(
            crate::repr::or_default(k.decor_view().suffix_view(), Seq::empty()),
        ),
{
    let mut p = prefix;
    let suffix = match k.decor().suffix() {
        Some(t) => t.to_owned(),
        None => String::new(),
    };
    match k.decor().prefix() {
        Some(t) => p.append(t),
        None => {},
    }
    proof {
        assert(p@ =~= prefix@ + crate::repr::or_default(k.decor_view().prefix_view(), Seq::empty()));
    }
    k.with_decor(Decor::from_strings(p, suffix))
}

/// Appending a value to entries that all hold values adds its line.
proof fn lemma_push_value_line(before: Seq<TableKeyValue>, items: Seq<TableKeyValue>, k: Key, it: Item)
    requires
        appended(items, before, k, it),
        it is Value,
        forall|j: int| 0 <= j < before.len() ==> #[trigger] before[j].value_view() is Value,
    ensures
        body_text(items, items.len()) == body_text(before, before.len()) + entry_line(items.last()),
        forall|j: int| 0 <= j < items.len() ==> #[trigger] items[j].value_view() is Value,
{
    assert(items =~= before.push(items.last()));
    lemma_text_push(before, items.last(), Seq::empty());
    assert forall|j: int| 0 <= j < items.len() implies #[trigger] items[j].value_view() is Value by {
        if j < before.len() {
            assert(items[j] == before[j]);
        }
    }
}

/// A key given the text before it as its prefix is written as that text and
/// its own.
proof fn lemma_prefixed_key_text(r: Key, k: Key, prefix: Seq<char>)
    requires
        r.repr_view() == k.repr_view(),
        r.decor_view().prefix_view() == Some(
            prefix + crate::repr::or_default(k.decor_view().prefix_view(), Seq::empty()),
        ),
        r.decor_view().suffix_view() == Some(
            crate::repr::or_default(k.decor_view().suffix_view(), Seq::empty()),
        ),
    ensures
        r.decor_view().around(r.repr_view()@, crate::display::default_key_decor()) == prefix
            + key_text(k),
{
    assert(r.decor_view().around(r.repr_view()@, crate::display::default_key_decor()) =~= prefix
        + key_text(k));
}

/// In a root table of the plain shape a key gives no placeholder and no
/// implicit table.
proof fn lemma_shape_lookup(items: Seq<TableKeyValue>, k: Seq<char>)
    requires
        forall|j: int|
            0 <= j < items.len() ==> match #[trigger] items[j].value_view() {
                Item::Empty => false,
                Item::Table(t) => !t.implicit_view(),
                _ => true,
            },
    ensures
        lookup(entries_model(items, items.len()), k) matches Some(it) ==> !(it is Empty) && (
        it matches TomlItem::Table(t) ==> !t.implicit),
{
    lemma_entries_model(items, items.len());
    let e = entries_model(items, items.len());
    lemma_find_key_from(e, k, 0);
    if let Some(j) = find_key_from(e, k, 0) {
        assert(e[j].1 == item_model(items[j].value_view()));
        match items[j].value_view() {
            Item::Empty => {},
            Item::Table(t) => {},
            _ => {},
        }
    }
}

/// Putting the table of a header, whose entries all hold values, after the
/// entries of the root table adds the header and the lines to the text of
/// the root table.
proof fn lemma_put_table_text(before: Seq<TableKeyValue>, items: Seq<TableKeyValue>, k: Key, t: Table)
    requires
        appended(items, before, k, Item::Table(t)),
        forall|j: int| 0 <= j < t.items_view().len() ==> #[trigger] t.items_view()[j].value_view() is Value,
        !t.implicit_view(),
        forall|j: int|
            0 <= j < before.len() ==> match #[trigger] before[j].value_view() {
                Item::Empty => false,
                Item::Table(t) => !t.implicit_view(),
                _ => true,
            },
    ensures
        body_text(items, items.len()) + children_text(items, items.len(), Seq::empty()) == body_text(
            before,
            before.len(),
        ) + children_text(before, before.len(), Seq::empty()) + header_text(
            t,
            seq![k.repr_view()@],
            false,
        ) + body_text(t.items_view(), t.items_view().len()),
        forall|j: int|
            0 <= j < items.len() ==> match #[trigger] items[j].value_view() {
                Item::Empty => false,
                Item::Table(t) => !t.implicit_view(),
                _ => true,
            },
{
    assert(items =~= before.push(items.last()));
    lemma_text_push(before, items.last(), Seq::empty());
    lemma_no_children(t.items_view(), t.items_view().len(), seq![k.repr_view()@]);
    assert(Seq::<Seq<char>>::empty().push(k.repr_view()@) =~= seq![k.repr_view()@]);
    assert forall|j: int|
        0 <= j < items.len() implies match #[trigger] items[j].value_view() {
            Item::Empty => false,
            Item::Table(t) => !t.implicit_view(),
            _ => true,
        } by {
        if j < before.len() {
            assert(items[j] == before[j]);
        }
    }
}

/// Where two sequences of entries have the same keys, a key is found at
/// the same place in both.
proof fn lemma_find_same_keys(e1: Seq<(Seq<char>, TomlItem)>, e2: Seq<(Seq<char>, TomlItem)>, k: Seq<char>, i: int)
    requires
        e1.len() == e2.len(),
        forall|j: int| 0 <= j < e1.len() ==> #[trigger] e1[j].0 == e2[j].0,
    ensures
        find_key_from(e1, k, i) == find_key_from(e2, k, i),
    decreases e1.len() - i,
{
    if 0 <= i < e1.len() {
        lemma_find_same_keys(e1, e2, k, i + 1);
    }
}

/// A key that no entry has is found in the entry added after the last one.
proof fn lemma_find_pushed(e: Seq<(Seq<char>, TomlItem)>, k: Seq<char>, it: TomlItem)
    requires
        find_key_from(e, k, 0) is None,
    ensures
        find_key_from(e.push((k, it)), k, 0) == Some(e.len() as int),
{
    lemma_find_key_from(e, k, 0);
    let e2 = e.push((k, it));
    lemma_find_key_from(e2, k, 0);
    if let Some(j) = find_key_from(e2, k, 0) {
        if j < e.len() {
            assert(e2[j] == e[j]);
        }
    } else {
        assert(e2[e.len() as int].0 == k);
    }
}

/// Adding a table to the array of tables that ends the root table adds the
/// table's text to the text of the root table.
proof fn lemma_push_array_text(
    before: Seq<TableKeyValue>,
    items: Seq<TableKeyValue>,
    t: Table,
)
    requires
        before.len() > 0,
        items.len() == before.len(),
        forall|i: int| 0 <= i < before.len() - 1 ==> #[trigger] items[i] == before[i],
        items.last().key_view() == before.last().key_view(),
        items.last().value_view() matches Item::ArrayOfTables(a2) && before.last().value_view() matches Item::ArrayOfTables(a1)
            && a2.values_view() == a1.values_view().push(t),
        forall|j: int| 0 <= j < t.items_view().len() ==> #[trigger] t.items_view()[j].value_view() is Value,
    ensures
        body_text(items, items.len()) + children_text(items, items.len(), Seq::empty()) == body_text(
            before,
            before.len(),
        ) + children_text(before, before.len(), Seq::empty()) + header_text(
            t,
            seq![before.last().key_view().repr_view()@],
            true,
        ) + body_text(t.items_view(), t.items_view().len()),
{
    let rest = before.drop_last();
    assert(before =~= rest.push(before.last()));
    assert(items =~= rest.push(items.last()));
    lemma_text_push(rest, before.last(), Seq::empty());
    lemma_text_push(rest, items.last(), Seq::empty());
    let p = Seq::<Seq<char>>::empty().push(before.last().key_view().repr_view()@);
    assert(p =~= seq![before.last().key_view().repr_view()@]);
    if let Item::ArrayOfTables(a1) = before.last().value_view() {
        if let Item::ArrayOfTables(a2) = items.last().value_view() {
            lemma_array_text_push(a1.values_view(), t, p);
            lemma_no_children(t.items_view(), t.items_view().len(), p);
        }
    }
}

/// Where every entry holds a value, a key gives nothing or a value.
proof fn lemma_values_lookup(items: Seq<TableKeyValue>, k: Seq<char>)
    requires
        forall|j: int| 0 <= j < items.len() ==> #[trigger] items[j].value_view() is Value,
    ensures
        lookup(entries_model(items, items.len()), k) matches Some(it) ==> it is Value,
{
    lemma_entries_model(items, items.len());
    let e = entries_model(items, items.len());
    lemma_find_key_from(e, k, 0);
    if let Some(j) = find_key_from(e, k, 0) {
        assert(items[j].value_view() is Value);
        assert(e[j].1 == item_model(items[j].value_view()));
    }
}

/// Builds the tables of a document line by line.
pub struct TomlParser {
    root: Table,
    trailing: String,
    current_table: Table,
    current_table_path: Vec<Key>,
    current_is_array: bool,
    current_table_position: usize,
}

impl TomlParser {
    /// What has been built so far.
    pub closed spec fn model(&self) -> ParserState {
        ParserState {
            root: table_model(self.root),
            current: table_model(self.current_table),
            path: key_values(self.current_table_path@),
            is_array: self.current_is_array,
        }
    }

    /// The text of the tables built so far, as they will be written: the
    /// root table and the tables put in it, then the header and lines of the
    /// table of the last header.
    pub closed spec fn shown_body(&self) -> Seq<char> {
        if self.current_table_path@.len() == 0 {
            body_text(self.current_table.items_view(), self.current_table.items_view().len())
        } else {
            self.root_text() + header_text(
                self.current_table,
                seq![self.current_table_path@[0].repr_view()@],
                self.current_is_array,
            ) + body_text(self.current_table.items_view(), self.current_table.items_view().len())
        }
    }

    /// The text of the root table as it will be written.
    pub closed spec fn root_text(&self) -> Seq<char> {
        body_text(self.root.items_view(), self.root.items_view().len()) + children_text(
            self.root.items_view(),
            self.root.items_view().len(),
            Seq::empty(),
        )
    }

    /// The number of parts of the path of the last header.
    pub closed spec fn header_path_len(&self) -> nat {
        self.current_table_path@.len()
    }

    /// The number of entries of the table of the last header.
    pub closed spec fn current_len(&self) -> nat {
        self.current_table.items_view().len()
    }

    /// Whitespace and comments kept since the last item.
    pub closed spec fn trailing_text(&self) -> Seq<char> {
        self.trailing@
    }

    /// The root table holds no placeholder and no implicit table.
    pub closed spec fn root_shape(&self) -> bool {
        forall|j: int|
            0 <= j < self.root.items_view().len() ==> match #[trigger] self.root.items_view()[j].value_view() {
                Item::Empty => false,
                Item::Table(t) => !t.implicit_view(),
                _ => true,
            }
    }

    /// The shape a plain document gives: at most one part in the path of the
    /// last header, a table of values under it that is not implicit, and a
    /// root table without placeholders or implicit tables.
    pub closed spec fn plain_shape(&self) -> bool {
        &&& self.current_table_path@.len() <= 1
        &&& forall|j: int|
            0 <= j < self.current_table.items_view().len()
                ==> #[trigger] self.current_table.items_view()[j].value_view() is Value
        &&& self.current_table_path@.len() == 1 ==> !self.current_table.implicit_view()
        &&& self.current_table_path@.len() == 1 && self.current_is_array ==> self.root_ends_with_array(
            self.current_table_path@[0].value(),
            self.current_table_path@[0].repr_view()@,
        )
        &&& self.root_shape()
    }

    /// The last entry of the root table is the first under the key `v`,
    /// written `r`, and holds an array of tables.
    pub closed spec fn root_ends_with_array(&self, v: Seq<char>, r: Seq<char>) -> bool {
        let items = self.root.items_view();
        &&& items.len() > 0
        &&& items.last().key_view().value() == v
        &&& items.last().key_view().repr_view()@ == r
        &&& items.last().value_view() is ArrayOfTables
        &&& find_key_from(entries_model(items, items.len()), v, 0) == Some(items.len() - 1)
    }

    /// No table or array of tables of the root table, and not the table of
    /// the last header, is under the key `v`.
    pub closed spec fn fresh_key(&self, v: Seq<char>) -> bool {
        &&& forall|j: int|
            0 <= j < self.root.items_view().len() && (self.root.items_view()[j].value_view() is Table
                || self.root.items_view()[j].value_view() is ArrayOfTables)
                ==> #[trigger] self.root.items_view()[j].key_view().value() != v
        &&& self.current_table_path@.len() == 1 ==> self.current_table_path@[0].value() != v
    }

    /// The last header was `[[r]]`, of the key `v`.
    pub closed spec fn continues_array(&self, v: Seq<char>, r: Seq<char>) -> bool {
        &&& self.current_table_path@.len() == 1
        &&& self.current_is_array
        &&& self.current_table_path@[0].value() == v
        &&& self.current_table_path@[0].repr_view()@ == r
    }

    /// The root table, the path of the last header, and whether it was that
    /// of an array of tables.
    pub closed spec fn frame(&self) -> (Seq<TableKeyValue>, Seq<Key>, bool) {
        (self.root.items_view(), self.current_table_path@, self.current_is_array)
    }

    /// Nothing built yet.
    pub fn new() -> (p: TomlParser)
        ensures
            p.model() == initial_state(),
            p.plain_shape(),
            p.shown_body() == Seq::<char>::empty(),
            p.trailing_text() == Seq::<char>::empty(),
    {
        let root = Table::with_decor_and_pos(Decor::empty(), Some(0));
        let current_table = Table::with_decor_and_pos(Decor::empty(), Some(0));
        let p = TomlParser {
            root,
            trailing: String::new(),
            current_table,
            current_table_path: Vec::new(),
            current_is_array: false,
            current_table_position: 0,
        };
        proof {
            assert(entries_model(p.root.items_view(), 0) =~= Seq::<(Seq<char>, TomlItem)>::empty());
            assert(key_values(p.current_table_path@) =~= Seq::<Seq<char>>::empty());
        }
        p
    }

    /// Keeps whitespace, comments and newlines until the next item.
    fn on_ws(&mut self, w: &str)
        ensures
            final(self).model() == old(self).model(),
            final(self).shown_body() == old(self).shown_body(),
            final(self).root_text() == old(self).root_text(),
            final(self).plain_shape() == old(self).plain_shape(),
            final(self).trailing_text() == old(self).trailing_text() + w@,
            final(self).frame() == old(self).frame(),
    {
        self.trailing.append(w);
    }

    /// Adds the key/value pair `kv` under the tables named by `path` (its
    /// key's parts but the last) in the table of the last header, giving the
    /// text kept since the last item to the first part of the key.
    #[verifier::rlimit(40)]
    pub fn on_keyval(&mut self, path: Vec<Key>, kv: TableKeyValue) -> (r: Result<(), CustomError>)
        ensures
            match descend_apply(
                old(self).model().current,
                key_values(path@),
                true,
                TableOp::KeyVal(
                    kv.key_view().value(),
                    item_model(kv.value_view()),
                    path@.len() > 0,
                ),
            ) {
                Some((c, _)) => r is Ok && final(self).model() == ParserState {
                    current: c,
                    ..old(self).model()
                },
                None => r is Err,
            },
            kv.value_view() matches Item::Value(v) ==> (path@.len() == 0 && old(self).plain_shape()
                && r is Ok ==> final(self).plain_shape() && final(self).shown_body()
                == old(self).shown_body() + old(self).trailing_text() + key_text(kv.key_view())
                + seq!['='] + value_text(v) + seq!['\n'] && final(self).trailing_text()
                == Seq::<char>::empty() && final(self).root_text() == old(self).root_text()),
            final(self).frame() == old(self).frame(),
    {
        let ghost old_items = self.current_table.items_view();
        let ghost old_body = self.shown_body();
        let mut prefix = String::new();
        std::mem::swap(&mut prefix, &mut self.trailing);
        let mut path = path;
        let ghost path_values = key_values(path@);
        let ghost orig = kv;
        let kv = if path.len() == 0 {
            let (k, item) = kv.into_parts();
            let nk = with_prefix(k, prefix);
            proof {
                lemma_prefixed_key_text(nk, k, prefix@);
            }
            TableKeyValue::new(nk, item)
        } else {
            let k0 = path.remove(0);
            let ghost rest = path@;
            path.insert(0, with_prefix(k0, prefix));
            proof {
                assert(key_values(path@) =~= path_values);
            }
            kv
        };
        let key_text = kv.key().get().to_owned();
        let dotted = path.len() > 0;
        proof {
            assert(key_values(path@).skip(0) =~= key_values(path@));
        }
        let ghost kv_view = kv;
        match descend_path(&mut self.current_table, &path, 0, true, TableEdit::KeyVal(kv, dotted)) {
            Ok(_) => {
                proof {
                    if path@.len() == 0 && old(self).plain_shape() && kv_view.value_view() is Value {
                        lemma_values_lookup(old_items, kv_view.key_view().value());
                        lemma_push_value_line(
                            old_items,
                            self.current_table.items_view(),
                            kv_view.key_view(),
                            kv_view.value_view(),
                        );
                    }
                }
                Ok(())
            },
            Err(d) => {
                if d < path.len() {
                    Err(duplicate_key(&path, d))
                } else {
                    let table = prefix_keys(&self.current_table_path, self.current_table_path.len());
                    Err(CustomError::DuplicateKey { key: key_text, table: Some(table) })
                }
            },
        }
    }

    /// Puts the table of the last header where its path says (the root
    /// table when there was no header yet).
    pub fn finalize_table(&mut self) -> (r: Result<(), CustomError>)
        ensures
            match finalize_spec(old(self).model()) {
                Some(st) => r is Ok && final(self).model() == st,
                None => r is Err,
            },
            old(self).plain_shape() && r is Ok ==> final(self).root_text() == old(self).shown_body()
                && final(self).plain_shape() && final(self).header_path_len() == 0
                && final(self).current_len() == 0 && final(self).trailing_text()
                == old(self).trailing_text(),
            old(self).plain_shape() && r is Ok ==> forall|v: Seq<char>|
                #![trigger final(self).fresh_key(v)]
                old(self).fresh_key(v) ==> final(self).fresh_key(v),
            old(self).plain_shape() && r is Ok ==> forall|v: Seq<char>, w: Seq<char>|
                #![trigger final(self).root_ends_with_array(v, w)]
                old(self).continues_array(v, w) ==> final(self).root_ends_with_array(v, w),
    {
        let ghost old_body = self.shown_body();
        let ghost old_root = self.root.items_view();
        let ghost old_cur = self.current_table;
        let mut table = Table::with_decor_and_pos(Decor::empty(), None);
        std::mem::swap(&mut table, &mut self.current_table);
        let mut path: Vec<Key> = Vec::new();
        std::mem::swap(&mut path, &mut self.current_table_path);
        proof {
            assert(entries_model(self.current_table.items_view(), 0) =~= Seq::<
                (Seq<char>, TomlItem),
            >::empty());
            assert(key_values(self.current_table_path@) =~= Seq::<Seq<char>>::empty());
        }
        if path.len() == 0 {
            self.root = table;
            proof {
                if old(self).plain_shape() {
                    lemma_no_children(old_cur.items_view(), old_cur.items_view().len(), Seq::empty());
                }
            }
            return Ok(());
        }
        let n = path.len();
        let parent = prefix_keys(&path, n - 1);
        let key = path[n - 1].duplicate();
        let ghost key_view = key;
        let edit = if self.current_is_array {
            TableEdit::PushTable(key, table)
        } else {
            TableEdit::PutTable(key, table)
        };
        proof {
            assert(key_values(parent@).skip(0) =~= key_values(path@).drop_last());
        }
        match descend_path(&mut self.root, &parent, 0, false, edit) {
            Ok(_) => {
                proof {
                    if old(self).plain_shape() {
                        lemma_entries_model(old_root, old_root.len());
                        lemma_entries_model(self.root.items_view(), self.root.items_view().len());
                        if old(self).current_is_array {
                            let items = self.root.items_view();
                            assert(find_key_from(entries_model(old_root, old_root.len()), key_view.value(), 0)
                                == Some(old_root.len() - 1));
                            lemma_push_array_text(old_root, items, old_cur);
                            lemma_find_same_keys(
                                entries_model(old_root, old_root.len()),
                                entries_model(items, items.len()),
                                key_view.value(),
                                0,
                            );
                            assert forall|j: int| 0 <= j < items.len() implies match #[trigger] items[j].value_view() {
                                Item::Empty => false,
                                Item::Table(t) => !t.implicit_view(),
                                _ => true,
                            } by {
                                if j < items.len() - 1 {
                                    assert(items[j] == old_root[j]);
                                }
                            }
                        } else {
                            lemma_shape_lookup(old_root, key_view.value());
                            lemma_put_table_text(
                                old_root,
                                self.root.items_view(),
                                key_view,
                                old_cur,
                            );
                        }
                        let items = self.root.items_view();
                        assert forall|v: Seq<char>| #[trigger] old(self).fresh_key(v) implies self.fresh_key(v) by {
                            assert forall|j: int| 0 <= j < items.len() && (items[j].value_view() is Table
                                || items[j].value_view() is ArrayOfTables) implies #[trigger] items[j].key_view().value() != v by {
                                if j < old_root.len() && (!old(self).current_is_array || j < old_root.len() - 1) {
                                    assert(items[j] == old_root[j]);
                                }
                            }
                        }
                    }
                }
                Ok(())
            },
            Err(d) => Err(duplicate_key(&path, d)),
        }
    }

    /// Starts the table of the header `[path]`, taking over the implicit
    /// table of that path when there is one.
    pub fn start_table(&mut self, path: Vec<Key>, decor: Decor) -> (r: Result<(), CustomError>)
        requires
            path@.len() > 0,
        ensures
            match start_table_spec(old(self).model(), key_values(path@)) {
                Some(st) => r is Ok && final(self).model() == st,
                None => r is Err,
            },
            old(self).root_shape() && old(self).header_path_len() == 0 && old(self).current_len() == 0
                && path@.len() == 1 && r is Ok
                ==> final(self).plain_shape() && final(self).shown_body() == old(self).root_text()
                + decor.around(
                seq!['['] + path@[0].repr_view()@ + seq![']'],
                (Seq::<char>::empty(), Seq::<char>::empty()),
            ) + seq!['\n'] && final(self).trailing_text() == old(self).trailing_text(),
            old(self).root_shape() && old(self).header_path_len() == 0 && path@.len() == 1 && r is Ok
                ==> forall|v: Seq<char>|
                #![trigger final(self).fresh_key(v)]
                old(self).fresh_key(v) && v != path@[0].value() ==> final(self).fresh_key(v),
    {
        let ghost old_root = self.root.items_view();
        let n = path.len();
        let parent = prefix_keys(&path, n - 1);
        proof {
            assert(key_values(parent@).skip(0) =~= key_values(path@).drop_last());
        }
        let ghost last_key = path@[n - 1];
        match descend_path(&mut self.root, &parent, 0, false, TableEdit::TakeTable(path[n - 1].duplicate())) {
            Ok(taken) => {
                proof {
                    if old(self).root_shape() && n == 1 {
                        lemma_shape_lookup(old_root, last_key.value());
                    }
                }
                match taken {
                    Some(t) => {
                        self.current_table = t;
                    },
                    None => {},
                }
                self.current_table_position = self.current_table_position.wrapping_add(1);
                self.current_table.set_header_decor(decor);
                self.current_table.set_implicit(false);
                self.current_table.set_dotted(false);
                self.current_table.set_position(self.current_table_position);
                self.current_is_array = false;
                self.current_table_path = path;
                proof {
                    if old(self).root_shape() && old(self).current_table_path@.len() == 0
                        && old(self).current_table.items_view().len() == 0 && n == 1 {
                        assert(path_text(seq![path@[0].repr_view()@]) == path@[0].repr_view()@);
                        assert(self.current_table.items_view().len() == 0);
                        assert(body_text(self.current_table.items_view(), 0) == Seq::<char>::empty());
                    }
                }
                Ok(())
            },
            Err(d) => Err(duplicate_key(&path, d)),
        }
    }

    /// Starts the table of the header `[[path]]`.
    pub fn start_aray_table(&mut self, path: Vec<Key>, decor: Decor) -> (r: Result<(), CustomError>)
        requires
            path@.len() > 0,
        ensures
            match start_array_spec(old(self).model(), key_values(path@)) {
                Some(st) => r is Ok && final(self).model() == st,
                None => r is Err,
            },
            old(self).root_shape() && old(self).header_path_len() == 0 && old(self).current_len() == 0
                && path@.len() == 1 && r is Ok ==> final(self).shown_body() == old(self).root_text()
                + decor.around(
                seq!['[', '['] + path@[0].repr_view()@ + seq![']', ']'],
                (Seq::<char>::empty(), Seq::<char>::empty()),
            ) + seq!['\n'] && final(self).trailing_text() == old(self).trailing_text()
                && final(self).continues_array(path@[0].value(), path@[0].repr_view()@) && (forall|
                v: Seq<char>,
            |
                #![trigger final(self).fresh_key(v)]
                old(self).fresh_key(v) && v != path@[0].value() ==> final(self).fresh_key(v)) && ((
            old(self).fresh_key(path@[0].value()) || old(self).root_ends_with_array(
                path@[0].value(),
                path@[0].repr_view()@,
            )) ==> final(self).plain_shape()),
    {
        let ghost old_root = self.root.items_view();
        let n = path.len();
        let parent = prefix_keys(&path, n - 1);
        proof {
            assert(key_values(parent@).skip(0) =~= key_values(path@).drop_last());
        }
        let ghost last_key = path@[n - 1];
        match descend_path(&mut self.root, &parent, 0, false, TableEdit::OpenArray(path[n - 1].duplicate())) {
            Ok(_) => {
                proof {
                    if old(self).root_shape() && n == 1 {
                        let e = entries_model(old_root, old_root.len());
                        lemma_entries_model(old_root, old_root.len());
                        lemma_find_key_from(e, last_key.value(), 0);
                        let items = self.root.items_view();
                        lemma_entries_model(items, items.len());
                        if find_key_from(e, last_key.value(), 0) is None {
                            assert(items =~= old_root.push(items.last()));
                            lemma_text_push(old_root, items.last(), Seq::empty());
                            assert(entries_model(items, items.len()) =~= e.push(
                                (last_key.value(), item_model(items.last().value_view())),
                            ));
                            lemma_find_pushed(e, last_key.value(), item_model(items.last().value_view()));
                            assert forall|j: int| 0 <= j < items.len() implies match #[trigger] items[j].value_view() {
                                Item::Empty => false,
                                Item::Table(t) => !t.implicit_view(),
                                _ => true,
                            } by {
                                if j < old_root.len() {
                                    assert(items[j] == old_root[j]);
                                }
                            }
                        } else {
                            let j = find_key_from(e, last_key.value(), 0)->0;
                            assert(e[j].1 == item_model(old_root[j].value_view()));
                        }
                    }
                }
                self.current_table_position = self.current_table_position.wrapping_add(1);
                self.current_table.set_header_decor(decor);
                self.current_table.set_implicit(false);
                self.current_table.set_dotted(false);
                self.current_table.set_position(self.current_table_position);
                self.current_is_array = true;
                self.current_table_path = path;
                proof {
                    if old(self).root_shape() && old(self).current_table_path@.len() == 0
                        && old(self).current_table.items_view().len() == 0 && n == 1 {
                        assert(path_text(seq![path@[0].repr_view()@]) == path@[0].repr_view()@);
                        assert(body_text(self.current_table.items_view(), 0) == Seq::<char>::empty());
                        let items = self.root.items_view();
                        assert forall|v: Seq<char>| #[trigger] old(self).fresh_key(v) && v != path@[0].value()
                            implies self.fresh_key(v) by {
                            assert forall|j: int| 0 <= j < items.len() && (items[j].value_view() is Table
                                || items[j].value_view() is ArrayOfTables) implies #[trigger] items[j].key_view().value() != v by {
                                if j < old_root.len() {
                                    assert(items[j] == old_root[j]);
                                }
                            }
                        }
                    }
                }
                Ok(())
            },
            Err(d) => Err(duplicate_key(&path, d)),
        }
    }

    /// The header `[path]`, with `trailing` after it on its line.
    pub fn on_std_header(&mut self, path: Vec<Key>, trailing: &str) -> (r: Result<(), CustomError>)
        requires
            path@.len() > 0,
        ensures
            match finalize_spec(old(self).model()) {
                Some(st) => match start_table_spec(st, key_values(path@)) {
                    Some(st2) => r is Ok && final(self).model() == st2,
                    None => r is Err,
                },
                None => r is Err,
            },
            old(self).plain_shape() && path@.len() == 1 && r is Ok ==> final(self).plain_shape()
                && final(self).shown_body() == old(self).shown_body() + old(self).trailing_text()
                + seq!['['] + path@[0].repr_view()@ + seq![']'] + trailing@ + seq!['\n']
                && final(self).trailing_text() == Seq::<char>::empty() && (forall|v: Seq<char>|
                #![trigger final(self).fresh_key(v)]
                old(self).fresh_key(v) && v != path@[0].value() ==> final(self).fresh_key(v)),
    {
        match self.finalize_table() {
            Ok(()) => {},
            Err(e) => {
                return Err(e);
            },
        }
        let ghost mid = *self;
        let mut leading = String::new();
        std::mem::swap(&mut leading, &mut self.trailing);
        let ghost v0 = path@[0].value();
        let r = self.start_table(path, Decor::from_strings(leading, trailing.to_owned()));
        proof {
            if old(self).plain_shape() && path@.len() == 1 && r is Ok {
                assert forall|v: Seq<char>| old(self).fresh_key(v) && v != v0 implies #[trigger] self.fresh_key(v) by {
                    assert(mid.fresh_key(v));
                }
            }
        }
        r
    }

    /// The header `[[path]]`, with `trailing` after it on its line.
    pub fn on_array_header(&mut self, path: Vec<Key>, trailing: &str) -> (r: Result<(), CustomError>)
        requires
            path@.len() > 0,
        ensures
            match finalize_spec(old(self).model()) {
                Some(st) => match start_array_spec(st, key_values(path@)) {
                    Some(st2) => r is Ok && final(self).model() == st2,
                    None => r is Err,
                },
                None => r is Err,
            },
            old(self).plain_shape() && path@.len() == 1 && r is Ok && (old(self).fresh_key(
                path@[0].value(),
            ) || old(self).continues_array(path@[0].value(), path@[0].repr_view()@))
                ==> final(self).plain_shape() && final(self).shown_body() == old(self).shown_body()
                + old(self).trailing_text() + seq!['[', '['] + path@[0].repr_view()@ + seq![']', ']']
                + trailing@ + seq!['\n'] && final(self).trailing_text() == Seq::<char>::empty()
                && final(self).continues_array(path@[0].value(), path@[0].repr_view()@) && (forall|
                v: Seq<char>,
            |
                #![trigger final(self).fresh_key(v)]
                old(self).fresh_key(v) && v != path@[0].value() ==> final(self).fresh_key(v)),
    {
        match self.finalize_table() {
            Ok(()) => {},
            Err(e) => {
                return Err(e);
            },
        }
        let ghost mid = *self;
        let mut leading = String::new();
        std::mem::swap(&mut leading, &mut self.trailing);
        let ghost v0 = path@[0].value();
        let ghost r0 = path@[0].repr_view()@;
        proof {
            if old(self).plain_shape() && path@.len() == 1 {
                if old(self).fresh_key(v0) {
                    assert(mid.fresh_key(v0));
                }
                if old(self).continues_array(v0, r0) {
                    assert(mid.root_ends_with_array(v0, r0));
                }
            }
        }
        let r = self.start_aray_table(path, Decor::from_strings(leading, trailing.to_owned()));
        proof {
            if old(self).plain_shape() && path@.len() == 1 && r is Ok {
                assert forall|v: Seq<char>| old(self).fresh_key(v) && v != v0 implies #[trigger] self.fresh_key(v) by {
                    assert(mid.fresh_key(v));
                }
            }
        }
        r
    }
}

/// One line more: the tables the rest builds from the state after it.
proof fn lemma_finish_step(s: Seq<char>, st: ParserState, i: int, e: int, stmt: Stmt)
    requires
        stmt_at(s, i) == Some((e, stmt)),
        0 <= i < e <= s.len(),
    ensures
        finish_from(s, st, i) == match step_spec(st, stmt) {
            Some(st2) => finish_from(s, st2, ws_end(s, e)),
            None => None,
        },
{
    if let Some(rest) = stmts_at(s, ws_end(s, e)) {
        let all = seq![stmt] + rest;
        assert(all[0] == stmt);
        assert(all.drop_first() =~= rest);
    }
}

/// A plain line, in order, finds the parser ready for it, and the rest of
/// the document plain after it.
proof fn lemma_plain_before(p: TomlParser, st: Statement, ps: PlainState, s: Seq<char>, i: int, e: int)
    requires
        plain_from(s, i, ps),
        0 <= i < s.len(),
        stmt_at(s, i) == Some((e, statement_model(st))),
        i < e <= s.len(),
        statement_keys_ok(st),
        forall|v: Seq<char>| #![trigger p.fresh_key(v)] !ps.seen.contains(v) ==> p.fresh_key(v),
        ps.last_array matches Some((v, w)) ==> p.continues_array(v, w),
        st matches Statement::ArrayHeader(ks, t) ==> (plain_array_header_at(s, i) ==> ks@.len() == 1
            && ks@[0].repr_view()@ == header_key_text(s, i + 2)),
    ensures
        plain_stmt(s, i, statement_model(st)),
        stmt_ready(p, st),
        plain_from(s, ws_end(s, e), plain_next(s, i, statement_model(st), ps)),
        st matches Statement::ArrayHeader(ks, t) ==> ks@[0].repr_view()@ == header_key_text(s, i + 2),
{
    lemma_ws_end_bounds(s, e);
    assert(in_order(s, i, statement_model(st), ps));
    if let Statement::ArrayHeader(ks, t) = st {
        assert(key_values(ks@)[0] == ks@[0].value());
        let v = ks@[0].value();
        if !ps.seen.contains(v) {
            assert(p.fresh_key(v));
        }
    }
}

/// Keeping the whitespace after a line changes only what is kept.
proof fn lemma_after_ws(
    p0: TomlParser,
    p1: TomlParser,
    q: TomlParser,
    next: PlainState,
    s: Seq<char>,
    i: int,
    e: int,
    w: int,
    t: Seq<char>,
)
    requires
        0 <= i <= e <= w <= s.len(),
        t == s.subrange(e, w),
        p1.plain_shape(),
        p1.shown_body() + p1.trailing_text() == p0.shown_body() + p0.trailing_text() + s.subrange(i, e),
        forall|v: Seq<char>| #![trigger p1.fresh_key(v)] !next.seen.contains(v) ==> p1.fresh_key(v),
        next.last_array matches Some((v, x)) ==> p1.continues_array(v, x),
        q.frame() == p1.frame(),
        q.plain_shape() == p1.plain_shape(),
        q.shown_body() == p1.shown_body(),
        q.trailing_text() == p1.trailing_text() + t,
    ensures
        q.plain_shape(),
        q.shown_body() + q.trailing_text() == p0.shown_body() + p0.trailing_text() + s.subrange(i, w),
        forall|v: Seq<char>| #![trigger q.fresh_key(v)] !next.seen.contains(v) ==> q.fresh_key(v),
        next.last_array matches Some((v, x)) ==> q.continues_array(v, x),
{
    assert(s.subrange(i, w) =~= s.subrange(i, e) + s.subrange(e, w));
    assert(q.shown_body() + q.trailing_text() =~= (p1.shown_body() + p1.trailing_text()) + t);
    assert(p0.shown_body() + p0.trailing_text() + s.subrange(i, w) =~= (p0.shown_body()
        + p0.trailing_text() + s.subrange(i, e)) + s.subrange(e, w));
    assert forall|v: Seq<char>| !next.seen.contains(v) implies #[trigger] q.fresh_key(v) by {
        assert(p1.fresh_key(v));
    }
}

/// What the parser knows of the headers seen carries over a line.
proof fn lemma_plain_step(
    p: TomlParser,
    q: TomlParser,
    st: Statement,
    ps: PlainState,
    next: PlainState,
    s: Seq<char>,
    i: int,
)
    requires
        stmt_after(p, q, st),
        forall|v: Seq<char>| #![trigger p.fresh_key(v)] !ps.seen.contains(v) ==> p.fresh_key(v),
        ps.last_array matches Some((v, w)) ==> p.continues_array(v, w),
        statement_keys_ok(st),
        next == plain_next(s, i, statement_model(st), ps),
        st matches Statement::ArrayHeader(ks, t) ==> ks@[0].repr_view()@ == header_key_text(s, i + 2),
    ensures
        forall|v: Seq<char>| #![trigger q.fresh_key(v)] !next.seen.contains(v) ==> q.fresh_key(v),
        next.last_array matches Some((v, w)) ==> q.continues_array(v, w),
{
    match st {
        Statement::Blank => {
            assert forall|v: Seq<char>| !next.seen.contains(v) implies #[trigger] q.fresh_key(v) by {
                assert(p.fresh_key(v));
            }
        },
        Statement::KeyVal(_, _) => {
            assert forall|v: Seq<char>| !next.seen.contains(v) implies #[trigger] q.fresh_key(v) by {
                assert(p.fresh_key(v));
            }
        },
        Statement::StdHeader(ks, _) => {
            assert(key_values(ks@)[0] == ks@[0].value());
            assert forall|v: Seq<char>| !next.seen.contains(v) implies #[trigger] q.fresh_key(v) by {
                assert(!ps.seen.contains(v));
                assert(p.fresh_key(v));
            }
        },
        Statement::ArrayHeader(ks, _) => {
            assert(key_values(ks@)[0] == ks@[0].value());
            assert forall|v: Seq<char>| !next.seen.contains(v) implies #[trigger] q.fresh_key(v) by {
                assert(!ps.seen.contains(v));
                assert(p.fresh_key(v));
            }
        },
    }
}

/// The parser is ready for the line `st`: the key of a `[[key]]` header is
/// new, or that of the array of tables of the last header, written the
/// same way.
pub open spec fn stmt_ready(p: TomlParser, st: Statement) -> bool {
    match st {
        Statement::ArrayHeader(ks, _) => p.fresh_key(ks@[0].value()) || p.continues_array(
            ks@[0].value(),
            ks@[0].repr_view()@,
        ),
        _ => true,
    }
}

/// What the line `st` leaves of the root table and the last header: the
/// same, after a comment, a blank line or a key/value pair; after a header,
/// every key that was new but its own is still new, and after a `[[key]]`
/// header the parser is in its array of tables.
pub open spec fn stmt_after(p: TomlParser, q: TomlParser, st: Statement) -> bool {
    match st {
        Statement::Blank => q.frame() == p.frame(),
        Statement::KeyVal(_, _) => q.frame() == p.frame(),
        Statement::StdHeader(ks, _) => forall|v: Seq<char>|
            #![trigger q.fresh_key(v)]
            p.fresh_key(v) && v != ks@[0].value() ==> q.fresh_key(v),
        Statement::ArrayHeader(ks, _) => (forall|v: Seq<char>|
            #![trigger q.fresh_key(v)]
            p.fresh_key(v) && v != ks@[0].value() ==> q.fresh_key(v)) && q.continues_array(
            ks@[0].value(),
            ks@[0].repr_view()@,
        ),
    }
}

impl TomlParser {
    /// Builds what the line `st`, which stands from `i` to `e`, holds.
    #[verifier::spinoff_prover]
    #[verifier::rlimit(60)]
    fn apply_statement(&mut self, cs: &[char], i: usize, e: usize, st: Statement) -> (r: Result<
        (),
        CustomError,
    >)
        requires
            i < e <= cs@.len(),
            stmt_at(cs@, i as int) == Some((e as int, statement_model(st))),
            statement_keys_ok(st),
            st matches Statement::KeyVal(ks, v) ==> (plain_keyval_at(cs@, i as int) ==> ks@.len()
                == 1 && keys_decorated(ks@) && key_text(ks@[0]) + seq!['='] + value_text(v) + seq![
                '\n'
            ] == cs@.subrange(i as int, e as int)),
            st matches Statement::StdHeader(ks, t) ==> (plain_header_at(cs@, i as int)
                ==> ks@.len() == 1 && seq!['['] + ks@[0].repr_view()@ + seq![']'] + t@ + seq!['\n']
                == cs@.subrange(i as int, e as int)),
            st matches Statement::ArrayHeader(ks, t) ==> (plain_array_header_at(cs@, i as int)
                ==> ks@.len() == 1 && seq!['[', '['] + ks@[0].repr_view()@ + seq![']', ']'] + t@
                + seq!['\n'] == cs@.subrange(i as int, e as int)),
        ensures
            match step_spec(old(self).model(), statement_model(st)) {
                Some(st2) => r is Ok && final(self).model() == st2,
                None => r is Err,
            },
            old(self).plain_shape() && plain_stmt(cs@, i as int, statement_model(st)) && stmt_ready(
                *old(self),
                st,
            ) && r is Ok ==> final(self).plain_shape() && final(self).shown_body()
                + final(self).trailing_text() == old(self).shown_body() + old(self).trailing_text()
                + cs@.subrange(i as int, e as int),
            old(self).plain_shape() && plain_stmt(cs@, i as int, statement_model(st)) && stmt_ready(
                *old(self),
                st,
            ) && r is Ok ==> stmt_after(*old(self), *final(self), st),
    {
        match st {
            Statement::Blank => {
                let t = slice_string(cs, i, e);
                self.on_ws(t.as_str());
                Ok(())
            },
            Statement::KeyVal(ks, v) => {
                let ghost all = ks@;
                let ghost m = value_model(v);
                let ghost vv = v;
                let mut path = ks;
                let last = path.pop().unwrap();
                proof {
                    assert(path@ =~= all.drop_last());
                    assert(key_values(path@) =~= key_values(all).drop_last());
                    if plain_keyval_at(cs@, i as int) {
                        assert(all.len() == 1);
                        assert(last == all[0]);
                    }
                }
                let kv = TableKeyValue::new(last, Item::Value(v));
                proof {
                    assert(item_model(kv.value_view()) == TomlItem::Value(m));
                    assert(kv.value_view() == Item::Value(vv));
                }
                self.on_keyval(path, kv)
            },
            Statement::StdHeader(ks, t) => self.on_std_header(ks, t.as_str()),
            Statement::ArrayHeader(ks, t) => self.on_array_header(ks, t.as_str()),
        }
    }

    /// Builds what the line `st` from `i` to `e` holds, and keeps the
    /// whitespace after it; gives where that whitespace ends, or the error
    /// the line gives.
    #[verifier::spinoff_prover]
    #[verifier::rlimit(60)]
    fn parse_line(&mut self, cs: &Vec<char>, i: usize, e: usize, st: Statement, Ghost(ps): Ghost<PlainState>) -> (r: Result<usize, TomlError>)
        requires
            i < e <= cs@.len(),
            stmt_at(cs@, i as int) == Some((e as int, statement_model(st))),
            statement_keys_ok(st),
            st matches Statement::KeyVal(ks, v) ==> (plain_keyval_at(cs@, i as int) ==> ks@.len()
                == 1 && keys_decorated(ks@) && key_text(ks@[0]) + seq!['='] + value_text(v) + seq![
                '\n'
            ] == cs@.subrange(i as int, e as int)),
            st matches Statement::StdHeader(ks, t) ==> (plain_header_at(cs@, i as int)
                ==> ks@.len() == 1 && seq!['['] + ks@[0].repr_view()@ + seq![']'] + t@ + seq!['\n']
                == cs@.subrange(i as int, e as int)),
            st matches Statement::ArrayHeader(ks, t) ==> (plain_array_header_at(cs@, i as int)
                ==> ks@.len() == 1 && ks@[0].repr_view()@ == header_key_text(cs@, i + 2) && seq![
                '[',
                '[',
            ] + ks@[0].repr_view()@ + seq![']', ']'] + t@ + seq!['\n'] == cs@.subrange(
                i as int,
                e as int,
            )),
        ensures
            match step_spec(old(self).model(), statement_model(st)) {
                Some(st2) => r matches Ok(w) && w == ws_end(cs@, e as int) && e <= w <= cs@.len()
                    && final(self).model() == st2,
                None => r is Err,
            },
            old(self).plain_shape() && plain_from(cs@, i as int, ps) && (forall|v: Seq<char>|
                #![trigger old(self).fresh_key(v)]
                !ps.seen.contains(v) ==> old(self).fresh_key(v)) && (ps.last_array matches Some((v, w))
                ==> old(self).continues_array(v, w)) && r is Ok ==> ({
                let next = plain_next(cs@, i as int, statement_model(st), ps);
                let w = r->Ok_0;
                &&& plain_from(cs@, w as int, next)
                &&& final(self).plain_shape()
                &&& final(self).shown_body() + final(self).trailing_text() == old(self).shown_body()
                    + old(self).trailing_text() + cs@.subrange(i as int, w as int)
                &&& forall|v: Seq<char>|
                    #![trigger final(self).fresh_key(v)]
                    !next.seen.contains(v) ==> final(self).fresh_key(v)
                &&& next.last_array matches Some((v, w)) ==> final(self).continues_array(v, w)
            }),
    {
        let ghost plain_here = old(self).plain_shape() && plain_from(cs@, i as int, ps) && (forall|
            v: Seq<char>,
        |
            #![trigger old(self).fresh_key(v)]
            !ps.seen.contains(v) ==> old(self).fresh_key(v)) && (ps.last_array matches Some((v, w))
            ==> old(self).continues_array(v, w));
        let ghost next = plain_next(cs@, i as int, statement_model(st), ps);
        let ghost p0 = *self;
        let ghost st0 = st;
        proof {
            if plain_here {
                lemma_plain_before(p0, st0, ps, cs@, i as int, e as int);
            }
        }
        let done = self.apply_statement(cs.as_slice(), i, e, st);
        match done {
            Ok(()) => {},
            Err(err) => {
                let msg = err.to_message();
                return Err(TomlError::new(cs.as_slice(), i, msg.as_str()));
            },
        }
        let w = ws(cs.as_slice(), e);
        let t = slice_string(cs.as_slice(), e, w);
        let ghost p1 = *self;
        self.on_ws(t.as_str());
        proof {
            if plain_here {
                lemma_plain_step(p0, p1, st0, ps, next, cs@, i as int);
                lemma_after_ws(p0, p1, *self, next, cs@, i as int, e as int, w as int, t@);
            }
        }
        Ok(w)
    }

    /// Parses a document.
    #[verifier::spinoff_prover]
    #[verifier::rlimit(100)]
    pub fn parse(s: &str) -> (r: Result<Document, TomlError>)
        ensures
            r is Ok <==> document_model(s@) is Some,
            r matches Ok(d) ==> document_model(s@) == Some(table_model(d.root_view())),
            r matches Ok(d) ==> (plain_document(s@) ==> document_text(d) == s@),
    {
        let cs = chars_of(s);
        let mut p = TomlParser::new();
        let w = ws(&cs, 0);
        let lead = slice_string(&cs, 0, w);
        p.on_ws(lead.as_str());
        let mut i = w;
        let ghost mut ps = PlainState { seen: Set::empty(), last_array: None };
        loop
            invariant
                cs@ == s@,
                i <= cs@.len(),
                document_model(s@) == finish_from(s@, p.model(), i as int),
                plain_document(s@) ==> plain_from(s@, i as int, ps) && p.plain_shape()
                    && p.shown_body() + p.trailing_text() == s@.subrange(0, i as int) && (forall|
                    v: Seq<char>,
                |
                    #![trigger p.fresh_key(v)]
                    !ps.seen.contains(v) ==> p.fresh_key(v)) && (ps.last_array matches Some((v, w))
                    ==> p.continues_array(v, w)),
            ensures
                i >= cs@.len(),
                document_model(s@) == finish_from(s@, p.model(), i as int),
                plain_document(s@) ==> p.plain_shape() && p.shown_body() + p.trailing_text()
                    == s@.subrange(0, i as int),
            decreases cs@.len() - i,
        {
            if i >= cs.len() {
                break ;
            }
            match statement(&cs, i) {
                None => {
                    let msg = CustomError::UnparsedLine.to_message();
                    return Err(TomlError::new(&cs, i, msg.as_str()));
                },
                Some((e, st)) => {
                    proof {
                        lemma_finish_step(s@, p.model(), i as int, e as int, statement_model(st));
                    }
                    let ghost next = plain_next(s@, i as int, statement_model(st), ps);
                    match p.parse_line(&cs, i, e, st, Ghost(ps)) {
                        Ok(w) => {
                            proof {
                                ps = next;
                            }
                            i = w;
                        },
                        Err(err) => {
                            return Err(err);
                        },
                    }
                },
            }
        }
        proof {
            assert(stmts_at(s@, i as int) == Some(Seq::<Stmt>::empty()));
        }
        match p.finalize_table() {
            Ok(()) => {
                let ghost root = p.root;
                let d = Document::from_parts(p.root, p.trailing);
                proof {
                    if plain_document(s@) {
                        assert(s@.subrange(0, i as int) =~= s@);
                        assert(header_text(root, Seq::empty(), false) == Seq::<char>::empty());
                        assert(document_text(d) == p.root_text() + p.trailing_text());
                    }
                }
                Ok(d)
            },
            Err(err) => Err(TomlError::custom(err.to_message())),
        }
    }
}

} // verus!
