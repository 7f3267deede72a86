//! Values: strings, booleans, arrays, inline tables, date-times, floats and
//! integers.

use vstd::prelude::*;

use crate::key::Key;
use crate::parser::datetime::{date_time, date_time_at};
use crate::parser::key::{dotted_key_at, key, key_text, key_values, keys_decorated, keys_text};
use crate::parser::numbers::{boolean, boolean_at, float, float_at, integer, integer_at};
use crate::parser::strings::{string, string_at};
use crate::parser::trivia::{
    lemma_ws_comment_newline_end_bounds,
    lemma_ws_end_bounds,
    lemma_ws_end_idempotent,
    ws,
    ws_comment_newline,
    ws_comment_newline_end,
    ws_end,
};
use crate::text::slice_string;
use crate::value::{
    entries_model,
    inline_item_text,
    inline_items_text,
    is_scalar,
    item_model,
    lemma_entries_model,
    lemma_entries_push,
    lemma_values_model,
    lemma_values_push,
    value_decor,
    value_model,
    value_repr_text,
    value_text,
    values_model,
    values_text,
    Array,
    Float,
    Formatted,
    InlineTable,
    Item,
    TableKeyValue,
    TomlItem,
    TomlValue,
    Value,
};

verus! {

/// Which of the seven types a value has.
pub open spec fn kind(v: TomlValue) -> int {
    match v {
        TomlValue::String(_) => 0,
        TomlValue::Integer(_) => 1,
        TomlValue::Float(_) => 2,
        TomlValue::Boolean(_) => 3,
        TomlValue::Datetime(_) => 4,
        TomlValue::Array(_) => 5,
        TomlValue::InlineTable(_) => 6,
    }
}

/// All the values have the type of the first.
pub open spec fn homogeneous(vs: Seq<TomlValue>) -> bool {
    forall|j: int| 0 <= j < vs.len() ==> kind(#[trigger] vs[j]) == kind(vs[0])
}

/// The position of the first entry with key `k`, looking from `j` on.
pub open spec fn find_key_from(entries: Seq<(Seq<char>, TomlItem)>, k: Seq<char>, j: int) -> Option<
    int,
>
    decreases entries.len() - j,
{
    if 0 <= j < entries.len() {
        if entries[j].0 == k {
            Some(j)
        } else {
            find_key_from(entries, k, j + 1)
        }
    } else {
        None
    }
}

/// The entries of an inline table after `key = v` is added under the tables
/// named by `path`, which are made, implicitly, where missing. `None` where
/// the key is there already or a part of the path names something other
/// than an inline table.
pub open spec fn insert_dotted(
    entries: Seq<(Seq<char>, TomlItem)>,
    path: Seq<Seq<char>>,
    key: Seq<char>,
    v: TomlValue,
) -> Option<Seq<(Seq<char>, TomlItem)>>
    decreases path.len(),
{
    if path.len() == 0 {
        if find_key_from(entries, key, 0) is Some {
            None
        } else {
            Some(entries.push((key, TomlItem::Value(v))))
        }
    } else {
        match find_key_from(entries, path[0], 0) {
            None => match insert_dotted(Seq::empty(), path.drop_first(), key, v) {
                Some(sub) => Some(
                    entries.push((path[0], TomlItem::Value(TomlValue::InlineTable(sub)))),
                ),
                None => None,
            },
            Some(j) => match entries[j].1 {
                TomlItem::Value(TomlValue::InlineTable(sub)) => match insert_dotted(
                    sub,
                    path.drop_first(),
                    key,
                    v,
                ) {
                    Some(sub2) => Some(
                        entries.update(j, (path[0], TomlItem::Value(TomlValue::InlineTable(sub2)))),
                    ),
                    None => None,
                },
                _ => None,
            },
        }
    }
}

/// The entries of an inline table holding the first `n` of the given
/// key/value pairs, each key given by its parts.
pub open spec fn table_from_pairs(kvs: Seq<(Seq<Seq<char>>, TomlValue)>, n: nat) -> Option<
    Seq<(Seq<char>, TomlItem)>,
>
    decreases n,
{
    if n == 0 || n > kvs.len() {
        Some(Seq::empty())
    } else {
        match table_from_pairs(kvs, (n - 1) as nat) {
            Some(t) => insert_dotted(t, kvs[n - 1].0.drop_last(), kvs[n - 1].0.last(), kvs[n - 1].1),
            None => None,
        }
    }
}

/// The values of an array, its trailing comma and whether an inline table in
/// it uses a dotted key, with `vs` and `d` put in front.
pub open spec fn prepend_values(
    vs: Seq<TomlValue>,
    d: bool,
    r: Option<(int, Seq<TomlValue>, bool, bool)>,
) -> Option<(int, Seq<TomlValue>, bool, bool)> {
    match r {
        Some((e, ws, c, d2)) => Some((e, vs + ws, c, d || d2)),
        None => None,
    }
}

/// The key/value pairs of an inline table and whether any of them uses a
/// dotted key, with `kvs` and `d` put in front.
pub open spec fn prepend_pairs(
    kvs: Seq<(Seq<Seq<char>>, TomlValue)>,
    d: bool,
    r: Option<(int, Seq<(Seq<Seq<char>>, TomlValue)>, bool)>,
) -> Option<(int, Seq<(Seq<Seq<char>>, TomlValue)>, bool)> {
    match r {
        Some((e, ps, d2)) => Some((e, kvs + ps, d || d2)),
        None => None,
    }
}

// val = string / boolean / array / inline-table / date-time / float / integer
/// A string, boolean, date-time, float or integer starting at `i`, tried in
/// that order: where it ends and what it means.
#[verifier::opaque]
pub open spec fn scalar_at(s: Seq<char>, i: int) -> Option<(int, TomlValue)> {
    match string_at(s, i) {
        Some((e, t)) => Some((e, TomlValue::String(t))),
        None => match boolean_at(s, i) {
            Some((e, b)) => Some((e, TomlValue::Boolean(b))),
            None => match date_time_at(s, i) {
                Some((e, dt)) => Some((e, TomlValue::Datetime(dt))),
                None => match float_at(s, i) {
                    Some((e, t)) => Some((e, TomlValue::Float(t))),
                    None => match integer_at(s, i) {
                        Some((e, n)) => Some((e, TomlValue::Integer(n))),
                        None => None,
                    },
                },
            },
        },
    }
}

/// A value starting at `i`: where it ends, what it means, and whether an
/// inline table in it uses a dotted key. An array starts with `[` and an
/// inline table with `{`, which no other kind of value starts with, so they
/// are tried first.
pub open spec fn value_at(s: Seq<char>, i: int) -> Option<(int, TomlValue, bool)>
    decreases s.len() - i, 3nat,
{
    if 0 <= i < s.len() && s[i] == '[' {
        match array_at(s, i) {
            Some((e, vs, _, d)) => if homogeneous(vs) {
                Some((e, TomlValue::Array(vs), d))
            } else {
                None
            },
            None => None,
        }
    } else if 0 <= i < s.len() && s[i] == '{' {
        match inline_table_at(s, i) {
            Some((e, t, d)) => Some((e, TomlValue::InlineTable(t), d)),
            None => None,
        }
    } else {
        match scalar_at(s, i) {
            Some((e, v)) => Some((e, v, false)),
            None => None,
        }
    }
}

// array = array-open [ array-values ] ws-comment-newline array-close
// array-values = ws-comment-newline val ws-comment-newline array-sep array-values
// array-values =/ ws-comment-newline val ws-comment-newline [ array-sep ]
/// An array starting at `i` (on its `[`): where it ends, its values, whether
/// a comma follows the last of them, and whether an inline table in it uses
/// a dotted key.
pub open spec fn array_at(s: Seq<char>, i: int) -> Option<(int, Seq<TomlValue>, bool, bool)>
    decreases s.len() - i, 1nat,
{
    if 0 <= i < s.len() {
        let w = ws_comment_newline_end(s, i + 1);
        proof {
            lemma_ws_comment_newline_end_bounds(s, i + 1);
        }
        match value_at(s, w) {
            Some((ve, v, d)) => if w < ve <= s.len() {
                let j = ws_comment_newline_end(s, ve);
                proof {
                    lemma_ws_comment_newline_end_bounds(s, ve);
                }
                prepend_values(seq![v], d, array_tail_at(s, j))
            } else {
                None
            },
            None => if w < s.len() && s[w] == ']' {
                Some((w + 1, Seq::empty(), false, false))
            } else {
                None
            },
        }
    } else {
        None
    }
}

/// The rest of an array after a value and the whitespace after it, from `j`.
pub open spec fn array_tail_at(s: Seq<char>, j: int) -> Option<(int, Seq<TomlValue>, bool, bool)>
    decreases s.len() - j, 0nat,
{
    if 0 <= j < s.len() && s[j] == ',' {
        let w = ws_comment_newline_end(s, j + 1);
        proof {
            lemma_ws_comment_newline_end_bounds(s, j + 1);
        }
        match value_at(s, w) {
            Some((ve, v, d)) => if w < ve <= s.len() {
                let k = ws_comment_newline_end(s, ve);
                proof {
                    lemma_ws_comment_newline_end_bounds(s, ve);
                }
                prepend_values(seq![v], d, array_tail_at(s, k))
            } else {
                None
            },
            None => if w < s.len() && s[w] == ']' {
                Some((w + 1, Seq::empty(), true, false))
            } else {
                None
            },
        }
    } else if 0 <= j < s.len() && s[j] == ']' {
        Some((j + 1, Seq::empty(), false, false))
    } else {
        None
    }
}

// keyval = key keyval-sep val
// keyval-sep = ws %x3D ws ; =
/// A key/value pair of an inline table starting at `p`: where it ends (after
/// the spaces that follow the value), the parts of the key, the value, and
/// whether the key or an inline table in the value is dotted.
pub open spec fn keyval_at(s: Seq<char>, p: int) -> Option<(int, Seq<Seq<char>>, TomlValue, bool)>
    decreases s.len() - p, 1nat,
{
    match dotted_key_at(s, p) {
        Some((ke, ks)) => if 0 <= p <= ke < s.len() && s[ke] == '=' {
            let a = ws_end(s, ke + 1);
            proof {
                lemma_ws_end_bounds(s, ke + 1);
            }
            match value_at(s, a) {
                Some((ve, v, d)) => if a < ve <= s.len() {
                    Some((ws_end(s, ve), ks, v, d || ks.len() > 1))
                } else {
                    None
                },
                None => None,
            }
        } else {
            None
        },
        None => None,
    }
}

/// The rest of the key/value pairs of an inline table after a pair, from `j`.
pub open spec fn inline_tail_at(s: Seq<char>, j: int) -> Option<
    (int, Seq<(Seq<Seq<char>>, TomlValue)>, bool),
>
    decreases s.len() - j, 0nat,
{
    if 0 <= j < s.len() && s[j] == ',' {
        match keyval_at(s, j + 1) {
            Some((e, ks, v, d)) => if j < e <= s.len() {
                prepend_pairs(seq![(ks, v)], d, inline_tail_at(s, e))
            } else {
                None
            },
            None => None,
        }
    } else {
        Some((j, Seq::empty(), false))
    }
}

/// The key/value pairs of an inline table starting at `i` (on its `{`),
/// where they end, and whether any of them is dotted.
pub open spec fn inline_pairs_at(s: Seq<char>, i: int) -> Option<
    (int, Seq<(Seq<Seq<char>>, TomlValue)>, bool),
>
    decreases s.len() - i, 1nat,
{
    if 0 <= i < s.len() {
        match keyval_at(s, i + 1) {
            Some((e, ks, v, d)) => if i < e <= s.len() {
                prepend_pairs(seq![(ks, v)], d, inline_tail_at(s, e))
            } else {
                None
            },
            None => Some((i + 1, Seq::empty(), false)),
        }
    } else {
        None
    }
}

// inline-table = inline-table-open inline-table-keyvals inline-table-close
/// An inline table starting at `i` (on its `{`): where it ends, its entries,
/// and whether a key in it is dotted.
pub open spec fn inline_table_at(s: Seq<char>, i: int) -> Option<
    (int, Seq<(Seq<char>, TomlItem)>, bool),
>
    decreases s.len() - i, 2nat,
{
    match inline_pairs_at(s, i) {
        Some((f, kvs, d)) => {
            let w = ws_end(s, f);
            if 0 <= w < s.len() && s[w] == '}' {
                match table_from_pairs(kvs, kvs.len()) {
                    Some(t) => Some((w + 1, t, d)),
                    None => None,
                }
            } else {
                None
            }
        },
        None => None,
    }
}

} // verus!

verus! {

/// Adding pairs after the first `k` leaves the table they make as it was.
proof fn lemma_table_from_pairs_prefix(
    kvs: Seq<(Seq<Seq<char>>, TomlValue)>,
    more: Seq<(Seq<Seq<char>>, TomlValue)>,
    k: nat,
)
    requires
        k <= kvs.len(),
    ensures
        table_from_pairs(kvs + more, k) == table_from_pairs(kvs, k),
    decreases k,
{
    if k > 0 {
        lemma_table_from_pairs_prefix(kvs, more, (k - 1) as nat);
        assert((kvs + more)[k - 1] == kvs[k - 1]);
    }
}

/// Once a pair cannot be added, no table comes of the pairs.
proof fn lemma_table_from_pairs_none(kvs: Seq<(Seq<Seq<char>>, TomlValue)>, k: nat, n: nat)
    requires
        k <= n <= kvs.len(),
        table_from_pairs(kvs, k) is None,
    ensures
        table_from_pairs(kvs, n) is None,
    decreases n - k,
{
    if n > k {
        lemma_table_from_pairs_none(kvs, k, (n - 1) as nat);
    }
}

/// The first entry with a key is found where it is, and only there.
pub proof fn lemma_find_key_from(entries: Seq<(Seq<char>, TomlItem)>, k: Seq<char>, j: int)
    requires
        0 <= j,
    ensures
        find_key_from(entries, k, j) matches Some(m) ==> j <= m < entries.len() && entries[m].0
            == k,
        find_key_from(entries, k, j) is None ==> forall|m: int|
            j <= m < entries.len() ==> #[trigger] entries[m].0 != k,
    decreases entries.len() - j,
{
    if j < entries.len() {
        lemma_find_key_from(entries, k, j + 1);
    }
}

/// Which of the seven types a value has.
fn value_kind(v: &Value) -> (k: u8)
    ensures
        k as int == kind(value_model(*v)),
{
    match v {
        Value::String(_) => 0,
        Value::Integer(_) => 1,
        Value::Float(_) => 2,
        Value::Boolean(_) => 3,
        Value::Datetime(_) => 4,
        Value::Array(_) => 5,
        Value::InlineTable(_) => 6,
    }
}

/// Whether all the values have the type of the first.
fn all_same_kind(vals: &Vec<Value>) -> (b: bool)
    ensures
        b == homogeneous(values_model(vals@, vals@.len())),
{
    proof {
        lemma_values_model(vals@, vals@.len());
    }
    let ghost m = values_model(vals@, vals@.len());
    if vals.len() == 0 {
        return true;
    }
    let k0 = value_kind(&vals[0]);
    let mut i: usize = 1;
    while i < vals.len()
        invariant
            1 <= i <= vals@.len(),
            m.len() == vals@.len(),
            m == values_model(vals@, vals@.len()),
            forall|j: int| 0 <= j < vals@.len() ==> #[trigger] m[j] == value_model(vals@[j]),
            k0 as int == kind(m[0]),
            forall|j: int| 0 <= j < i ==> kind(#[trigger] m[j]) == kind(m[0]),
        decreases vals@.len() - i,
    {
        if value_kind(&vals[i]) != k0 {
            assert(kind(m[i as int]) != kind(m[0]));
            return false;
        }
        i = i + 1;
    }
    true
}

/// Gives a parsed value the text it was parsed from, where it is not an
/// array or an inline table, and no whitespace around it.
fn apply_raw(val: Value, raw: &str) -> (v: Value)
    ensures
        value_model(v) == value_model(val),
        is_scalar(val) ==> value_repr_text(v) == raw@,
        !is_scalar(val) ==> value_repr_text(v) == value_repr_text(val),
        value_decor(v).prefix_view() == Some(Seq::<char>::empty()),
        value_decor(v).suffix_view() == Some(Seq::<char>::empty()),
{
    let mut v = val;
    v.set_repr_unchecked(raw);
    proof {
        reveal_strlit("");
    }
    v.decorate("", "");
    v
}

/// Parses a value at `pos`: its meaning, its text and no whitespace around
/// it.
pub fn value(s: &[char], pos: usize) -> (r: Option<(usize, Value)>)
    requires
        pos <= s@.len(),
    ensures
        r matches Some((e, v)) ==> value_at(s@, pos as int) matches Some((e2, m, d)) && e2 == e
            && value_model(v) == m && pos < e <= s@.len() && value_decor(v).prefix_view() == Some(
            Seq::<char>::empty(),
        ) && value_decor(v).suffix_view() == Some(Seq::<char>::empty()) && (!d
            ==> value_repr_text(v) == s@.subrange(pos as int, e as int) && value_text(v)
            == s@.subrange(pos as int, e as int)),
        r is None ==> value_at(s@, pos as int) is None,
    decreases s@.len() - pos, 3nat,
{
    if pos < s.len() && s[pos] == '[' {
        return match array(s, pos) {
            Some((e, a)) => {
                proof {
                    lemma_values_model(a.values_view(), a.values_view().len());
                }
                if all_same_kind(a.values()) {
                    Some((e, with_raw(Value::Array(a), s, pos, e)))
                } else {
                    None
                }
            },
            None => None,
        };
    }
    if pos < s.len() && s[pos] == '{' {
        return match inline_table(s, pos) {
            Some((e, t)) => Some((e, with_raw(Value::InlineTable(t), s, pos, e))),
            None => None,
        };
    }
    match scalar(s, pos) {
        Some((e, v)) => Some((e, with_raw(v, s, pos, e))),
        None => None,
    }
}

/// Parses a string, boolean, date-time, float or integer at `pos`.
fn scalar(s: &[char], pos: usize) -> (r: Option<(usize, Value)>)
    requires
        pos <= s@.len(),
    ensures
        r matches Some((e, v)) ==> scalar_at(s@, pos as int) == Some((e as int, value_model(v)))
            && pos < e <= s@.len() && is_scalar(v),
        r is None ==> scalar_at(s@, pos as int) is None,
{
    proof {
        reveal(scalar_at);
    }
    if let Some((e, t)) = string(s, pos) {
        return Some((e, Value::String(Formatted::new(t))));
    }
    if let Some((e, b)) = boolean(s, pos) {
        return Some((e, Value::Boolean(Formatted::new(b))));
    }
    if let Some((e, dt)) = date_time(s, pos) {
        return Some((e, Value::Datetime(Formatted::new(dt))));
    }
    if let Some((e, t)) = float(s, pos) {
        return Some((e, Value::Float(Formatted::new(Float::from_text(t)))));
    }
    if let Some((e, n)) = integer(s, pos) {
        return Some((e, Value::Integer(Formatted::new(n))));
    }
    None
}

/// Gives a parsed value the text `s[pos..e]` it was parsed from.
fn with_raw(v: Value, s: &[char], pos: usize, e: usize) -> (r: Value)
    requires
        pos <= e <= s@.len(),
    ensures
        value_model(r) == value_model(v),
        is_scalar(v) ==> value_repr_text(r) == s@.subrange(pos as int, e as int),
        !is_scalar(v) ==> value_repr_text(r) == value_repr_text(v),
        value_decor(r).prefix_view() == Some(Seq::<char>::empty()),
        value_decor(r).suffix_view() == Some(Seq::<char>::empty()),
{
    let raw = slice_string(s, pos, e);
    apply_raw(v, raw.as_str())
}

/// Parses an array at `pos`, on its `[`.
fn array(s: &[char], pos: usize) -> (r: Option<(usize, Array)>)
    requires
        pos < s@.len(),
        s@[pos as int] == '[',
    ensures
        r matches Some((e, a)) ==> array_at(s@, pos as int) matches Some((e2, vs, c, d)) && e2 == e
            && values_model(a.values_view(), a.values_view().len()) == vs
            && a.trailing_comma_view() == c && pos < e <= s@.len()
            && a.decor_view().prefix_view() is None && a.decor_view().suffix_view() is None && (!d
            ==> value_repr_text(Value::Array(a)) == s@.subrange(pos as int, e as int)),
        r is None ==> array_at(s@, pos as int) is None,
    decreases s@.len() - pos, 1nat,
{
    let n = s.len();
    let w = ws_comment_newline(s, pos + 1);
    match value(s, w) {
        None => {
            if w < s.len() && s[w] == ']' {
                let a = Array::from_parts(Vec::new(), false, slice_string(s, pos + 1, w));
                proof {
                    assert(values_text(a.values_view(), 0) =~= Seq::<char>::empty());
                    assert(value_repr_text(Value::Array(a)) =~= s@.subrange(pos as int, w + 1));
                }
                Some((w + 1, a))
            } else {
                None
            }
        },
        Some((ve, v)) => {
            let ghost parsed = value_at(s@, w as int)->0;
            let ghost m0 = parsed.1;
            let ghost d0 = parsed.2;
            let j0 = ws_comment_newline(s, ve);
            let pre = slice_string(s, pos + 1, w);
            let suf = slice_string(s, ve, j0);
            let v = v.decorated(pre.as_str(), suf.as_str());
            let mut vals: Vec<Value> = Vec::new();
            vals.push(v);
            let ghost mut d_acc: bool = d0;
            proof {
                lemma_values_model(vals@, 1);
                assert(values_model(vals@, 1) =~= seq![m0]);
                reveal_with_fuel(values_text, 2);
                assert(!d_acc ==> seq!['['] + values_text(vals@, 1) =~= s@.subrange(
                    pos as int,
                    j0 as int,
                ));
            }
            let mut j = j0;
            loop
                invariant
                    pos < j <= s@.len(),
                    vals@.len() >= 1,
                    array_at(s@, pos as int) == prepend_values(
                        values_model(vals@, vals@.len()),
                        d_acc,
                        array_tail_at(s@, j as int),
                    ),
                    !d_acc ==> seq!['['] + values_text(vals@, vals@.len()) == s@.subrange(
                        pos as int,
                        j as int,
                    ),
                decreases s@.len() - j,
            {
                if j < s.len() && s[j] == ',' {
                    let w = ws_comment_newline(s, j + 1);
                    match value(s, w) {
                        Some((ve, v)) => {
                            let ghost parsed = value_at(s@, w as int)->0;
                            let ghost m = parsed.1;
                            let ghost d = parsed.2;
                            let k = ws_comment_newline(s, ve);
                            let pre = slice_string(s, j + 1, w);
                            let suf = slice_string(s, ve, k);
                            let v = v.decorated(pre.as_str(), suf.as_str());
                            let ghost old_vals = vals@;
                            let ghost n = vals@.len();
                            proof {
                                lemma_values_push(old_vals, v, n);
                            }
                            vals.push(v);
                            proof {
                                assert(vals@ == old_vals.push(v));
                                assert(values_model(vals@, n + 1) == values_model(old_vals, n).push(
                                    m,
                                ));
                                let tail = array_tail_at(s@, k as int);
                                if let Some((e, ws2, c, d3)) = tail {
                                    assert(values_model(old_vals, n) + (seq![m] + ws2)
                                        =~= values_model(old_vals, n).push(m) + ws2);
                                }
                                if !(d_acc || d) {
                                    assert(values_text(vals@, n + 1) == values_text(old_vals, n)
                                        + seq![','] + value_text(v));
                                    assert(s@.subrange(pos as int, k as int) =~= s@.subrange(
                                        pos as int,
                                        j as int,
                                    ) + seq![','] + s@.subrange(j + 1, w as int) + s@.subrange(
                                        w as int,
                                        ve as int,
                                    ) + s@.subrange(ve as int, k as int));
                                    assert(seq!['['] + values_text(vals@, n + 1) =~= s@.subrange(
                                        pos as int,
                                        k as int,
                                    ));
                                }
                                d_acc = d_acc || d;
                            }
                            j = k;
                        },
                        None => {
                            if w < s.len() && s[w] == ']' {
                                let a = Array::from_parts(vals, true, slice_string(s, j + 1, w));
                                proof {
                                    assert(values_model(a.values_view(), a.values_view().len())
                                        =~= values_model(a.values_view(), a.values_view().len())
                                        + Seq::<TomlValue>::empty());
                                    if !d_acc {
                                        assert(value_repr_text(Value::Array(a)) =~= s@.subrange(
                                            pos as int,
                                            w + 1,
                                        ));
                                    }
                                }
                                return Some((w + 1, a));
                            }
                            return None;
                        },
                    }
                } else if j < s.len() && s[j] == ']' {
                    let a = Array::from_parts(vals, false, String::new());
                    proof {
                        assert(values_model(a.values_view(), a.values_view().len())
                            =~= values_model(a.values_view(), a.values_view().len())
                            + Seq::<TomlValue>::empty());
                        if !d_acc {
                            assert(value_repr_text(Value::Array(a)) =~= s@.subrange(
                                pos as int,
                                j + 1,
                            ));
                        }
                    }
                    return Some((j + 1, a));
                } else {
                    return None;
                }
            }
        },
    }
}

/// The position of the first entry whose key has the value of `k`.
pub fn find_key(items: &Vec<TableKeyValue>, k: &Key) -> (r: Option<usize>)
    ensures
        match r {
            Some(j) => find_key_from(entries_model(items@, items@.len()), k.value(), 0) == Some(
                j as int,
            ),
            None => find_key_from(entries_model(items@, items@.len()), k.value(), 0) is None,
        },
        r matches Some(j) ==> j < items@.len(),
{
    proof {
        lemma_entries_model(items@, items@.len());
    }
    let ghost e = entries_model(items@, items@.len());
    let mut i: usize = 0;
    while i < items.len()
        invariant
            i <= items@.len(),
            e == entries_model(items@, items@.len()),
            e.len() == items@.len(),
            forall|j: int|
                0 <= j < items@.len() ==> #[trigger] e[j] == (
                    items@[j].key_view().value(),
                    item_model(items@[j].value_view()),
                ),
            find_key_from(e, k.value(), 0) == find_key_from(e, k.value(), i as int),
        decreases items@.len() - i,
    {
        if items[i].key().same_value(k) {
            return Some(i);
        }
        i = i + 1;
    }
    None
}

/// Adds `key = v` under the inline tables named by the parts of `path` from
/// `d` on, making the missing ones, marked as made by a dotted key.
fn insert_path(items: &mut Vec<TableKeyValue>, path: &Vec<Key>, d: usize, key: Key, v: Value) -> (ok:
    bool)
    requires
        d <= path@.len(),
    ensures
        ok == (insert_dotted(
            entries_model(old(items)@, old(items)@.len()),
            key_values(path@).skip(d as int),
            key.value(),
            value_model(v),
        ) is Some),
        ok ==> insert_dotted(
            entries_model(old(items)@, old(items)@.len()),
            key_values(path@).skip(d as int),
            key.value(),
            value_model(v),
        )->0 == entries_model(final(items)@, final(items)@.len()),
        ok ==> final(items)@.len() >= old(items)@.len(),
        ok && d == path@.len() ==> final(items)@.len() == old(items)@.len() + 1 && final(items)@.drop_last() == old(items)@ && final(items)@.last().key_view() == key && final(items)@.last().value_view() == Item::Value(v),
    decreases path@.len() - d,
{
    let ghost old_items = items@;
    let ghost e = entries_model(old_items, old_items.len());
    let ghost p = key_values(path@).skip(d as int);
    proof {
        lemma_entries_model(old_items, old_items.len());
        lemma_find_key_from(e, key.value(), 0);
        if d < path@.len() {
            lemma_find_key_from(e, path@[d as int].value(), 0);
        }
    }
    if d == path.len() {
        assert(p.len() == 0);
        match find_key(items, &key) {
            Some(_) => false,
            None => {
                let kv = TableKeyValue::new(key, Item::Value(v));
                proof {
                    lemma_entries_push(old_items, kv, old_items.len());
                    assert(item_model(kv.value_view()) == TomlItem::Value(value_model(v)));
                }
                items.push(kv);
                proof {
                    assert(items@.drop_last() =~= old_items);
                    assert(entries_model(items@, items@.len()) =~= e.push(
                        (key.value(), TomlItem::Value(value_model(v))),
                    ));
                }
                true
            },
        }
    } else {
        assert(p.len() > 0);
        assert(p[0] == path@[d as int].value());
        assert(p.drop_first() =~= key_values(path@).skip(d + 1));
        match find_key(items, &path[d]) {
            None => {
                let mut sub: Vec<TableKeyValue> = Vec::new();
                if !insert_path(&mut sub, path, d + 1, key, v) {
                    return false;
                }
                let ghost sub_entries = entries_model(sub@, sub@.len());
                let t = InlineTable::from_parts(sub, String::new(), true);
                let kv = TableKeyValue::new(path[d].duplicate(), Item::Value(Value::InlineTable(t)));
                proof {
                    assert(kv.key_view().value() == p[0]);
                    assert(item_model(kv.value_view()) == TomlItem::Value(
                        TomlValue::InlineTable(sub_entries),
                    ));
                    lemma_entries_push(old_items, kv, old_items.len());
                    assert(entries_model(Seq::<TableKeyValue>::empty(), 0) =~= Seq::<
                        (Seq<char>, TomlItem),
                    >::empty());
                }
                items.push(kv);
                proof {
                    assert(entries_model(items@, items@.len()) =~= e.push(
                        (p[0], TomlItem::Value(TomlValue::InlineTable(sub_entries))),
                    ));
                }
                true
            },
            Some(j) => {
                let kv = items.remove(j);
                let (k0, item) = kv.into_parts();
                match item {
                    Item::Value(Value::InlineTable(t)) => {
                        let mut t = t;
                        let mut sub = t.take_items();
                        let ghost old_sub = sub@;
                        if !insert_path(&mut sub, path, d + 1, key, v) {
                            return false;
                        }
                        t.set_items(sub);
                        let nkv = TableKeyValue::new(k0, Item::Value(Value::InlineTable(t)));
                        items.insert(j, nkv);
                        proof {
                            assert(items@ =~= old_items.update(j as int, nkv));
                            lemma_entries_model(items@, items@.len());
                            assert(entries_model(items@, items@.len()) =~= e.update(
                                j as int,
                                (p[0], TomlItem::Value(TomlValue::InlineTable(entries_model(sub@, sub@.len())))),
                            ));
                            assert(e[j as int].1 == TomlItem::Value(TomlValue::InlineTable(entries_model(old_sub, old_sub.len()))));
                                }
                        true
                    },
                    _ => false,
                }
            },
        }
    }
}

/// Parses a key/value pair of an inline table at `pos`: the parts of the key,
/// each with the spaces around it, and the value with the spaces around it.
fn keyval(s: &[char], pos: usize) -> (r: Option<(usize, Vec<Key>, Value)>)
    requires
        pos <= s@.len(),
    ensures
        r matches Some((e, ks, v)) ==> keyval_at(s@, pos as int) matches Some((e2, kv, m, d)) && e2
            == e && key_values(ks@) == kv && value_model(v) == m && pos < e <= s@.len()
            && ws_end(s@, e as int) == e && ks@.len() > 0 && keys_decorated(ks@) && (!d
            ==> ks@.len() == 1 && key_text(ks@[0]) + seq!['='] + value_text(v) == s@.subrange(
            pos as int,
            e as int,
        )),
        r is None ==> keyval_at(s@, pos as int) is None,
    decreases s@.len() - pos, 1nat,
{
    match key(s, pos) {
        Some((ke, ks)) => {
            if ke < s.len() && s[ke] == '=' {
                let a = ws(s, ke + 1);
                match value(s, a) {
                    Some((ve, v)) => {
                        let f = ws(s, ve);
                        let pre = slice_string(s, ke + 1, a);
                        let suf = slice_string(s, ve, f);
                        let v = v.decorated(pre.as_str(), suf.as_str());
                        proof {
                            lemma_ws_end_idempotent(s@, ve as int);
                            if ks@.len() == 1 {
                                assert(keys_text(ks@) == key_text(ks@[0]));
                                assert(s@.subrange(pos as int, f as int) =~= s@.subrange(
                                    pos as int,
                                    ke as int,
                                ) + seq!['='] + s@.subrange(ke + 1, a as int) + s@.subrange(
                                    a as int,
                                    ve as int,
                                ) + s@.subrange(ve as int, f as int));
                            }
                        }
                        Some((f, ks, v))
                    },
                    None => None,
                }
            } else {
                None
            }
        },
        None => None,
    }
}

/// Adds a parsed key/value pair to the entries of an inline table.
fn add_pair(items: &mut Vec<TableKeyValue>, ks: Vec<Key>, v: Value) -> (ok: bool)
    requires
        ks@.len() > 0,
    ensures
        ok == (insert_dotted(
            entries_model(old(items)@, old(items)@.len()),
            key_values(ks@).drop_last(),
            key_values(ks@).last(),
            value_model(v),
        ) is Some),
        ok ==> insert_dotted(
            entries_model(old(items)@, old(items)@.len()),
            key_values(ks@).drop_last(),
            key_values(ks@).last(),
            value_model(v),
        ) == Some(entries_model(final(items)@, final(items)@.len())),
        ok ==> final(items)@.len() >= old(items)@.len(),
        ok && ks@.len() == 1 ==> final(items)@.len() == old(items)@.len() + 1 && final(items)@.drop_last() == old(items)@ && final(items)@.last().key_view() == ks@[0] && final(items)@.last().value_view() == Item::Value(v),
{
    let ghost all = ks@;
    let mut path = ks;
    let last = path.pop().unwrap();
    proof {
        assert(path@ =~= all.drop_last());
        assert(key_values(path@).skip(0) =~= key_values(all).drop_last());
    }
    insert_path(items, &path, 0, last, v)
}

/// How far reading the key/value pairs of the inline table that starts at
/// `pos` has come: up to `j`, having read `pairs` (`d` telling whether one
/// of them is dotted) and made the entries `items` of them.
#[verifier::opaque]
spec fn pairs_read(
    s: Seq<char>,
    pos: int,
    j: int,
    pairs: Seq<(Seq<Seq<char>>, TomlValue)>,
    d: bool,
    items: Seq<TableKeyValue>,
) -> bool {
    &&& 0 <= pos < j <= s.len()
    &&& ws_end(s, j) == j
    &&& inline_pairs_at(s, pos) == prepend_pairs(pairs, d, inline_tail_at(s, j))
    &&& table_from_pairs(pairs, pairs.len()) == Some(entries_model(items, items.len()))
    &&& items.len() > 0
    &&& !d ==> seq!['{'] + inline_items_text(items, items.len()) == s.subrange(pos, j)
        && inline_items_text(items, items.len()).len() > 0
}

/// What `pairs_read` says.
proof fn lemma_pairs_read_elim(
    s: Seq<char>,
    pos: int,
    j: int,
    pairs: Seq<(Seq<Seq<char>>, TomlValue)>,
    d: bool,
    items: Seq<TableKeyValue>,
)
    requires
        pairs_read(s, pos, j, pairs, d, items),
    ensures
        0 <= pos < j <= s.len(),
        ws_end(s, j) == j,
        inline_pairs_at(s, pos) == prepend_pairs(pairs, d, inline_tail_at(s, j)),
        table_from_pairs(pairs, pairs.len()) == Some(entries_model(items, items.len())),
        items.len() > 0,
        !d ==> seq!['{'] + inline_items_text(items, items.len()) == s.subrange(pos, j)
            && inline_items_text(items, items.len()).len() > 0,
{
    reveal(pairs_read);
}

/// When `pairs_read` holds.
proof fn lemma_pairs_read_intro(
    s: Seq<char>,
    pos: int,
    j: int,
    pairs: Seq<(Seq<Seq<char>>, TomlValue)>,
    d: bool,
    items: Seq<TableKeyValue>,
)
    requires
        0 <= pos < j <= s.len(),
        ws_end(s, j) == j,
        inline_pairs_at(s, pos) == prepend_pairs(pairs, d, inline_tail_at(s, j)),
        table_from_pairs(pairs, pairs.len()) == Some(entries_model(items, items.len())),
        items.len() > 0,
        !d ==> seq!['{'] + inline_items_text(items, items.len()) == s.subrange(pos, j)
            && inline_items_text(items, items.len()).len() > 0,
    ensures
        pairs_read(s, pos, j, pairs, d, items),
{
    reveal(pairs_read);
}

/// The first pair of an inline table, when it makes `items`.
proof fn lemma_first_pair(
    s: Seq<char>,
    pos: int,
    e: int,
    kvals: Seq<Seq<char>>,
    m: TomlValue,
    dk: bool,
    items: Seq<TableKeyValue>,
)
    requires
        0 <= pos < s.len(),
        s[pos] == '{',
        keyval_at(s, pos + 1) == Some((e, kvals, m, dk)),
        pos + 1 < e <= s.len(),
        ws_end(s, e) == e,
        insert_dotted(Seq::empty(), kvals.drop_last(), kvals.last(), m) == Some(
            entries_model(items, items.len()),
        ),
        items.len() > 0,
        !dk ==> items.len() == 1 && items[0].value_view() is Value && inline_item_text(items[0])
            == s.subrange(pos + 1, e),
    ensures
        pairs_read(s, pos, e, seq![(kvals, m)], dk, items),
{
    reveal(pairs_read);
    let p = seq![(kvals, m)];
    assert(p[0] == (kvals, m));
    assert(table_from_pairs(p, 0) == Some(Seq::<(Seq<char>, TomlItem)>::empty()));
    if let Some((f, ps, d2)) = inline_tail_at(s, e) {
        assert(p + ps =~= seq![(kvals, m)] + ps);
    }
    if !dk {
        reveal_with_fuel(inline_items_text, 2);
        assert(inline_items_text(items, 1) =~= inline_item_text(items[0]));
        assert(s.subrange(pos, e) =~= seq!['{'] + s.subrange(pos + 1, e));
    }
}

/// The pairs read so far, with one more after a comma, are a prefix of all
/// the pairs of the inline table.
proof fn lemma_next_pair_grammar(
    s: Seq<char>,
    pos: int,
    j: int,
    pairs: Seq<(Seq<Seq<char>>, TomlValue)>,
    d: bool,
    e: int,
    kvals: Seq<Seq<char>>,
    m: TomlValue,
    dk: bool,
)
    requires
        inline_pairs_at(s, pos) == prepend_pairs(pairs, d, inline_tail_at(s, j)),
        0 <= j < s.len(),
        s[j] == ',',
        keyval_at(s, j + 1) == Some((e, kvals, m, dk)),
        j + 1 < e <= s.len(),
    ensures
        inline_pairs_at(s, pos) == prepend_pairs(pairs.push((kvals, m)), d || dk, inline_tail_at(s, e)),
{
    if let Some((f, ps, d3)) = inline_tail_at(s, e) {
        assert(pairs + (seq![(kvals, m)] + ps) =~= pairs.push((kvals, m)) + ps);
    }
}

/// The table made of the pairs read so far, with one more.
proof fn lemma_next_pair_table(
    pairs: Seq<(Seq<Seq<char>>, TomlValue)>,
    old_items: Seq<TableKeyValue>,
    kvals: Seq<Seq<char>>,
    m: TomlValue,
    items: Seq<TableKeyValue>,
)
    requires
        table_from_pairs(pairs, pairs.len()) == Some(entries_model(old_items, old_items.len())),
        insert_dotted(
            entries_model(old_items, old_items.len()),
            kvals.drop_last(),
            kvals.last(),
            m,
        ) == Some(entries_model(items, items.len())),
    ensures
        table_from_pairs(pairs.push((kvals, m)), pairs.len() + 1) == Some(
            entries_model(items, items.len()),
        ),
{
    let np = pairs.push((kvals, m));
    lemma_table_from_pairs_prefix(pairs, seq![(kvals, m)], pairs.len());
    assert(np =~= pairs + seq![(kvals, m)]);
    assert(np[pairs.len() as int] == (kvals, m));
}

/// The text of the entries made so far, with one more.
proof fn lemma_next_pair_text(
    s: Seq<char>,
    pos: int,
    j: int,
    old_items: Seq<TableKeyValue>,
    e: int,
    items: Seq<TableKeyValue>,
)
    requires
        0 <= pos < j < e <= s.len(),
        s[j] == ',',
        seq!['{'] + inline_items_text(old_items, old_items.len()) == s.subrange(pos, j),
        inline_items_text(old_items, old_items.len()).len() > 0,
        items.len() == old_items.len() + 1,
        items.drop_last() == old_items,
        items.last().value_view() is Value,
        inline_item_text(items.last()) == s.subrange(j + 1, e),
    ensures
        seq!['{'] + inline_items_text(items, items.len()) == s.subrange(pos, e),
        inline_items_text(items, items.len()).len() > 0,
{
    let n = old_items.len();
    lemma_entries_push(old_items, items.last(), n);
    assert(items =~= old_items.push(items.last()));
    assert(inline_items_text(items, n + 1) == inline_items_text(old_items, n) + seq![',']
        + inline_item_text(items.last()));
    assert(s.subrange(pos, e) =~= s.subrange(pos, j) + seq![','] + s.subrange(j + 1, e));
}

/// A pair after a comma, when it adds to `old_items` to make `items`.
proof fn lemma_next_pair(
    s: Seq<char>,
    pos: int,
    j: int,
    pairs: Seq<(Seq<Seq<char>>, TomlValue)>,
    d: bool,
    old_items: Seq<TableKeyValue>,
    e: int,
    kvals: Seq<Seq<char>>,
    m: TomlValue,
    dk: bool,
    items: Seq<TableKeyValue>,
)
    requires
        pairs_read(s, pos, j, pairs, d, old_items),
        j < s.len(),
        s[j] == ',',
        keyval_at(s, j + 1) == Some((e, kvals, m, dk)),
        j + 1 < e <= s.len(),
        ws_end(s, e) == e,
        insert_dotted(
            entries_model(old_items, old_items.len()),
            kvals.drop_last(),
            kvals.last(),
            m,
        ) == Some(entries_model(items, items.len())),
        items.len() >= old_items.len(),
        !dk ==> items.len() == old_items.len() + 1 && items.drop_last() == old_items
            && items.last().value_view() is Value && inline_item_text(items.last()) == s.subrange(
            j + 1,
            e,
        ),
    ensures
        pairs_read(s, pos, e, pairs.push((kvals, m)), d || dk, items),
{
    lemma_pairs_read_elim(s, pos, j, pairs, d, old_items);
    lemma_next_pair_grammar(s, pos, j, pairs, d, e, kvals, m, dk);
    lemma_next_pair_table(pairs, old_items, kvals, m, items);
    if !(d || dk) {
        lemma_next_pair_text(s, pos, j, old_items, e, items);
    }
    lemma_pairs_read_intro(s, pos, e, pairs.push((kvals, m)), d || dk, items);
}

/// A pair that cannot be added leaves no inline table.
proof fn lemma_pair_conflict(
    s: Seq<char>,
    pos: int,
    j: int,
    pairs: Seq<(Seq<Seq<char>>, TomlValue)>,
    d: bool,
    old_items: Seq<TableKeyValue>,
    e: int,
    kvals: Seq<Seq<char>>,
    m: TomlValue,
    dk: bool,
)
    requires
        pairs_read(s, pos, j, pairs, d, old_items),
        j < s.len(),
        s[j] == ',',
        keyval_at(s, j + 1) == Some((e, kvals, m, dk)),
        j + 1 < e <= s.len(),
        insert_dotted(
            entries_model(old_items, old_items.len()),
            kvals.drop_last(),
            kvals.last(),
            m,
        ) is None,
    ensures
        inline_table_at(s, pos) is None,
{
    reveal(pairs_read);
    let np = pairs.push((kvals, m));
    lemma_table_from_pairs_prefix(pairs, seq![(kvals, m)], pairs.len());
    assert(np =~= pairs + seq![(kvals, m)]);
    assert(np[pairs.len() as int] == (kvals, m));
    assert(table_from_pairs(np, np.len()) is None);
    if let Some((f, all, d2)) = inline_pairs_at(s, pos) {
        let rest = inline_tail_at(s, e)->0;
        assert(all =~= np + rest.1);
        lemma_table_from_pairs_prefix(np, rest.1, np.len());
        lemma_table_from_pairs_none(all, np.len(), all.len());
    }
}

/// A first pair that cannot be added leaves no inline table.
proof fn lemma_first_pair_conflict(
    s: Seq<char>,
    pos: int,
    e: int,
    kvals: Seq<Seq<char>>,
    m: TomlValue,
    dk: bool,
)
    requires
        0 <= pos < s.len(),
        keyval_at(s, pos + 1) == Some((e, kvals, m, dk)),
        pos + 1 < e <= s.len(),
        insert_dotted(Seq::empty(), kvals.drop_last(), kvals.last(), m) is None,
    ensures
        inline_table_at(s, pos) is None,
{
    let p = seq![(kvals, m)];
    assert(p[0] == (kvals, m));
    assert(table_from_pairs(p, 0) == Some(Seq::<(Seq<char>, TomlItem)>::empty()));
    assert(table_from_pairs(p, 1) is None);
    if let Some((f, all, d2)) = inline_pairs_at(s, pos) {
        let rest = inline_tail_at(s, e)->0;
        assert(all =~= p + rest.1);
        lemma_table_from_pairs_prefix(p, rest.1, 1);
        lemma_table_from_pairs_none(all, 1, all.len());
    }
}

/// A comma not followed by a pair leaves no inline table.
proof fn lemma_bad_pair(
    s: Seq<char>,
    pos: int,
    j: int,
    pairs: Seq<(Seq<Seq<char>>, TomlValue)>,
    d: bool,
    items: Seq<TableKeyValue>,
)
    requires
        pairs_read(s, pos, j, pairs, d, items),
        j < s.len(),
        s[j] == ',',
        keyval_at(s, j + 1) is None,
    ensures
        inline_table_at(s, pos) is None,
{
    reveal(pairs_read);
}

/// Where no comma follows, the pairs are all read.
proof fn lemma_pairs_done(
    s: Seq<char>,
    pos: int,
    j: int,
    pairs: Seq<(Seq<Seq<char>>, TomlValue)>,
    d: bool,
    items: Seq<TableKeyValue>,
)
    requires
        pairs_read(s, pos, j, pairs, d, items),
        !(j < s.len() && s[j] == ','),
    ensures
        inline_pairs_at(s, pos) == Some((j, pairs, d)),
        table_from_pairs(pairs, pairs.len()) == Some(entries_model(items, items.len())),
        ws_end(s, j) == j,
        pos < j <= s.len(),
        items.len() > 0,
        !d ==> seq!['{'] + inline_items_text(items, items.len()) == s.subrange(pos, j),
{
    reveal(pairs_read);
    assert(pairs + Seq::<(Seq<Seq<char>>, TomlValue)>::empty() =~= pairs);
}

/// Parses the key/value pairs of an inline table at `pos` (on its `{`),
/// adding the entries they make to `items`: where they end, and, as ghosts,
/// the pairs and whether one of them is dotted.
fn inline_pairs(s: &[char], pos: usize, items: &mut Vec<TableKeyValue>) -> (r: Option<
    (usize, Ghost<Seq<(Seq<Seq<char>>, TomlValue)>>, Ghost<bool>),
>)
    requires
        pos < s@.len(),
        s@[pos as int] == '{',
        old(items)@.len() == 0,
    ensures
        r matches Some((f, pairs, d)) ==> inline_pairs_at(s@, pos as int) == Some(
            (f as int, pairs@, d@),
        ) && table_from_pairs(pairs@, pairs@.len()) == Some(
            entries_model(final(items)@, final(items)@.len()),
        ) && pos < f <= s@.len() && (final(items)@.len() > 0 ==> ws_end(s@, f as int) == f) && (
        !d@ ==> seq!['{'] + inline_items_text(final(items)@, final(items)@.len()) == s@.subrange(
            pos as int,
            f as int,
        )),
        r is None ==> inline_table_at(s@, pos as int) is None,
    decreases s@.len() - pos, 1nat,
{
    let n = s.len();
    match keyval(s, pos + 1) {
        None => {
            proof {
                assert(entries_model(items@, 0) =~= Seq::<(Seq<char>, TomlItem)>::empty());
                assert(inline_items_text(items@, 0) =~= Seq::<char>::empty());
                assert(s@.subrange(pos as int, pos + 1) =~= seq!['{']);
            }
            Some((pos + 1, Ghost(Seq::empty()), Ghost(false)))
        },
        Some((e, ks, v)) => {
            let ghost first = keyval_at(s@, pos + 1)->0;
            let ghost ks0 = ks@;
            let ghost v0 = v;
            proof {
                assert(entries_model(items@, 0) =~= Seq::<(Seq<char>, TomlItem)>::empty());
            }
            if !add_pair(items, ks, v) {
                proof {
                    lemma_first_pair_conflict(s@, pos as int, e as int, first.1, first.2, first.3);
                }
                return None;
            }
            let ghost mut pairs: Seq<(Seq<Seq<char>>, TomlValue)> = seq![(first.1, first.2)];
            let ghost mut d_acc: bool = first.3;
            proof {
                if !first.3 {
                    assert(items@[0] == items@.last());
                    assert(inline_item_text(items@[0]) == key_text(ks0[0]) + seq!['='] + value_text(
                        v0,
                    ));
                }
                lemma_first_pair(s@, pos as int, e as int, first.1, first.2, first.3, items@);
            }
            let mut j = e;
            loop
                invariant
                    pairs_read(s@, pos as int, j as int, pairs, d_acc, items@),
                    pos < j <= s@.len(),
                ensures
                    pairs_read(s@, pos as int, j as int, pairs, d_acc, items@),
                    pos < j <= s@.len(),
                    !(j < s@.len() && s@[j as int] == ','),
                decreases s@.len() - j,
            {
                if j < s.len() && s[j] == ',' {
                    match keyval(s, j + 1) {
                        Some((e, ks, v)) => {
                            let ghost next = keyval_at(s@, j + 1)->0;
                            let ghost ks0 = ks@;
                            let ghost v0 = v;
                            let ghost old_items = items@;
                            if !add_pair(items, ks, v) {
                                proof {
                                    lemma_pair_conflict(
                                        s@,
                                        pos as int,
                                        j as int,
                                        pairs,
                                        d_acc,
                                        old_items,
                                        e as int,
                                        next.1,
                                        next.2,
                                        next.3,
                                    );
                                }
                                return None;
                            }
                            proof {
                                if !next.3 {
                                    assert(inline_item_text(items@.last()) == key_text(ks0[0])
                                        + seq!['='] + value_text(v0));
                                }
                                lemma_next_pair(
                                    s@,
                                    pos as int,
                                    j as int,
                                    pairs,
                                    d_acc,
                                    old_items,
                                    e as int,
                                    next.1,
                                    next.2,
                                    next.3,
                                    items@,
                                );
                                pairs = pairs.push((next.1, next.2));
                                d_acc = d_acc || next.3;
                            }
                            j = e;
                        },
                        None => {
                            proof {
                                lemma_bad_pair(s@, pos as int, j as int, pairs, d_acc, items@);
                            }
                            return None;
                        },
                    }
                } else {
                    break ;
                }
            }
            proof {
                lemma_pairs_done(s@, pos as int, j as int, pairs, d_acc, items@);
            }
            Some((j, Ghost(pairs), Ghost(d_acc)))
        },
    }
}

/// Parses an inline table at `pos`, on its `{`.
#[verifier::spinoff_prover]
#[verifier::rlimit(40)]
fn inline_table(s: &[char], pos: usize) -> (r: Option<(usize, InlineTable)>)
    requires
        pos < s@.len(),
        s@[pos as int] == '{',
    ensures
        r matches Some((e, t)) ==> inline_table_at(s@, pos as int) matches Some((e2, m, d)) && e2
            == e && entries_model(t.items_view(), t.items_view().len()) == m && pos < e <= s@.len()
            && t.decor_view().prefix_view() is None && t.decor_view().suffix_view() is None
            && !t.dotted_view() && (!d ==> value_repr_text(Value::InlineTable(t)) == s@.subrange(
            pos as int,
            e as int,
        )),
        r is None ==> inline_table_at(s@, pos as int) is None,
    decreases s@.len() - pos, 2nat,
{
    let mut items: Vec<TableKeyValue> = Vec::new();
    match inline_pairs(s, pos, &mut items) {
        None => None,
        Some((f, gp, gd)) => {
            let ghost d = gd@;
            let w = ws(s, f);
            if !(w < s.len() && s[w] == '}') {
                return None;
            }
            let preamble = slice_string(s, f, w);
            let t = InlineTable::from_parts(items, preamble, false);
            proof {
                if !d {
                    if t.items_view().len() > 0 {
                        assert(f == w);
                        assert(t.preamble_view() =~= Seq::<char>::empty());
                    }
                    assert(value_repr_text(Value::InlineTable(t)) =~= s@.subrange(
                        pos as int,
                        w + 1,
                    ));
                }
            }
            Some((w + 1, t))
        },
    }
}

/// Parses a whole text as a value: its meaning, and, where no inline table
/// in it uses a dotted key, the text it gives back when written.
pub fn parse_value(s: &str) -> (r: Result<Value, crate::parser::errors::TomlError>)
    ensures
        r is Ok <==> (value_at(s@, 0) matches Some((e, m, d)) && e == s@.len()),
        r matches Ok(v) ==> value_at(s@, 0) matches Some((e, m, d)) && value_model(v) == m && (!d
            ==> value_text(v) == s@),
{
    let cs = crate::text::chars_of(s);
    match value(&cs, 0) {
        Some((e, v)) => {
            if e == cs.len() {
                proof {
                    assert(cs@.subrange(0, e as int) =~= s@);
                }
                Ok(v)
            } else {
                let msg = crate::parser::errors::CustomError::UnparsedLine.to_message();
                Err(crate::parser::errors::TomlError::new(&cs, e, msg.as_str()))
            }
        },
        None => Err(crate::parser::errors::TomlError::new(&cs, 0, "invalid value\n")),
    }
}

} // verus!
