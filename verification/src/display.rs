//! Writing tables and documents back as TOML text.

use vstd::prelude::*;

use crate::document::Document;
use crate::table::value_count;
use crate::text::push_char;
use crate::value::{
    entries_model,
    lemma_array_tables_decrease,
    lemma_entries_model,
    lemma_entry_item_decreases,
    lemma_table_items_decrease,
    table_model,
    value_text,
    Item,
    Table,
    TableKeyValue,
};

verus! {

/// `key = value`: the default decor around a key of a table.
pub open spec fn default_key_decor() -> (Seq<char>, Seq<char>) {
    (Seq::empty(), seq![' '])
}

/// The texts of a header's keys, joined by dots.
pub open spec fn path_text(path: Seq<Seq<char>>) -> Seq<char>
    decreases path.len(),
{
    if path.len() == 0 {
        Seq::empty()
    } else if path.len() == 1 {
        path[0]
    } else {
        path_text(path.drop_last()) + seq!['.'] + path.last()
    }
}

/// `key=value` and a newline for an entry holding a value.
pub open spec fn entry_line(kv: TableKeyValue) -> Seq<char> {
    match kv.value_view() {
        Item::Value(v) => kv.key_view().decor_view().around(
            kv.key_view().repr_view()@,
            default_key_decor(),
        ) + seq!['='] + value_text(v) + seq!['\n'],
        _ => Seq::empty(),
    }
}

/// The lines of the first `n` entries that hold values.
pub open spec fn body_text(items: Seq<TableKeyValue>, n: nat) -> Seq<char>
    decreases n,
{
    if n == 0 || n > items.len() {
        Seq::empty()
    } else {
        body_text(items, (n - 1) as nat) + entry_line(items[n - 1])
    }
}

/// The header of a table under `path` (nothing for the root table, nor for
/// an implicit table without values), with its decor and a newline.
pub open spec fn header_text(t: Table, path: Seq<Seq<char>>, is_array: bool) -> Seq<char> {
    let around = |inner: Seq<char>| t.decor_view().around(inner, (Seq::empty(), Seq::empty()));
    if path.len() == 0 {
        Seq::empty()
    } else if is_array {
        around(seq!['[', '['] + path_text(path) + seq![']', ']']) + seq!['\n']
    } else if !(t.implicit_view() && value_count(
        table_model(t).entries,
        table_model(t).entries.len(),
    ) == 0) {
        around(seq!['['] + path_text(path) + seq![']']) + seq!['\n']
    } else {
        Seq::empty()
    }
}

/// The text of a table: its header and the lines of its values.
pub open spec fn section_text(t: Table, path: Seq<Seq<char>>, is_array: bool) -> Seq<char> {
    header_text(t, path, is_array) + body_text(t.items_view(), t.items_view().len())
}

/// The text of a table and, after it, of the tables under it, depth first.
pub open spec fn tree_text(t: Table, path: Seq<Seq<char>>, is_array: bool) -> Seq<char>
    decreases t, 2nat,
{
    proof {
        lemma_table_items_decrease(t);
    }
    section_text(t, path, is_array) + children_text(t.items_view(), t.items_view().len(), path)
}

/// The texts of the tables under the first `n` entries.
pub open spec fn children_text(items: Seq<TableKeyValue>, n: nat, path: Seq<Seq<char>>) -> Seq<
    char,
>
    decreases items, n,
{
    if n == 0 || n > items.len() {
        Seq::empty()
    } else {
        proof {
            lemma_entry_item_decreases(items[n - 1]);
        }
        children_text(items, (n - 1) as nat, path) + match items[n - 1].value_view() {
            Item::Table(sub) => tree_text(
                sub,
                path.push(items[n - 1].key_view().repr_view()@),
                false,
            ),
            Item::ArrayOfTables(a) => {
                proof {
                    lemma_array_tables_decrease(a);
                }
                array_text(
                a.values_view(),
                a.values_view().len(),
                path.push(items[n - 1].key_view().repr_view()@),
            )},
            _ => Seq::empty(),
        }
    }
}

/// The texts of the first `n` tables of an array of tables.
pub open spec fn array_text(ts: Seq<Table>, n: nat, path: Seq<Seq<char>>) -> Seq<char>
    decreases ts, n,
{
    if n == 0 || n > ts.len() {
        Seq::empty()
    } else {
        array_text(ts, (n - 1) as nat, path) + tree_text(ts[n - 1], path, true)
    }
}

/// The text of a document: its tables, then what follows them.
pub open spec fn document_text(d: Document) -> Seq<char> {
    tree_text(d.root_view(), Seq::empty(), false) + d.trailing_view()
}

/// Adding an entry leaves the lines of the entries before it, and the
/// tables under them, as they were.
proof fn lemma_text_push_prefix(items: Seq<TableKeyValue>, kv: TableKeyValue, n: nat, path: Seq<Seq<char>>)
    requires
        n <= items.len(),
    ensures
        body_text(items.push(kv), n) == body_text(items, n),
        children_text(items.push(kv), n, path) == children_text(items, n, path),
    decreases n,
{
    if n > 0 {
        lemma_text_push_prefix(items, kv, (n - 1) as nat, path);
        assert(items.push(kv)[n - 1] == items[n - 1]);
    }
}

/// Adding an entry adds its line to the lines of the entries, and the
/// tables under it to the tables under them.
pub proof fn lemma_text_push(items: Seq<TableKeyValue>, kv: TableKeyValue, path: Seq<Seq<char>>)
    ensures
        body_text(items.push(kv), items.len() + 1) == body_text(items, items.len()) + entry_line(kv),
        children_text(items.push(kv), items.len() + 1, path) == children_text(
            items,
            items.len(),
            path,
        ) + match kv.value_view() {
            Item::Table(sub) => tree_text(sub, path.push(kv.key_view().repr_view()@), false),
            Item::ArrayOfTables(a) => array_text(
                a.values_view(),
                a.values_view().len(),
                path.push(kv.key_view().repr_view()@),
            ),
            _ => Seq::empty(),
        },
{
    lemma_text_push_prefix(items, kv, items.len(), path);
    assert(items.push(kv)[items.len() as int] == kv);
}

/// Adding a table to an array of tables leaves the texts of the tables
/// before it as they were.
proof fn lemma_array_text_prefix(ts: Seq<Table>, t: Table, n: nat, path: Seq<Seq<char>>)
    requires
        n <= ts.len(),
    ensures
        array_text(ts.push(t), n, path) == array_text(ts, n, path),
    decreases n,
{
    if n > 0 {
        lemma_array_text_prefix(ts, t, (n - 1) as nat, path);
        assert(ts.push(t)[n - 1] == ts[n - 1]);
    }
}

/// Adding a table to an array of tables adds its text after theirs.
pub proof fn lemma_array_text_push(ts: Seq<Table>, t: Table, path: Seq<Seq<char>>)
    ensures
        array_text(ts.push(t), ts.len() + 1, path) == array_text(ts, ts.len(), path) + tree_text(
            t,
            path,
            true,
        ),
{
    lemma_array_text_prefix(ts, t, ts.len(), path);
    assert(ts.push(t)[ts.len() as int] == t);
}

/// Entries that all hold values have no tables under them.
pub proof fn lemma_no_children(items: Seq<TableKeyValue>, n: nat, path: Seq<Seq<char>>)
    requires
        n <= items.len(),
        forall|j: int| 0 <= j < items.len() ==> #[trigger] items[j].value_view() is Value,
    ensures
        children_text(items, n, path) == Seq::<char>::empty(),
    decreases n,
{
    if n > 0 {
        lemma_no_children(items, (n - 1) as nat, path);
        assert(items[n - 1].value_view() is Value);
    }
}

/// The texts of strings.
pub open spec fn strings_view(v: Seq<String>) -> Seq<Seq<char>> {
    v.map_values(|x: String| x@)
}

/// Writes the lines of the entries that hold values.
fn write_body(items: &Vec<TableKeyValue>, out: &mut String)
    ensures
        final(out)@ == old(out)@ + body_text(items@, items@.len()),
{
    let ghost start = out@;
    let mut i: usize = 0;
    while i < items.len()
        invariant
            i <= items@.len(),
            out@ == start + body_text(items@, i as nat),
        decreases items@.len() - i,
    {
        let kv = &items[i];
        match kv.value() {
            Item::Value(v) => {
                proof {
                    reveal_strlit("");
                    reveal_strlit(" ");
                }
                kv.key().display_with_decor(out, "", " ");
                push_char(out, '=');
                let t = v.to_toml_string();
                out.append(t.as_str());
                push_char(out, '\n');
            },
            _ => {},
        }
        assert(out@ =~= start + body_text(items@, (i + 1) as nat));
        i = i + 1;
    }
}

/// Writes the keys of a header, joined by dots.
fn write_path(path: &Vec<String>, out: &mut String)
    ensures
        final(out)@ == old(out)@ + path_text(strings_view(path@)),
{
    let ghost start = out@;
    let mut i: usize = 0;
    while i < path.len()
        invariant
            i <= path@.len(),
            out@ == start + path_text(strings_view(path@.subrange(0, i as int))),
        decreases path@.len() - i,
    {
        let ghost before = strings_view(path@.subrange(0, i as int));
        let ghost after = strings_view(path@.subrange(0, i + 1));
        assert(after.drop_last() =~= before);
        assert(after.last() == path@[i as int]@);
        if i > 0 {
            push_char(out, '.');
        }
        out.append(path[i].as_str());
        i = i + 1;
    }
    assert(path@.subrange(0, path@.len() as int) =~= path@);
}

/// Writes the header of a table under `path`.
fn write_header(t: &Table, path: &Vec<String>, is_array: bool, out: &mut String)
    ensures
        final(out)@ == old(out)@ + header_text(*t, strings_view(path@), is_array),
{
    if path.len() == 0 {
        return;
    }
    let shown = is_array || !(t.is_implicit() && t.values_len() == 0);
    if !shown {
        return;
    }
    let mut inner = String::new();
    push_char(&mut inner, '[');
    if is_array {
        push_char(&mut inner, '[');
    }
    write_path(path, &mut inner);
    push_char(&mut inner, ']');
    if is_array {
        push_char(&mut inner, ']');
    }
    proof {
        reveal_strlit("");
    }
    t.header_decor().display(out, inner.as_str(), "", "");
    push_char(out, '\n');
}

/// Writes a table and, after it, the tables under it, depth first.
fn write_tree(t: &Table, path: &mut Vec<String>, is_array: bool, out: &mut String)
    ensures
        final(out)@ == old(out)@ + tree_text(*t, strings_view(old(path)@), is_array),
        final(path)@ == old(path)@,
    decreases t, 2nat,
{
    let ghost start = out@;
    write_header(t, path, is_array, out);
    write_body(t.items(), out);
    proof {
        lemma_table_items_decrease(*t);
    }
    write_children(t.items(), path, out);
}

/// Writes the tables under the entries.
fn write_children(items: &Vec<TableKeyValue>, path: &mut Vec<String>, out: &mut String)
    ensures
        final(out)@ == old(out)@ + children_text(items@, items@.len(), strings_view(old(path)@)),
        final(path)@ == old(path)@,
    decreases items@, 1nat,
{
    let ghost start = out@;
    let ghost p = strings_view(path@);
    let ghost path0 = path@;
    let mut i: usize = 0;
    while i < items.len()
        invariant
            i <= items@.len(),
            path@ == path0,
            strings_view(path@) == p,
            out@ == start + children_text(items@, i as nat, p),
        decreases items@.len() - i,
    {
        let kv = &items[i];
        proof {
            lemma_entry_item_decreases(items@[i as int]);
        }
        let ghost before = path@;
        match kv.value() {
            Item::Table(sub) => {
                path.push(kv.key().to_repr_string());
                proof {
                    assert(strings_view(path@) =~= p.push(kv.key_view().repr_view()@));
                }
                write_tree(sub, path, false, out);
                path.pop();
                proof {
                    assert(path@ =~= before);
                }
            },
            Item::ArrayOfTables(a) => {
                path.push(kv.key().to_repr_string());
                proof {
                    assert(strings_view(path@) =~= p.push(kv.key_view().repr_view()@));
                    lemma_array_tables_decrease(*a);
                }
                write_array(a.tables(), path, out);
                path.pop();
                proof {
                    assert(path@ =~= before);
                }
            },
            _ => {},
        }
        assert(out@ =~= start + children_text(items@, (i + 1) as nat, p));
        i = i + 1;
    }
}

/// Writes the tables of an array of tables, each with a `[[...]]` header.
fn write_array(ts: &Vec<Table>, path: &mut Vec<String>, out: &mut String)
    ensures
        final(out)@ == old(out)@ + array_text(ts@, ts@.len(), strings_view(old(path)@)),
        final(path)@ == old(path)@,
    decreases ts@, 1nat,
{
    let ghost start = out@;
    let ghost p = strings_view(path@);
    let ghost path0 = path@;
    let mut i: usize = 0;
    while i < ts.len()
        invariant
            i <= ts@.len(),
            path@ == path0,
            strings_view(path@) == p,
            out@ == start + array_text(ts@, i as nat, p),
        decreases ts@.len() - i,
    {
        write_tree(&ts[i], path, true, out);
        assert(out@ =~= start + array_text(ts@, (i + 1) as nat, p));
        i = i + 1;
    }
}

impl Table {
    /// The TOML text of the table and of the tables under it, depth first.
    pub fn to_toml_string(&self) -> (s: String)
        ensures
            s@ == tree_text(*self, Seq::empty(), false),
    {
        let mut out = String::new();
        let mut path: Vec<String> = Vec::new();
        proof {
            assert(strings_view(path@) =~= Seq::<Seq<char>>::empty());
        }
        write_tree(self, &mut path, false, &mut out);
        out
    }
}

impl Document {
    /// The TOML text of the document: its tables, depth first, then what
    /// follows them.
    pub fn to_toml_string(&self) -> (s: String)
        ensures
            s@ == document_text(*self),
    {
        let mut out = self.as_table().to_toml_string();
        out.append(self.trailing());
        out
    }
}

/// The position in force once a table is reached: its own where it has one,
/// else the last one before it.
pub open spec fn position_from(t: Table, last: nat) -> nat {
    match t.position_view() {
        Some(p) => p as nat,
        None => last,
    }
}

/// The position in force after a table and the tables under it.
pub open spec fn tree_last(t: Table, last: nat) -> nat
    decreases t, 2nat,
{
    proof {
        lemma_table_items_decrease(t);
    }
    children_last(t.items_view(), t.items_view().len(), position_from(t, last))
}

/// The position in force after the tables under the first `n` entries.
pub open spec fn children_last(items: Seq<TableKeyValue>, n: nat, last: nat) -> nat
    decreases items, n,
{
    if n == 0 || n > items.len() {
        last
    } else {
        proof {
            lemma_entry_item_decreases(items[n - 1]);
        }
        let before = children_last(items, (n - 1) as nat, last);
        match items[n - 1].value_view() {
            Item::Table(sub) => tree_last(sub, before),
            Item::ArrayOfTables(a) => {
                proof {
                    lemma_array_tables_decrease(a);
                }
                array_last(a.values_view(), a.values_view().len(), before)
            },
            _ => before,
        }
    }
}

/// The position in force after the first `n` tables of an array of tables.
pub open spec fn array_last(ts: Seq<Table>, n: nat, last: nat) -> nat
    decreases ts, n,
{
    if n == 0 || n > ts.len() {
        last
    } else {
        tree_last(ts[n - 1], array_last(ts, (n - 1) as nat, last))
    }
}

/// The texts of a table and of the tables under it, depth first, each with
/// the position in force when it is reached.
pub open spec fn tree_sections(t: Table, path: Seq<Seq<char>>, is_array: bool, last: nat) -> Seq<
    (nat, Seq<char>),
>
    decreases t, 2nat,
{
    proof {
        lemma_table_items_decrease(t);
    }
    seq![(position_from(t, last), section_text(t, path, is_array))] + children_sections(
        t.items_view(),
        t.items_view().len(),
        path,
        position_from(t, last),
    )
}

/// The texts, with their positions, of the tables under the first `n`
/// entries.
pub open spec fn children_sections(
    items: Seq<TableKeyValue>,
    n: nat,
    path: Seq<Seq<char>>,
    last: nat,
) -> Seq<(nat, Seq<char>)>
    decreases items, n,
{
    if n == 0 || n > items.len() {
        Seq::empty()
    } else {
        proof {
            lemma_entry_item_decreases(items[n - 1]);
        }
        let before = children_last(items, (n - 1) as nat, last);
        children_sections(items, (n - 1) as nat, path, last) + match items[n - 1].value_view() {
            Item::Table(sub) => tree_sections(
                sub,
                path.push(items[n - 1].key_view().repr_view()@),
                false,
                before,
            ),
            Item::ArrayOfTables(a) => {
                proof {
                    lemma_array_tables_decrease(a);
                }
                array_sections(
                    a.values_view(),
                    a.values_view().len(),
                    path.push(items[n - 1].key_view().repr_view()@),
                    before,
                )
            },
            _ => Seq::empty(),
        }
    }
}

/// The texts, with their positions, of the first `n` tables of an array of
/// tables.
pub open spec fn array_sections(ts: Seq<Table>, n: nat, path: Seq<Seq<char>>, last: nat) -> Seq<
    (nat, Seq<char>),
>
    decreases ts, n,
{
    if n == 0 || n > ts.len() {
        Seq::empty()
    } else {
        array_sections(ts, (n - 1) as nat, path, last) + tree_sections(
            ts[n - 1],
            path,
            true,
            array_last(ts, (n - 1) as nat, last),
        )
    }
}

/// The positions and texts of sections.
pub open spec fn sections_view(v: Seq<(usize, String)>) -> Seq<(nat, Seq<char>)> {
    v.map_values(|x: (usize, String)| (x.0 as nat, x.1@))
}

proof fn lemma_sections_push(v: Seq<(usize, String)>, x: (usize, String))
    ensures
        sections_view(v.push(x)) == sections_view(v).push((x.0 as nat, x.1@)),
{
    assert(sections_view(v.push(x)) =~= sections_view(v).push((x.0 as nat, x.1@)));
}

/// Collects the text of a table and of the tables under it, depth first,
/// each with the position in force when it is reached.
fn collect_tree(
    t: &Table,
    path: &mut Vec<String>,
    is_array: bool,
    last: &mut usize,
    out: &mut Vec<(usize, String)>,
)
    ensures
        sections_view(final(out)@) == sections_view(old(out)@) + tree_sections(
            *t,
            strings_view(old(path)@),
            is_array,
            *old(last) as nat,
        ),
        *final(last) as nat == tree_last(*t, *old(last) as nat),
        final(path)@ == old(path)@,
    decreases t, 2nat,
{
    let ghost start = sections_view(out@);
    let here = match t.position() {
        Some(p) => p,
        None => *last,
    };
    *last = here;
    let mut text = String::new();
    write_header(t, path, is_array, &mut text);
    write_body(t.items(), &mut text);
    let ghost before = out@;
    out.push((here, text));
    proof {
        lemma_sections_push(before, out@.last());
        assert(out@ == before.push(out@.last()));
        lemma_table_items_decrease(*t);
    }
    let ghost mid = sections_view(out@);
    collect_children(t.items(), path, last, out);
    assert(sections_view(out@) =~= start + tree_sections(
        *t,
        strings_view(path@),
        is_array,
        *old(last) as nat,
    ));
}

/// Collects the texts, with their positions, of the tables under the
/// entries.
fn collect_children(
    items: &Vec<TableKeyValue>,
    path: &mut Vec<String>,
    last: &mut usize,
    out: &mut Vec<(usize, String)>,
)
    ensures
        sections_view(final(out)@) == sections_view(old(out)@) + children_sections(
            items@,
            items@.len(),
            strings_view(old(path)@),
            *old(last) as nat,
        ),
        *final(last) as nat == children_last(items@, items@.len(), *old(last) as nat),
        final(path)@ == old(path)@,
    decreases items@, 1nat,
{
    let ghost start = sections_view(out@);
    let ghost p = strings_view(path@);
    let ghost path0 = path@;
    let ghost last0 = *last as nat;
    let mut i: usize = 0;
    while i < items.len()
        invariant
            i <= items@.len(),
            path@ == path0,
            strings_view(path@) == p,
            sections_view(out@) == start + children_sections(items@, i as nat, p, last0),
            *last as nat == children_last(items@, i as nat, last0),
        decreases items@.len() - i,
    {
        let kv = &items[i];
        proof {
            lemma_entry_item_decreases(items@[i as int]);
        }
        let ghost before = path@;
        match kv.value() {
            Item::Table(sub) => {
                path.push(kv.key().to_repr_string());
                proof {
                    assert(strings_view(path@) =~= p.push(kv.key_view().repr_view()@));
                }
                collect_tree(sub, path, false, last, out);
                path.pop();
                proof {
                    assert(path@ =~= before);
                }
            },
            Item::ArrayOfTables(a) => {
                path.push(kv.key().to_repr_string());
                proof {
                    assert(strings_view(path@) =~= p.push(kv.key_view().repr_view()@));
                    lemma_array_tables_decrease(*a);
                }
                collect_array(a.tables(), path, last, out);
                path.pop();
                proof {
                    assert(path@ =~= before);
                }
            },
            _ => {},
        }
        assert(sections_view(out@) =~= start + children_sections(items@, (i + 1) as nat, p, last0));
        i = i + 1;
    }
}

/// Collects the texts, with their positions, of the tables of an array of
/// tables.
fn collect_array(
    ts: &Vec<Table>,
    path: &mut Vec<String>,
    last: &mut usize,
    out: &mut Vec<(usize, String)>,
)
    ensures
        sections_view(final(out)@) == sections_view(old(out)@) + array_sections(
            ts@,
            ts@.len(),
            strings_view(old(path)@),
            *old(last) as nat,
        ),
        *final(last) as nat == array_last(ts@, ts@.len(), *old(last) as nat),
        final(path)@ == old(path)@,
    decreases ts@, 1nat,
{
    let ghost start = sections_view(out@);
    let ghost p = strings_view(path@);
    let ghost path0 = path@;
    let ghost last0 = *last as nat;
    let mut i: usize = 0;
    while i < ts.len()
        invariant
            i <= ts@.len(),
            path@ == path0,
            strings_view(path@) == p,
            sections_view(out@) == start + array_sections(ts@, i as nat, p, last0),
            *last as nat == array_last(ts@, i as nat, last0),
        decreases ts@.len() - i,
    {
        collect_tree(&ts[i], path, true, last, out);
        assert(sections_view(out@) =~= start + array_sections(ts@, (i + 1) as nat, p, last0));
        i = i + 1;
    }
}

/// `o` is `v` ordered by position, sections at the same position in the
/// order they had: the section at `k` of `o` is the section at `p[k]` of
/// `v`.
pub open spec fn sorted_by_position_as(
    v: Seq<(nat, Seq<char>)>,
    o: Seq<(nat, Seq<char>)>,
    p: Seq<int>,
) -> bool {
    &&& o.len() == v.len()
    &&& p.len() == v.len()
    &&& forall|k: int| 0 <= k < o.len() ==> 0 <= #[trigger] p[k] < v.len() && o[k] == v[p[k]]
    &&& forall|k: int, l: int| 0 <= k < l < o.len() ==> #[trigger] p[k] != #[trigger] p[l]
    &&& forall|k: int, l: int|
        #![trigger o[k], o[l]]
        0 <= k < l < o.len() ==> o[k].0 <= o[l].0 && (o[k].0 == o[l].0 ==> p[k] < p[l])
}

/// `o` is `v` ordered by position, sections at the same position in the
/// order they had.
pub open spec fn sorted_by_position(v: Seq<(nat, Seq<char>)>, o: Seq<(nat, Seq<char>)>) -> bool {
    exists|p: Seq<int>| sorted_by_position_as(v, o, p)
}

/// The texts of sections, one after the other.
pub open spec fn sections_text(o: Seq<(nat, Seq<char>)>) -> Seq<char>
    decreases o.len(),
{
    if o.len() == 0 {
        Seq::empty()
    } else {
        sections_text(o.drop_last()) + o.last().1
    }
}

/// Orders sections by position; those at the same position keep their
/// order.
fn sort_sections(v: Vec<(usize, String)>) -> (r: Vec<(usize, String)>)
    ensures
        sorted_by_position(sections_view(v@), sections_view(r@)),
{
    let ghost orig = v@;
    let ghost ov = sections_view(orig);
    assert(orig.len() == v.len());
    let mut rest = v;
    let mut sorted: Vec<(usize, String)> = Vec::new();
    let ghost mut p: Seq<int> = Seq::empty();
    let mut i: usize = 0;
    proof {
        assert(sections_view(orig.take(0)) =~= Seq::<(nat, Seq<char>)>::empty());
        assert(sections_view(sorted@) =~= Seq::<(nat, Seq<char>)>::empty());
    }
    while rest.len() > 0
        invariant
            i <= orig.len() <= usize::MAX,
            ov == sections_view(orig),
            rest@ == orig.skip(i as int),
            sorted_by_position_as(sections_view(orig.take(i as int)), sections_view(sorted@), p),
        decreases rest@.len(),
    {
        assert(rest@.len() == orig.len() - i);
        let x = rest.remove(0);
        let ghost vs = sections_view(orig.take(i as int));
        let ghost vs2 = sections_view(orig.take(i + 1));
        let ghost n = vs.len() as int;
        proof {
            assert(rest@ =~= orig.skip(i + 1));
            assert(vs2 =~= vs.push((x.0 as nat, x.1@)));
        }
        let ghost before = sorted@;
        let ghost bv = sections_view(before);
        let mut pos: usize = 0;
        while pos < sorted.len() && sorted[pos].0 <= x.0
            invariant
                pos <= sorted@.len(),
                sorted@ == before,
                bv == sections_view(before),
                bv.len() == n,
                forall|k: int| 0 <= k < pos ==> (#[trigger] bv[k]).0 <= x.0,
            decreases sorted@.len() - pos,
        {
            pos = pos + 1;
        }
        let ghost xv = (x.0 as nat, x.1@);
        sorted.insert(pos, x);
        proof {
            let o = sections_view(sorted@);
            assert(o =~= bv.insert(pos as int, xv));
            let p2 = p.insert(pos as int, n);
            assert forall|k: int| 0 <= k < o.len() implies 0 <= #[trigger] p2[k] < vs2.len()
                && o[k] == vs2[p2[k]] by {
                if k < pos {
                    assert(p2[k] == p[k]);
                } else if k > pos {
                    assert(p2[k] == p[k - 1]);
                }
            }
            assert forall|k: int, l: int| 0 <= k < l < o.len() implies #[trigger] p2[k]
                != #[trigger] p2[l] by {
                if k != pos && l != pos {
                    let k0 = if k < pos { k } else { k - 1 };
                    let l0 = if l < pos { l } else { l - 1 };
                    assert(p2[k] == p[k0] && p2[l] == p[l0]);
                    assert(p[k0] != p[l0]);
                } else if k == pos {
                    assert(p2[l] == p[l - 1]);
                    assert(0 <= p[l - 1] < n);
                } else {
                    assert(p2[k] == p[k]);
                    assert(0 <= p[k] < n);
                }
            }
            assert forall|k: int, l: int|
                #![trigger o[k], o[l]]
                0 <= k < l < o.len() implies o[k].0 <= o[l].0 && (o[k].0 == o[l].0 ==> p2[k]
                < p2[l]) by {
                if k != pos && l != pos {
                    let k0 = if k < pos { k } else { k - 1 };
                    let l0 = if l < pos { l } else { l - 1 };
                    assert(o[k] == bv[k0] && o[l] == bv[l0]);
                    assert(p2[k] == p[k0] && p2[l] == p[l0]);
                    assert(bv[k0].0 <= bv[l0].0);
                } else if k == pos {
                    assert(o[l] == bv[l - 1]);
                    assert(bv[pos as int].0 > xv.0);
                    if l - 1 > pos {
                        assert(bv[pos as int].0 <= bv[l - 1].0);
                    }
                } else {
                    assert(o[k] == bv[k]);
                    assert(bv[k].0 <= xv.0);
                    assert(p2[k] == p[k]);
                    assert(0 <= p[k] < n);
                    assert(p2[l] == n);
                }
            }
            assert(sorted_by_position_as(vs2, o, p2));
            p = p2;
        }
        i = i + 1;
    }
    proof {
        assert(orig.take(i as int) =~= orig);
    }
    sorted
}

impl Document {
    /// The TOML text of the document with its tables in the order of their
    /// positions: each table, with the tables under it that have no position
    /// of their own, takes the last position set before it (`0` before any),
    /// and tables at the same position keep the order of `to_toml_string`;
    /// then what follows them.
    pub fn to_string_in_original_order(&self) -> (s: String)
        ensures
            exists|o: Seq<(nat, Seq<char>)>|
                sorted_by_position(tree_sections(self.root_view(), Seq::empty(), false, 0), o)
                    && s@ == sections_text(o) + self.trailing_view(),
    {
        let mut path: Vec<String> = Vec::new();
        let mut last: usize = 0;
        let mut tables: Vec<(usize, String)> = Vec::new();
        proof {
            assert(strings_view(path@) =~= Seq::<Seq<char>>::empty());
            assert(sections_view(tables@) =~= Seq::<(nat, Seq<char>)>::empty());
        }
        collect_tree(self.as_table(), &mut path, false, &mut last, &mut tables);
        let sorted = sort_sections(tables);
        let ghost o = sections_view(sorted@);
        let mut out = String::new();
        let mut k: usize = 0;
        while k < sorted.len()
            invariant
                k <= sorted@.len(),
                o == sections_view(sorted@),
                out@ == sections_text(o.take(k as int)),
            decreases sorted@.len() - k,
        {
            proof {
                assert(o.take(k + 1).drop_last() =~= o.take(k as int));
            }
            out.append(sorted[k].1.as_str());
            k = k + 1;
        }
        proof {
            assert(o.take(o.len() as int) =~= o);
        }
        out.append(self.trailing());
        out
    }
}

proof fn lemma_sections_text_concat(a: Seq<(nat, Seq<char>)>, b: Seq<(nat, Seq<char>)>)
    ensures
        sections_text(a + b) == sections_text(a) + sections_text(b),
    decreases b.len(),
{
    if b.len() == 0 {
        assert(a + b =~= a);
    } else {
        assert((a + b).drop_last() =~= a + b.drop_last());
        lemma_sections_text_concat(a, b.drop_last());
    }
}

/// The texts of a table's sections, one after the other, are the table's
/// text.
proof fn lemma_tree_sections_text(t: Table, path: Seq<Seq<char>>, is_array: bool, last: nat)
    ensures
        sections_text(tree_sections(t, path, is_array, last)) == tree_text(t, path, is_array),
    decreases t, 2nat,
{
    lemma_table_items_decrease(t);
    let here = seq![(position_from(t, last), section_text(t, path, is_array))];
    let rest = children_sections(t.items_view(), t.items_view().len(), path, position_from(t, last));
    lemma_children_sections_text(t.items_view(), t.items_view().len(), path, position_from(t, last));
    lemma_sections_text_concat(here, rest);
    assert(here.drop_last() =~= Seq::<(nat, Seq<char>)>::empty());
    assert(sections_text(here.drop_last()) == Seq::<char>::empty());
    assert(here.last().1 == section_text(t, path, is_array));
    assert(Seq::<char>::empty() + section_text(t, path, is_array) =~= section_text(
        t,
        path,
        is_array,
    ));
    assert(sections_text(here) == section_text(t, path, is_array));
    assert(tree_sections(t, path, is_array, last) == here + rest);
}

proof fn lemma_children_sections_text(
    items: Seq<TableKeyValue>,
    n: nat,
    path: Seq<Seq<char>>,
    last: nat,
)
    ensures
        sections_text(children_sections(items, n, path, last)) == children_text(items, n, path),
    decreases items, n,
{
    if n == 0 || n > items.len() {
    } else {
        lemma_entry_item_decreases(items[n - 1]);
        let before = children_last(items, (n - 1) as nat, last);
        lemma_children_sections_text(items, (n - 1) as nat, path, last);
        let head = children_sections(items, (n - 1) as nat, path, last);
        match items[n - 1].value_view() {
            Item::Table(sub) => {
                let q = path.push(items[n - 1].key_view().repr_view()@);
                lemma_tree_sections_text(sub, q, false, before);
                lemma_sections_text_concat(head, tree_sections(sub, q, false, before));
            },
            Item::ArrayOfTables(a) => {
                lemma_array_tables_decrease(a);
                let q = path.push(items[n - 1].key_view().repr_view()@);
                lemma_array_sections_text(a.values_view(), a.values_view().len(), q, before);
                lemma_sections_text_concat(
                    head,
                    array_sections(a.values_view(), a.values_view().len(), q, before),
                );
            },
            _ => {
                assert(head + Seq::<(nat, Seq<char>)>::empty() =~= head);
            },
        }
    }
}

proof fn lemma_array_sections_text(ts: Seq<Table>, n: nat, path: Seq<Seq<char>>, last: nat)
    ensures
        sections_text(array_sections(ts, n, path, last)) == array_text(ts, n, path),
    decreases ts, n,
{
    if n == 0 || n > ts.len() {
    } else {
        let before = array_last(ts, (n - 1) as nat, last);
        lemma_array_sections_text(ts, (n - 1) as nat, path, last);
        lemma_tree_sections_text(ts[n - 1], path, true, before);
        lemma_sections_text_concat(
            array_sections(ts, (n - 1) as nat, path, last),
            tree_sections(ts[n - 1], path, true, before),
        );
    }
}

/// Positions that never go down along the sections.
pub open spec fn positions_ascend(v: Seq<(nat, Seq<char>)>) -> bool {
    forall|k: int, l: int| #![trigger v[k], v[l]] 0 <= k < l < v.len() ==> v[k].0 <= v[l].0
}

proof fn lemma_increasing_low(p: Seq<int>, k: int)
    requires
        0 <= k < p.len(),
        forall|i: int| 0 <= i < p.len() ==> 0 <= #[trigger] p[i],
        forall|i: int, j: int| 0 <= i < j < p.len() ==> #[trigger] p[i] < #[trigger] p[j],
    ensures
        k <= p[k],
    decreases k,
{
    if k > 0 {
        lemma_increasing_low(p, k - 1);
        assert(p[k - 1] < p[k]);
    }
}

proof fn lemma_increasing_high(p: Seq<int>, k: int)
    requires
        0 <= k < p.len(),
        forall|i: int| 0 <= i < p.len() ==> #[trigger] p[i] < p.len(),
        forall|i: int, j: int| 0 <= i < j < p.len() ==> #[trigger] p[i] < #[trigger] p[j],
    ensures
        p[k] <= k,
    decreases p.len() - k,
{
    if k + 1 < p.len() {
        lemma_increasing_high(p, k + 1);
        assert(p[k] < p[k + 1]);
    }
}

/// Sections whose positions already ascend are left as they are.
proof fn lemma_sorted_ascending(v: Seq<(nat, Seq<char>)>, o: Seq<(nat, Seq<char>)>, p: Seq<int>)
    requires
        positions_ascend(v),
        sorted_by_position_as(v, o, p),
    ensures
        o == v,
{
    assert forall|i: int, j: int| 0 <= i < j < p.len() implies #[trigger] p[i] < #[trigger] p[j] by {
        assert(o[i] == v[p[i]] && o[j] == v[p[j]]);
        assert(o[i].0 <= o[j].0);
        assert(p[i] != p[j]);
        if p[j] < p[i] {
            assert(v[p[j]].0 <= v[p[i]].0);
        }
    }
    assert forall|k: int| 0 <= k < o.len() implies o[k] == v[k] by {
        lemma_increasing_low(p, k);
        lemma_increasing_high(p, k);
    }
    assert(o =~= v);
}

/// Where the positions of a document's tables already ascend in the order
/// they are written, writing them in the order of their positions writes the
/// document as `to_toml_string` does.
pub proof fn law_original_order_keeps_ascending(d: Document, o: Seq<(nat, Seq<char>)>)
    requires
        positions_ascend(tree_sections(d.root_view(), Seq::empty(), false, 0)),
        sorted_by_position(tree_sections(d.root_view(), Seq::empty(), false, 0), o),
    ensures
        sections_text(o) + d.trailing_view() == document_text(d),
{
    let v = tree_sections(d.root_view(), Seq::empty(), false, 0);
    let p = choose|p: Seq<int>| sorted_by_position_as(v, o, p);
    lemma_sorted_ascending(v, o, p);
    lemma_tree_sections_text(d.root_view(), Seq::empty(), false, 0);
}

} // verus!
