//! Arrays of tables: reading, adding and removing their tables.

use vstd::prelude::*;

use crate::array::array_value_prefix;
use crate::inline_table::inline_entries;
use crate::table::value_count;
use crate::value::{
    decorated_as,
    entries_model,
    item_model,
    lemma_array_tables_decrease,
    lemma_entries_model,
    lemma_entry_item_decreases,
    lemma_same_but_decor,
    lemma_table_items_decrease,
    lemma_values_model,
    table_model,
    tables_model,
    value_decor,
    value_model,
    values_model,
    Array,
    ArrayOfTables,
    InlineTable,
    Item,
    Table,
    TableKeyValue,
    TomlItem,
    TomlTable,
    TomlValue,
    Value,
};

verus! {

impl ArrayOfTables {
    /// An empty array of tables.
    pub fn new() -> (a: ArrayOfTables)
        ensures
            a.values_view() == Seq::<Table>::empty(),
    {
        ArrayOfTables::from_tables(Vec::new())
    }

    /// The number of tables.
    pub fn len(&self) -> (n: usize)
        ensures
            n == self.values_view().len(),
    {
        self.tables().len()
    }

    /// Whether there is no table.
    pub fn is_empty(&self) -> (b: bool)
        ensures
            b == (self.values_view().len() == 0),
    {
        self.len() == 0
    }

    /// Removes all the tables.
    pub fn clear(&mut self)
        ensures
            final(self).values_view() == Seq::<Table>::empty(),
    {
        let _ = self.take_tables();
    }

    /// The table at `index`, if there is one.
    pub fn get(&self, index: usize) -> (r: Option<&Table>)
        ensures
            index < self.values_view().len() ==> r == Some(&self.values_view()[index as int]),
            index >= self.values_view().len() ==> r is None,
    {
        if index < self.tables().len() {
            Some(&self.tables()[index])
        } else {
            None
        }
    }

    /// Appends a table.
    pub fn push(&mut self, table: Table)
        ensures
            final(self).values_view() == old(self).values_view().push(table),
    {
        let mut tables = self.take_tables();
        tables.push(table);
        self.set_tables(tables);
    }

    /// Removes the table at `index`, moving the tables after it back.
    pub fn remove(&mut self, index: usize)
        requires
            index < old(self).values_view().len(),
        ensures
            final(self).values_view() == old(self).values_view().remove(index as int),
    {
        let mut tables = self.take_tables();
        let _ = tables.remove(index);
        self.set_tables(tables);
    }
}

} // verus!

verus! {

/// What an item means once written inline: a table becomes an inline table
/// and an array of tables an array of inline tables, all the way down.
pub open spec fn inlined_item(it: TomlItem) -> TomlItem
    decreases it, 0nat,
{
    match it {
        TomlItem::Table(t) => TomlItem::Value(
            TomlValue::InlineTable(inlined_entries(t.entries, t.entries.len())),
        ),
        TomlItem::ArrayOfTables(ts) => TomlItem::Value(
            TomlValue::Array(inlined_tables(ts, ts.len())),
        ),
        _ => it,
    }
}

/// The first `n` entries, each written inline.
pub open spec fn inlined_entries(es: Seq<(Seq<char>, TomlItem)>, n: nat) -> Seq<
    (Seq<char>, TomlItem),
>
    decreases es, n,
{
    if n == 0 || n > es.len() {
        Seq::empty()
    } else {
        inlined_entries(es, (n - 1) as nat).push((es[n - 1].0, inlined_item(es[n - 1].1)))
    }
}

/// The first `n` tables, each as an inline table.
pub open spec fn inlined_tables(ts: Seq<TomlTable>, n: nat) -> Seq<TomlValue>
    decreases ts, n,
{
    if n == 0 || n > ts.len() {
        Seq::empty()
    } else {
        inlined_tables(ts, (n - 1) as nat).push(
            TomlValue::InlineTable(inlined_entries(ts[n - 1].entries, ts[n - 1].entries.len())),
        )
    }
}

/// The first `n` entries written inline, one by one.
proof fn lemma_inlined_entries(es: Seq<(Seq<char>, TomlItem)>, n: nat)
    requires
        n <= es.len(),
    ensures
        inlined_entries(es, n).len() == n,
        forall|j: int|
            0 <= j < n ==> #[trigger] inlined_entries(es, n)[j] == (
                es[j].0,
                inlined_item(es[j].1),
            ),
    decreases n,
{
    if n > 0 {
        lemma_inlined_entries(es, (n - 1) as nat);
    }
}

/// The first `n` tables as inline tables, one by one.
proof fn lemma_inlined_tables(ts: Seq<TomlTable>, n: nat)
    requires
        n <= ts.len(),
    ensures
        inlined_tables(ts, n).len() == n,
        forall|j: int|
            0 <= j < n ==> #[trigger] inlined_tables(ts, n)[j] == TomlValue::InlineTable(
                inlined_entries(ts[j].entries, ts[j].entries.len()),
            ),
    decreases n,
{
    if n > 0 {
        lemma_inlined_tables(ts, (n - 1) as nat);
    }
}

/// The meanings of the first `n` tables, one by one.
proof fn lemma_tables_model(ts: Seq<Table>, n: nat)
    requires
        n <= ts.len(),
    ensures
        tables_model(ts, n).len() == n,
        forall|j: int| 0 <= j < n ==> #[trigger] tables_model(ts, n)[j] == table_model(ts[j]),
    decreases n,
{
    if n > 0 {
        lemma_tables_model(ts, (n - 1) as nat);
    }
}

/// Every value entry of `items` has a space on each side of its key and a
/// space before its value, and the last value a space after it.
pub open spec fn inline_layout(items: Seq<TableKeyValue>) -> bool {
    forall|j: int|
        0 <= j < items.len() ==> (#[trigger] items[j].value_view() matches Item::Value(w) ==> {
            &&& items[j].key_view().decor_view().prefix_view() == Some(seq![' '])
            &&& items[j].key_view().decor_view().suffix_view() == Some(seq![' '])
            &&& value_decor(w).prefix_view() == Some(seq![' '])
            &&& value_decor(w).suffix_view() == Some(
                if value_count(entries_model(items, items.len()), (j + 1) as nat) == value_count(
                    entries_model(items, items.len()),
                    items.len(),
                ) {
                    seq![' ']
                } else {
                    Seq::empty()
                },
            )
        })
}

/// `it` is the table `t` written inline: its entries written inline under
/// the same keys, written the same way, and formatted the default way, with
/// nothing inside the braces but the pairs.
pub open spec fn inline_form_of(it: InlineTable, t: Table) -> bool {
    &&& inline_entries(it) == inlined_entries(table_model(t).entries, table_model(t).entries.len())
    &&& inline_layout(it.items_view())
    &&& it.preamble_view() == Seq::<char>::empty()
    &&& !it.dotted_view()
    &&& it.items_view().len() == t.items_view().len()
    &&& forall|j: int|
        0 <= j < t.items_view().len() ==> (#[trigger] it.items_view()[j]).key_view().value()
            == t.items_view()[j].key_view().value() && it.items_view()[j].key_view().repr_view()
            == t.items_view()[j].key_view().repr_view()
}

/// The item written inline: a table becomes an inline table and an array of
/// tables an array, formatted the default way; other items stay as they are.
fn item_into_value(it: Item) -> (r: Item)
    ensures
        item_model(r) == inlined_item(item_model(it)),
    decreases it,
{
    match it {
        Item::Table(t) => {
            let ghost t0 = t;
            let r = table_into_inline(t);
            proof {
                assert(item_model(Item::Value(Value::InlineTable(r))) == TomlItem::Value(
                    value_model(Value::InlineTable(r)),
                ));
                assert(value_model(Value::InlineTable(r)) == TomlValue::InlineTable(
                    inline_entries(r),
                ));
                assert(item_model(Item::Table(t0)) == TomlItem::Table(table_model(t0)));
                assert(inlined_item(TomlItem::Table(table_model(t0))) == TomlItem::Value(
                    TomlValue::InlineTable(
                        inlined_entries(table_model(t0).entries, table_model(t0).entries.len()),
                    ),
                ));
                assert(it == Item::Table(t0));
            }
            Item::Value(Value::InlineTable(r))
        },
        Item::ArrayOfTables(a) => {
            proof {
                lemma_tables_model(a.values_view(), a.values_view().len());
            }
            let r = tables_into_array(a);
            Item::Value(Value::Array(r))
        },
        other => other,
    }
}

/// The table as an inline table: its entries written inline, then formatted
/// the default way.
#[verifier::loop_isolation(false)]
fn table_into_inline(t: Table) -> (r: InlineTable)
    ensures
        inline_form_of(r, t),
        r.decor_view().prefix_view() is None,
        r.decor_view().suffix_view() is None,
    decreases t,
{
    let ghost t0 = t;
    let mut t = t;
    let mut items = t.take_items();
    let ghost before = items@;
    let ghost e = entries_model(before, before.len());
    proof {
        lemma_entries_model(before, before.len());
        lemma_inlined_entries(e, e.len());
        lemma_table_items_decrease(t0);
    }
    let n = items.len();
    let mut i: usize = 0;
    while i < n
        invariant
            i <= n,
            n == before.len(),
            before == t0.items_view(),
            decreases_to!(t0 => before),
            e == entries_model(before, before.len()),
            e.len() == n,
            forall|j: int|
                0 <= j < n ==> #[trigger] e[j] == (
                    before[j].key_view().value(),
                    item_model(before[j].value_view()),
                ),
            items@.len() == n,
            forall|j: int|
                0 <= j < i ==> #[trigger] items@[j].key_view().value() == e[j].0 && item_model(
                    items@[j].value_view(),
                ) == inlined_item(e[j].1) && items@[j].key_view() == before[j].key_view(),
            forall|j: int| i <= j < n ==> #[trigger] items@[j] == before[j],
        decreases n - i,
    {
        let kv = items.remove(i);
        proof {
            lemma_entry_item_decreases(kv);
            assert(kv == before[i as int]);
        }
        let (k, it) = kv.into_parts();
        proof {
            assert(decreases_to!(before => before[i as int]));
            assert(decreases_to!(t0 => it));
        }
        let v = item_into_value(it);
        items.insert(i, TableKeyValue::new(k, v));
        i = i + 1;
    }
    proof {
        lemma_entries_model(items@, items@.len());
        assert(entries_model(items@, items@.len()) =~= inlined_entries(e, e.len()));
    }
    let mut r = InlineTable::from_parts(items, String::new(), false);
    let ghost unformatted = r;
    r.fmt();
    proof {
        lemma_entries_model(unformatted.items_view(), n as nat);
        lemma_entries_model(r.items_view(), n as nat);
        assert forall|j: int| 0 <= j < n implies #[trigger] inline_entries(r)[j] == inline_entries(
            unformatted,
        )[j] by {
            let a = r.items_view()[j];
            let b = unformatted.items_view()[j];
            if let Item::Value(w0) = b.value_view() {
                if let Item::Value(w) = a.value_view() {
                    lemma_same_but_decor(w, w0);
                }
            }
        }
        assert(inline_entries(r) =~= inline_entries(unformatted));
        assert forall|j: int| 0 <= j < n implies (#[trigger] r.items_view()[j].value_view() is Value)
            == (unformatted.items_view()[j].value_view() is Value) by {}
        assert(inline_layout(r.items_view()));
        assert forall|j: int| 0 <= j < t0.items_view().len() implies (#[trigger] r.items_view()[j]).key_view().value()
            == t0.items_view()[j].key_view().value() && r.items_view()[j].key_view().repr_view()
            == t0.items_view()[j].key_view().repr_view() by {
            assert(unformatted.items_view()[j] == items@[j]);
        }
        assert(inline_form_of(r, t0));
    }
    r
}

/// The tables as an array of inline tables, formatted the default way.
#[verifier::loop_isolation(false)]
fn tables_into_array(a: ArrayOfTables) -> (r: Array)
    ensures
        value_model(Value::Array(r)) == TomlValue::Array(
            inlined_tables(tables_model(a.values_view(), a.values_view().len()), a.values_view().len()),
        ),
        forall|i: int|
            0 <= i < r.values_view().len() ==> #[trigger] value_decor(r.values_view()[i]).prefix_view()
                == Some(array_value_prefix(i)) && value_decor(r.values_view()[i]).suffix_view()
                == Some(Seq::<char>::empty()),
        r.values_view().len() == a.values_view().len(),
        forall|i: int|
            0 <= i < r.values_view().len() ==> (#[trigger] r.values_view()[i] matches Value::InlineTable(
                it,
            ) && inline_form_of(it, a.values_view()[i])),
        r.trailing_view() == Seq::<char>::empty(),
        !r.trailing_comma_view(),
        r.decor_view().prefix_view() is None,
        r.decor_view().suffix_view() is None,
    decreases a,
{
    let ghost a0 = a;
    let tables = a.into_tables();
    let ghost ts = tables@;
    let ghost tm = tables_model(ts, ts.len());
    proof {
        lemma_array_tables_decrease(a0);
        lemma_tables_model(ts, ts.len());
        lemma_inlined_tables(tm, tm.len());
    }
    let mut tables = tables;
    let mut values: Vec<Value> = Vec::new();
    let n = tables.len();
    let mut i: usize = 0;
    while i < n
        invariant
            i <= n,
            n == ts.len(),
            ts == a0.values_view(),
            decreases_to!(a0 => ts),
            tm == tables_model(ts, ts.len()),
            tm.len() == n,
            forall|j: int| 0 <= j < n ==> #[trigger] tm[j] == table_model(ts[j]),
            tables@ == ts.subrange(i as int, n as int),
            values@.len() == i,
            forall|j: int|
                0 <= j < i ==> #[trigger] value_model(values@[j]) == TomlValue::InlineTable(
                    inlined_entries(tm[j].entries, tm[j].entries.len()),
                ),
            forall|j: int|
                0 <= j < i ==> (#[trigger] values@[j] matches Value::InlineTable(it) && inline_form_of(
                    it,
                    ts[j],
                )),
        decreases n - i,
    {
        let t = tables.remove(0);
        proof {
            assert(t == ts[i as int]);
            assert(decreases_to!(ts => ts[i as int]));
            assert(decreases_to!(a0 => t));
        }
        let it = table_into_inline(t);
        values.push(Value::InlineTable(it));
        proof {
            assert(tables@ =~= ts.subrange(i + 1, n as int));
        }
        i = i + 1;
    }
    let mut r = Array::from_parts(values, false, String::new());
    let ghost unformatted = r;
    r.fmt();
    proof {
        lemma_values_model(unformatted.values_view(), n as nat);
        lemma_values_model(r.values_view(), n as nat);
        assert forall|j: int| 0 <= j < n implies #[trigger] values_model(
            r.values_view(),
            n as nat,
        )[j] == inlined_tables(tm, n as nat)[j] by {
            lemma_same_but_decor(r.values_view()[j], unformatted.values_view()[j]);
        }
        assert(values_model(r.values_view(), n as nat) =~= inlined_tables(tm, n as nat));
        assert forall|i: int| 0 <= i < r.values_view().len() implies (#[trigger] r.values_view()[i] matches Value::InlineTable(
            it,
        ) && inline_form_of(it, a0.values_view()[i])) by {
            assert(decorated_as(
                r.values_view()[i],
                unformatted.values_view()[i],
                array_value_prefix(i),
                Seq::empty(),
            ));
        }
    }
    r
}

impl ArrayOfTables {
    /// The array of tables as an inline array of inline tables, formatted
    /// the default way: `[{ a = 1 }, { a = 2 }]`.
    pub fn into_array(self) -> (r: Array)
        ensures
            value_model(Value::Array(r)) == TomlValue::Array(
                inlined_tables(
                    tables_model(self.values_view(), self.values_view().len()),
                    self.values_view().len(),
                ),
            ),
            forall|i: int|
                0 <= i < r.values_view().len() ==> #[trigger] value_decor(
                    r.values_view()[i],
                ).prefix_view() == Some(array_value_prefix(i)) && value_decor(
                    r.values_view()[i],
                ).suffix_view() == Some(Seq::<char>::empty()),
            r.values_view().len() == self.values_view().len(),
            forall|i: int|
                0 <= i < r.values_view().len() ==> (#[trigger] r.values_view()[i] matches Value::InlineTable(
                    it,
                ) && inline_form_of(it, self.values_view()[i])),
            r.trailing_view() == Seq::<char>::empty(),
            !r.trailing_comma_view(),
            r.decor_view().prefix_view() is None,
            r.decor_view().suffix_view() is None,
    {
        tables_into_array(self)
    }
}

} // verus!
