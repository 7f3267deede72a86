//! Following a path of keys down a tree of tables, making the missing tables
//! on the way, and editing the table it leads to.

use vstd::prelude::*;

use crate::key::Key;
use crate::parser::key::key_values;
use crate::parser::value::{find_key, find_key_from, lemma_find_key_from};
use crate::table::{appended, insert_entry, lookup};
use crate::value::{
    entries_model,
    item_model,
    lemma_entries_model,
    lemma_entries_push,
    table_model,
    tables_model,
    ArrayOfTables,
    Item,
    Table,
    TableKeyValue,
    TomlItem,
    TomlTable,
};

verus! {

/// A table with no entries, shown, not made by a dotted key.
pub open spec fn empty_table() -> TomlTable {
    TomlTable { entries: Seq::empty(), implicit: false, dotted: false }
}

/// The table with other entries.
pub open spec fn with_entries(t: TomlTable, entries: Seq<(Seq<char>, TomlItem)>) -> TomlTable {
    TomlTable { entries, implicit: t.implicit, dotted: t.dotted }
}

/// What to do at the table a path of keys leads to.
pub enum TableOp {
    /// Add the key/value pair `k = it`; `dotted` tells whether its key was
    /// dotted, which the table must agree with.
    KeyVal(Seq<char>, TomlItem, bool),
    /// Make sure an array of tables is under `k`.
    OpenArray(Seq<char>),
    /// Add a table at the end of the array of tables under `k`, making the
    /// array where there is none.
    PushTable(Seq<char>, TomlTable),
    /// Put a table under `k`, where nothing is.
    PutTable(Seq<char>, TomlTable),
    /// Take out the table under `k`, if there is one; it must be implicit
    /// and not made by a dotted key.
    TakeTable(Seq<char>),
}

/// The table after `op`, and the table taken out, if any; `None` where the
/// operation is refused.
pub open spec fn apply_op(t: TomlTable, op: TableOp) -> Option<(TomlTable, Option<TomlTable>)> {
    match op {
        TableOp::KeyVal(k, it, dotted) => if t.dotted != dotted || (lookup(t.entries, k) matches Some(
            x,
        ) && !(x is Empty)) {
            None
        } else {
            Some((with_entries(t, insert_entry(t.entries, k, it)), None))
        },
        TableOp::OpenArray(k) => match find_key_from(t.entries, k, 0) {
            None => Some(
                (with_entries(t, t.entries.push((k, TomlItem::ArrayOfTables(Seq::empty())))), None),
            ),
            Some(j) => if t.entries[j].1 is ArrayOfTables {
                Some((t, None))
            } else {
                None
            },
        },
        TableOp::PushTable(k, nt) => match find_key_from(t.entries, k, 0) {
            None => Some(
                (with_entries(t, t.entries.push((k, TomlItem::ArrayOfTables(seq![nt])))), None),
            ),
            Some(j) => match t.entries[j].1 {
                TomlItem::ArrayOfTables(ts) => Some(
                    (
                        with_entries(
                            t,
                            t.entries.update(j, (k, TomlItem::ArrayOfTables(ts.push(nt)))),
                        ),
                        None,
                    ),
                ),
                _ => None,
            },
        },
        TableOp::PutTable(k, nt) => match find_key_from(t.entries, k, 0) {
            None => Some((with_entries(t, t.entries.push((k, TomlItem::Table(nt)))), None)),
            Some(j) => if t.entries[j].1 is Empty {
                Some((with_entries(t, t.entries.update(j, (k, TomlItem::Table(nt)))), None))
            } else {
                None
            },
        },
        TableOp::TakeTable(k) => match find_key_from(t.entries, k, 0) {
            None => Some((t, None)),
            Some(j) => match t.entries[j].1 {
                TomlItem::Table(old) => if old.implicit && !old.dotted {
                    Some((with_entries(t, t.entries.remove(j)), Some(old)))
                } else {
                    None
                },
                _ => None,
            },
        },
    }
}

/// The table `t` after following `path` down from it, making the missing
/// tables (implicit, made by a dotted key when `dotted`), going into the last
/// table of an array of tables, and applying `op` to the table reached;
/// `None` where something other than a table is in the way or `op` is
/// refused.
pub open spec fn descend_apply(t: TomlTable, path: Seq<Seq<char>>, dotted: bool, op: TableOp) -> Option<
    (TomlTable, Option<TomlTable>),
>
    decreases path.len(),
{
    if path.len() == 0 {
        apply_op(t, op)
    } else {
        let k = path[0];
        let es = match find_key_from(t.entries, k, 0) {
            Some(_) => t.entries,
            None => t.entries.push(
                (k, TomlItem::Table(TomlTable { entries: Seq::empty(), implicit: true, dotted })),
            ),
        };
        let j = match find_key_from(t.entries, k, 0) {
            Some(j) => j,
            None => t.entries.len() as int,
        };
        match es[j].1 {
            TomlItem::Table(sub) => match descend_apply(sub, path.drop_first(), dotted, op) {
                Some((sub2, out)) => Some(
                    (with_entries(t, es.update(j, (k, TomlItem::Table(sub2)))), out),
                ),
                None => None,
            },
            TomlItem::ArrayOfTables(ts) => if ts.len() > 0 {
                match descend_apply(ts.last(), path.drop_first(), dotted, op) {
                    Some((last2, out)) => Some(
                        (
                            with_entries(
                                t,
                                es.update(
                                    j,
                                    (k, TomlItem::ArrayOfTables(ts.drop_last().push(last2))),
                                ),
                            ),
                            out,
                        ),
                    ),
                    None => None,
                }
            } else {
                None
            },
            _ => None,
        }
    }
}

/// An edit of the table a path leads to, with what it carries.
pub enum TableEdit {
    /// Add a key/value pair; the flag tells whether its key was dotted.
    KeyVal(TableKeyValue, bool),
    /// Make sure an array of tables is under the key.
    OpenArray(Key),
    /// Add a table to the array of tables under the key.
    PushTable(Key, Table),
    /// Put a table under the key, where nothing is.
    PutTable(Key, Table),
    /// Take out the implicit table under the key.
    TakeTable(Key),
}

/// What an edit means.
pub open spec fn edit_model(e: TableEdit) -> TableOp {
    match e {
        TableEdit::KeyVal(kv, d) => TableOp::KeyVal(
            kv.key_view().value(),
            item_model(kv.value_view()),
            d,
        ),
        TableEdit::OpenArray(k) => TableOp::OpenArray(k.value()),
        TableEdit::PushTable(k, t) => TableOp::PushTable(k.value(), table_model(t)),
        TableEdit::PutTable(k, t) => TableOp::PutTable(k.value(), table_model(t)),
        TableEdit::TakeTable(k) => TableOp::TakeTable(k.value()),
    }
}

/// What an optional table means.
pub open spec fn opt_table_model(t: Option<Table>) -> Option<TomlTable> {
    match t {
        Some(t) => Some(table_model(t)),
        None => None,
    }
}

/// After making sure an array of tables is under `k`: where no entry had
/// the key, an empty array of tables under it after the last entry; where
/// one had, the entries as they were.
pub open spec fn opened(items: Seq<TableKeyValue>, before: Seq<TableKeyValue>, e: Seq<(Seq<char>, TomlItem)>, k: Key) -> bool {
    match find_key_from(e, k.value(), 0) {
        None => {
            &&& items.len() == before.len() + 1
            &&& items.drop_last() == before
            &&& items.last().key_view() == k
            &&& items.last().value_view() matches Item::ArrayOfTables(a) && a.values_view().len() == 0
        },
        Some(_) => items == before,
    }
}

/// After adding the table `nt` to the array of tables under `k`: where the
/// first entry with that key held an array of tables, that entry holds the
/// array with `nt` after its last table, all else as it was.
pub open spec fn pushed(items: Seq<TableKeyValue>, before: Seq<TableKeyValue>, e: Seq<(Seq<char>, TomlItem)>, k: Key, nt: Table) -> bool {
    match find_key_from(e, k.value(), 0) {
        Some(j) => before[j].value_view() is ArrayOfTables ==> {
            &&& items.len() == before.len()
            &&& forall|i: int| 0 <= i < before.len() && i != j ==> #[trigger] items[i] == before[i]
            &&& items[j].key_view() == before[j].key_view()
            &&& items[j].value_view() matches Item::ArrayOfTables(a2)
            &&& before[j].value_view() matches Item::ArrayOfTables(a1)
            &&& a2.values_view() == a1.values_view().push(nt)
        },
        None => true,
    }
}

/// Meanings of tables, one by one.
pub proof fn lemma_tables_model(ts: Seq<Table>, n: nat)
    requires
        n <= ts.len(),
    ensures
        tables_model(ts, n).len() == n,
        forall|j: int| 0 <= j < n ==> #[trigger] tables_model(ts, n)[j] == table_model(ts[j]),
    decreases n,
{
    if n > 0 {
        lemma_tables_model(ts, (n - 1) as nat);
    }
}

/// Adding a table to a sequence of tables adds its meaning.
pub proof fn lemma_tables_push(ts: Seq<Table>, t: Table)
    ensures
        tables_model(ts.push(t), ts.len() + 1) == tables_model(ts, ts.len()).push(table_model(t)),
{
    lemma_tables_model(ts, ts.len());
    lemma_tables_model(ts.push(t), ts.len() + 1);
    assert(tables_model(ts.push(t), ts.len() + 1) =~= tables_model(ts, ts.len()).push(
        table_model(t),
    ));
}

/// Replaces the item of the entry at `j` with `item`, keeping its key.
fn replace_item(t: &mut Table, j: usize, item: Item) -> (old_item: Item)
    requires
        j < old(t).items_view().len(),
    ensures
        table_model(*final(t)) == with_entries(
            table_model(*old(t)),
            table_model(*old(t)).entries.update(
                j as int,
                (table_model(*old(t)).entries[j as int].0, item_model(item)),
            ),
        ),
        item_model(old_item) == table_model(*old(t)).entries[j as int].1,
        old_item == old(t).items_view()[j as int].value_view(),
        final(t).items_view().len() == old(t).items_view().len(),
        forall|i: int|
            0 <= i < old(t).items_view().len() && i != j ==> #[trigger] final(t).items_view()[i]
                == old(t).items_view()[i],
        final(t).items_view()[j as int].key_view() == old(t).items_view()[j as int].key_view(),
        final(t).items_view()[j as int].value_view() == item,
        final(t).decor_view() == old(t).decor_view(),
        final(t).position_view() == old(t).position_view(),
{
    let ghost e = table_model(*t).entries;
    let mut items = t.take_items();
    let ghost old_items = items@;
    proof {
        lemma_entries_model(old_items, old_items.len());
    }
    let kv = items.remove(j);
    let (k0, old_item) = kv.into_parts();
    let nkv = TableKeyValue::new(k0, item);
    items.insert(j, nkv);
    proof {
        assert(items@ =~= old_items.update(j as int, nkv));
        lemma_entries_model(items@, items@.len());
        assert(entries_model(items@, items@.len()) =~= e.update(
            j as int,
            (e[j as int].0, item_model(item)),
        ));
    }
    t.set_items(items);
    old_item
}

/// Applies an edit to the table.
fn apply_edit(t: &mut Table, edit: TableEdit) -> (r: Result<Option<Table>, ()>)
    ensures
        match apply_op(table_model(*old(t)), edit_model(edit)) {
            Some((t2, out)) => r matches Ok(o) && table_model(*final(t)) == t2 && opt_table_model(o)
                == out,
            None => r is Err,
        },
        edit matches TableEdit::KeyVal(kv, _) ==> (r is Ok && lookup(
            table_model(*old(t)).entries,
            kv.key_view().value(),
        ) is None ==> appended(final(t).items_view(), old(t).items_view(), kv.key_view(), kv.value_view())),
        edit matches TableEdit::PutTable(k, nt) ==> (r is Ok && lookup(
            table_model(*old(t)).entries,
            k.value(),
        ) is None ==> appended(final(t).items_view(), old(t).items_view(), k, Item::Table(nt))),
        edit matches TableEdit::TakeTable(k) ==> (lookup(table_model(*old(t)).entries, k.value()) is None
            ==> (r matches Ok(None)) && final(t).items_view() == old(t).items_view()),
        edit matches TableEdit::OpenArray(k) ==> (r is Ok ==> opened(
            final(t).items_view(),
            old(t).items_view(),
            table_model(*old(t)).entries,
            k,
        )),
        edit matches TableEdit::PushTable(k, nt) ==> (r is Ok ==> pushed(
            final(t).items_view(),
            old(t).items_view(),
            table_model(*old(t)).entries,
            k,
            nt,
        )),
        final(t).decor_view() == old(t).decor_view(),
        final(t).position_view() == old(t).position_view(),
{
    let ghost e = table_model(*t).entries;
    proof {
        lemma_entries_model(t.items_view(), t.items_view().len());
    }
    match edit {
        TableEdit::KeyVal(kv, dotted) => {
            if t.is_dotted() != dotted {
                return Err(());
            }
            let (k, item) = kv.into_parts();
            if t.contains_key(k.get()) {
                return Err(());
            }
            let _ = t.insert_formatted(&k, item);
            Ok(None)
        },
        TableEdit::OpenArray(k) => {
            proof {
                lemma_find_key_from(e, k.value(), 0);
            }
            match find_key(t.items(), &k) {
                None => {
                    let a = ArrayOfTables::from_tables(Vec::new());
                    proof {
                        assert(tables_model(a.values_view(), 0) =~= Seq::<TomlTable>::empty());
                    }
                    let _ = t.insert_formatted(&k, Item::ArrayOfTables(a));
                    Ok(None)
                },
                Some(j) => {
                    if t.items()[j].value().is_array_of_tables() {
                        Ok(None)
                    } else {
                        Err(())
                    }
                },
            }
        },
        TableEdit::PushTable(k, nt) => {
            proof {
                lemma_find_key_from(e, k.value(), 0);
            }
            match find_key(t.items(), &k) {
                None => {
                    let mut ts: Vec<Table> = Vec::new();
                    let ghost empty = ts@;
                    ts.push(nt);
                    proof {
                        lemma_tables_push(empty, nt);
                        assert(ts@ == empty.push(nt));
                        assert(tables_model(empty, 0) =~= Seq::<TomlTable>::empty());
                        assert(tables_model(ts@, 1) =~= seq![table_model(nt)]);
                    }
                    let _ = t.insert_formatted(&k, Item::ArrayOfTables(ArrayOfTables::from_tables(ts)));
                    Ok(None)
                },
                Some(j) => {
                    if !t.items()[j].value().is_array_of_tables() {
                        return Err(());
                    }
                    let old_item = replace_item(t, j, Item::Empty);
                    match old_item {
                        Item::ArrayOfTables(a) => {
                            let mut ts = a.into_tables();
                            let ghost before = ts@;
                            ts.push(nt);
                            proof {
                                lemma_tables_push(before, nt);
                            }
                            let _ = replace_item(t, j, Item::ArrayOfTables(ArrayOfTables::from_tables(ts)));
                            proof {
                                assert(table_model(*t).entries =~= e.update(
                                    j as int,
                                    (k.value(), TomlItem::ArrayOfTables(
                                        tables_model(before, before.len()).push(table_model(nt)),
                                    )),
                                ));
                            }
                            Ok(None)
                        },
                        _ => Err(()),
                    }
                },
            }
        },
        TableEdit::PutTable(k, nt) => {
            proof {
                lemma_find_key_from(e, k.value(), 0);
            }
            match find_key(t.items(), &k) {
                None => {
                    let _ = t.insert_formatted(&k, Item::Table(nt));
                    Ok(None)
                },
                Some(j) => {
                    if t.items()[j].value().is_none() {
                        let _ = replace_item(t, j, Item::Table(nt));
                        Ok(None)
                    } else {
                        Err(())
                    }
                },
            }
        },
        TableEdit::TakeTable(k) => {
            proof {
                lemma_find_key_from(e, k.value(), 0);
            }
            match find_key(t.items(), &k) {
                None => Ok(None),
                Some(j) => {
                    let taken = match t.items()[j].value().as_table() {
                        Some(sub) => sub.is_implicit() && !sub.is_dotted(),
                        None => false,
                    };
                    if !taken {
                        return Err(());
                    }
                    match t.remove(k.get()) {
                        Some(Item::Table(sub)) => Ok(Some(sub)),
                        _ => Err(()),
                    }
                },
            }
        },
    }
}

/// Follows `path`, from its part `i` on, down from `t`, making the missing
/// tables (implicit, made by a dotted key when `dotted`) and going into the
/// last table of an array of tables, then applies `edit` to the table
/// reached. An error gives the part of the path whose key holds something
/// other than a table, or the length of the path where the edit was refused.
pub fn descend_path(t: &mut Table, path: &Vec<Key>, i: usize, dotted: bool, edit: TableEdit) -> (r:
    Result<Option<Table>, usize>)
    requires
        i <= path@.len(),
    ensures
        match descend_apply(
            table_model(*old(t)),
            key_values(path@).skip(i as int),
            dotted,
            edit_model(edit),
        ) {
            Some((t2, out)) => r matches Ok(o) && table_model(*final(t)) == t2 && opt_table_model(o)
                == out,
            None => r matches Err(d) && i <= d <= path@.len(),
        },
        i == path@.len() ==> (edit matches TableEdit::KeyVal(kv, _) ==> (r is Ok && lookup(
            table_model(*old(t)).entries,
            kv.key_view().value(),
        ) is None ==> appended(final(t).items_view(), old(t).items_view(), kv.key_view(), kv.value_view()))),
        i == path@.len() ==> (edit matches TableEdit::PutTable(k, nt) ==> (r is Ok && lookup(
            table_model(*old(t)).entries,
            k.value(),
        ) is None ==> appended(final(t).items_view(), old(t).items_view(), k, Item::Table(nt)))),
        i == path@.len() ==> (edit matches TableEdit::TakeTable(k) ==> (lookup(table_model(*old(t)).entries, k.value()) is None
            ==> (r matches Ok(None)) && final(t).items_view() == old(t).items_view())),
        i == path@.len() ==> (edit matches TableEdit::OpenArray(k) ==> (r is Ok ==> opened(
            final(t).items_view(),
            old(t).items_view(),
            table_model(*old(t)).entries,
            k,
        ))),
        i == path@.len() ==> (edit matches TableEdit::PushTable(k, nt) ==> (r is Ok ==> pushed(
            final(t).items_view(),
            old(t).items_view(),
            table_model(*old(t)).entries,
            k,
            nt,
        ))),
        final(t).decor_view() == old(t).decor_view(),
        final(t).position_view() == old(t).position_view(),
    decreases path@.len() - i,
{
    if i == path.len() {
        proof {
            assert(key_values(path@).skip(i as int).len() == 0);
        }
        return match apply_edit(t, edit) {
            Ok(o) => Ok(o),
            Err(()) => Err(i),
        };
    }
    let ghost e = table_model(*t).entries;
    let ghost p = key_values(path@).skip(i as int);
    proof {
        lemma_entries_model(t.items_view(), t.items_view().len());
        lemma_find_key_from(e, path@[i as int].value(), 0);
        assert(p[0] == path@[i as int].value());
        assert(p.drop_first() =~= key_values(path@).skip(i + 1));
    }
    let k = &path[i];
    let j = match find_key(t.items(), k) {
        Some(j) => j,
        None => {
            let mut nt = Table::new();
            nt.set_implicit(true);
            nt.set_dotted(dotted);
            let _ = t.insert_formatted(k, Item::Table(nt));
            proof {
                lemma_entries_model(t.items_view(), t.items_view().len());
            }
            t.items().len() - 1
        },
    };
    let ghost es = table_model(*t).entries;
    proof {
        lemma_entries_model(t.items_view(), t.items_view().len());
        assert(es[j as int].0 == p[0]);
        assert(es == match find_key_from(e, p[0], 0) {
            Some(_) => e,
            None => e.push(
                (p[0], TomlItem::Table(TomlTable { entries: Seq::empty(), implicit: true, dotted })),
            ),
        });
        assert(j as int == match find_key_from(e, p[0], 0) {
            Some(j) => j,
            None => e.len() as int,
        });
    }
    let item = replace_item(t, j, Item::Empty);
    match item {
        Item::Table(sub) => {
            let mut sub = sub;
            let r = descend_path(&mut sub, path, i + 1, dotted, edit);
            let _ = replace_item(t, j, Item::Table(sub));
            proof {
                assert(table_model(*t).entries =~= es.update(
                    j as int,
                    (p[0], TomlItem::Table(table_model(sub))),
                ));
            }
            r
        },
        Item::ArrayOfTables(a) => {
            let mut ts = a.into_tables();
            let ghost all = ts@;
            proof {
                lemma_tables_model(all, all.len());
            }
            if ts.len() == 0 {
                let _ = replace_item(t, j, Item::ArrayOfTables(ArrayOfTables::from_tables(ts)));
                return Err(i);
            }
            let mut last = ts.pop().unwrap();
            let ghost rest = ts@;
            proof {
                assert(rest =~= all.drop_last());
                lemma_tables_model(rest, rest.len());
                assert(tables_model(rest, rest.len()) =~= tables_model(all, all.len()).drop_last());
            }
            let r = descend_path(&mut last, path, i + 1, dotted, edit);
            proof {
                lemma_tables_push(rest, last);
            }
            ts.push(last);
            let _ = replace_item(t, j, Item::ArrayOfTables(ArrayOfTables::from_tables(ts)));
            proof {
                assert(table_model(*t).entries =~= es.update(
                    j as int,
                    (p[0], TomlItem::ArrayOfTables(
                        tables_model(all, all.len()).drop_last().push(table_model(last)),
                    )),
                ));
            }
            r
        },
        other => {
            let _ = replace_item(t, j, other);
            Err(i)
        },
    }
}

} // verus!
