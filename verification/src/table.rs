//! Tables: looking up, adding and removing their items.

use vstd::prelude::*;

use crate::key::Key;
use crate::parser::value::{find_key_from, lemma_find_key_from};
use crate::repr::Decor;
use crate::sort::{non_value_pairs, sort_key_value_pairs, sorted_by_key, value_pairs};
use crate::value::{
    decorated_as,
    entries_model,
    item_model,
    lemma_entries_model,
    lemma_entries_push,
    table_model,
    Item,
    Table,
    TableKeyValue,
    TomlItem,
};

verus! {

/// The number of the first `n` entries that hold something.
pub open spec fn nonempty_count(entries: Seq<(Seq<char>, TomlItem)>, n: nat) -> nat
    decreases n,
{
    if n == 0 || n > entries.len() {
        0
    } else {
        nonempty_count(entries, (n - 1) as nat) + if entries[n - 1].1 is Empty {
            0nat
        } else {
            1nat
        }
    }
}

/// The number of the first `n` entries that hold a value.
pub open spec fn value_count(entries: Seq<(Seq<char>, TomlItem)>, n: nat) -> nat
    decreases n,
{
    if n == 0 || n > entries.len() {
        0
    } else {
        value_count(entries, (n - 1) as nat) + if entries[n - 1].1 is Value {
            1nat
        } else {
            0nat
        }
    }
}

/// The item under key `k`, if there is one.
pub open spec fn lookup(entries: Seq<(Seq<char>, TomlItem)>, k: Seq<char>) -> Option<TomlItem> {
    match find_key_from(entries, k, 0) {
        Some(j) => Some(entries[j].1),
        None => None,
    }
}

/// The entries with `it` under `k` as their last entry: the entry with that
/// key, if any, leaves its place.
pub open spec fn insert_entry(entries: Seq<(Seq<char>, TomlItem)>, k: Seq<char>, it: TomlItem) -> Seq<
    (Seq<char>, TomlItem),
> {
    match find_key_from(entries, k, 0) {
        Some(j) => entries.remove(j).push((k, it)),
        None => entries.push((k, it)),
    }
}

/// `items` is `before` with the entry `key = item` after its last one.
pub open spec fn appended(items: Seq<TableKeyValue>, before: Seq<TableKeyValue>, key: Key, item: Item) -> bool {
    &&& items.len() == before.len() + 1
    &&& items.drop_last() == before
    &&& items.last().key_view() == key
    &&& items.last().value_view() == item
}

/// The position of the first entry whose key has the value `k`.
pub(crate) fn find_str(items: &Vec<TableKeyValue>, k: &str) -> (r: Option<usize>)
    ensures
        match r {
            Some(j) => find_key_from(entries_model(items@, items@.len()), k@, 0) == Some(j as int),
            None => find_key_from(entries_model(items@, items@.len()), k@, 0) is None,
        },
        r matches Some(j) ==> j < items@.len(),
{
    proof {
        lemma_entries_model(items@, items@.len());
    }
    let ghost e = entries_model(items@, items@.len());
    let mut i: usize = 0;
    while i < items.len()
        invariant
            i <= items@.len(),
            e == entries_model(items@, items@.len()),
            e.len() == items@.len(),
            forall|j: int|
                0 <= j < items@.len() ==> #[trigger] e[j] == (
                    items@[j].key_view().value(),
                    item_model(items@[j].value_view()),
                ),
            find_key_from(e, k@, 0) == find_key_from(e, k@, i as int),
        decreases items@.len() - i,
    {
        if items[i].key().has_value(k) {
            return Some(i);
        }
        i = i + 1;
    }
    None
}

impl Table {
    /// An empty table, written after a blank line.
    pub fn new() -> (t: Table)
        ensures
            table_model(t).entries == Seq::<(Seq<char>, TomlItem)>::empty(),
            !t.implicit_view(),
            !t.dotted_view(),
            t.position_view() is None,
            t.decor_view().prefix_view() == Some(seq!['\n']),
            t.decor_view().suffix_view() == Some(Seq::<char>::empty()),
    {
        proof {
            reveal_strlit("\n");
            reveal_strlit("");
        }
        let t = Table::with_decor_and_pos(Decor::new("\n", ""), None);
        proof {
            assert(entries_model(t.items_view(), 0) =~= Seq::<(Seq<char>, TomlItem)>::empty());
        }
        t
    }

    /// An empty table with the default decor and the given position.
    pub fn with_pos(position: Option<usize>) -> (t: Table)
        ensures
            table_model(t).entries == Seq::<(Seq<char>, TomlItem)>::empty(),
            !t.implicit_view(),
            !t.dotted_view(),
            t.position_view() == position,
            t.decor_view().prefix_view() is None,
            t.decor_view().suffix_view() is None,
    {
        let t = Table::with_decor_and_pos(Decor::empty(), position);
        proof {
            assert(entries_model(t.items_view(), 0) =~= Seq::<(Seq<char>, TomlItem)>::empty());
        }
        t
    }

    /// The number of entries that hold something.
    pub fn len(&self) -> (n: usize)
        ensures
            n == nonempty_count(table_model(*self).entries, table_model(*self).entries.len()),
    {
        proof {
            lemma_entries_model(self.items_view(), self.items_view().len());
        }
        let ghost e = table_model(*self).entries;
        let items = self.items();
        let mut n: usize = 0;
        let mut i: usize = 0;
        while i < items.len()
            invariant
                i <= items@.len(),
                items@ == self.items_view(),
                e == table_model(*self).entries,
                e.len() == items@.len(),
                forall|j: int|
                    0 <= j < items@.len() ==> #[trigger] e[j] == (
                        items@[j].key_view().value(),
                        item_model(items@[j].value_view()),
                    ),
                n == nonempty_count(e, i as nat),
                n <= i,
            decreases items@.len() - i,
        {
            if !items[i].value().is_none() {
                n = n + 1;
            }
            i = i + 1;
        }
        n
    }

    /// The number of entries that hold a value.
    pub fn values_len(&self) -> (n: usize)
        ensures
            n == value_count(table_model(*self).entries, table_model(*self).entries.len()),
    {
        proof {
            lemma_entries_model(self.items_view(), self.items_view().len());
        }
        let ghost e = table_model(*self).entries;
        let items = self.items();
        let mut n: usize = 0;
        let mut i: usize = 0;
        while i < items.len()
            invariant
                i <= items@.len(),
                items@ == self.items_view(),
                e == table_model(*self).entries,
                e.len() == items@.len(),
                forall|j: int|
                    0 <= j < items@.len() ==> #[trigger] e[j] == (
                        items@[j].key_view().value(),
                        item_model(items@[j].value_view()),
                    ),
                n == value_count(e, i as nat),
                n <= i,
            decreases items@.len() - i,
        {
            if items[i].value().is_value() {
                n = n + 1;
            }
            i = i + 1;
        }
        n
    }

    /// Whether no entry holds something.
    pub fn is_empty(&self) -> (b: bool)
        ensures
            b == (nonempty_count(table_model(*self).entries, table_model(*self).entries.len())
                == 0),
    {
        self.len() == 0
    }

    /// Removes all the entries.
    pub fn clear(&mut self)
        ensures
            table_model(*final(self)).entries == Seq::<(Seq<char>, TomlItem)>::empty(),
            final(self).implicit_view() == old(self).implicit_view(),
            final(self).dotted_view() == old(self).dotted_view(),
            final(self).position_view() == old(self).position_view(),
            final(self).decor_view() == old(self).decor_view(),
    {
        let _ = self.take_items();
        proof {
            assert(entries_model(self.items_view(), 0) =~= Seq::<(Seq<char>, TomlItem)>::empty());
        }
    }

    /// The item under `key`, if there is one.
    pub fn get(&self, key: &str) -> (r: Option<&Item>)
        ensures
            r is Some <==> lookup(table_model(*self).entries, key@) is Some,
            r matches Some(it) ==> Some(item_model(*it)) == lookup(table_model(*self).entries, key@),
    {
        proof {
            lemma_entries_model(self.items_view(), self.items_view().len());
        }
        match find_str(self.items(), key) {
            Some(j) => Some(self.items()[j].value()),
            None => None,
        }
    }

    /// Whether an entry under `key` holds something.
    pub fn contains_key(&self, key: &str) -> (b: bool)
        ensures
            b == (lookup(table_model(*self).entries, key@) matches Some(it) && !(it is Empty)),
    {
        match self.get(key) {
            Some(it) => !it.is_none(),
            None => false,
        }
    }

    /// Whether the entry under `key` holds a table.
    pub fn contains_table(&self, key: &str) -> (b: bool)
        ensures
            b == (lookup(table_model(*self).entries, key@) matches Some(it) && it is Table),
    {
        match self.get(key) {
            Some(it) => it.is_table(),
            None => false,
        }
    }

    /// Whether the entry under `key` holds a value.
    pub fn contains_value(&self, key: &str) -> (b: bool)
        ensures
            b == (lookup(table_model(*self).entries, key@) matches Some(it) && it is Value),
    {
        match self.get(key) {
            Some(it) => it.is_value(),
            None => false,
        }
    }

    /// Whether the entry under `key` holds an array of tables.
    pub fn contains_array_of_tables(&self, key: &str) -> (b: bool)
        ensures
            b == (lookup(table_model(*self).entries, key@) matches Some(it) && it is ArrayOfTables),
    {
        match self.get(key) {
            Some(it) => it.is_array_of_tables(),
            None => false,
        }
    }

    /// The whitespace and comments around the key of the entry under `key`.
    pub fn decor(&self, key: &str) -> (r: Option<&Decor>)
        ensures
            r is Some <==> lookup(table_model(*self).entries, key@) is Some,
            r matches Some(d) ==> find_key_from(table_model(*self).entries, key@, 0) matches Some(
                j,
            ) && *d == self.items_view()[j].key_view().decor_view(),
    {
        match find_str(self.items(), key) {
            Some(j) => Some(self.items()[j].key().decor()),
            None => None,
        }
    }

    /// Puts `item` under `key` as the last entry; the entry that had that
    /// key, if any, leaves its place. Gives back the item replaced.
    pub fn insert_formatted(&mut self, key: &Key, item: Item) -> (r: Option<Item>)
        ensures
            r is Some <==> lookup(table_model(*old(self)).entries, key.value()) is Some,
            r matches Some(it) ==> Some(item_model(it)) == lookup(
                table_model(*old(self)).entries,
                key.value(),
            ),
            table_model(*final(self)).entries == insert_entry(
                table_model(*old(self)).entries,
                key.value(),
                item_model(item),
            ),
            lookup(table_model(*old(self)).entries, key.value()) is None ==> appended(
                final(self).items_view(),
                old(self).items_view(),
                *key,
                item,
            ),
            final(self).implicit_view() == old(self).implicit_view(),
            final(self).dotted_view() == old(self).dotted_view(),
            final(self).position_view() == old(self).position_view(),
            final(self).decor_view() == old(self).decor_view(),
    {
        let ghost e = table_model(*self).entries;
        let mut items = self.take_items();
        let ghost old_items = items@;
        proof {
            lemma_entries_model(old_items, old_items.len());
            lemma_find_key_from(e, key.value(), 0);
        }
        let found = crate::parser::value::find_key(&items, key);
        let kv = TableKeyValue::new(key.duplicate(), item);
        let r = match found {
            Some(j) => {
                let old_kv = items.remove(j);
                let ghost rest = items@;
                proof {
                    assert(rest =~= old_items.remove(j as int));
                    lemma_entries_model(rest, rest.len());
                    assert(entries_model(rest, rest.len()) =~= e.remove(j as int));
                    lemma_entries_push(rest, kv, rest.len());
                }
                items.push(kv);
                proof {
                    assert(entries_model(items@, items@.len()) =~= e.remove(j as int).push(
                        (key.value(), item_model(item)),
                    ));
                }
                let (_, old_item) = old_kv.into_parts();
                Some(old_item)
            },
            None => {
                proof {
                    lemma_entries_push(old_items, kv, old_items.len());
                }
                items.push(kv);
                proof {
                    assert(entries_model(items@, items@.len()) =~= e.push(
                        (key.value(), item_model(item)),
                    ));
                    assert(items@.drop_last() =~= old_items);
                }
                None
            },
        };
        self.set_items(items);
        r
    }

    /// Removes the entry under `key`, keeping the others in order, and gives
    /// back its item.
    pub fn remove(&mut self, key: &str) -> (r: Option<Item>)
        ensures
            r is Some <==> lookup(table_model(*old(self)).entries, key@) is Some,
            r matches Some(it) ==> Some(item_model(it)) == lookup(
                table_model(*old(self)).entries,
                key@,
            ),
            table_model(*final(self)).entries == match find_key_from(
                table_model(*old(self)).entries,
                key@,
                0,
            ) {
                Some(j) => table_model(*old(self)).entries.remove(j),
                None => table_model(*old(self)).entries,
            },
            final(self).implicit_view() == old(self).implicit_view(),
            final(self).dotted_view() == old(self).dotted_view(),
            final(self).position_view() == old(self).position_view(),
            final(self).decor_view() == old(self).decor_view(),
    {
        let ghost e = table_model(*self).entries;
        let mut items = self.take_items();
        let ghost old_items = items@;
        proof {
            lemma_entries_model(old_items, old_items.len());
            lemma_find_key_from(e, key@, 0);
        }
        let r = match find_str(&items, key) {
            Some(j) => {
                let old_kv = items.remove(j);
                proof {
                    assert(items@ =~= old_items.remove(j as int));
                    lemma_entries_model(items@, items@.len());
                    assert(entries_model(items@, items@.len()) =~= e.remove(j as int));
                }
                let (_, old_item) = old_kv.into_parts();
                Some(old_item)
            },
            None => None,
        };
        self.set_items(items);
        r
    }
}

/// Putting an item in place of the item of one entry puts its meaning in
/// place of that entry's meaning.
pub(crate) proof fn lemma_update_entries(mid: Seq<TableKeyValue>, j: int)
    requires
        0 <= j < mid.len(),
    ensures
        forall|items: Seq<TableKeyValue>|
            items.len() == mid.len() && (forall|i: int|
                0 <= i < mid.len() && i != j ==> #[trigger] items[i] == mid[i]) && items[j].key_view()
                == mid[j].key_view() ==> #[trigger] entries_model(items, items.len()) == entries_model(
                mid,
                mid.len(),
            ).update(j, (mid[j].key_view().value(), item_model(items[j].value_view()))),
{
    assert forall|items: Seq<TableKeyValue>|
        items.len() == mid.len() && (forall|i: int|
            0 <= i < mid.len() && i != j ==> #[trigger] items[i] == mid[i]) && items[j].key_view()
            == mid[j].key_view() implies #[trigger] entries_model(items, items.len()) == entries_model(
        mid,
        mid.len(),
    ).update(j, (mid[j].key_view().value(), item_model(items[j].value_view()))) by {
        lemma_entries_model(items, items.len());
        lemma_entries_model(mid, mid.len());
        assert(entries_model(items, items.len()) =~= entries_model(mid, mid.len()).update(
            j,
            (mid[j].key_view().value(), item_model(items[j].value_view())),
        ));
    }
}

/// The entries after an item was put in place of the entry with key `k`,
/// or in a new entry after the last one when there was none.
pub open spec fn entry_after(entries: Seq<(Seq<char>, TomlItem)>, k: Seq<char>, it: TomlItem) -> Seq<
    (Seq<char>, TomlItem),
> {
    match find_key_from(entries, k, 0) {
        Some(j) => entries.update(j, (k, it)),
        None => entries.push((k, it)),
    }
}

impl Table {
    /// The item under `key`, to change it in place. Where there is none, an
    /// empty entry under `key` (written bare when it can be, with the
    /// default decor) is added after the last one first.
    pub fn entry_format(&mut self, key: &Key) -> (r: &mut Item)
        ensures
            match lookup(table_model(*old(self)).entries, key.value()) {
                Some(it) => item_model(*r) == it,
                None => *r is Empty,
            },
            table_model(*final(self)).entries == entry_after(
                table_model(*old(self)).entries,
                key.value(),
                item_model(*final(r)),
            ),
            lookup(table_model(*old(self)).entries, key.value()) is None
                ==> final(self).items_view().last().key_view() == *key,
            final(self).implicit_view() == old(self).implicit_view(),
            final(self).dotted_view() == old(self).dotted_view(),
            final(self).position_view() == old(self).position_view(),
            final(self).decor_view() == old(self).decor_view(),
    {
        let ghost e = table_model(*self).entries;
        proof {
            lemma_entries_model(self.items_view(), self.items_view().len());
            lemma_find_key_from(e, key.value(), 0);
        }
        let j = match crate::parser::value::find_key(self.items(), key) {
            Some(j) => j,
            None => {
                let _ = self.insert_formatted(key, Item::Empty);
                proof {
                    lemma_entries_model(self.items_view(), self.items_view().len());
                    assert(self.items_view().drop_last() == old(self).items_view());
                }
                self.items().len() - 1
            },
        };
        let ghost mid = self.items_view();
        proof {
            lemma_entries_model(mid, mid.len());
            lemma_update_entries(mid, j as int);
            assert(entries_model(mid, mid.len()) == match find_key_from(e, key.value(), 0) {
                Some(i) => e,
                None => e.push((key.value(), TomlItem::Empty)),
            });
            assert(mid[j as int].key_view().value() == key.value());
        }
        self.item_mut(j)
    }

    /// Orders the key/value pairs: the entries that hold no value (tables,
    /// arrays of tables) first, in the order they had, then those that hold
    /// one, by key. The tables under it keep their order.
    pub fn sort_values(&mut self)
        ensures
            final(self).items_view().len() == old(self).items_view().len(),
            final(self).items_view().take(non_value_pairs(old(self).items_view()).len() as int)
                == non_value_pairs(old(self).items_view()),
            sorted_by_key(
                value_pairs(old(self).items_view()),
                final(self).items_view().skip(non_value_pairs(old(self).items_view()).len() as int),
            ),
            final(self).decor_view() == old(self).decor_view(),
            final(self).implicit_view() == old(self).implicit_view(),
            final(self).dotted_view() == old(self).dotted_view(),
            final(self).position_view() == old(self).position_view(),
    {
        let items = self.take_items();
        let sorted = sort_key_value_pairs(items);
        self.set_items(sorted);
    }

    /// The item under `key`, to change it in place, if there is one.
    pub fn get_mut(&mut self, key: &str) -> (r: Option<&mut Item>)
        ensures
            r is Some <==> lookup(table_model(*old(self)).entries, key@) is Some,
            r is None ==> *final(self) == *old(self),
            r matches Some(it) ==> Some(item_model(*it)) == lookup(
                table_model(*old(self)).entries,
                key@,
            ) && table_model(*final(self)).entries == entry_after(
                table_model(*old(self)).entries,
                key@,
                item_model(*final(it)),
            ) && final(self).decor_view() == old(self).decor_view()
                && final(self).implicit_view() == old(self).implicit_view()
                && final(self).dotted_view() == old(self).dotted_view()
                && final(self).position_view() == old(self).position_view(),
    {
        let ghost e = table_model(*self).entries;
        proof {
            lemma_entries_model(self.items_view(), self.items_view().len());
            lemma_find_key_from(e, key@, 0);
        }
        match find_str(self.items(), key) {
            Some(j) => {
                let ghost mid = self.items_view();
                proof {
                    lemma_update_entries(mid, j as int);
                }
                Some(self.item_mut(j))
            },
            None => None,
        }
    }

    /// The item under `key`, to change it in place. Where there is none, an
    /// empty entry under `key` is added after the last one first.
    pub fn entry(&mut self, key: &str) -> (r: &mut Item)
        ensures
            match lookup(table_model(*old(self)).entries, key@) {
                Some(it) => item_model(*r) == it,
                None => *r is Empty,
            },
            table_model(*final(self)).entries == entry_after(
                table_model(*old(self)).entries,
                key@,
                item_model(*final(r)),
            ),
            lookup(table_model(*old(self)).entries, key@) is None
                ==> final(self).items_view().last().key_view().repr_view()@
                == crate::key::key_repr_text(key@),
            final(self).implicit_view() == old(self).implicit_view(),
            final(self).dotted_view() == old(self).dotted_view(),
            final(self).position_view() == old(self).position_view(),
            final(self).decor_view() == old(self).decor_view(),
    {
        let k = Key::new(key);
        self.entry_format(&k)
    }
}

/// `new` is the entry `old` formatted the default way in a table: for a
/// value, a space after the key and before the value, and nothing else;
/// other entries as they were.
pub open spec fn table_formatted(new: TableKeyValue, old: TableKeyValue) -> bool {
    match old.value_view() {
        Item::Value(v) => {
            &&& new.value_view() matches Item::Value(w) && decorated_as(
                w,
                v,
                seq![' '],
                Seq::empty(),
            )
            &&& new.key_view().value() == old.key_view().value()
            &&& new.key_view().repr_view() == old.key_view().repr_view()
            &&& new.key_view().position_view() == old.key_view().position_view()
            &&& new.key_view().decor_view().prefix_view() == Some(Seq::<char>::empty())
            &&& new.key_view().decor_view().suffix_view() == Some(seq![' '])
        },
        _ => new == old,
    }
}

impl Table {
    /// Formats the table the default way: `key = value` on each line.
    pub fn fmt(&mut self)
        ensures
            final(self).items_view().len() == old(self).items_view().len(),
            forall|j: int|
                0 <= j < old(self).items_view().len() ==> table_formatted(
                    #[trigger] final(self).items_view()[j],
                    old(self).items_view()[j],
                ),
            final(self).implicit_view() == old(self).implicit_view(),
            final(self).dotted_view() == old(self).dotted_view(),
            final(self).position_view() == old(self).position_view(),
            final(self).decor_view() == old(self).decor_view(),
    {
        decorate_table(self);
    }
}

/// Formats the key/value pairs of `table` the default way.
fn decorate_table(table: &mut Table)
    ensures
        final(table).items_view().len() == old(table).items_view().len(),
        forall|j: int|
            0 <= j < old(table).items_view().len() ==> table_formatted(
                #[trigger] final(table).items_view()[j],
                old(table).items_view()[j],
            ),
        final(table).implicit_view() == old(table).implicit_view(),
        final(table).dotted_view() == old(table).dotted_view(),
        final(table).position_view() == old(table).position_view(),
        final(table).decor_view() == old(table).decor_view(),
{
    let mut items = table.take_items();
    let ghost before = items@;
    let len = items.len();
    let mut i: usize = 0;
    while i < len
        invariant
            i <= len,
            len == before.len(),
            items@.len() == len,
            forall|j: int| 0 <= j < i ==> table_formatted(#[trigger] items@[j], before[j]),
            forall|j: int| i <= j < len ==> #[trigger] items@[j] == before[j],
        decreases len - i,
    {
        proof {
            reveal_strlit(" ");
            reveal_strlit("");
            assert(" "@ =~= seq![' ']);
            assert(""@ =~= Seq::<char>::empty());
        }
        if items[i].value().is_value() {
            let kv = items.remove(i);
            let (key, item) = kv.into_parts();
            if let Item::Value(v) = item {
                let key = key.with_decor(Decor::new("", " "));
                let mut w = v;
                w.decorate(" ", "");
                items.insert(i, TableKeyValue::new(key, Item::Value(w)));
            }
        }
        i = i + 1;
    }
    table.set_items(items);
}

/// No key occurs twice.
pub open spec fn unique_keys(entries: Seq<(Seq<char>, TomlItem)>) -> bool {
    forall|i: int, j: int|
        0 <= i < j < entries.len() ==> #[trigger] entries[i].0 != #[trigger] entries[j].0
}

/// Where a key is found, the first entry with it is there; where it is not,
/// no entry has it.
proof fn lemma_find_first(entries: Seq<(Seq<char>, TomlItem)>, k: Seq<char>)
    ensures
        find_key_from(entries, k, 0) matches Some(j) ==> 0 <= j < entries.len() && entries[j].0
            == k && forall|m: int| 0 <= m < j ==> #[trigger] entries[m].0 != k,
        find_key_from(entries, k, 0) is None ==> forall|m: int|
            0 <= m < entries.len() ==> #[trigger] entries[m].0 != k,
{
    lemma_find_first_from(entries, k, 0);
}

proof fn lemma_find_first_from(entries: Seq<(Seq<char>, TomlItem)>, k: Seq<char>, i: int)
    requires
        0 <= i,
    ensures
        find_key_from(entries, k, i) matches Some(j) ==> i <= j < entries.len() && entries[j].0
            == k && forall|m: int| i <= m < j ==> #[trigger] entries[m].0 != k,
        find_key_from(entries, k, i) is None ==> forall|m: int|
            i <= m < entries.len() ==> #[trigger] entries[m].0 != k,
    decreases entries.len() - i,
{
    if i < entries.len() {
        lemma_find_first_from(entries, k, i + 1);
    }
}

/// The first entry with key `k` is the one at `j`.
proof fn lemma_find_at(entries: Seq<(Seq<char>, TomlItem)>, k: Seq<char>, j: int)
    requires
        0 <= j < entries.len(),
        entries[j].0 == k,
        forall|m: int| 0 <= m < j ==> #[trigger] entries[m].0 != k,
    ensures
        find_key_from(entries, k, 0) == Some(j),
{
    lemma_find_first(entries, k);
    if let Some(i) = find_key_from(entries, k, 0) {
        if i < j {
            assert(entries[i].0 != k);
        } else if i > j {
            assert(entries[j].0 != k);
        }
    }
}

/// Adding an entry with another key leaves what a key gives as it was.
proof fn lemma_lookup_push(es: Seq<(Seq<char>, TomlItem)>, k: Seq<char>, it: TomlItem, other: Seq<char>)
    requires
        other != k,
    ensures
        lookup(es.push((k, it)), other) == lookup(es, other),
{
    let es2 = es.push((k, it));
    lemma_find_first(es, other);
    lemma_find_first(es2, other);
    match find_key_from(es, other, 0) {
        Some(j) => {
            assert forall|m: int| 0 <= m < j implies #[trigger] es2[m].0 != other by {
                assert(es2[m] == es[m]);
            }
            assert(es2[j] == es[j]);
            lemma_find_at(es2, other, j);
        },
        None => {
            if let Some(j2) = find_key_from(es2, other, 0) {
                if j2 < es.len() {
                    assert(es2[j2] == es[j2]);
                }
            }
        },
    }
}

/// Removing an entry with another key leaves what a key gives as it was.
proof fn lemma_lookup_remove(es: Seq<(Seq<char>, TomlItem)>, j: int, other: Seq<char>)
    requires
        0 <= j < es.len(),
        es[j].0 != other,
    ensures
        lookup(es.remove(j), other) == lookup(es, other),
{
    let es2 = es.remove(j);
    lemma_find_first(es, other);
    lemma_find_first(es2, other);
    match find_key_from(es, other, 0) {
        Some(i) => {
            let i2 = if i < j { i } else { i - 1 };
            assert(es2[i2] == es[i]);
            assert forall|m: int| 0 <= m < i2 implies #[trigger] es2[m].0 != other by {
                if m < j {
                    assert(es2[m] == es[m]);
                } else {
                    assert(es2[m] == es[m + 1]);
                }
            }
            lemma_find_at(es2, other, i2);
        },
        None => {
            if let Some(m) = find_key_from(es2, other, 0) {
                if m < j {
                    assert(es2[m] == es[m]);
                } else {
                    assert(es2[m] == es[m + 1]);
                }
            }
        },
    }
}

/// In entries with unique keys, the entry found under a key is the only one
/// with it.
proof fn lemma_unique_found(es: Seq<(Seq<char>, TomlItem)>, k: Seq<char>)
    requires
        unique_keys(es),
    ensures
        find_key_from(es, k, 0) matches Some(j) ==> forall|m: int|
            0 <= m < es.len() && m != j ==> #[trigger] es[m].0 != k,
{
    lemma_find_first(es, k);
    if let Some(j) = find_key_from(es, k, 0) {
        assert forall|m: int| 0 <= m < es.len() && m != j implies #[trigger] es[m].0 != k by {
            if m < j {
                assert(es[m].0 != es[j].0);
            } else {
                assert(es[j].0 != es[m].0);
            }
        }
    }
}

/// Reading a key after putting an item under it gives that item back.
pub proof fn law_get_after_insert(t: Table, key: Key, item: Item)
    requires
        unique_keys(table_model(t).entries),
    ensures
        lookup(insert_entry(table_model(t).entries, key.value(), item_model(item)), key.value())
            == Some(item_model(item)),
{
    let es = table_model(t).entries;
    let k = key.value();
    let it = item_model(item);
    lemma_find_first(es, k);
    lemma_unique_found(es, k);
    let es2 = insert_entry(es, k, it);
    match find_key_from(es, k, 0) {
        Some(j) => {
            let rest = es.remove(j);
            assert forall|m: int| 0 <= m < rest.len() implies #[trigger] es2[m].0 != k by {
                assert(es2[m] == rest[m]);
                if m < j {
                    assert(rest[m] == es[m]);
                } else {
                    assert(rest[m] == es[m + 1]);
                }
            }
            lemma_find_at(es2, k, rest.len() as int);
        },
        None => {
            assert forall|m: int| 0 <= m < es.len() implies #[trigger] es2[m].0 != k by {
                assert(es2[m] == es[m]);
            }
            lemma_find_at(es2, k, es.len() as int);
        },
    }
}

/// Putting an item under a key leaves what other keys give as it was.
pub proof fn law_get_other_after_insert(t: Table, key: Key, item: Item, other: Seq<char>)
    requires
        other != key.value(),
    ensures
        lookup(insert_entry(table_model(t).entries, key.value(), item_model(item)), other)
            == lookup(table_model(t).entries, other),
{
    let es = table_model(t).entries;
    let k = key.value();
    let it = item_model(item);
    lemma_find_first(es, k);
    match find_key_from(es, k, 0) {
        Some(j) => {
            lemma_lookup_remove(es, j, other);
            lemma_lookup_push(es.remove(j), k, it, other);
        },
        None => {
            lemma_lookup_push(es, k, it, other);
        },
    }
}

/// Putting an item under a key keeps the keys of a table unique.
pub proof fn law_insert_keeps_keys_unique(t: Table, key: Key, item: Item)
    requires
        unique_keys(table_model(t).entries),
    ensures
        unique_keys(insert_entry(table_model(t).entries, key.value(), item_model(item))),
{
    let es = table_model(t).entries;
    let k = key.value();
    let it = item_model(item);
    lemma_find_first(es, k);
    lemma_unique_found(es, k);
    let es2 = insert_entry(es, k, it);
    let rest = match find_key_from(es, k, 0) {
        Some(j) => es.remove(j),
        None => es,
    };
    assert(es2 == rest.push((k, it)));
    assert forall|m: int| 0 <= m < rest.len() implies #[trigger] rest[m].0 != k by {
        if let Some(j) = find_key_from(es, k, 0) {
            if m < j {
                assert(rest[m] == es[m]);
            } else {
                assert(rest[m] == es[m + 1]);
            }
        }
    }
    assert forall|a: int, b: int| 0 <= a < b < rest.len() implies #[trigger] rest[a].0
        != #[trigger] rest[b].0 by {
        if let Some(j) = find_key_from(es, k, 0) {
            let a0 = if a < j { a } else { a + 1 };
            let b0 = if b < j { b } else { b + 1 };
            assert(rest[a] == es[a0]);
            assert(rest[b] == es[b0]);
            assert(es[a0].0 != es[b0].0);
        }
    }
    assert forall|a: int, b: int| 0 <= a < b < es2.len() implies #[trigger] es2[a].0
        != #[trigger] es2[b].0 by {
        assert(es2[a] == rest[a]);
        if b < rest.len() {
            assert(es2[b] == rest[b]);
        }
    }
}

/// After removing a key from a table whose keys are unique, the key gives
/// nothing.
pub proof fn law_get_after_remove(t: Table, key: Seq<char>)
    requires
        unique_keys(table_model(t).entries),
    ensures
        lookup(
            match find_key_from(table_model(t).entries, key, 0) {
                Some(j) => table_model(t).entries.remove(j),
                None => table_model(t).entries,
            },
            key,
        ) is None,
{
    let es = table_model(t).entries;
    lemma_find_first(es, key);
    match find_key_from(es, key, 0) {
        Some(j) => {
            let es2 = es.remove(j);
            lemma_find_first(es2, key);
            if let Some(m) = find_key_from(es2, key, 0) {
                if m < j {
                    assert(es2[m] == es[m]);
                } else {
                    assert(es2[m] == es[m + 1]);
                }
            }
        },
        None => {},
    }
}

proof fn lemma_nonempty_count_prefix(e: Seq<(Seq<char>, TomlItem)>, x: (Seq<char>, TomlItem), n: nat)
    requires
        n <= e.len(),
    ensures
        nonempty_count(e.push(x), n) == nonempty_count(e, n),
    decreases n,
{
    if n > 0 {
        lemma_nonempty_count_prefix(e, x, (n - 1) as nat);
        assert(e.push(x)[n - 1] == e[n - 1]);
    }
}

/// The number of entries a table holds counts every entry that holds
/// something, whatever it holds: putting an item under a new key adds one
/// to it, be the item a value, a table or an array of tables, and putting
/// nothing there adds none.
pub proof fn law_len_counts_every_item(e: Seq<(Seq<char>, TomlItem)>, k: Seq<char>, it: TomlItem)
    requires
        lookup(e, k) is None,
    ensures
        nonempty_count(insert_entry(e, k, it), e.len() + 1) == nonempty_count(e, e.len()) + if it is Empty {
            0int
        } else {
            1int
        },
        insert_entry(e, k, it).len() == e.len() + 1,
{
    let x = (k, it);
    assert(insert_entry(e, k, it) == e.push(x));
    lemma_nonempty_count_prefix(e, x, e.len());
    assert(e.push(x)[e.len() as int] == x);
}

} // verus!
