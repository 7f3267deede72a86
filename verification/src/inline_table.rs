//! Inline tables: looking up, adding and removing their key/value pairs, and
//! formatting them.

use vstd::prelude::*;

use crate::key::{key_repr_text, Key};
use crate::parser::value::{find_key, find_key_from, lemma_find_key_from};
use crate::repr::Decor;
use crate::sort::{non_value_pairs, sort_key_value_pairs, sorted_by_key, value_pairs};
use crate::table::{entry_after, find_str, insert_entry, lemma_update_entries, lookup, value_count};
use crate::value::{
    decorated_as,
    entries_model,
    item_model,
    lemma_entries_model,
    lemma_entries_push,
    value_model,
    InlineTable,
    Item,
    TableKeyValue,
    TomlItem,
    Value,
};

verus! {

/// The keys and items of an inline table, in order.
pub open spec fn inline_entries(t: InlineTable) -> Seq<(Seq<char>, TomlItem)> {
    entries_model(t.items_view(), t.items_view().len())
}

/// `new` is the entry `old` formatted the default way inside braces: for a
/// value, a space on each side of the key, a space before the value and,
/// when it is the last value, a space after it; other entries as they were.
pub open spec fn inline_formatted(new: TableKeyValue, old: TableKeyValue, last: bool) -> bool {
    match old.value_view() {
        Item::Value(v) => {
            &&& new.value_view() matches Item::Value(w) && decorated_as(
                w,
                v,
                seq![' '],
                if last {
                    seq![' ']
                } else {
                    Seq::empty()
                },
            )
            &&& new.key_view().value() == old.key_view().value()
            &&& new.key_view().repr_view() == old.key_view().repr_view()
            &&& new.key_view().position_view() == old.key_view().position_view()
            &&& new.key_view().decor_view().prefix_view() == Some(seq![' '])
            &&& new.key_view().decor_view().suffix_view() == Some(seq![' '])
        },
        _ => new == old,
    }
}

impl InlineTable {
    /// An empty inline table.
    pub fn new() -> (t: InlineTable)
        ensures
            inline_entries(t) == Seq::<(Seq<char>, TomlItem)>::empty(),
            t.preamble_view() == Seq::<char>::empty(),
            !t.dotted_view(),
            t.decor_view().prefix_view() is None,
            t.decor_view().suffix_view() is None,
    {
        let t = InlineTable::from_parts(Vec::new(), String::new(), false);
        assert(entries_model(t.items_view(), 0) =~= Seq::<(Seq<char>, TomlItem)>::empty());
        t
    }

    /// The number of key/value pairs that hold a value.
    pub fn len(&self) -> (n: usize)
        ensures
            n == value_count(inline_entries(*self), inline_entries(*self).len()),
    {
        proof {
            lemma_entries_model(self.items_view(), self.items_view().len());
        }
        let ghost e = inline_entries(*self);
        let items = self.items();
        let mut n: usize = 0;
        let mut i: usize = 0;
        while i < items.len()
            invariant
                i <= items@.len(),
                items@ == self.items_view(),
                e == inline_entries(*self),
                e.len() == items@.len(),
                forall|j: int|
                    0 <= j < items@.len() ==> #[trigger] e[j] == (
                        items@[j].key_view().value(),
                        item_model(items@[j].value_view()),
                    ),
                n == value_count(e, i as nat),
                n <= i,
            decreases items@.len() - i,
        {
            if items[i].value().is_value() {
                n = n + 1;
            }
            i = i + 1;
        }
        n
    }

    /// Whether no key/value pair holds a value.
    pub fn is_empty(&self) -> (b: bool)
        ensures
            b == (value_count(inline_entries(*self), inline_entries(*self).len()) == 0),
    {
        self.len() == 0
    }

    /// Removes all the key/value pairs.
    pub fn clear(&mut self)
        ensures
            inline_entries(*final(self)) == Seq::<(Seq<char>, TomlItem)>::empty(),
            final(self).preamble_view() == old(self).preamble_view(),
            final(self).decor_view() == old(self).decor_view(),
            final(self).dotted_view() == old(self).dotted_view(),
    {
        let _ = self.take_items();
        assert(entries_model(self.items_view(), 0) =~= Seq::<(Seq<char>, TomlItem)>::empty());
    }

    /// The value under `key`, if the entry under it holds one.
    pub fn get(&self, key: &str) -> (r: Option<&Value>)
        ensures
            r is Some <==> lookup(inline_entries(*self), key@) matches Some(TomlItem::Value(_)),
            r matches Some(v) ==> lookup(inline_entries(*self), key@) == Some(
                TomlItem::Value(value_model(*v)),
            ),
    {
        proof {
            lemma_entries_model(self.items_view(), self.items_view().len());
        }
        match find_str(self.items(), key) {
            Some(j) => self.items()[j].value().as_value(),
            None => None,
        }
    }

    /// The value under `key`, if the entry under it holds one, to change it
    /// in place.
    pub fn get_mut(&mut self, key: &str) -> (r: Option<&mut Value>)
        ensures
            r is Some <==> lookup(inline_entries(*old(self)), key@) matches Some(TomlItem::Value(_)),
            r is None ==> *final(self) == *old(self),
            r matches Some(v) ==> lookup(inline_entries(*old(self)), key@) == Some(
                TomlItem::Value(value_model(*v)),
            ) && inline_entries(*final(self)) == entry_after(
                inline_entries(*old(self)),
                key@,
                TomlItem::Value(value_model(*final(v))),
            ) && final(self).preamble_view() == old(self).preamble_view()
                && final(self).decor_view() == old(self).decor_view()
                && final(self).dotted_view() == old(self).dotted_view(),
    {
        let ghost e = inline_entries(*self);
        proof {
            lemma_entries_model(self.items_view(), self.items_view().len());
            lemma_find_key_from(e, key@, 0);
        }
        match find_str(self.items(), key) {
            Some(j) => {
                if self.items()[j].value().is_value() {
                    let ghost mid = self.items_view();
                    proof {
                        lemma_update_entries(mid, j as int);
                    }
                    self.item_mut(j).as_value_mut()
                } else {
                    None
                }
            },
            None => None,
        }
    }

    /// The value under `key`, to change it in place. Where there is no entry
    /// under `key`, `value` is added under it after the last one first (the
    /// key written bare when it can be, with the default decor).
    pub fn get_or_insert(&mut self, key: &str, value: Value) -> (r: &mut Value)
        requires
            lookup(inline_entries(*old(self)), key@) matches Some(it) ==> it is Value,
        ensures
            match lookup(inline_entries(*old(self)), key@) {
                Some(it) => it == TomlItem::Value(value_model(*r)),
                None => *r == value,
            },
            inline_entries(*final(self)) == entry_after(
                inline_entries(*old(self)),
                key@,
                TomlItem::Value(value_model(*final(r))),
            ),
            lookup(inline_entries(*old(self)), key@) is None ==> {
                let k = final(self).items_view().last().key_view();
                &&& k.repr_view()@ == key_repr_text(key@)
                &&& k.decor_view().prefix_view() is None
                &&& k.decor_view().suffix_view() is None
            },
            final(self).preamble_view() == old(self).preamble_view(),
            final(self).decor_view() == old(self).decor_view(),
            final(self).dotted_view() == old(self).dotted_view(),
    {
        let ghost e = inline_entries(*self);
        proof {
            lemma_entries_model(self.items_view(), self.items_view().len());
            lemma_find_key_from(e, key@, 0);
        }
        let j = match find_str(self.items(), key) {
            Some(j) => j,
            None => {
                let mut items = self.take_items();
                let ghost before = items@;
                items.push(TableKeyValue::new(Key::new(key), Item::Value(value)));
                proof {
                    lemma_entries_model(before, before.len());
                    lemma_entries_model(items@, items@.len());
                    lemma_entries_push(before, items@.last(), before.len());
                    assert(items@.drop_last() == before);
                }
                self.set_items(items);
                self.items().len() - 1
            },
        };
        let ghost mid = self.items_view();
        proof {
            lemma_entries_model(mid, mid.len());
            lemma_update_entries(mid, j as int);
        }
        self.item_mut(j).as_value_mut().unwrap()
    }

    /// Orders the key/value pairs: those that hold no value first, in the
    /// order they had, then those that hold one, by key.
    pub fn sort(&mut self)
        ensures
            final(self).items_view().len() == old(self).items_view().len(),
            final(self).items_view().take(non_value_pairs(old(self).items_view()).len() as int)
                == non_value_pairs(old(self).items_view()),
            sorted_by_key(
                value_pairs(old(self).items_view()),
                final(self).items_view().skip(non_value_pairs(old(self).items_view()).len() as int),
            ),
            final(self).preamble_view() == old(self).preamble_view(),
            final(self).decor_view() == old(self).decor_view(),
            final(self).dotted_view() == old(self).dotted_view(),
    {
        let items = self.take_items();
        let sorted = sort_key_value_pairs(items);
        self.set_items(sorted);
    }

    /// Whether the entry under `key` holds something.
    pub fn contains_key(&self, key: &str) -> (b: bool)
        ensures
            b == (lookup(inline_entries(*self), key@) matches Some(it) && !(it is Empty)),
    {
        proof {
            lemma_entries_model(self.items_view(), self.items_view().len());
        }
        match find_str(self.items(), key) {
            Some(j) => !self.items()[j].value().is_none(),
            None => false,
        }
    }

    /// The whitespace and comments around the key of the entry under `key`.
    pub fn decor(&self, key: &str) -> (r: Option<&Decor>)
        ensures
            r is Some <==> lookup(inline_entries(*self), key@) is Some,
            r matches Some(d) ==> find_key_from(inline_entries(*self), key@, 0) matches Some(j)
                && *d == self.items_view()[j].key_view().decor_view(),
    {
        match find_str(self.items(), key) {
            Some(j) => Some(self.items()[j].key().decor()),
            None => None,
        }
    }

    /// Puts `value` under `key` as the last pair; the pair that had that key,
    /// if any, leaves its place. Gives back the value replaced, if the entry
    /// held one.
    pub fn insert_formatted(&mut self, key: &Key, value: Value) -> (r: Option<Value>)
        ensures
            r is Some <==> lookup(inline_entries(*old(self)), key.value()) matches Some(
                TomlItem::Value(_),
            ),
            r matches Some(v) ==> lookup(inline_entries(*old(self)), key.value()) == Some(
                TomlItem::Value(value_model(v)),
            ),
            inline_entries(*final(self)) == insert_entry(
                inline_entries(*old(self)),
                key.value(),
                TomlItem::Value(value_model(value)),
            ),
            final(self).preamble_view() == old(self).preamble_view(),
            final(self).decor_view() == old(self).decor_view(),
            final(self).dotted_view() == old(self).dotted_view(),
    {
        let ghost e = inline_entries(*self);
        let ghost vm = TomlItem::Value(value_model(value));
        let mut items = self.take_items();
        let ghost old_items = items@;
        proof {
            lemma_entries_model(old_items, old_items.len());
            lemma_find_key_from(e, key.value(), 0);
        }
        let found = find_key(&items, key);
        let kv = TableKeyValue::new(key.duplicate(), Item::Value(value));
        assert(item_model(kv.value_view()) == vm);
        assert(kv.key_view().value() == key.value());
        let r = match found {
            Some(j) => {
                let old_kv = items.remove(j);
                let ghost rest = items@;
                proof {
                    assert(rest =~= old_items.remove(j as int));
                    lemma_entries_model(rest, rest.len());
                    assert(entries_model(rest, rest.len()) =~= e.remove(j as int));
                    lemma_entries_push(rest, kv, rest.len());
                }
                items.push(kv);
                proof {
                    assert(entries_model(items@, items@.len()) =~= e.remove(j as int).push(
                        (key.value(), vm),
                    ));
                }
                let (_, old_item) = old_kv.into_parts();
                match old_item {
                    Item::Value(v) => Some(v),
                    _ => None,
                }
            },
            None => {
                proof {
                    lemma_entries_push(old_items, kv, old_items.len());
                }
                items.push(kv);
                proof {
                    assert(entries_model(items@, items@.len()) =~= e.push((key.value(), vm)));
                }
                None
            },
        };
        self.set_items(items);
        r
    }

    /// Removes the pair under `key`, keeping the others in order, and gives
    /// back its item.
    pub fn remove(&mut self, key: &str) -> (r: Option<Item>)
        ensures
            r is Some <==> lookup(inline_entries(*old(self)), key@) is Some,
            r matches Some(it) ==> Some(item_model(it)) == lookup(
                inline_entries(*old(self)),
                key@,
            ),
            inline_entries(*final(self)) == match find_key_from(
                inline_entries(*old(self)),
                key@,
                0,
            ) {
                Some(j) => inline_entries(*old(self)).remove(j),
                None => inline_entries(*old(self)),
            },
            final(self).preamble_view() == old(self).preamble_view(),
            final(self).decor_view() == old(self).decor_view(),
            final(self).dotted_view() == old(self).dotted_view(),
    {
        let ghost e = inline_entries(*self);
        let mut items = self.take_items();
        let ghost old_items = items@;
        proof {
            lemma_entries_model(old_items, old_items.len());
            lemma_find_key_from(e, key@, 0);
        }
        let r = match find_str(&items, key) {
            Some(j) => {
                let old_kv = items.remove(j);
                proof {
                    assert(items@ =~= old_items.remove(j as int));
                    lemma_entries_model(items@, items@.len());
                    assert(entries_model(items@, items@.len()) =~= e.remove(j as int));
                }
                let (_, old_item) = old_kv.into_parts();
                Some(old_item)
            },
            None => None,
        };
        self.set_items(items);
        r
    }

    /// Formats the table the default way: `{ a = 1, b = 2 }`.
    pub fn fmt(&mut self)
        ensures
            final(self).items_view().len() == old(self).items_view().len(),
            forall|j: int|
                0 <= j < old(self).items_view().len() ==> inline_formatted(
                    #[trigger] final(self).items_view()[j],
                    old(self).items_view()[j],
                    value_count(inline_entries(*old(self)), (j + 1) as nat) == value_count(
                        inline_entries(*old(self)),
                        old(self).items_view().len(),
                    ),
                ),
            final(self).preamble_view() == old(self).preamble_view(),
            final(self).decor_view() == old(self).decor_view(),
            final(self).dotted_view() == old(self).dotted_view(),
    {
        decorate_inline_table(self);
    }
}

/// A count of values over one entry more is the count before it plus one
/// if that entry holds a value.
proof fn lemma_value_count_step(e: Seq<(Seq<char>, TomlItem)>, i: nat)
    requires
        i < e.len(),
    ensures
        value_count(e, i + 1) == value_count(e, i) + if e[i as int].1 is Value {
            1nat
        } else {
            0nat
        },
        value_count(e, i) <= i,
    decreases i,
{
    if i > 0 {
        lemma_value_count_step(e, (i - 1) as nat);
    }
}

/// The count of values over the first `i` entries is at most the count over
/// the first `j >= i`.
proof fn lemma_value_count_mono(e: Seq<(Seq<char>, TomlItem)>, i: nat, j: nat)
    requires
        i <= j <= e.len(),
    ensures
        value_count(e, i) <= value_count(e, j),
    decreases j - i,
{
    if i < j {
        lemma_value_count_step(e, (j - 1) as nat);
        lemma_value_count_mono(e, i, (j - 1) as nat);
    }
}

/// Formats `table` the default way: a space on each side of each key, a space
/// before each value, and a space after the last value.
fn decorate_inline_table(table: &mut InlineTable)
    ensures
        final(table).items_view().len() == old(table).items_view().len(),
        forall|j: int|
            0 <= j < old(table).items_view().len() ==> inline_formatted(
                #[trigger] final(table).items_view()[j],
                old(table).items_view()[j],
                value_count(inline_entries(*old(table)), (j + 1) as nat) == value_count(
                    inline_entries(*old(table)),
                    old(table).items_view().len(),
                ),
            ),
        final(table).preamble_view() == old(table).preamble_view(),
        final(table).decor_view() == old(table).decor_view(),
        final(table).dotted_view() == old(table).dotted_view(),
{
    let ghost e = inline_entries(*table);
    let n = table.len();
    let mut items = table.take_items();
    let ghost before = items@;
    proof {
        lemma_entries_model(before, before.len());
    }
    let len = items.len();
    let mut i: usize = 0;
    let mut seen: usize = 0;
    while i < len
        invariant
            i <= len,
            len == before.len(),
            e == entries_model(before, before.len()),
            e.len() == len,
            forall|j: int|
                0 <= j < len ==> #[trigger] e[j] == (
                    before[j].key_view().value(),
                    item_model(before[j].value_view()),
                ),
            n == value_count(e, len as nat),
            seen == value_count(e, i as nat),
            items@.len() == len,
            forall|j: int|
                0 <= j < i ==> inline_formatted(
                    #[trigger] items@[j],
                    before[j],
                    value_count(e, (j + 1) as nat) == n,
                ),
            forall|j: int| i <= j < len ==> #[trigger] items@[j] == before[j],
        decreases len - i,
    {
        proof {
            lemma_value_count_step(e, i as nat);
            lemma_value_count_mono(e, (i + 1) as nat, len as nat);
            reveal_strlit(" ");
            reveal_strlit("");
            assert(" "@ =~= seq![' ']);
            assert(""@ =~= Seq::<char>::empty());
        }
        if items[i].value().is_value() {
            let kv = items.remove(i);
            let (key, item) = kv.into_parts();
            if let Item::Value(v) = item {
                let key = key.with_decor(Decor::new(" ", " "));
                let mut w = v;
                seen = seen + 1;
                if seen == n {
                    w.decorate(" ", " ");
                } else {
                    w.decorate(" ", "");
                }
                items.insert(i, TableKeyValue::new(key, Item::Value(w)));
            }
        }
        i = i + 1;
    }
    table.set_items(items);
}

} // verus!
