//! Reaching into an item by key: reading what is there, or making room for
//! it.

use vstd::prelude::*;

use crate::inline_table::inline_entries;
use crate::key::Key;
use crate::parser::value::lemma_find_key_from;
use crate::repr::{Decor, Repr};
use crate::table::{entry_after, find_str, lemma_update_entries, lookup};
use crate::value::{
    item_model,
    lemma_entries_model,
    lemma_entries_push,
    table_model,
    InlineTable,
    Item,
    TableKeyValue,
    TomlItem,
    Value,
};

verus! {

/// What is under `key` in a table or an inline table; nothing in any other
/// item.
pub open spec fn index_model(it: Item, key: Seq<char>) -> Option<TomlItem> {
    match it {
        Item::Table(t) => lookup(table_model(t).entries, key),
        Item::Value(Value::InlineTable(t)) => lookup(inline_entries(t), key),
        _ => None,
    }
}

/// A pair added by indexing: the key written as it is, followed by a space.
pub open spec fn indexed_key(k: Key, key: Seq<char>) -> bool {
    &&& k.value() == key
    &&& k.repr_view()@ == key
    &&& k.decor_view().prefix_view() == Some(Seq::<char>::empty())
    &&& k.decor_view().suffix_view() == Some(seq![' '])
}

/// The item under `key` in an inline table; where there is none, an empty
/// one is added after the last pair first.
fn inline_entry<'a>(t: &'a mut InlineTable, key: &str) -> (r: &'a mut Item)
    ensures
        match lookup(inline_entries(*old(t)), key@) {
            Some(it) => item_model(*r) == it,
            None => *r is Empty,
        },
        inline_entries(*final(t)) == entry_after(
            inline_entries(*old(t)),
            key@,
            item_model(*final(r)),
        ),
        lookup(inline_entries(*old(t)), key@) is None ==> indexed_key(
            final(t).items_view().last().key_view(),
            key@,
        ),
        final(t).items_view().len() == old(t).items_view().len() + if lookup(
            inline_entries(*old(t)),
            key@,
        ) is None {
            1int
        } else {
            0int
        },
        final(t).preamble_view() == old(t).preamble_view(),
        final(t).decor_view() == old(t).decor_view(),
        final(t).dotted_view() == old(t).dotted_view(),
{
    let ghost e = inline_entries(*t);
    proof {
        lemma_entries_model(t.items_view(), t.items_view().len());
        lemma_find_key_from(e, key@, 0);
        reveal_strlit("");
        reveal_strlit(" ");
    }
    let j = match find_str(t.items(), key) {
        Some(j) => j,
        None => {
            assert(""@ =~= Seq::<char>::empty());
            assert(" "@ =~= seq![' ']);
            let k = Key::new_unchecked(Repr::new_unchecked(key.to_owned()), key.to_owned()).with_decor(
                Decor::new("", " "),
            );
            let mut items = t.take_items();
            let ghost before = items@;
            items.push(TableKeyValue::new(k, Item::Empty));
            proof {
                lemma_entries_model(before, before.len());
                lemma_entries_model(items@, items@.len());
                lemma_entries_push(before, items@.last(), before.len());
                assert(items@.drop_last() == before);
            }
            t.set_items(items);
            assert(indexed_key(t.items_view().last().key_view(), key@));
            t.items().len() - 1
        },
    };
    let ghost mid = t.items_view();
    proof {
        lemma_entries_model(mid, mid.len());
        lemma_update_entries(mid, j as int);
    }
    assert(lookup(e, key@) is None ==> j == mid.len() - 1 && indexed_key(mid[j as int].key_view(), key@));
    t.item_mut(j)
}

impl Item {
    /// The item under `key` when this is a table or an inline table and has
    /// an entry under it.
    pub fn index(&self, key: &str) -> (r: Option<&Item>)
        ensures
            r is Some <==> index_model(*self, key@) is Some,
            r matches Some(it) ==> Some(item_model(*it)) == index_model(*self, key@),
    {
        match self {
            Item::Table(t) => t.get(key),
            Item::Value(Value::InlineTable(t)) => {
                proof {
                    lemma_entries_model(t.items_view(), t.items_view().len());
                }
                match find_str(t.items(), key) {
                    Some(j) => Some(t.items()[j].value()),
                    None => None,
                }
            },
            _ => None,
        }
    }

    /// The item under `key`, to change it in place. Nothing becomes an
    /// inline table first; a table or an inline table without an entry under
    /// `key` gets an empty one after its last entry.
    pub fn index_or_insert(&mut self, key: &str) -> (r: &mut Item)
        requires
            *old(self) is Empty || *old(self) is Table || old(self) matches Item::Value(
                Value::InlineTable(_),
            ),
        ensures
            match index_model(*old(self), key@) {
                Some(it) => item_model(*r) == it,
                None => *r is Empty,
            },
            match *old(self) {
                Item::Table(t) => *final(self) matches Item::Table(t2) && table_model(t2).entries
                    == entry_after(table_model(t).entries, key@, item_model(*final(r))),
                Item::Value(Value::InlineTable(t)) => *final(self) matches Item::Value(
                    Value::InlineTable(t2),
                ) && inline_entries(t2) == entry_after(
                    inline_entries(t),
                    key@,
                    item_model(*final(r)),
                ),
                _ => *final(self) matches Item::Value(Value::InlineTable(t2)) && inline_entries(t2)
                    == seq![(key@, item_model(*final(r)))] && indexed_key(
                    t2.items_view()[0].key_view(),
                    key@,
                ),
            },
    {
        if self.is_none() {
            let t = InlineTable::new();
            proof {
                assert(lookup(inline_entries(t), key@) is None);
                lemma_entries_model(t.items_view(), t.items_view().len());
            }
            *self = Item::Value(Value::InlineTable(t));
        }
        match self {
            Item::Table(t) => t.entry(key),
            Item::Value(Value::InlineTable(t)) => inline_entry(t, key),
            other => other,
        }
    }
}

} // verus!
