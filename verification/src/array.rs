//! Inline arrays: reading, adding, replacing and removing their values, and
//! formatting them.

use vstd::prelude::*;

use crate::value::{decorated_as, same_but_decor, value_decor, Array, Value};

verus! {

/// `[a, b]`: the prefix a value gets at position `i` of an array (none for
/// the first, a space for the others).
pub open spec fn array_value_prefix(i: int) -> Seq<char> {
    if i > 0 {
        seq![' ']
    } else {
        Seq::empty()
    }
}

/// `values` is `old` with `v` inserted at `index`, `v` standing for the
/// inserted value as the array holds it.
pub open spec fn inserted_at(values: Seq<Value>, old: Seq<Value>, index: int, v: Value) -> bool {
    &&& values.len() == old.len() + 1
    &&& values[index] == v
    &&& values.subrange(0, index) == old.subrange(0, index)
    &&& values.subrange(index + 1, values.len() as int) == old.subrange(index, old.len() as int)
}

impl Array {
    /// An array of the given values, formatted the default way: `[a, b, c]`.
    pub fn from_values(values: Vec<Value>) -> (a: Array)
        ensures
            a.values_view().len() == values@.len(),
            forall|i: int|
                0 <= i < values@.len() ==> decorated_as(
                    #[trigger] a.values_view()[i],
                    values@[i],
                    array_value_prefix(i),
                    Seq::empty(),
                ),
            a.trailing_view() == Seq::<char>::empty(),
            !a.trailing_comma_view(),
            a.decor_view().prefix_view() is None,
            a.decor_view().suffix_view() is None,
    {
        let mut a = Array::from_parts(values, false, String::new());
        a.fmt();
        a
    }

    /// The number of values.
    pub fn len(&self) -> (n: usize)
        ensures
            n == self.values_view().len(),
    {
        self.values().len()
    }

    /// Whether the array holds no value.
    pub fn is_empty(&self) -> (b: bool)
        ensures
            b == (self.values_view().len() == 0),
    {
        self.len() == 0
    }

    /// The value at `index`, if there is one.
    pub fn get(&self, index: usize) -> (r: Option<&Value>)
        ensures
            index < self.values_view().len() ==> r == Some(&self.values_view()[index as int]),
            index >= self.values_view().len() ==> r is None,
    {
        if index < self.values().len() {
            Some(&self.values()[index])
        } else {
            None
        }
    }

    /// Inserts `v`, as it is, at `index`, moving the values after it along.
    pub fn insert_formatted(&mut self, index: usize, v: Value)
        requires
            index <= old(self).values_view().len(),
        ensures
            final(self).values_view() == old(self).values_view().insert(index as int, v),
            final(self).trailing_view() == old(self).trailing_view(),
            final(self).trailing_comma_view() == old(self).trailing_comma_view(),
            final(self).decor_view() == old(self).decor_view(),
    {
        let mut values = self.take_values();
        values.insert(index, v);
        self.set_values(values);
    }

    /// Inserts `v` at `index`, moving the values after it along, with the
    /// default formatting: no space before it in an empty array, one space
    /// otherwise, and nothing after it.
    pub fn insert(&mut self, index: usize, v: Value)
        requires
            index <= old(self).values_view().len(),
        ensures
            final(self).values_view().len() == old(self).values_view().len() + 1,
            final(self).values_view().subrange(0, index as int) == old(self).values_view().subrange(
                0,
                index as int,
            ),
            final(self).values_view().subrange(index + 1, final(self).values_view().len() as int)
                == old(self).values_view().subrange(
                index as int,
                old(self).values_view().len() as int,
            ),
            decorated_as(
                final(self).values_view()[index as int],
                v,
                array_value_prefix(old(self).values_view().len() as int),
                Seq::empty(),
            ),
            final(self).trailing_view() == old(self).trailing_view(),
            final(self).trailing_comma_view() == old(self).trailing_comma_view(),
            final(self).decor_view() == old(self).decor_view(),
    {
        let ghost before = self.values_view();
        let mut value = v;
        proof {
            reveal_strlit("");
            reveal_strlit(" ");
            assert(""@ =~= Seq::<char>::empty());
            assert(" "@ =~= seq![' ']);
        }
        if self.is_empty() {
            value.decorate("", "");
        } else {
            value.decorate(" ", "");
        }
        let ghost w = value;
        self.insert_formatted(index, value);
        proof {
            let after = self.values_view();
            assert(after[index as int] == w);
            assert(after.subrange(0, index as int) =~= before.subrange(0, index as int));
            assert(after.subrange(index + 1, after.len() as int) =~= before.subrange(
                index as int,
                before.len() as int,
            ));
        }
    }

    /// Appends `v`, as it is.
    pub fn push_formatted(&mut self, v: Value)
        ensures
            final(self).values_view() == old(self).values_view().push(v),
            final(self).trailing_view() == old(self).trailing_view(),
            final(self).trailing_comma_view() == old(self).trailing_comma_view(),
            final(self).decor_view() == old(self).decor_view(),
    {
        let n = self.len();
        self.insert_formatted(n, v);
        assert(old(self).values_view().insert(n as int, v) =~= old(self).values_view().push(v));
    }

    /// Appends `v` with the default formatting: no space before it in an
    /// empty array, one space otherwise, and nothing after it.
    pub fn push(&mut self, v: Value)
        ensures
            final(self).values_view().len() == old(self).values_view().len() + 1,
            final(self).values_view().drop_last() == old(self).values_view(),
            decorated_as(
                final(self).values_view().last(),
                v,
                array_value_prefix(old(self).values_view().len() as int),
                Seq::empty(),
            ),
            final(self).trailing_view() == old(self).trailing_view(),
            final(self).trailing_comma_view() == old(self).trailing_comma_view(),
            final(self).decor_view() == old(self).decor_view(),
    {
        let n = self.len();
        self.insert(n, v);
        assert(self.values_view().drop_last() =~= self.values_view().subrange(0, n as int));
        assert(old(self).values_view().subrange(0, n as int) =~= old(self).values_view());
    }

    /// Puts `v`, as it is, in place of the value at `index`, and gives that
    /// value back.
    pub fn replace_formatted(&mut self, index: usize, v: Value) -> (r: Value)
        requires
            index < old(self).values_view().len(),
        ensures
            r == old(self).values_view()[index as int],
            final(self).values_view() == old(self).values_view().update(index as int, v),
            final(self).trailing_view() == old(self).trailing_view(),
            final(self).trailing_comma_view() == old(self).trailing_comma_view(),
            final(self).decor_view() == old(self).decor_view(),
    {
        let mut values = self.take_values();
        let ghost before = values@;
        let r = values.remove(index);
        values.insert(index, v);
        assert(values@ =~= before.update(index as int, v));
        self.set_values(values);
        r
    }

    /// Puts `v` in place of the value at `index`, keeping the whitespace and
    /// comments that were around that value, and gives that value back.
    pub fn replace(&mut self, index: usize, v: Value) -> (r: Value)
        requires
            index < old(self).values_view().len(),
        ensures
            r == old(self).values_view()[index as int],
            final(self).values_view().len() == old(self).values_view().len(),
            forall|j: int|
                0 <= j < old(self).values_view().len() && j != index ==> #[trigger] final(self).values_view()[j]
                    == old(self).values_view()[j],
            same_but_decor(final(self).values_view()[index as int], v),
            value_decor(final(self).values_view()[index as int]) == value_decor(
                old(self).values_view()[index as int],
            ),
            final(self).trailing_view() == old(self).trailing_view(),
            final(self).trailing_comma_view() == old(self).trailing_comma_view(),
            final(self).decor_view() == old(self).decor_view(),
    {
        let existing = self.values()[index].decor().duplicate();
        let mut value = v;
        value.set_decor(existing);
        self.replace_formatted(index, value)
    }

    /// Removes the value at `index`, moving the values after it back, and
    /// gives it back; an array left empty has no trailing comma.
    pub fn remove(&mut self, index: usize) -> (r: Value)
        requires
            index < old(self).values_view().len(),
        ensures
            r == old(self).values_view()[index as int],
            final(self).values_view() == old(self).values_view().remove(index as int),
            final(self).trailing_comma_view() == (old(self).trailing_comma_view()
                && old(self).values_view().len() > 1),
            final(self).trailing_view() == old(self).trailing_view(),
            final(self).decor_view() == old(self).decor_view(),
    {
        let mut values = self.take_values();
        let r = values.remove(index);
        self.set_values(values);
        if self.is_empty() {
            self.set_trailing_comma(false);
        }
        r
    }

    /// Formats the array the default way: `[a, b, c]`.
    pub fn fmt(&mut self)
        ensures
            final(self).values_view().len() == old(self).values_view().len(),
            forall|i: int|
                0 <= i < old(self).values_view().len() ==> decorated_as(
                    #[trigger] final(self).values_view()[i],
                    old(self).values_view()[i],
                    array_value_prefix(i),
                    Seq::empty(),
                ),
            final(self).trailing_view() == old(self).trailing_view(),
            final(self).trailing_comma_view() == old(self).trailing_comma_view(),
            final(self).decor_view() == old(self).decor_view(),
    {
        decorate_array(self);
    }
}

/// Formats `array` the default way: no space before the first value, one
/// space before each of the others, and nothing after any of them.
pub fn decorate_array(array: &mut Array)
    ensures
        final(array).values_view().len() == old(array).values_view().len(),
        forall|i: int|
            0 <= i < old(array).values_view().len() ==> decorated_as(
                #[trigger] final(array).values_view()[i],
                old(array).values_view()[i],
                array_value_prefix(i),
                Seq::empty(),
            ),
        final(array).trailing_view() == old(array).trailing_view(),
        final(array).trailing_comma_view() == old(array).trailing_comma_view(),
        final(array).decor_view() == old(array).decor_view(),
{
    let mut values = array.take_values();
    let ghost before = values@;
    let n = values.len();
    let mut i: usize = 0;
    proof {
        reveal_strlit("");
        reveal_strlit(" ");
        assert(""@ =~= Seq::<char>::empty());
        assert(" "@ =~= seq![' ']);
    }
    while i < n
        invariant
            i <= n,
            n == before.len(),
            values@.len() == n,
            forall|j: int|
                0 <= j < i ==> decorated_as(
                    #[trigger] values@[j],
                    before[j],
                    array_value_prefix(j),
                    Seq::empty(),
                ),
            forall|j: int| i <= j < n ==> #[trigger] values@[j] == before[j],
        decreases n - i,
    {
        let mut v = values.remove(i);
        if i > 0 {
            v.decorate(" ", "");
        } else {
            v.decorate("", "");
        }
        values.insert(i, v);
        proof {
            reveal_strlit("");
            reveal_strlit(" ");
            assert(""@ =~= Seq::<char>::empty());
            assert(" "@ =~= seq![' ']);
        }
        i = i + 1;
    }
    array.set_values(values);
}

} // verus!
