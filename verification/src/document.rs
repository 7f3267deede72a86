//! TOML documents: a root table and what follows its last item.

use vstd::prelude::*;

use crate::value::Table;

verus! {

/// A TOML document.
#[derive(Debug)]
pub struct Document {
    root: Table,
    trailing: String,
}

impl Document {
    /// The root table.
    pub closed spec fn root_view(&self) -> Table {
        self.root
    }

    /// Whitespace and comments after the last item.
    pub closed spec fn trailing_view(&self) -> Seq<char> {
        self.trailing@
    }

    /// An empty document, whose root table comes first.
    pub fn new() -> (d: Document)
        ensures
            d.root_view().items_view() == Seq::<crate::value::TableKeyValue>::empty(),
            d.root_view().position_view() == Some(0usize),
            !d.root_view().implicit_view(),
            !d.root_view().dotted_view(),
            d.trailing_view() == Seq::<char>::empty(),
    {
        Document { root: Table::with_decor_and_pos(crate::repr::Decor::empty(), Some(0)), trailing: String::new() }
    }

    /// A document of the given root table and trailing text.
    pub fn from_parts(root: Table, trailing: String) -> (d: Document)
        ensures
            d.root_view() == root,
            d.trailing_view() == trailing@,
    {
        Document { root, trailing }
    }

    /// The root table.
    pub fn as_table(&self) -> (t: &Table)
        ensures
            *t == self.root_view(),
    {
        &self.root
    }

    /// The root table, to change it.
    pub fn as_table_mut(&mut self) -> (t: &mut Table)
        ensures
            *t == old(self).root_view(),
            final(self).root_view() == *final(t),
            final(self).trailing_view() == old(self).trailing_view(),
    {
        &mut self.root
    }

    /// Whitespace and comments after the last item.
    pub fn trailing(&self) -> (s: &str)
        ensures
            s@ == self.trailing_view(),
    {
        self.trailing.as_str()
    }

    /// Sets the whitespace and comments after the last item.
    pub fn set_trailing(&mut self, trailing: &str)
        ensures
            final(self).trailing_view() == trailing@,
            final(self).root_view() == old(self).root_view(),
    {
        self.trailing = trailing.to_owned();
    }
}

} // verus!
