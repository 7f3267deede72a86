//! Keys of key/value pairs and table headers.

use vstd::prelude::*;

use crate::encode::{string_repr_text, to_string_repr, StringStyle};
use crate::repr::{Decor, Repr};
use crate::string::{is_unquoted_key, is_unquoted_key_char};

verus! {

/// The TOML text of a key: bare when it can be, else a basic string.
pub open spec fn key_repr_text(k: Seq<char>) -> Seq<char> {
    if is_unquoted_key(k) {
        k
    } else {
        string_repr_text(k, Some(StringStyle::OnelineSingle), Some(false))
    }
}

/// A key: its value, its TOML text, the whitespace around it and, for table
/// headers, its position among the tables of the document.
#[derive(Clone, Debug, PartialEq, Eq, PartialOrd, Ord, Hash)]
pub struct Key {
    key: String,
    repr: Repr,
    decor: Decor,
    position: Option<usize>,
}

/// A character allowed in a bare key: `A-Z a-z 0-9 - _`.
pub fn is_unquoted_char(c: char) -> (b: bool)
    ensures
        b == is_unquoted_key_char(c),
{
    ('a' <= c && c <= 'z') || ('A' <= c && c <= 'Z') || ('0' <= c && c <= '9') || c == '-' || c
        == '_'
}

fn to_key_repr(key: &str) -> (r: Repr)
    ensures
        r@ == key_repr_text(key@),
{
    let cs = crate::text::chars_of(key);
    let mut i: usize = 0;
    let mut all = true;
    while i < cs.len()
        invariant
            i <= cs@.len(),
            cs@ == key@,
            all == (forall|j: int| 0 <= j < i ==> #[trigger] is_unquoted_key_char(key@[j])),
        decreases cs@.len() - i,
    {
        if !is_unquoted_char(cs[i]) {
            all = false;
        }
        i = i + 1;
    }
    if all && cs.len() > 0 {
        Repr::new_unchecked(key.to_owned())
    } else {
        to_string_repr(key, Some(StringStyle::OnelineSingle), Some(false))
    }
}

impl Key {
    /// The key's value.
    pub closed spec fn value(&self) -> Seq<char> {
        self.key@
    }

    /// The key's TOML text.
    pub closed spec fn repr_view(&self) -> Repr {
        self.repr
    }

    /// The whitespace and comments around the key.
    pub closed spec fn decor_view(&self) -> Decor {
        self.decor
    }

    /// The key's position among the tables of its document, if it names one.
    pub closed spec fn position_view(&self) -> Option<usize> {
        self.position
    }

    /// A key with the given value, written bare when it can be, with the
    /// default decor.
    pub fn new(key: &str) -> (k: Key)
        ensures
            k.value() == key@,
            k.repr_view()@ == key_repr_text(key@),
            k.decor_view().prefix_view() is None,
            k.decor_view().suffix_view() is None,
            k.position_view() is None,
    {
        let repr = to_key_repr(key);
        Self::new_unchecked(repr, key.to_owned())
    }

    /// A key with the given TOML text, trusted to encode `key`.
    pub fn new_unchecked(repr: Repr, key: String) -> (k: Key)
        ensures
            k.value() == key@,
            k.repr_view() == repr,
            k.decor_view().prefix_view() is None,
            k.decor_view().suffix_view() is None,
            k.position_view() is None,
    {
        Key { key, repr, decor: Decor::empty(), position: None }
    }

    /// The key with the given decor.
    pub fn with_decor(self, decor: Decor) -> (k: Key)
        ensures
            k.value() == self.value(),
            k.repr_view() == self.repr_view(),
            k.decor_view() == decor,
            k.position_view() == self.position_view(),
    {
        Key { decor, ..self }
    }

    /// The key with the given position.
    pub fn with_position(self, position: Option<usize>) -> (k: Key)
        ensures
            k.value() == self.value(),
            k.repr_view() == self.repr_view(),
            k.decor_view() == self.decor_view(),
            k.position_view() == position,
    {
        Key { position, ..self }
    }

    /// A copy of the key.
    pub fn duplicate(&self) -> (k: Key)
        ensures
            k == *self,
    {
        Key {
            key: self.key.clone(),
            repr: self.repr.duplicate(),
            decor: self.decor.duplicate(),
            position: self.position,
        }
    }

    /// Whether the two keys have the same value.
    pub fn same_value(&self, other: &Key) -> (b: bool)
        ensures
            b == (self.value() == other.value()),
    {
        self.key == other.key
    }

    /// Whether the key's value is `k`.
    pub fn has_value(&self, k: &str) -> (b: bool)
        ensures
            b == (self.value() == k@),
    {
        let t = k.to_owned();
        self.key == t
    }

    /// The key's value.
    pub fn get(&self) -> (s: &str)
        ensures
            s@ == self.value(),
    {
        self.key.as_str()
    }

    /// The key's TOML text.
    pub fn repr(&self) -> (r: &Repr)
        ensures
            *r == self.repr_view(),
    {
        &self.repr
    }

    /// The whitespace and comments around the key.
    pub fn decor(&self) -> (d: &Decor)
        ensures
            *d == self.decor_view(),
    {
        &self.decor
    }

    /// The whitespace and comments around the key, to change them.
    pub fn decor_mut(&mut self) -> (d: &mut Decor)
        ensures
            *d == old(self).decor_view(),
            final(self).decor_view() == *final(d),
            final(self).value() == old(self).value(),
            final(self).repr_view() == old(self).repr_view(),
            final(self).position_view() == old(self).position_view(),
    {
        &mut self.decor
    }

    /// The key's position among the tables of its document.
    pub fn position(&self) -> (p: Option<usize>)
        ensures
            p == self.position_view(),
    {
        self.position
    }

    /// Sets the key's position among the tables of its document.
    pub fn set_position(&mut self, position: Option<usize>)
        ensures
            final(self).position_view() == position,
            final(self).value() == old(self).value(),
            final(self).repr_view() == old(self).repr_view(),
            final(self).decor_view() == old(self).decor_view(),
    {
        self.position = position;
    }

    /// The key's TOML text, without its decor.
    pub fn to_repr_string(&self) -> (s: String)
        ensures
            s@ == self.repr_view()@,
    {
        self.repr.as_raw().to_owned()
    }

    /// Writes the key's TOML text surrounded by its decor (or the defaults).
    pub fn display_with_decor(&self, out: &mut String, default_prefix: &str, default_suffix: &str)
        ensures
            final(out)@ == old(out)@ + self.decor_view().around(
                self.repr_view()@,
                (default_prefix@, default_suffix@),
            ),
    {
        self.decor.display(out, self.repr.as_raw(), default_prefix, default_suffix)
    }
}

} // verus!
