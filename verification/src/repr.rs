//! The raw text of keys and values and the whitespace and comments around
//! them.

use vstd::prelude::*;

verus! {

/// TOML-encoded text of a key or a value.
#[derive(Clone, Debug, PartialEq, Eq, PartialOrd, Ord, Hash)]
pub struct Repr {
    raw_value: String,
}

impl View for Repr {
    type V = Seq<char>;

    closed spec fn view(&self) -> Seq<char> {
        self.raw_value@
    }
}

impl Repr {
    /// A repr holding `raw` as is, without checking that it is valid TOML.
    pub fn new_unchecked(raw: String) -> (r: Repr)
        ensures
            r@ == raw@,
    {
        Repr { raw_value: raw }
    }

    /// A copy of the repr.
    pub fn duplicate(&self) -> (r: Repr)
        ensures
            r == *self,
    {
        Repr { raw_value: self.raw_value.clone() }
    }

    /// The raw text.
    pub fn as_raw(&self) -> (s: &str)
        ensures
            s@ == self@,
    {
        self.raw_value.as_str()
    }
}

/// A prefix and a suffix: whitespace, newlines and comments before and after
/// a key or a value. `None` means "use the default for the position".
#[derive(Clone, Debug, PartialEq, Eq, PartialOrd, Ord, Hash)]
pub struct Decor {
    prefix: Option<String>,
    suffix: Option<String>,
}

/// The characters of an optional string.
pub open spec fn opt_view(o: Option<String>) -> Option<Seq<char>> {
    match o {
        Some(s) => Some(s@),
        None => None,
    }
}

/// The characters of an optional string slice.
pub open spec fn opt_str_view(o: Option<&str>) -> Option<Seq<char>> {
    match o {
        Some(s) => Some(s@),
        None => None,
    }
}

/// The given text, or the default when there is none.
pub open spec fn or_default(o: Option<Seq<char>>, d: Seq<char>) -> Seq<char> {
    match o {
        Some(s) => s,
        None => d,
    }
}

impl Decor {
    /// The prefix, if set.
    pub closed spec fn prefix_view(&self) -> Option<Seq<char>> {
        opt_view(self.prefix)
    }

    /// The suffix, if set.
    pub closed spec fn suffix_view(&self) -> Option<Seq<char>> {
        opt_view(self.suffix)
    }

    /// The text of `inner` surrounded by this decor, falling back to the
    /// defaults where prefix or suffix is unset.
    pub open spec fn around(&self, inner: Seq<char>, default: (Seq<char>, Seq<char>)) -> Seq<char> {
        or_default(self.prefix_view(), default.0) + inner + or_default(self.suffix_view(), default.1)
    }

    /// A decor with neither prefix nor suffix set.
    pub fn empty() -> (d: Decor)
        ensures
            d.prefix_view() is None,
            d.suffix_view() is None,
    {
        Decor { prefix: None, suffix: None }
    }

    /// A decor from the given prefix and suffix.
    pub fn new(prefix: &str, suffix: &str) -> (d: Decor)
        ensures
            d.prefix_view() == Some(prefix@),
            d.suffix_view() == Some(suffix@),
    {
        Decor { prefix: Some(prefix.to_owned()), suffix: Some(suffix.to_owned()) }
    }

    /// A decor from owned prefix and suffix.
    pub fn from_strings(prefix: String, suffix: String) -> (d: Decor)
        ensures
            d.prefix_view() == Some(prefix@),
            d.suffix_view() == Some(suffix@),
    {
        Decor { prefix: Some(prefix), suffix: Some(suffix) }
    }

    /// A copy of the decor.
    pub fn duplicate(&self) -> (d: Decor)
        ensures
            d == *self,
    {
        let prefix = match &self.prefix {
            Some(p) => Some(p.clone()),
            None => None,
        };
        let suffix = match &self.suffix {
            Some(p) => Some(p.clone()),
            None => None,
        };
        Decor { prefix, suffix }
    }

    /// Go back to the default decor.
    pub fn clear(&mut self)
        ensures
            final(self).prefix_view() is None,
            final(self).suffix_view() is None,
    {
        self.prefix = None;
        self.suffix = None;
    }

    /// The prefix.
    pub fn prefix(&self) -> (p: Option<&str>)
        ensures
            opt_str_view(p) == self.prefix_view(),
    {
        match &self.prefix {
            Some(p) => Some(p.as_str()),
            None => None,
        }
    }

    /// The suffix.
    pub fn suffix(&self) -> (s: Option<&str>)
        ensures
            opt_str_view(s) == self.suffix_view(),
    {
        match &self.suffix {
            Some(s) => Some(s.as_str()),
            None => None,
        }
    }

    /// Sets the prefix.
    pub fn set_prefix(&mut self, prefix: &str)
        ensures
            final(self).prefix_view() == Some(prefix@),
            final(self).suffix_view() == old(self).suffix_view(),
    {
        self.prefix = Some(prefix.to_owned());
    }

    /// Sets the suffix.
    pub fn set_suffix(&mut self, suffix: &str)
        ensures
            final(self).suffix_view() == Some(suffix@),
            final(self).prefix_view() == old(self).prefix_view(),
    {
        self.suffix = Some(suffix.to_owned());
    }

    /// Writes `inner` surrounded by this decor (or the defaults) to `out`.
    pub fn display(&self, out: &mut String, inner: &str, default_prefix: &str, default_suffix: &str)
        ensures
            final(out)@ == old(out)@ + self.around(inner@, (default_prefix@, default_suffix@)),
    {
        let ghost start = out@;
        match &self.prefix {
            Some(p) => out.append(p.as_str()),
            None => out.append(default_prefix),
        }
        out.append(inner);
        match &self.suffix {
            Some(s) => out.append(s.as_str()),
            None => out.append(default_suffix),
        }
        assert(out@ =~= start + self.around(inner@, (default_prefix@, default_suffix@)));
    }
}

} // verus!
