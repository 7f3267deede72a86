//! A low-level interface for writing out TOML syntax.

use vstd::prelude::*;

use crate::text::push_char;

verus! {

/// A sink for TOML text, with one method per piece of TOML punctuation.
///
/// `written` is everything the sink has received so far; each method appends
/// exactly the characters of the piece it is named after.
pub trait TomlWrite {
    /// All characters written to the sink so far.
    spec fn written(&self) -> Seq<char>;

    /// Appends a string slice.
    fn write_str(&mut self, s: &str)
        ensures
            final(self).written() == old(self).written() + s@,
    ;

    /// Appends a single character.
    fn write_char(&mut self, c: char)
        ensures
            final(self).written() == old(self).written().push(c),
    ;

    /// `[`
    fn open_table_header(&mut self)
        ensures
            final(self).written() == old(self).written() + seq!['['],
    {
        self.write_char('[');
    }

    /// `]`
    fn close_table_header(&mut self)
        ensures
            final(self).written() == old(self).written() + seq![']'],
    {
        self.write_char(']');
    }

    /// `[[`
    fn open_array_of_tables_header(&mut self)
        ensures
            final(self).written() == old(self).written() + seq!['[', '['],
    {
        self.write_char('[');
        self.write_char('[');
    }

    /// `]]`
    fn close_array_of_tables_header(&mut self)
        ensures
            final(self).written() == old(self).written() + seq![']', ']'],
    {
        self.write_char(']');
        self.write_char(']');
    }

    /// `{`
    fn open_inline_table(&mut self)
        ensures
            final(self).written() == old(self).written() + seq!['{'],
    {
        self.write_char('{');
    }

    /// `}`
    fn close_inline_table(&mut self)
        ensures
            final(self).written() == old(self).written() + seq!['}'],
    {
        self.write_char('}');
    }

    /// `[`
    fn open_array(&mut self)
        ensures
            final(self).written() == old(self).written() + seq!['['],
    {
        self.write_char('[');
    }

    /// `]`
    fn close_array(&mut self)
        ensures
            final(self).written() == old(self).written() + seq![']'],
    {
        self.write_char(']');
    }

    /// `.` between the parts of a dotted key
    fn key_sep(&mut self)
        ensures
            final(self).written() == old(self).written() + seq!['.'],
    {
        self.write_char('.');
    }

    /// `=` between a key and its value
    fn keyval_sep(&mut self)
        ensures
            final(self).written() == old(self).written() + seq!['='],
    {
        self.write_char('=');
    }

    /// `,` between values
    fn val_sep(&mut self)
        ensures
            final(self).written() == old(self).written() + seq![','],
    {
        self.write_char(',');
    }

    /// A single space
    fn space(&mut self)
        ensures
            final(self).written() == old(self).written() + seq![' '],
    {
        self.write_char(' ');
    }

    /// `#`, the start of a comment
    fn open_comment(&mut self)
        ensures
            final(self).written() == old(self).written() + seq!['#'],
    {
        self.write_char('#');
    }

    /// A line feed
    fn newline(&mut self)
        ensures
            final(self).written() == old(self).written() + seq!['\n'],
    {
        self.write_char('\n');
    }
}

impl TomlWrite for String {
    open spec fn written(&self) -> Seq<char> {
        self@
    }

    fn write_str(&mut self, s: &str) {
        self.append(s);
    }

    fn write_char(&mut self, c: char) {
        push_char(self, c);
    }
}

} // verus!
