//! Values made from plain Rust values, written the default way.

use vstd::prelude::*;

use crate::datetime::{datetime_text, Datetime};
use crate::parser::strings::{
    basic_string,
    basic_string_at,
    literal_string,
    literal_string_at,
    ml_basic_string,
    ml_basic_string_at,
    ml_literal_string,
    ml_literal_string_at,
    string,
    string_at,
};
use crate::repr::Repr;
use crate::text::{chars_of, push_char};
use crate::value::{
    decorated_as,
    value_decor,
    value_model,
    value_repr_text,
    value_text,
    Array,
    Formatted,
    TomlValue,
    Value,
};
use crate::integer::{integer_text, Radix};

verus! {

/// What a parse of the whole of a text of length `len` gives.
pub open spec fn whole(r: Option<(int, Seq<char>)>, len: int) -> Option<Seq<char>> {
    match r {
        Some((e, v)) => if e == len {
            Some(v)
        } else {
            None
        },
        None => None,
    }
}

/// `s` between `open` and `close`.
pub open spec fn delimited(open: Seq<char>, s: Seq<char>, close: Seq<char>) -> Seq<char> {
    open + s + close
}

/// The string a text stands for and the TOML text to keep for it: the text
/// itself when it is a whole string, else the text between double quotes,
/// between apostrophes, between triple double quotes (kept between triple
/// apostrophes), or between triple apostrophes, whichever first reads as a
/// whole string of that kind.
///
/// The triple-double-quote case reads the string between `"""` but keeps the
/// text between `'''`: the value is the one read, the kept text is the literal
/// form, which reads back the same only when the string has no escapes. This
/// is the behaviour of the guessing rule this library follows, kept as it is.
pub open spec fn guess_delimiters(s: Seq<char>) -> Option<(Seq<char>, Seq<char>)> {
    let basic = delimited(seq!['"'], s, seq!['"']);
    let literal = delimited(seq!['\''], s, seq!['\'']);
    let ml_basic = delimited(seq!['"', '"', '"'], s, seq!['"', '"', '"']);
    let ml_literal = delimited(seq!['\'', '\'', '\''], s, seq!['\'', '\'', '\'']);
    if whole(string_at(s, 0), s.len() as int) is Some {
        Some((whole(string_at(s, 0), s.len() as int)->0, s))
    } else if whole(basic_string_at(basic, 0), basic.len() as int) is Some {
        Some((whole(basic_string_at(basic, 0), basic.len() as int)->0, basic))
    } else if whole(literal_string_at(literal, 0), literal.len() as int) is Some {
        Some((whole(literal_string_at(literal, 0), literal.len() as int)->0, literal))
    } else if whole(ml_basic_string_at(ml_basic, 0), ml_basic.len() as int) is Some {
        Some((whole(ml_basic_string_at(ml_basic, 0), ml_basic.len() as int)->0, ml_literal))
    } else if whole(ml_literal_string_at(ml_literal, 0), ml_literal.len() as int) is Some {
        Some((whole(ml_literal_string_at(ml_literal, 0), ml_literal.len() as int)->0, ml_literal))
    } else {
        None
    }
}

/// The characters of `s` between `open` and `close`.
fn delimit(open: &str, s: &str, close: &str) -> (r: Vec<char>)
    ensures
        r@ == delimited(open@, s@, close@),
{
    let mut t = String::new();
    t.append(open);
    t.append(s);
    t.append(close);
    let r = chars_of(t.as_str());
    assert(r@ =~= delimited(open@, s@, close@));
    r
}

/// Whether a parse read the whole of a text of length `len`.
fn read_whole(r: Option<(usize, String)>, len: usize) -> (w: Option<String>)
    ensures
        w is Some <==> (r matches Some((e, _)) && e == len),
        w matches Some(v) ==> r matches Some((_, v2)) && v@ == v2@,
{
    match r {
        Some((e, v)) => if e == len {
            Some(v)
        } else {
            None
        },
        None => None,
    }
}

/// A string value with the given TOML text and no space around it.
fn string_value(value: String, raw: String) -> (v: Value)
    ensures
        value_model(v) == TomlValue::String(value@),
        value_repr_text(v) == raw@,
        value_decor(v).prefix_view() == Some(Seq::<char>::empty()),
        value_decor(v).suffix_view() == Some(Seq::<char>::empty()),
{
    let mut f = Formatted::new(value);
    f.set_repr_unchecked(Repr::new_unchecked(raw));
    let v = Value::String(f).decorated("", "");
    proof {
        reveal_strlit("");
        assert(""@ =~= Seq::<char>::empty());
    }
    v
}

impl Value {
    /// A string value from a text: the text itself when it is a TOML string,
    /// else the text put between the first delimiters it reads well between
    /// (see `guess_delimiters`); no space around it.
    pub fn from_str_guess(s: &str) -> (v: Value)
        requires
            guess_delimiters(s@) is Some,
        ensures
            value_model(v) == TomlValue::String(guess_delimiters(s@).unwrap().0),
            value_repr_text(v) == guess_delimiters(s@).unwrap().1,
            value_decor(v).prefix_view() == Some(Seq::<char>::empty()),
            value_decor(v).suffix_view() == Some(Seq::<char>::empty()),
    {
        let cs = chars_of(s);
        if let Some(v) = read_whole(string(&cs, 0), cs.len()) {
            return string_value(v, s.to_owned());
        }
        let basic = delimit("\"", s, "\"");
        proof {
            reveal_strlit("\"");
            assert("\""@ =~= seq!['"']);
            assert(basic@ == delimited(seq!['"'], s@, seq!['"']));
        }
        if let Some(v) = read_whole(basic_string(&basic, 0), basic.len()) {
            let mut raw = String::new();
            push_char(&mut raw, '"');
            raw.append(s);
            push_char(&mut raw, '"');
            assert(raw@ =~= basic@);
            return string_value(v, raw);
        }
        let literal = delimit("'", s, "'");
        proof {
            reveal_strlit("'");
            assert("'"@ =~= seq!['\'']);
            assert(literal@ == delimited(seq!['\''], s@, seq!['\'']));
        }
        if let Some(v) = read_whole(literal_string(&literal, 0), literal.len()) {
            let mut raw = String::new();
            push_char(&mut raw, '\'');
            raw.append(s);
            push_char(&mut raw, '\'');
            assert(raw@ =~= literal@);
            return string_value(v, raw);
        }
        let ml_basic = delimit("\"\"\"", s, "\"\"\"");
        let ml_literal = delimit("'''", s, "'''");
        proof {
            reveal_strlit("\"\"\"");
            reveal_strlit("'''");
            assert("\"\"\""@ =~= seq!['"', '"', '"']);
            assert("'''"@ =~= seq!['\'', '\'', '\'']);
        }
        let mut raw = String::new();
        push_char(&mut raw, '\'');
        push_char(&mut raw, '\'');
        push_char(&mut raw, '\'');
        raw.append(s);
        push_char(&mut raw, '\'');
        push_char(&mut raw, '\'');
        push_char(&mut raw, '\'');
        assert(raw@ =~= ml_literal@);
        if let Some(v) = read_whole(ml_basic_string(&ml_basic, 0), ml_basic.len()) {
            return string_value(v, raw);
        }
        match read_whole(ml_literal_string(&ml_literal, 0), ml_literal.len()) {
            Some(v) => string_value(v, raw),
            None => {
                assert(false);
                string_value(String::new(), raw)
            },
        }
    }

    /// An integer value written in decimal, with the default decor (a space
    /// before it when written).
    pub fn from_i64(i: i64) -> (v: Value)
        ensures
            value_model(v) == TomlValue::Integer(i as int),
            value_repr_text(v) == integer_text(i as int, Radix::Decimal),
            value_text(v) == seq![' '] + integer_text(i as int, Radix::Decimal),
            value_decor(v).prefix_view() is None,
            value_decor(v).suffix_view() is None,
    {
        Value::Integer(Formatted::new(i))
    }

    /// A boolean value, with the default decor.
    pub fn from_bool(b: bool) -> (v: Value)
        ensures
            value_model(v) == TomlValue::Boolean(b),
            value_repr_text(v) == (if b {
                seq!['t', 'r', 'u', 'e']
            } else {
                seq!['f', 'a', 'l', 's', 'e']
            }),
            value_text(v) == seq![' '] + value_repr_text(v),
            value_decor(v).prefix_view() is None,
            value_decor(v).suffix_view() is None,
    {
        Value::Boolean(Formatted::new(b))
    }

    /// A date-time value, with the default decor.
    pub fn from_datetime(d: Datetime) -> (v: Value)
        ensures
            value_model(v) == TomlValue::Datetime(d),
            value_repr_text(v) == datetime_text(d),
            value_text(v) == seq![' '] + datetime_text(d),
            value_decor(v).prefix_view() is None,
            value_decor(v).suffix_view() is None,
    {
        Value::Datetime(Formatted::new(d))
    }

    /// An array value, as it is.
    pub fn from_array(a: Array) -> (v: Value)
        ensures
            v == Value::Array(a),
    {
        Value::Array(a)
    }
}

} // verus!
