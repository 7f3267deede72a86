//! Keys: bare or quoted, alone or dotted.

use vstd::prelude::*;

use crate::key::Key;
use crate::parser::strings::{basic_string, basic_string_at, literal_string, literal_string_at};
use crate::parser::trivia::{ws, ws_end};
use crate::repr::{Decor, Repr};
use crate::string::is_unquoted_key_char;
use crate::text::slice_string;

verus! {

// unquoted-key = 1*( ALPHA / DIGIT / %x2D / %x5F ) ; A-Z / a-z / 0-9 / - / _
/// The end of the run of bare-key characters starting at `i`.
pub open spec fn unquoted_key_end(s: Seq<char>, i: int) -> int
    decreases s.len() - i,
{
    if 0 <= i < s.len() && is_unquoted_key_char(s[i]) {
        unquoted_key_end(s, i + 1)
    } else {
        i
    }
}

// simple-key = quoted-key / unquoted-key
// quoted-key = basic-string / literal-string
/// A key without dots starting at `i`: where it ends and its value.
pub open spec fn simple_key_at(s: Seq<char>, i: int) -> Option<(int, Seq<char>)> {
    if 0 <= i < s.len() && s[i] == '"' {
        basic_string_at(s, i)
    } else if 0 <= i < s.len() && s[i] == '\'' {
        literal_string_at(s, i)
    } else {
        let e = unquoted_key_end(s, i);
        if i < e {
            Some((e, s.subrange(i, e)))
        } else {
            None
        }
    }
}

/// A key without dots, with the spaces around it, starting at `i`: where the
/// key starts and ends, where the spaces after it end, and its value.
pub open spec fn key_part_at(s: Seq<char>, i: int) -> Option<(int, int, int, Seq<char>)> {
    let a = ws_end(s, i);
    match simple_key_at(s, a) {
        Some((b, k)) => Some((a, b, ws_end(s, b), k)),
        None => None,
    }
}

// key = simple-key / dotted-key
// dotted-key = simple-key 1*( dot-sep simple-key )
// dot-sep   = ws %x2E ws  ; . Period
/// A key, dotted or not, with the spaces around its parts, starting at `i`:
/// where it ends and the values of its parts.
pub open spec fn dotted_key_at(s: Seq<char>, i: int) -> Option<(int, Seq<Seq<char>>)>
    decreases s.len() - i,
{
    match key_part_at(s, i) {
        None => None,
        Some((a, b, c, k)) => if i <= c && c < s.len() && s[c] == '.' {
            match dotted_key_at(s, c + 1) {
                Some((e, ks)) => Some((e, seq![k] + ks)),
                None => None,
            }
        } else {
            Some((c, seq![k]))
        },
    }
}

/// The text of a key: its decor around its TOML text.
pub open spec fn key_text(k: Key) -> Seq<char> {
    k.decor_view().around(k.repr_view()@, (Seq::empty(), Seq::empty()))
}

/// The text of the parts of a dotted key, joined by dots.
pub open spec fn keys_text(ks: Seq<Key>) -> Seq<char>
    decreases ks.len(),
{
    if ks.len() == 0 {
        Seq::empty()
    } else if ks.len() == 1 {
        key_text(ks[0])
    } else {
        key_text(ks[0]) + seq!['.'] + keys_text(ks.drop_first())
    }
}

/// The values of the parts of a dotted key.
pub open spec fn key_values(ks: Seq<Key>) -> Seq<Seq<char>> {
    ks.map_values(|k: Key| k.value())
}

/// Every part carries its surrounding spaces and no position.
pub open spec fn keys_decorated(ks: Seq<Key>) -> bool {
    forall|j: int|
        0 <= j < ks.len() ==> (#[trigger] ks[j]).decor_view().prefix_view() is Some
            && ks[j].decor_view().suffix_view() is Some && ks[j].position_view() is None
}

/// The end of the run of bare-key characters starting at `pos`.
fn unquoted_key_run(s: &[char], pos: usize) -> (end: usize)
    requires
        pos <= s@.len(),
    ensures
        end == unquoted_key_end(s@, pos as int),
        pos <= end <= s@.len(),
{
    let mut i = pos;
    while i < s.len() && crate::key::is_unquoted_char(s[i])
        invariant
            pos <= i <= s@.len(),
            unquoted_key_end(s@, i as int) == unquoted_key_end(s@, pos as int),
        decreases s@.len() - i,
    {
        i = i + 1;
    }
    i
}

/// Parses a key without dots at `pos`: where it ends and its value.
pub fn simple_key(s: &[char], pos: usize) -> (r: Option<(usize, String)>)
    requires
        pos <= s@.len(),
    ensures
        r matches Some((e, k)) ==> simple_key_at(s@, pos as int) == Some((e as int, k@)) && pos < e
            <= s@.len(),
        r is None ==> simple_key_at(s@, pos as int) is None,
{
    if pos < s.len() && s[pos] == '"' {
        basic_string(s, pos)
    } else if pos < s.len() && s[pos] == '\'' {
        literal_string(s, pos)
    } else {
        let e = unquoted_key_run(s, pos);
        if pos < e {
            Some((e, slice_string(s, pos, e)))
        } else {
            None
        }
    }
}

/// Parses one part of a key with the spaces around it, at `pos`.
fn key_part(s: &[char], pos: usize) -> (r: Option<(usize, Key)>)
    requires
        pos <= s@.len(),
    ensures
        r matches Some((c, k)) ==> key_part_at(s@, pos as int) matches Some((a, b, c2, v)) && c
            == c2 && k.value() == v && key_text(k) == s@.subrange(pos as int, c as int) && pos
            < c <= s@.len() && keys_decorated(seq![k]) && k.repr_view()@ == s@.subrange(a, b),
        r is None ==> key_part_at(s@, pos as int) is None,
{
    let a = ws(s, pos);
    match simple_key(s, a) {
        Some((b, value)) => {
            let c = ws(s, b);
            let repr = Repr::new_unchecked(slice_string(s, a, b));
            let decor = Decor::from_strings(slice_string(s, pos, a), slice_string(s, b, c));
            let k = Key::new_unchecked(repr, value).with_decor(decor);
            assert(key_text(k) =~= s@.subrange(pos as int, c as int));
            Some((c, k))
        },
        None => None,
    }
}

/// Parses a key, dotted or not, at `pos`: where it ends and its parts, each
/// with the spaces around it.
pub fn key(s: &[char], pos: usize) -> (r: Option<(usize, Vec<Key>)>)
    requires
        pos <= s@.len(),
    ensures
        r matches Some((e, ks)) ==> dotted_key_at(s@, pos as int) == Some((e as int, key_values(ks@)))
            && keys_text(ks@) == s@.subrange(pos as int, e as int) && pos < e <= s@.len()
            && keys_decorated(ks@) && ks@.len() > 0,
        r matches Some((e, ks)) ==> key_part_at(s@, pos as int) matches Some((a, b, c, v))
            && ks@[0].repr_view()@ == s@.subrange(a, b),
        r is None ==> dotted_key_at(s@, pos as int) is None,
    decreases s@.len() - pos,
{
    match key_part(s, pos) {
        None => None,
        Some((c, k)) => {
            if c < s.len() && s[c] == '.' {
                match key(s, c + 1) {
                    Some((e, rest)) => {
                        let ghost kk = k;
                        let ghost rs = rest@;
                        let mut ks = rest;
                        ks.insert(0, k);
                        proof {
                            assert(ks@ =~= seq![kk] + rs);
                            assert(ks@.drop_first() =~= rs);
                            assert(key_values(ks@) =~= seq![kk.value()] + key_values(rs));
                            assert(keys_text(ks@) =~= key_text(kk) + seq!['.'] + keys_text(rs));
                            assert(s@.subrange(pos as int, e as int) =~= s@.subrange(
                                pos as int,
                                c as int,
                            ) + seq!['.'] + s@.subrange(c + 1, e as int));
                            assert forall|j: int| 0 <= j < ks@.len() implies (
                            #[trigger] ks@[j]).decor_view().prefix_view() is Some
                                && ks@[j].decor_view().suffix_view() is Some
                                && ks@[j].position_view() is None by {
                                if j > 0 {
                                    assert(ks@[j] == rs[j - 1]);
                                } else {
                                    assert(seq![kk][0] == kk);
                                }
                            }
                        }
                        Some((e, ks))
                    },
                    None => None,
                }
            } else {
                let mut ks = Vec::new();
                ks.push(k);
                proof {
                    assert(key_values(ks@) =~= seq![k.value()]);
                    assert(seq![k][0] == k);
                }
                Some((c, ks))
            }
        },
    }
}

/// The value of a text that is a key without dots, and nothing else.
pub open spec fn whole_key(t: Seq<char>) -> Option<Seq<char>> {
    match simple_key_at(t, 0) {
        Some((e, k)) => if e == t.len() {
            Some(k)
        } else {
            None
        },
        None => None,
    }
}

/// `t` between two `q`.
pub open spec fn quoted(t: Seq<char>, q: char) -> Seq<char> {
    seq![q] + t + seq![q]
}

impl Key {
    /// Parses a key without dots from the whole of `s`, keeping `s` as its
    /// TOML text.
    pub fn try_parse(s: &str) -> (r: Result<Key, crate::parser::errors::TomlError>)
        ensures
            r is Ok <==> whole_key(s@) is Some,
            r matches Ok(k) ==> Some(k.value()) == whole_key(s@) && k.repr_view()@ == s@
                && k.decor_view().prefix_view() is None && k.decor_view().suffix_view() is None
                && k.position_view() is None,
    {
        let cs = crate::text::chars_of(s);
        match simple_key(&cs, 0) {
            Some((e, k)) => {
                if e == cs.len() {
                    Ok(Key::new_unchecked(Repr::new_unchecked(s.to_owned()), k))
                } else {
                    let msg = crate::parser::errors::CustomError::UnparsedLine.to_message();
                    Err(crate::parser::errors::TomlError::new(&cs, e, msg.as_str()))
                }
            },
            None => Err(crate::parser::errors::TomlError::new(&cs, 0, "invalid key\n")),
        }
    }

    /// Parses a key from `s`: as it is, else between double quotes, else
    /// between single quotes.
    pub fn from_str(s: &str) -> (r: Result<Key, crate::parser::errors::TomlError>)
        ensures
            r is Ok <==> whole_key(s@) is Some || whole_key(quoted(s@, '"')) is Some || whole_key(
                quoted(s@, '\''),
            ) is Some,
            r matches Ok(k) ==> if whole_key(s@) is Some {
                Some(k.value()) == whole_key(s@) && k.repr_view()@ == s@
            } else if whole_key(quoted(s@, '"')) is Some {
                Some(k.value()) == whole_key(quoted(s@, '"')) && k.repr_view()@ == quoted(s@, '"')
            } else {
                Some(k.value()) == whole_key(quoted(s@, '\'')) && k.repr_view()@ == quoted(
                    s@,
                    '\'',
                )
            },
    {
        match Key::try_parse(s) {
            Ok(k) => {
                return Ok(k);
            },
            Err(_) => {},
        }
        let mut basic = String::new();
        crate::text::push_char(&mut basic, '"');
        basic.append(s);
        crate::text::push_char(&mut basic, '"');
        proof {
            assert(basic@ =~= quoted(s@, '"'));
        }
        match Key::try_parse(basic.as_str()) {
            Ok(k) => {
                return Ok(k);
            },
            Err(_) => {},
        }
        let mut literal = String::new();
        crate::text::push_char(&mut literal, '\'');
        literal.append(s);
        crate::text::push_char(&mut literal, '\'');
        proof {
            assert(literal@ =~= quoted(s@, '\''));
        }
        Key::try_parse(literal.as_str())
    }
}

} // verus!
