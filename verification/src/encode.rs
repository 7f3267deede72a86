//! Choosing the quoting of a string and rendering it as TOML text.

use vstd::prelude::*;

use crate::repr::Repr;
use crate::string::{escape_char, max_run, trailing_run, value_has_escape_codes, value_needs_escape_code, lemma_max_run_prefix};
use crate::text::{chars_of, push_char};

verus! {

/// How a string is delimited.
#[derive(Copy, Clone, PartialEq, Eq, Structural, Debug)]
pub enum StringStyle {
    /// `'''` or `"""`, opening with a newline
    NewlineTripple,
    /// `'''` on one line
    OnelineTripple,
    /// `'` or `"`
    OnelineSingle,
}

/// The opening delimiter of a literal string of the style.
pub open spec fn literal_start_text(style: StringStyle) -> Seq<char> {
    match style {
        StringStyle::NewlineTripple => seq!['\'', '\'', '\'', '\n'],
        StringStyle::OnelineTripple => seq!['\'', '\'', '\''],
        StringStyle::OnelineSingle => seq!['\''],
    }
}

/// The closing delimiter of a literal string of the style.
pub open spec fn literal_end_text(style: StringStyle) -> Seq<char> {
    match style {
        StringStyle::NewlineTripple => seq!['\'', '\'', '\''],
        StringStyle::OnelineTripple => seq!['\'', '\'', '\''],
        StringStyle::OnelineSingle => seq!['\''],
    }
}

/// The opening delimiter of a basic string of the style.
pub open spec fn standard_start_text(style: StringStyle) -> Seq<char> {
    match style {
        StringStyle::NewlineTripple => seq!['"', '"', '"', '\n'],
        _ => seq!['"'],
    }
}

/// The closing delimiter of a basic string of the style.
pub open spec fn standard_end_text(style: StringStyle) -> Seq<char> {
    match style {
        StringStyle::NewlineTripple => seq!['"', '"', '"'],
        _ => seq!['"'],
    }
}

impl StringStyle {
    fn literal_start(self, out: &mut String)
        ensures
            final(out)@ == old(out)@ + literal_start_text(self),
    {
        let ghost start = out@;
        match self {
            StringStyle::NewlineTripple => {
                push_char(out, '\'');
                push_char(out, '\'');
                push_char(out, '\'');
                push_char(out, '\n');
            },
            StringStyle::OnelineTripple => {
                push_char(out, '\'');
                push_char(out, '\'');
                push_char(out, '\'');
            },
            StringStyle::OnelineSingle => {
                push_char(out, '\'');
            },
        }
        assert(out@ =~= start + literal_start_text(self));
    }

    fn literal_end(self, out: &mut String)
        ensures
            final(out)@ == old(out)@ + literal_end_text(self),
    {
        let ghost start = out@;
        match self {
            StringStyle::OnelineSingle => {
                push_char(out, '\'');
            },
            _ => {
                push_char(out, '\'');
                push_char(out, '\'');
                push_char(out, '\'');
            },
        }
        assert(out@ =~= start + literal_end_text(self));
    }

    fn standard_start(self, out: &mut String)
        ensures
            final(out)@ == old(out)@ + standard_start_text(self),
    {
        let ghost start = out@;
        match self {
            StringStyle::NewlineTripple => {
                push_char(out, '"');
                push_char(out, '"');
                push_char(out, '"');
                push_char(out, '\n');
            },
            _ => {
                push_char(out, '"');
            },
        }
        assert(out@ =~= start + standard_start_text(self));
    }

    fn standard_end(self, out: &mut String)
        ensures
            final(out)@ == old(out)@ + standard_end_text(self),
    {
        let ghost start = out@;
        match self {
            StringStyle::NewlineTripple => {
                push_char(out, '"');
                push_char(out, '"');
                push_char(out, '"');
            },
            _ => {
                push_char(out, '"');
            },
        }
        assert(out@ =~= start + standard_end_text(self));
    }
}

/// A string can be written as a literal ("pretty") string: it holds a
/// backslash, no run of three apostrophes, no character needing an escape
/// code, and does not end with an apostrophe.
pub open spec fn can_be_pretty(s: Seq<char>) -> bool {
    &&& max_run(s, '\'') < 3
    &&& !value_has_escape_codes(s)
    &&& s.contains('\\')
    &&& !(s.len() > 0 && s.last() == '\'')
}

/// The style and literal-ness inferred for a string: multi-line when it
/// holds a newline; literal when it can be pretty, then with `'''` on one
/// line if it holds an apostrophe.
pub open spec fn infer_style_spec(s: Seq<char>) -> (StringStyle, bool) {
    let ty = if s.contains('\n') {
        StringStyle::NewlineTripple
    } else {
        StringStyle::OnelineSingle
    };
    if !can_be_pretty(s) {
        (ty, false)
    } else if ty == StringStyle::OnelineSingle && max_run(s, '\'') >= 1 {
        (StringStyle::OnelineTripple, true)
    } else {
        (ty, true)
    }
}

proof fn lemma_contains_push(p: Seq<char>, c: char, x: char)
    ensures
        p.push(c).contains(x) == (p.contains(x) || c == x),
{
    let n = p.push(c);
    if p.contains(x) {
        let j = choose|j: int| 0 <= j < p.len() && p[j] == x;
        assert(n[j] == p[j]);
    }
    if c == x {
        assert(n[p.len() as int] == c);
    }
    if n.contains(x) {
        let j = choose|j: int| 0 <= j < n.len() && n[j] == x;
        if j < p.len() {
            assert(p[j] == n[j]);
        }
    }
}

proof fn lemma_escape_codes_push(p: Seq<char>, c: char)
    ensures
        value_has_escape_codes(p.push(c)) == (value_has_escape_codes(p) || value_needs_escape_code(c)),
{
    let n = p.push(c);
    if value_has_escape_codes(p) {
        let j = choose|j: int| 0 <= j < p.len() && #[trigger] value_needs_escape_code(p[j]);
        assert(n[j] == p[j]);
    }
    if value_needs_escape_code(c) {
        assert(value_needs_escape_code(n[p.len() as int]));
    }
    if value_has_escape_codes(n) {
        let j = choose|j: int| 0 <= j < n.len() && #[trigger] value_needs_escape_code(n[j]);
        if j < p.len() {
            assert(p[j] == n[j]);
        }
    }
}

/// Infers the style of a string, and whether to write it as a literal.
pub fn infer_style(value: &str) -> (r: (StringStyle, bool))
    ensures
        r == infer_style_spec(value@),
{
    let cs = chars_of(value);
    let mut ty = StringStyle::OnelineSingle;
    let mut max_found_singles: usize = 0;
    let mut found_singles: usize = 0;
    let mut prefer_literal = false;
    let mut can_be_pretty = true;
    let mut i: usize = 0;
    while i < cs.len()
        invariant
            i <= cs@.len(),
            cs@ == value@,
            ty == (if value@.take(i as int).contains('\n') {
                StringStyle::NewlineTripple
            } else {
                StringStyle::OnelineSingle
            }),
            can_be_pretty == (max_run(value@.take(i as int), '\'') < 3
                && !value_has_escape_codes(value@.take(i as int))),
            can_be_pretty ==> found_singles == trailing_run(value@.take(i as int), '\''),
            can_be_pretty ==> max_found_singles <= max_run(value@.take(i as int), '\''),
            can_be_pretty ==> (if max_found_singles < found_singles {
                found_singles
            } else {
                max_found_singles
            }) == max_run(value@.take(i as int), '\''),
            can_be_pretty ==> prefer_literal == value@.take(i as int).contains('\\'),
        decreases cs@.len() - i,
    {
        let ch = cs[i];
        let ghost p = value@.take(i as int);
        let ghost n = value@.take(i + 1);
        assert(n =~= p.push(ch));
        assert(n.drop_last() =~= p);
        proof {
            lemma_contains_push(p, ch, '\n');
            lemma_contains_push(p, ch, '\\');
            lemma_escape_codes_push(p, ch);
            lemma_max_run_prefix(n, '\'', i as int);
            assert(n.take(i as int) =~= p);
        }
        let code = ch as u32;
        if can_be_pretty {
            if ch == '\'' {
                found_singles = found_singles + 1;
                if found_singles >= 3 {
                    can_be_pretty = false;
                }
            } else {
                if found_singles > max_found_singles {
                    max_found_singles = found_singles;
                }
                found_singles = 0;
            }
            if ch == '\t' {
            } else if ch == '\\' {
                prefer_literal = true;
            } else if ch == '\n' {
                ty = StringStyle::NewlineTripple;
            } else if code <= 0x1f || code == 0x7f {
                can_be_pretty = false;
            }
        } else {
            if ch == '\n' {
                ty = StringStyle::NewlineTripple;
            }
            proof {
                lemma_max_run_prefix(value@, '\'', i + 1);
                lemma_max_run_prefix(value@, '\'', i as int);
                assert(value@.take(i + 1).take(i as int) =~= p);
                lemma_max_run_prefix(value@.take(i + 1), '\'', i as int);
            }
        }
        i = i + 1;
    }
    assert(value@.take(i as int) =~= value@);
    let ends_with_quote = cs.len() > 0 && cs[cs.len() - 1] == '\'';
    if found_singles > 0 && ends_with_quote {
        can_be_pretty = false;
    }
    if !prefer_literal {
        can_be_pretty = false;
    }
    proof {
        if value@.len() > 0 && value@.last() == '\'' && max_run(value@, '\'') < 3
            && !value_has_escape_codes(value@) {
            assert(trailing_run(value@, '\'') > 0);
        }
    }
    if !can_be_pretty {
        return (ty, false);
    }
    if found_singles > max_found_singles {
        max_found_singles = found_singles;
    }
    if ty == StringStyle::OnelineSingle && max_found_singles >= 1 {
        ty = StringStyle::OnelineTripple;
    }
    (ty, true)
}

} // verus!

verus! {

/// The style and literal-ness actually used: the given ones, each missing
/// one inferred.
pub open spec fn resolve_style(s: Seq<char>, style: Option<StringStyle>, literal: Option<bool>) -> (
    StringStyle,
    bool,
) {
    match (style, literal) {
        (Some(st), Some(l)) => (st, l),
        (None, Some(l)) => (infer_style_spec(s).0, l),
        (Some(st), None) => (st, infer_style_spec(s).1),
        (None, None) => infer_style_spec(s),
    }
}

/// The body of a basic string of the style holding `s`: quotes and
/// backslashes escaped, newlines kept only in the multi-line style.
pub open spec fn standard_body(s: Seq<char>, style: StringStyle) -> Seq<char>
    decreases s.len(),
{
    if s.len() == 0 {
        Seq::empty()
    } else {
        standard_body(s.drop_last(), style) + if s.last() == '"' {
            seq!['\\', '"']
        } else {
            escape_char(s.last(), style == StringStyle::NewlineTripple)
        }
    }
}

/// The TOML text of a string in the given (or inferred) style.
pub open spec fn string_repr_text(s: Seq<char>, style: Option<StringStyle>, literal: Option<bool>) -> Seq<
    char,
> {
    let (st, lit) = resolve_style(s, style, literal);
    if lit {
        literal_start_text(st) + s + literal_end_text(st)
    } else {
        standard_start_text(st) + standard_body(s, st) + standard_end_text(st)
    }
}

/// Writing a newline in a one-line triple-quoted basic string is a bug the
/// encoder refuses.
pub open spec fn string_repr_ok(s: Seq<char>, style: Option<StringStyle>, literal: Option<bool>) -> bool {
    let (st, lit) = resolve_style(s, style, literal);
    !(st == StringStyle::OnelineTripple && !lit && s.contains('\n'))
}

/// Renders a string as TOML text, in the given style or the inferred one.
pub fn to_string_repr(value: &str, style: Option<StringStyle>, literal: Option<bool>) -> (r: Repr)
    requires
        string_repr_ok(value@, style, literal),
    ensures
        r@ == string_repr_text(value@, style, literal),
{
    let (style, literal) = match (style, literal) {
        (Some(style), Some(literal)) => (style, literal),
        (None, Some(literal)) => (infer_style(value).0, literal),
        (Some(style), None) => (style, infer_style(value).1),
        (None, None) => infer_style(value),
    };
    let mut output = String::new();
    if literal {
        style.literal_start(&mut output);
        output.append(value);
        style.literal_end(&mut output);
    } else {
        style.standard_start(&mut output);
        let ghost start = output@;
        let cs = chars_of(value);
        let ml = match style {
            StringStyle::NewlineTripple => true,
            _ => false,
        };
        let mut i: usize = 0;
        while i < cs.len()
            invariant
                i <= cs@.len(),
                cs@ == value@,
                ml == (style == StringStyle::NewlineTripple),
                !(style == StringStyle::OnelineTripple && value@.contains('\n')),
                output@ == start + standard_body(value@.take(i as int), style),
            decreases cs@.len() - i,
        {
            let ch = cs[i];
            let ghost p = value@.take(i as int);
            assert(value@.take(i + 1).drop_last() =~= p);
            assert(value@.take(i + 1).last() == ch);
            if ch == '"' {
                push_char(&mut output, '\\');
                push_char(&mut output, '"');
            } else {
                crate::string::push_escaped_char(&mut output, ch, ml);
            }
            assert(output@ =~= start + standard_body(value@.take(i + 1), style));
            i = i + 1;
        }
        assert(value@.take(i as int) =~= value@);
        style.standard_end(&mut output);
    }
    Repr::new_unchecked(output)
}

} // verus!
