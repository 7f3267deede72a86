//! What is written can be read back: integers, keys, strings and
//! date-times written as TOML parse back to themselves.

use vstd::prelude::*;

use crate::integer::{base, digit_char, digits, integer_text, radix_prefix, HexCase, Radix};
use crate::parser::numbers::{
    dec_int_at,
    dec_int_end,
    digit_groups_end,
    digit_in,
    integer_at,
    prefixed_int_at,
    prefixed_int_end,
    radix_value,
    sign_len,
};
use crate::encode::{
    can_be_pretty,
    infer_style_spec,
    literal_end_text,
    literal_start_text,
    standard_body,
    string_repr_text,
    StringStyle,
};
use crate::key::key_repr_text;
use crate::parser::key::{unquoted_key_end, whole_key};
use crate::parser::strings::{
    all_hex,
    basic_body,
    basic_unescaped,
    escape_at,
    literal_char,
    literal_chars_end,
    ml_basic_body,
    ml_literal_body,
    mll_content_at,
    quote_count,
    repeat,
    skip_newline,
    string_at,
    hex_char,
    hex_char_value,
    hex_value,
    lemma_escape_at_bounds,
    parse_hex,
    prepend,
};
use crate::parser::trivia::newline_end;
use crate::string::{
    default_key_encoding,
    default_string_encoding,
    encoded,
    escaped_body,
    key_has_escape_codes,
    key_literal_ok,
    literal_ok,
    ml_literal_ok,
    key_needs_escape_code,
    Encoding,
    escape_char,
    hex_digit_upper,
    is_control,
    is_unquoted_key,
    is_unquoted_key_char,
    lemma_max_run_prefix,
    max_run,
    trailing_run,
    value_has_escape_codes,
    value_needs_escape_code,
};
use crate::text::is_scalar_value;
use crate::datetime::{
    date_text,
    datetime_text,
    offset_text,
    padded,
    time_text,
    trim_trailing_zeros,
    valid_date,
    valid_datetime,
    valid_offset,
    valid_time,
    Date,
    Datetime,
    Offset,
    Time,
};
use crate::parser::datetime::{
    all_digits,
    date_fullyear_at,
    date_time_at,
    dec_digit,
    digits_end,
    field_at,
    full_date_at,
    parse_signed,
    parse_unsigned,
    partial_time_at,
    pow10,
    secfrac_at,
    time_delim,
    time_offset_at,
    unsigned_digits_at,
    OffsetParse,
};

verus! {

/// A digit below the base is a digit of the base, and has its value.
proof fn lemma_digit_char(d: nat, b: nat, upper: bool)
    requires
        b == 2 || b == 8 || b == 10 || b == 16,
        d < b,
    ensures
        digit_in(digit_char(d, upper), b),
        hex_char_value(digit_char(d, upper)) == d,
        (digit_char(d, upper) == '0') == (d == 0),
        digit_char(d, upper) != '_',
        b == 10 && d > 0 ==> '1' <= digit_char(d, upper) <= '9',
{
    let c = digit_char(d, upper);
    if d < 10 {
        assert(((48 + d) as u8) as int == 48 + d);
        assert(c as u32 == 48 + d);
    } else if upper {
        assert(((55 + d) as u8) as int == 55 + d);
        assert(c as u32 == 55 + d);
    } else {
        assert(((87 + d) as u8) as int == 87 + d);
        assert(c as u32 == 87 + d);
    }
}

/// The digits of a number: at least one, each a digit of the base, with
/// the number's value, and no leading zero.
proof fn lemma_digits(n: nat, b: nat, upper: bool)
    requires
        b == 2 || b == 8 || b == 10 || b == 16,
    ensures
        digits(n, b, upper).len() >= 1,
        forall|k: int|
            0 <= k < digits(n, b, upper).len() ==> digit_in(#[trigger] digits(n, b, upper)[k], b)
                && digits(n, b, upper)[k] != '_',
        radix_value(digits(n, b, upper), b) == n,
        (digits(n, b, upper)[0] == '0') == (n == 0),
        n == 0 ==> digits(n, b, upper) == seq!['0'],
        b == 10 && n > 0 ==> '1' <= digits(n, b, upper)[0] <= '9',
    decreases n,
{
    if n < b {
        lemma_digit_char(n, b, upper);
        let t = digits(n, b, upper);
        assert(t.drop_last() =~= Seq::<char>::empty());
        assert(t.last() == digit_char(n, upper));
        assert(radix_value(t, b) == radix_value(t.drop_last(), b) * b + hex_char_value(t.last()) as nat);
        assert(radix_value(Seq::<char>::empty(), b) == 0);
        if n == 0 {
            assert(t =~= seq!['0']);
        }
    } else {
        vstd::arithmetic::div_mod::lemma_div_decreases(n as int, b as int);
        vstd::arithmetic::div_mod::lemma_fundamental_div_mod(n as int, b as int);
        vstd::arithmetic::div_mod::lemma_mod_bound(n as int, b as int);
        lemma_digits(n / b, b, upper);
        lemma_digit_char(n % b, b, upper);
        let t = digits(n / b, b, upper);
        let c = digit_char(n % b, upper);
        let d = t.push(c);
        assert(digits(n, b, upper) == d);
        assert(d.drop_last() =~= t);
        assert(d.last() == c);
        assert(radix_value(d, b) == radix_value(t, b) * b + hex_char_value(c) as nat);
        assert((n / b) * b == b * (n / b)) by {
            vstd::arithmetic::mul::lemma_mul_is_commutative((n / b) as int, b as int);
        }
        assert(n / b > 0) by {
            vstd::arithmetic::div_mod::lemma_div_pos_is_pos(n as int, b as int);
        }
        assert(d[0] == t[0]);
    }
}

/// Digits (without underscores) to the end are a run of digit groups.
proof fn lemma_digit_groups_all(s: Seq<char>, k: int, b: nat)
    requires
        0 <= k <= s.len(),
        forall|j: int| k <= j < s.len() ==> #[trigger] digit_in(s[j], b),
    ensures
        digit_groups_end(s, k, b) == Some(s.len() as int),
    decreases s.len() - k,
{
    if k < s.len() {
        lemma_digit_groups_all(s, k + 1, b);
    }
}

/// The digits of `n` in base `b` after a prefix `p` read back as `n`.
proof fn lemma_digits_after(p: Seq<char>, n: nat, b: nat, upper: bool)
    requires
        b == 2 || b == 8 || b == 10 || b == 16,
    ensures
        forall|j: int|
            p.len() <= j < (p + digits(n, b, upper)).len() ==> #[trigger] digit_in(
                (p + digits(n, b, upper))[j],
                b,
            ),
        (p + digits(n, b, upper)).subrange(p.len() as int, (p + digits(n, b, upper)).len() as int)
            == digits(n, b, upper),
{
    lemma_digits(n, b, upper);
    let t = p + digits(n, b, upper);
    assert(t.subrange(p.len() as int, t.len() as int) =~= digits(n, b, upper));
    assert forall|j: int| p.len() <= j < t.len() implies #[trigger] digit_in(t[j], b) by {
        assert(t[j] == digits(n, b, upper)[j - p.len()]);
    }
}

/// An integer written as TOML reads back as itself: in decimal, with a sign
/// when negative, or with a radix prefix when not negative; it reads only
/// when it fits 64 bits.
pub proof fn law_integer_roundtrip(v: int, radix: Radix)
    requires
        i64::MIN <= v <= i64::MAX,
        v < 0 ==> radix == Radix::Decimal,
    ensures
        integer_at(integer_text(v, radix), 0) == Some((integer_text(v, radix).len() as int, v)),
{
    let upper = radix == (Radix::Hexadecimal { case: HexCase::Upper });
    let b = base(radix);
    let s = integer_text(v, radix);
    if v < 0 {
        let n = (-v) as nat;
        lemma_digits(n, 10, false);
        lemma_digits_after(seq!['-'], n, 10, false);
        assert(s == seq!['-'] + digits(n, 10, false));
        assert(s[0] == '-');
        assert(s[1] == digits(n, 10, false)[0]);
        lemma_digit_groups_all(s, 2, 10);
        assert(dec_int_end(s, 0) == Some(s.len() as int));
    } else {
        let n = v as nat;
        lemma_digits(n, b, upper);
        let p = radix_prefix(radix);
        lemma_digits_after(p, n, b, upper);
        assert(s == p + digits(n, b, upper));
        match radix {
            Radix::Decimal => {
                assert(p =~= Seq::<char>::empty());
                assert(s =~= digits(n, b, upper));
                assert(s[0] != '-' && s[0] != '+');
                if n == 0 {
                    assert(s =~= seq!['0']);
                } else {
                    lemma_digit_groups_all(s, 1, 10);
                    assert(s.subrange(0, s.len() as int) =~= s);
                }
                assert(dec_int_end(s, 0) == Some(s.len() as int));
            },
            Radix::Hexadecimal { .. } => {
                assert(s[2] == digits(n, b, upper)[0]);
                lemma_digit_groups_all(s, 3, 16);
            },
            Radix::Octal => {
                assert(s[2] == digits(n, b, upper)[0]);
                lemma_digit_groups_all(s, 3, 8);
            },
            Radix::Binary => {
                assert(s[2] == digits(n, b, upper)[0]);
                lemma_digit_groups_all(s, 3, 2);
            },
        }
    }
}

/// How a basic string body of the given kind holds `c`: `"` escaped,
/// everything else as `escape_char` writes it.
pub open spec fn body_escape(c: char, multiline: bool) -> Seq<char> {
    if c == '"' {
        seq!['\\', '"']
    } else {
        escape_char(c, multiline)
    }
}

/// An upper-case hexadecimal digit reads back as its value.
proof fn lemma_hex_digit_upper(d: u32)
    requires
        d < 16,
    ensures
        hex_char(hex_digit_upper(d)),
        hex_char_value(hex_digit_upper(d)) == d,
{
    let c = hex_digit_upper(d);
    if d < 10 {
        assert(((48 + d) as u8) as int == 48 + d);
        assert(c as u32 == 48 + d);
    } else {
        assert(((55 + d) as u8) as int == 55 + d);
        assert(c as u32 == 55 + d);
    }
}

/// The four hexadecimal digits `00XY` of a control character read back as
/// that character.
proof fn lemma_control_hex(c: char)
    requires
        is_control(c),
    ensures
        parse_hex(
            seq!['0', '0', hex_digit_upper((c as u32) / 16), hex_digit_upper((c as u32) % 16)],
        ) == Some(c as u32 as int),
        is_scalar_value(c as u32 as int),
{
    let v = c as u32;
    let h1 = hex_digit_upper(v / 16);
    let h2 = hex_digit_upper(v % 16);
    lemma_hex_digit_upper(v / 16);
    lemma_hex_digit_upper(v % 16);
    let t = seq!['0', '0', h1, h2];
    assert(all_hex(t)) by {
        assert forall|k: int| 0 <= k < t.len() implies #[trigger] hex_char(t[k]) by {}
    }
    let t1 = seq!['0'];
    let t2 = seq!['0', '0'];
    let t3 = seq!['0', '0', h1];
    assert(t1.drop_last() =~= Seq::<char>::empty());
    assert(t2.drop_last() =~= t1);
    assert(t3.drop_last() =~= t2);
    assert(t.drop_last() =~= t3);
    assert(hex_char_value('0') == 0);
    assert(hex_value(Seq::<char>::empty()) == 0);
    assert(hex_value(t1) == hex_value(t1.drop_last()) * 16 + hex_char_value(t1.last()));
    assert(hex_value(t1) == 0);
    assert(hex_value(t2) == hex_value(t2.drop_last()) * 16 + hex_char_value(t2.last()));
    assert(hex_value(t2) == 0);
    assert(hex_value(t3) == hex_value(t3.drop_last()) * 16 + hex_char_value(t3.last()));
    assert(hex_value(t3) == (v / 16) as int);
    assert(hex_value(t) == hex_value(t.drop_last()) * 16 + hex_char_value(t.last()));
    assert(hex_value(t) == (v / 16) * 16 + (v % 16) as int);
    assert(t[0] != '+');
    assert((v / 16) * 16 + v % 16 == v);
}

/// What a body escape looks like to a reader: either the character itself,
/// which a basic string holds as it is (a line feed only in a multi-line
/// one), or a backslash and an escape sequence standing for it.
proof fn lemma_body_escape_reads(c: char, multiline: bool, s: Seq<char>, j: int)
    requires
        0 <= j,
        j + body_escape(c, multiline).len() <= s.len(),
        s.subrange(j, j + body_escape(c, multiline).len()) == body_escape(c, multiline),
    ensures
        body_escape(c, multiline).len() >= 1,
        body_escape(c, multiline) == seq![c] ==> s[j] == c && c != '"' && c != '\\' && (
        basic_unescaped(c) || (multiline && c == '\n')),
        body_escape(c, multiline) != seq![c] ==> s[j] == '\\' && body_escape(c, multiline).len()
            >= 2 && escape_at(s, j + 1) == Some((j + body_escape(c, multiline).len(), c)),
{
    let t = body_escape(c, multiline);
    assert(forall|k: int| 0 <= k < t.len() ==> s[j + k] == #[trigger] t[k]) by {
        assert forall|k: int| 0 <= k < t.len() implies s[j + k] == #[trigger] t[k] by {
            assert(s.subrange(j, j + t.len())[k] == s[j + k]);
        }
    }
    assert(seq![c].len() == 1);
    if c == '"' {
        assert(t[0] == '\\' && t[1] == '"');
        assert(t.len() != seq![c].len());
    } else if c == '\u{8}' || c == '\t' || c == '\u{c}' || c == '\r' || c == '\\' || (c == '\n'
        && !multiline) {
        assert(t[0] == '\\');
        assert(t.len() == 2);
        assert(t.len() != seq![c].len());
        assert(s[j + 1] == t[1]);
    } else if c == '\n' {
        assert(t =~= seq![c]);
        assert(s[j] == t[0]);
    } else if is_control(c) {
        assert(t.len() == 6);
        assert(t.len() != seq![c].len());
        lemma_control_hex(c);
        let h = s.subrange(j + 2, j + 6);
        assert(h =~= seq![
            '0',
            '0',
            hex_digit_upper((c as u32) / 16),
            hex_digit_upper((c as u32) % 16),
        ]) by {
            assert(h[0] == t[2]);
            assert(h[1] == t[3]);
            assert(h[2] == t[4]);
            assert(h[3] == t[5]);
        }
        assert(s[j + 1] == t[1]);
        assert(((c as u32) as u32) as char == c);
    } else {
        assert(t =~= seq![c]);
        assert(s[j] == t[0]);
        assert(basic_unescaped(c));
    }
}

/// Reading a basic string body `k` written with `body_escape` gives `k`
/// back, followed by what comes after it.
proof fn lemma_basic_body_reads(k: Seq<char>, s: Seq<char>, i: int, e: int, v: Seq<char>)
    requires
        0 <= i,
        i + standard_body(k, StringStyle::OnelineSingle).len() <= s.len(),
        s.subrange(i, i + standard_body(k, StringStyle::OnelineSingle).len()) == standard_body(
            k,
            StringStyle::OnelineSingle,
        ),
        basic_body(s, i + standard_body(k, StringStyle::OnelineSingle).len()) == Some((e, v)),
    ensures
        basic_body(s, i) == Some((e, k + v)),
    decreases k.len(),
{
    if k.len() == 0 {
        assert(k + v =~= v);
    } else {
        let k0 = k.drop_last();
        let c = k.last();
        let b0 = standard_body(k0, StringStyle::OnelineSingle);
        let t = body_escape(c, false);
        let b = standard_body(k, StringStyle::OnelineSingle);
        assert(b == b0 + t);
        let m = i + b0.len();
        assert(s.subrange(m, m + t.len()) =~= t) by {
            assert forall|x: int| 0 <= x < t.len() implies s.subrange(m, m + t.len())[x]
                == t[x] by {
                assert(s.subrange(i, i + b.len())[b0.len() + x] == b[b0.len() + x]);
            }
        }
        lemma_body_escape_reads(c, false, s, m);
        if t == seq![c] {
            assert(basic_body(s, m) == prepend(seq![c], basic_body(s, m + 1)));
        } else {
            lemma_escape_at_bounds(s, m + 1);
            assert(basic_body(s, m) == prepend(seq![c], basic_body(s, m + t.len())));
        }
        assert(s.subrange(i, i + b0.len()) =~= b0) by {
            assert forall|x: int| 0 <= x < b0.len() implies s.subrange(i, i + b0.len())[x]
                == b0[x] by {
                assert(s.subrange(i, i + b.len())[x] == b[x]);
            }
        }
        lemma_basic_body_reads(k0, s, i, e, seq![c] + v);
        assert(k0 + (seq![c] + v) =~= k + v);
    }
}

/// A key written the way `Key::new` writes it reads back as itself.
pub proof fn law_key_roundtrip(k: Seq<char>)
    ensures
        whole_key(key_repr_text(k)) == Some(k),
{
    let t = key_repr_text(k);
    if is_unquoted_key(k) {
        lemma_unquoted_run(k, 0);
        assert(k.subrange(0, k.len() as int) =~= k);
    } else {
        let b = standard_body(k, StringStyle::OnelineSingle);
        assert(t == seq!['"'] + b + seq!['"']);
        let l = b.len() as int;
        assert(t[l + 1] == '"');
        assert(basic_body(t, l + 1) == Some((l + 1, Seq::<char>::empty())));
        assert(t.subrange(1, 1 + l) =~= b);
        lemma_basic_body_reads(k, t, 1, l + 1, Seq::<char>::empty());
        assert(k + Seq::<char>::empty() =~= k);
    }
}

/// A run of bare-key characters from `i` to the end ends at the end.
proof fn lemma_unquoted_run(k: Seq<char>, i: int)
    requires
        0 <= i <= k.len(),
        forall|j: int| i <= j < k.len() ==> #[trigger] is_unquoted_key_char(k[j]),
    ensures
        unquoted_key_end(k, i) == k.len(),
    decreases k.len() - i,
{
    if i < k.len() {
        lemma_unquoted_run(k, i + 1);
    }
}

/// Reading a multi-line basic string body `k` written with `body_escape`
/// gives `k` back, followed by what comes after it.
proof fn lemma_ml_basic_body_reads(k: Seq<char>, s: Seq<char>, i: int, e: int, v: Seq<char>)
    requires
        0 <= i,
        i + standard_body(k, StringStyle::NewlineTripple).len() <= s.len(),
        s.subrange(i, i + standard_body(k, StringStyle::NewlineTripple).len()) == standard_body(
            k,
            StringStyle::NewlineTripple,
        ),
        ml_basic_body(s, i + standard_body(k, StringStyle::NewlineTripple).len()) == Some((e, v)),
    ensures
        ml_basic_body(s, i) == Some((e, k + v)),
    decreases k.len(),
{
    if k.len() == 0 {
        assert(k + v =~= v);
    } else {
        let k0 = k.drop_last();
        let c = k.last();
        let b0 = standard_body(k0, StringStyle::NewlineTripple);
        let t = body_escape(c, true);
        let b = standard_body(k, StringStyle::NewlineTripple);
        assert(b == b0 + t);
        let m = i + b0.len();
        assert(s.subrange(m, m + t.len()) =~= t) by {
            assert forall|x: int| 0 <= x < t.len() implies s.subrange(m, m + t.len())[x]
                == t[x] by {
                assert(s.subrange(i, i + b.len())[b0.len() + x] == b[b0.len() + x]);
            }
        }
        lemma_body_escape_reads(c, true, s, m);
        if t == seq![c] {
            assert(ml_basic_body(s, m) == prepend(seq![c], ml_basic_body(s, m + 1)));
        } else {
            lemma_escape_at_bounds(s, m + 1);
            assert(ml_basic_body(s, m) == prepend(seq![c], ml_basic_body(s, m + t.len())));
        }
        assert(s.subrange(i, i + b0.len()) =~= b0) by {
            assert forall|x: int| 0 <= x < b0.len() implies s.subrange(i, i + b0.len())[x]
                == b0[x] by {
                assert(s.subrange(i, i + b.len())[x] == b[x]);
            }
        }
        lemma_ml_basic_body_reads(k0, s, i, e, seq![c] + v);
        assert(k0 + (seq![c] + v) =~= k + v);
    }
}

/// A basic string body never starts with a quote: quotes are escaped.
proof fn lemma_body_first(k: Seq<char>, st: StringStyle)
    requires
        k.len() > 0,
    ensures
        standard_body(k, st).len() > 0,
        standard_body(k, st)[0] != '"',
    decreases k.len(),
{
    let k0 = k.drop_last();
    let c = k.last();
    let t = body_escape(c, st == StringStyle::NewlineTripple);
    assert(standard_body(k, st) == standard_body(k0, st) + t);
    if k0.len() > 0 {
        lemma_body_first(k0, st);
    } else {
        assert(standard_body(k0, st) =~= Seq::<char>::empty());
        if c == '"' {
        } else if c == '\u{8}' || c == '\t' || c == '\u{c}' || c == '\r' || c == '\\' || c == '\n' {
        } else if is_control(c) {
        } else {
            assert(t =~= seq![c]);
        }
    }
}

/// No three `c` in a row in a sequence whose longest run of `c` is shorter.
proof fn lemma_no_triple(k: Seq<char>, c: char, j: int)
    requires
        max_run(k, c) < 3,
        0 <= j,
        j + 2 < k.len(),
    ensures
        !(k[j] == c && k[j + 1] == c && k[j + 2] == c),
{
    if k[j] == c && k[j + 1] == c && k[j + 2] == c {
        let t = k.take(j + 3);
        assert(t.drop_last() =~= k.take(j + 2));
        assert(t.drop_last().drop_last() =~= k.take(j + 1));
        assert(t.drop_last().drop_last().drop_last() =~= k.take(j));
        assert(trailing_run(k.take(j + 1), c) >= 1);
        assert(trailing_run(k.take(j + 2), c) >= 2);
        assert(trailing_run(t, c) >= 3);
        lemma_max_run_prefix(t, c, t.len() as int);
        lemma_max_run_prefix(k, c, j + 3);
    }
}

/// No `c` at all in a sequence without a run of `c`.
proof fn lemma_no_char(k: Seq<char>, c: char, j: int)
    requires
        max_run(k, c) == 0,
        0 <= j < k.len(),
    ensures
        k[j] != c,
{
    if k[j] == c {
        let t = k.take(j + 1);
        assert(t.drop_last() =~= k.take(j));
        assert(trailing_run(t, c) >= 1);
        lemma_max_run_prefix(t, c, t.len() as int);
        lemma_max_run_prefix(k, c, j + 1);
    }
}

/// A character a string value holds without an escape code, other than a
/// line feed and an apostrophe, is allowed in a literal string.
proof fn lemma_literal_char(c: char)
    requires
        !value_needs_escape_code(c),
        c != '\n',
        c != '\'',
    ensures
        literal_char(c),
{
}

/// A string of literal characters, line feeds and apostrophes, with no three
/// apostrophes in a row and not ending with one, reads back as itself in a
/// multi-line literal string.
proof fn lemma_ml_literal_body_reads(k: Seq<char>, s: Seq<char>, i: int, e: int, v: Seq<char>)
    requires
        0 <= i,
        i + k.len() <= s.len(),
        s.subrange(i, i + k.len()) == k,
        forall|x: int|
            0 <= x < k.len() ==> literal_char(#[trigger] k[x]) || k[x] == '\n' || k[x] == '\'',
        forall|x: int|
            0 <= x && x + 2 < k.len() ==> !(#[trigger] k[x] == '\'' && k[x + 1] == '\'' && k[x + 2]
                == '\''),
        k.len() > 0 ==> k.last() != '\'',
        ml_literal_body(s, i + k.len()) == Some((e, v)),
    ensures
        ml_literal_body(s, i) == Some((e, k + v)),
    decreases k.len(),
{
    if k.len() == 0 {
        assert(k + v =~= v);
    } else {
        assert forall|x: int| 0 <= x < k.len() implies s[i + x] == #[trigger] k[x] by {
            assert(s.subrange(i, i + k.len())[x] == s[i + x]);
        }
        let c = k[0];
        let q: int = if c != '\'' {
            1
        } else if k[1] == '\'' {
            2
        } else {
            1
        };
        let rest = k.subrange(q, k.len() as int);
        assert(s.subrange(i + q, i + q + rest.len()) =~= rest) by {
            assert forall|x: int| 0 <= x < rest.len() implies s.subrange(
                i + q,
                i + q + rest.len(),
            )[x] == rest[x] by {
                assert(s[i + q + x] == k[q + x]);
            }
        }
        assert forall|x: int| 0 <= x < rest.len() implies literal_char(#[trigger] rest[x])
            || rest[x] == '\n' || rest[x] == '\'' by {
            assert(rest[x] == k[q + x]);
        }
        assert forall|x: int| 0 <= x && x + 2 < rest.len() implies !(#[trigger] rest[x] == '\''
            && rest[x + 1] == '\'' && rest[x + 2] == '\'') by {
            assert(rest[x] == k[q + x]);
            assert(rest[x + 1] == k[q + x + 1]);
            assert(rest[x + 2] == k[q + x + 2]);
        }
        if rest.len() > 0 {
            assert(rest.last() == k.last());
        }
        lemma_ml_literal_body_reads(rest, s, i + q, e, v);
        if c != '\'' {
            assert(k[0] == s[i]);
            if literal_char(c) {
                assert(ml_literal_body(s, i) == prepend(seq![c], ml_literal_body(s, i + 1)));
            } else {
                assert(c == '\n');
                assert(newline_end(s, i) == Some(i + 1));
                assert(ml_literal_body(s, i) == prepend(seq!['\n'], ml_literal_body(s, i + 1)));
            }
            assert(seq![c] + (rest + v) =~= k + v);
        } else {
            assert(k.len() >= 2);
            assert(k[q] != '\'') by {
                if q == 2 {
                    if k.len() == 2 {
                        assert(k.last() == k[1]);
                    } else {
                        assert(!(k[0] == '\'' && k[1] == '\'' && k[2] == '\''));
                    }
                }
            }
            assert(k.len() > q) by {
                if q == 2 && k.len() == 2 {
                    assert(k.last() == k[1]);
                }
            }
            assert(s[i] == '\'');
            assert(s[i + q] == k[q]);
            if q == 2 {
                assert(s[i + 1] == '\'');
            }
            assert(quote_count(s, i, '\'') == q);
            assert(mll_content_at(s, i + q)) by {
                if !literal_char(s[i + q]) {
                    assert(k[q] == '\n');
                    assert(newline_end(s, i + q) == Some(i + q + 1));
                }
            }
            assert(!literal_char(s[i]));
            assert(newline_end(s, i) is None);
            assert(ml_literal_body(s, i) == prepend(repeat('\'', q), ml_literal_body(s, i + q)));
            assert(repeat('\'', q) + (rest + v) =~= k + v) by {
                assert(k.subrange(0, q) =~= repeat('\'', q));
                assert(k =~= k.subrange(0, q) + rest);
            }
        }
    }
}

/// A run of literal characters from `i` to the end of `k`, written at `i0`
/// in `s`, ends where `k` ends.
proof fn lemma_literal_run(k: Seq<char>, s: Seq<char>, i0: int, i: int)
    requires
        0 <= i0,
        0 <= i <= k.len(),
        i0 + k.len() <= s.len(),
        s.subrange(i0, i0 + k.len()) == k,
        forall|x: int| 0 <= x < k.len() ==> literal_char(#[trigger] k[x]),
    ensures
        literal_chars_end(s, i0 + i) == literal_chars_end(s, i0 + k.len()),
    decreases k.len() - i,
{
    if i < k.len() {
        assert(s.subrange(i0, i0 + k.len())[i] == s[i0 + i]);
        assert(literal_char(k[i]));
        lemma_literal_run(k, s, i0, i + 1);
    }
}

/// A basic string on one line reads back as what it holds.
proof fn lemma_basic_string_reads(s: Seq<char>)
    ensures
        string_at(seq!['"'] + standard_body(s, StringStyle::OnelineSingle) + seq!['"'], 0) == Some(
            (standard_body(s, StringStyle::OnelineSingle).len() + 2int, s),
        ),
{
    let b = standard_body(s, StringStyle::OnelineSingle);
    let text = seq!['"'] + b + seq!['"'];
    let l = b.len() as int;
    if s.len() > 0 {
        lemma_body_first(s, StringStyle::OnelineSingle);
        assert(text[1] == b[0]);
    }
    assert(quote_count(text, 0, '"') != 3);
    assert(text[l + 1] == '"');
    assert(basic_body(text, l + 1) == Some((l + 1, Seq::<char>::empty())));
    assert(text.subrange(1, 1 + l) =~= b);
    lemma_basic_body_reads(s, text, 1, l + 1, Seq::<char>::empty());
    assert(s + Seq::<char>::empty() =~= s);
}

/// A multi-line basic string reads back as what it holds.
proof fn lemma_ml_basic_string_reads(s: Seq<char>)
    ensures
        string_at(
            seq!['"', '"', '"', '\n'] + standard_body(s, StringStyle::NewlineTripple) + seq![
                '"',
                '"',
                '"',
            ],
            0,
        ) == Some((standard_body(s, StringStyle::NewlineTripple).len() + 7int, s)),
{
    let b = standard_body(s, StringStyle::NewlineTripple);
    let text = seq!['"', '"', '"', '\n'] + b + seq!['"', '"', '"'];
    let l = b.len() as int;
    assert(quote_count(text, 0, '"') == 3);
    assert(skip_newline(text, 3) == 4);
    assert(text[4 + l] == '"' && text[5 + l] == '"' && text[6 + l] == '"');
    assert(ml_basic_body(text, 4 + l) == Some((4 + l, Seq::<char>::empty())));
    assert(text.subrange(4, 4 + l) =~= b);
    lemma_ml_basic_body_reads(s, text, 4, 4 + l, Seq::<char>::empty());
    assert(s + Seq::<char>::empty() =~= s);
}

/// A literal string on one line reads back as what it holds, when that has
/// only literal characters.
proof fn lemma_literal_string_reads(s: Seq<char>)
    requires
        s.len() > 0,
        forall|x: int| 0 <= x < s.len() ==> literal_char(#[trigger] s[x]),
    ensures
        string_at(seq!['\''] + s + seq!['\''], 0) == Some((s.len() + 2int, s)),
{
    let text = seq!['\''] + s + seq!['\''];
    let l = s.len() as int;
    assert(text.subrange(1, 1 + l) =~= s);
    assert(text[1] == s[0]);
    assert(literal_char(s[0]));
    assert(quote_count(text, 0, '"') == 0);
    assert(quote_count(text, 0, '\'') != 3);
    lemma_literal_run(s, text, 1, 0);
    assert(text[1 + l] == '\'');
    assert(!literal_char(text[1 + l]));
    assert(literal_chars_end(text, 1 + l) == 1 + l);
}

/// A multi-line literal string reads back as what it holds, when that has
/// only literal characters, line feeds and apostrophes, no three
/// apostrophes in a row, and does not end with one; `open` is the opening
/// delimiter, with or without a line feed.
proof fn lemma_ml_literal_string_reads(s: Seq<char>, open: Seq<char>)
    requires
        open == seq!['\'', '\'', '\'', '\n'] || (open == seq!['\'', '\'', '\''] && s.len() > 0
            && s[0] != '\n' && s[0] != '\r'),
        forall|x: int|
            0 <= x < s.len() ==> literal_char(#[trigger] s[x]) || s[x] == '\n' || s[x] == '\'',
        forall|x: int|
            0 <= x && x + 2 < s.len() ==> !(#[trigger] s[x] == '\'' && s[x + 1] == '\'' && s[x + 2]
                == '\''),
        s.len() > 0 ==> s.last() != '\'',
    ensures
        string_at(open + s + seq!['\'', '\'', '\''], 0) == Some((open.len() + s.len() + 3int, s)),
{
    let text = open + s + seq!['\'', '\'', '\''];
    let p = open.len() as int;
    let l = s.len() as int;
    if p == 4 {
        assert(skip_newline(text, 3) == 4);
    } else {
        assert(text[3] == s[0]);
        assert(skip_newline(text, 3) == 3);
    }
    assert(quote_count(text, 0, '"') == 0);
    assert(quote_count(text, 0, '\'') == 3);
    assert(text.subrange(p, p + l) =~= s);
    assert(text[p + l] == '\'' && text[p + l + 1] == '\'' && text[p + l + 2] == '\'');
    assert(ml_literal_body(text, p + l) == Some((p + l, Seq::<char>::empty())));
    lemma_ml_literal_body_reads(s, text, p, p + l, Seq::<char>::empty());
    assert(s + Seq::<char>::empty() =~= s);
}

/// A string written as a literal string (when it can be one) reads back
/// as itself.
proof fn lemma_literal_case(s: Seq<char>)
    requires
        can_be_pretty(s),
    ensures
        string_at(string_repr_text(s, None, None), 0) == Some(
            (string_repr_text(s, None, None).len() as int, s),
        ),
{
    let (st, lit) = infer_style_spec(s);
    assert(lit);
    assert(string_repr_text(s, None, None) == literal_start_text(st) + s + literal_end_text(st));
    assert forall|x: int| 0 <= x < s.len() implies !value_needs_escape_code(#[trigger] s[x]) by {
        if value_needs_escape_code(s[x]) {
            assert(value_has_escape_codes(s));
        }
    }
    assert(s.len() > 0);
    if st == StringStyle::OnelineSingle {
        assert(max_run(s, '\'') == 0);
        assert forall|x: int| 0 <= x < s.len() implies literal_char(#[trigger] s[x]) by {
            lemma_no_char(s, '\'', x);
            if s[x] == '\n' {
                assert(s.contains('\n'));
            }
            lemma_literal_char(s[x]);
        }
        lemma_literal_string_reads(s);
    } else {
        assert forall|x: int| 0 <= x && x + 2 < s.len() implies !(#[trigger] s[x] == '\'' && s[x
            + 1] == '\'' && s[x + 2] == '\'') by {
            lemma_no_triple(s, '\'', x);
        }
        assert forall|x: int| 0 <= x < s.len() implies literal_char(#[trigger] s[x]) || s[x]
            == '\n' || s[x] == '\'' by {
            if s[x] != '\n' && s[x] != '\'' {
                lemma_literal_char(s[x]);
            }
        }
        if st == StringStyle::NewlineTripple {
            lemma_ml_literal_string_reads(s, seq!['\'', '\'', '\'', '\n']);
        } else {
            assert(s[0] != '\n') by {
                if s[0] == '\n' {
                    assert(s.contains('\n'));
                }
            }
            assert(!value_needs_escape_code(s[0]));
            lemma_ml_literal_string_reads(s, seq!['\'', '\'', '\'']);
        }
    }
}

/// A string written as a basic string (when it cannot be a literal one)
/// reads back as itself.
proof fn lemma_basic_case(s: Seq<char>)
    requires
        !can_be_pretty(s),
    ensures
        string_at(string_repr_text(s, None, None), 0) == Some(
            (string_repr_text(s, None, None).len() as int, s),
        ),
{
    let (st, lit) = infer_style_spec(s);
    assert(!lit);
    if st == StringStyle::NewlineTripple {
        assert(string_repr_text(s, None, None) == seq!['"', '"', '"', '\n'] + standard_body(
            s,
            StringStyle::NewlineTripple,
        ) + seq!['"', '"', '"']);
        lemma_ml_basic_string_reads(s);
    } else {
        assert(string_repr_text(s, None, None) == seq!['"'] + standard_body(
            s,
            StringStyle::OnelineSingle,
        ) + seq!['"']);
        lemma_basic_string_reads(s);
    }
}

/// A string written as TOML in the style chosen for it reads back as itself.
pub proof fn law_string_roundtrip(s: Seq<char>)
    ensures
        string_at(string_repr_text(s, None, None), 0) == Some(
            (string_repr_text(s, None, None).len() as int, s),
        ),
{
    if can_be_pretty(s) {
        lemma_literal_case(s);
    } else {
        lemma_basic_case(s);
    }
}

/// Small powers of ten.
proof fn lemma_pow10_values()
    ensures
        pow10(1) == 10,
        pow10(2) == 100,
        pow10(4) == 10000,
        pow10(9) == 1000000000,
{
    reveal_with_fuel(pow10, 10);
}

/// A number below `10` to the power `w` has at most `w` decimal digits.
proof fn lemma_digits_len(n: nat, w: nat)
    requires
        1 <= w,
        n < pow10(w),
    ensures
        digits(n, 10, false).len() <= w,
    decreases n,
{
    if n >= 10 {
        lemma_pow10_values();
        let w1 = (w - 1) as nat;
        if w == 1 {
            assert(false);
        }
        assert(pow10(w) == pow10(w1) * 10);
        assert(n / 10 < pow10(w1)) by (nonlinear_arith)
            requires
                n < pow10(w1) * 10,
        ;
        vstd::arithmetic::div_mod::lemma_div_decreases(n as int, 10);
        lemma_digits_len(n / 10, w1);
    }
}

/// Zeros are worth nothing.
proof fn lemma_zeros_value(k: nat)
    ensures
        radix_value(Seq::new(k, |j: int| '0'), 10) == 0,
    decreases k,
{
    if k > 0 {
        let z = Seq::new(k, |j: int| '0');
        assert(z.drop_last() =~= Seq::new((k - 1) as nat, |j: int| '0'));
        lemma_zeros_value((k - 1) as nat);
        assert(hex_char_value('0') == 0);
    }
}

/// Leading zeros change no value.
proof fn lemma_leading_zeros(k: nat, d: Seq<char>)
    ensures
        radix_value(Seq::new(k, |j: int| '0') + d, 10) == radix_value(d, 10),
    decreases d.len(),
{
    let z = Seq::new(k, |j: int| '0');
    if d.len() == 0 {
        assert(z + d =~= z);
        lemma_zeros_value(k);
    } else {
        assert((z + d).drop_last() =~= z + d.drop_last());
        assert((z + d).last() == d.last());
        lemma_leading_zeros(k, d.drop_last());
    }
}

/// `n` padded to `w` digits: `w` decimal digits worth `n`.
proof fn lemma_padded(n: nat, w: nat)
    requires
        1 <= w,
        n < pow10(w),
    ensures
        padded(n, w).len() == w,
        all_digits(padded(n, w)),
        radix_value(padded(n, w), 10) == n,
        parse_unsigned(padded(n, w)) == Some(n as int),
{
    lemma_digits(n, 10, false);
    lemma_digits_len(n, w);
    let d = digits(n, 10, false);
    let p = padded(n, w);
    if d.len() < w {
        let k = (w - d.len()) as nat;
        lemma_leading_zeros(k, d);
        assert forall|j: int| 0 <= j < p.len() implies #[trigger] dec_digit(p[j]) by {
            if j >= k {
                assert(p[j] == d[j - k]);
                assert(digit_in(d[j - k], 10));
            }
        }
    } else {
        assert forall|j: int| 0 <= j < p.len() implies #[trigger] dec_digit(p[j]) by {
            assert(digit_in(d[j], 10));
        }
    }
    assert(dec_digit(p[0]));
}

/// Two digits worth `n` at `i` read as the field `n` when it is in range.
proof fn lemma_field_at(s: Seq<char>, i: int, n: nat, lo: int, hi: int)
    requires
        0 <= i,
        i + 2 <= s.len(),
        n < 100,
        lo <= n <= hi,
        s.subrange(i, i + 2) == padded(n, 2),
    ensures
        field_at(s, i, lo, hi) == Some(n as int),
{
    lemma_pow10_values();
    lemma_padded(n, 2);
    assert(unsigned_digits_at(s, i, 2) == Some(n as int));
}

/// Four digits worth `y` at `i` read as the year `y`.
proof fn lemma_year_at(s: Seq<char>, i: int, y: nat)
    requires
        0 <= i,
        i + 4 <= s.len(),
        y < 10000,
        s.subrange(i, i + 4) == padded(y, 4),
    ensures
        date_fullyear_at(s, i) == Some(y as int),
{
    lemma_pow10_values();
    lemma_padded(y, 4);
    let t = s.subrange(i, i + 4);
    assert(dec_digit(t[0]));
    assert(parse_signed(t) == parse_unsigned(t));
}

/// The text of a valid date at `i` reads as that date.
proof fn lemma_date_at(s: Seq<char>, i: int, d: Date)
    requires
        valid_date(d),
        0 <= i,
        i + date_text(d).len() <= s.len(),
        s.subrange(i, i + date_text(d).len()) == date_text(d),
    ensures
        date_text(d).len() == 10,
        full_date_at(s, i) == Some((i + 10, d)),
{
    lemma_pow10_values();
    lemma_padded(d.year as nat, 4);
    lemma_padded(d.month as nat, 2);
    lemma_padded(d.day as nat, 2);
    let t = date_text(d);
    assert(s.subrange(i, i + 4) =~= t.subrange(0, 4));
    assert(t.subrange(0, 4) =~= padded(d.year as nat, 4));
    assert(s.subrange(i + 5, i + 7) =~= t.subrange(5, 7));
    assert(t.subrange(5, 7) =~= padded(d.month as nat, 2));
    assert(s.subrange(i + 8, i + 10) =~= t.subrange(8, 10));
    assert(t.subrange(8, 10) =~= padded(d.day as nat, 2));
    assert(s[i + 4] == t[4]);
    assert(s[i + 7] == t[7]);
    lemma_year_at(s, i, d.year as nat);
    lemma_field_at(s, i + 5, d.month as nat, 1, 12);
    lemma_field_at(s, i + 8, d.day as nat, 1, 31);
}

/// Trimming the trailing zeros of decimal digits keeps a prefix, and the
/// value is the prefix's value scaled by the zeros taken off.
proof fn lemma_trim_zeros(p: Seq<char>)
    requires
        all_digits(p),
    ensures
        trim_trailing_zeros(p).len() <= p.len(),
        trim_trailing_zeros(p) == p.take(trim_trailing_zeros(p).len() as int),
        radix_value(p, 10) == radix_value(trim_trailing_zeros(p), 10) * pow10(
            (p.len() - trim_trailing_zeros(p).len()) as nat,
        ),
    decreases p.len(),
{
    let t = trim_trailing_zeros(p);
    if p.len() > 0 && p.last() == '0' {
        let q = p.drop_last();
        assert(all_digits(q)) by {
            assert forall|k: int| 0 <= k < q.len() implies #[trigger] dec_digit(q[k]) by {
                assert(q[k] == p[k]);
            }
        }
        lemma_trim_zeros(q);
        assert(t == trim_trailing_zeros(q));
        assert(q.take(t.len() as int) =~= p.take(t.len() as int));
        let k = (q.len() - t.len()) as nat;
        assert(hex_char_value('0') == 0);
        assert(radix_value(p, 10) == radix_value(q, 10) * 10);
        assert(pow10(k + 1) == pow10(k) * 10);
        assert((radix_value(t, 10) * pow10(k)) * 10 == radix_value(t, 10) * (pow10(k) * 10))
            by (nonlinear_arith);
        assert((p.len() - t.len()) as nat == k + 1);
    } else {
        assert(p.take(p.len() as int) =~= p);
        assert(pow10(0) == 1);
    }
}

/// The run of digits from `k` ends at `e` when `e` ends the text or holds no
/// digit.
proof fn lemma_digits_end(s: Seq<char>, k: int, e: int)
    requires
        0 <= k <= e <= s.len(),
        forall|j: int| k <= j < e ==> #[trigger] dec_digit(s[j]),
        e == s.len() || !dec_digit(s[e]),
    ensures
        digits_end(s, k) == e,
    decreases e - k,
{
    if k < e {
        lemma_digits_end(s, k + 1, e);
    }
}

/// The text of a valid time at `i`, followed by the end of the text or by a
/// character that is neither a digit nor `.`, reads as that time.
proof fn lemma_time_at(s: Seq<char>, i: int, t: Time)
    requires
        valid_time(t),
        0 <= i,
        i + time_text(t).len() <= s.len(),
        s.subrange(i, i + time_text(t).len()) == time_text(t),
        i + time_text(t).len() == s.len() || (!dec_digit(s[i + time_text(t).len()]) && s[i
            + time_text(t).len()] != '.'),
    ensures
        time_text(t).len() >= 8,
        partial_time_at(s, i) == Some((i + time_text(t).len(), t)),
{
    lemma_pow10_values();
    lemma_padded(t.hour as nat, 2);
    lemma_padded(t.minute as nat, 2);
    lemma_padded(t.second as nat, 2);
    lemma_padded(t.nanosecond as nat, 9);
    let tt = time_text(t);
    let l = tt.len() as int;
    assert(s.subrange(i, i + 2) =~= tt.subrange(0, 2));
    assert(tt.subrange(0, 2) =~= padded(t.hour as nat, 2));
    assert(s.subrange(i + 3, i + 5) =~= tt.subrange(3, 5));
    assert(tt.subrange(3, 5) =~= padded(t.minute as nat, 2));
    assert(s.subrange(i + 6, i + 8) =~= tt.subrange(6, 8));
    assert(tt.subrange(6, 8) =~= padded(t.second as nat, 2));
    assert(s[i + 2] == tt[2]);
    assert(s[i + 5] == tt[5]);
    lemma_field_at(s, i, t.hour as nat, 0, 23);
    lemma_field_at(s, i + 3, t.minute as nat, 0, 59);
    lemma_field_at(s, i + 6, t.second as nat, 0, 60);
    if t.nanosecond != 0 {
        let p = padded(t.nanosecond as nat, 9);
        let f = trim_trailing_zeros(p);
        lemma_trim_zeros(p);
        assert(l == 9 + f.len());
        assert(s[i + 8] == tt[8]);
        let head = padded(t.hour as nat, 2) + seq![':'] + padded(t.minute as nat, 2) + seq![':']
            + padded(t.second as nat, 2);
        assert(tt == head + (seq!['.'] + f));
        assert(tt.subrange(9, l) =~= f);
        assert(s.subrange(i + 9, i + l) =~= tt.subrange(9, l));
        if f.len() == 0 {
            assert(radix_value(f, 10) == 0);
            assert(radix_value(p, 10) == 0 * pow10((p.len() - f.len()) as nat));
            assert(radix_value(p, 10) == t.nanosecond);
            assert(false);
        }
        assert forall|j: int| i + 9 <= j < i + l implies #[trigger] dec_digit(s[j]) by {
            assert(s[j] == s.subrange(i + 9, i + l)[j - (i + 9)]);
            assert(f[j - (i + 9)] == p[j - (i + 9)]);
        }
        lemma_digits_end(s, i + 9, i + l);
        assert(secfrac_at(s, i + 8) == Some((i + l, t.nanosecond as int)));
    } else {
        assert(l == 8);
        assert(secfrac_at(s, i + 8) is None);
    }
}

/// The text of a valid offset at `i` reads as that offset.
proof fn lemma_offset_at(s: Seq<char>, i: int, o: Offset)
    requires
        valid_offset(o),
        0 <= i,
        i + offset_text(o).len() <= s.len(),
        s.subrange(i, i + offset_text(o).len()) == offset_text(o),
    ensures
        offset_text(o).len() >= 1,
        offset_text(o)[0] == 'Z' || offset_text(o)[0] == '+' || offset_text(o)[0] == '-',
        time_offset_at(s, i) == OffsetParse::Present(i + offset_text(o).len(), o),
{
    let ot = offset_text(o);
    assert(s[i] == ot[0]);
    match o {
        Offset::Z => {},
        Offset::Custom { hours, minutes } => {
            let h: nat = (if hours < 0 {
                -hours
            } else {
                hours as int
            }) as nat;
            lemma_pow10_values();
            lemma_padded(h, 2);
            lemma_padded(minutes as nat, 2);
            assert(ot.len() == 6);
            assert(s.subrange(i + 1, i + 3) =~= ot.subrange(1, 3));
            assert(ot.subrange(1, 3) =~= padded(h, 2));
            assert(s.subrange(i + 4, i + 6) =~= ot.subrange(4, 6));
            assert(ot.subrange(4, 6) =~= padded(minutes as nat, 2));
            assert(s[i + 3] == ot[3]);
            lemma_field_at(s, i + 1, h, 0, 23);
            lemma_field_at(s, i + 4, minutes as nat, 0, 59);
        },
    }
}

/// A valid date-time written as TOML reads back as itself: the date, `T` and
/// the time, the fraction of a second without its trailing zeros, and the
/// offset, each where present.
#[verifier::spinoff_prover]
#[verifier::rlimit(30)]
pub proof fn law_datetime_roundtrip(dt: Datetime)
    requires
        valid_datetime(dt),
    ensures
        date_time_at(datetime_text(dt), 0) == Some((datetime_text(dt).len() as int, dt)),
{
    let s = datetime_text(dt);
    match dt.date {
        Some(d) => {
            let dtext = date_text(d);
            assert(s.subrange(0, dtext.len() as int) =~= dtext);
            lemma_date_at(s, 0, d);
            match dt.time {
                Some(t) => {
                    let tt = time_text(t);
                    let x = match dt.offset {
                        Some(o) => offset_text(o),
                        None => Seq::empty(),
                    };
                    assert(s =~= dtext + seq!['T'] + tt + x);
                    assert(s[10] == 'T');
                    assert(time_delim(s[10]));
                    let l: int = 11 + tt.len() as int;
                    assert(s.subrange(11, l) =~= tt);
                    match dt.offset {
                        Some(o) => {
                            assert(s.subrange(l, s.len() as int) =~= x);
                            lemma_offset_at(s, l, o);
                            assert(s[l] == x[0]);
                        },
                        None => {
                            assert(l == s.len());
                        },
                    }
                    lemma_time_at(s, 11, t);
                },
                None => {
                    assert(s =~= dtext);
                },
            }
        },
        None => {
            let t = dt.time.unwrap();
            let tt = time_text(t);
            assert(s =~= tt);
            assert(s.subrange(0, tt.len() as int) =~= tt);
            lemma_time_at(s, 0, t);
            lemma_pow10_values();
            lemma_padded(t.hour as nat, 2);
            let y = s.subrange(0, 4);
            assert(y[2] == ':');
            assert(!dec_digit(y[2]));
            assert(!all_digits(y));
            assert(dec_digit(y[0]));
            assert(parse_signed(y) is None);
            assert(date_fullyear_at(s, 0) is None);
            assert(full_date_at(s, 0) is None);
        },
    }
}

/// A character written at the front of a basic string body is its piece
/// followed by the rest.
proof fn lemma_standard_body_cons(c: char, t: Seq<char>, st: StringStyle)
    ensures
        standard_body(seq![c] + t, st) == (if c == '"' {
            seq!['\\', '"']
        } else {
            escape_char(c, st == StringStyle::NewlineTripple)
        }) + standard_body(t, st),
    decreases t.len(),
{
    let u = seq![c] + t;
    if t.len() == 0 {
        assert(u.drop_last() =~= Seq::<char>::empty());
        assert(standard_body(Seq::<char>::empty(), st) == Seq::<char>::empty());
        assert(u.last() == c);
    } else {
        assert(u.drop_last() =~= seq![c] + t.drop_last());
        assert(u.last() == t.last());
        lemma_standard_body_cons(c, t.drop_last(), st);
    }
}

/// On one line, a basic string body escapes every quote: it is the body
/// `to_string_repr` writes.
proof fn lemma_escaped_body_single(s: Seq<char>, run: nat)
    ensures
        escaped_body(s, false, run) == standard_body(s, StringStyle::OnelineSingle),
    decreases s.len(),
{
    if s.len() > 0 {
        lemma_escaped_body_single(s.drop_first(), 0);
        assert(s =~= seq![s[0]] + s.drop_first());
        lemma_standard_body_cons(s[0], s.drop_first(), StringStyle::OnelineSingle);
    } else {
        assert(standard_body(s, StringStyle::OnelineSingle) == Seq::<char>::empty());
    }
}

/// A key written the way `TomlKeyBuilder::as_default` writes it (bare, else
/// a basic string without escapes, else a literal string, else a basic
/// string) reads back as itself.
#[verifier::spinoff_prover]
pub proof fn law_key_builder_roundtrip(k: Seq<char>)
    ensures
        whole_key(encoded(k, default_key_encoding(k), false)) == Some(k),
{
    let enc = default_key_encoding(k);
    let t = encoded(k, enc, false);
    if is_unquoted_key(k) {
        assert(t =~= k);
        lemma_unquoted_run(k, 0);
        assert(k.subrange(0, k.len() as int) =~= k);
    } else if enc == Some(Encoding::BasicString) {
        lemma_escaped_body_single(k, 0);
        let b = standard_body(k, StringStyle::OnelineSingle);
        assert(t =~= seq!['"'] + b + seq!['"']);
        let l = b.len() as int;
        assert(t[l + 1] == '"');
        assert(basic_body(t, l + 1) == Some((l + 1, Seq::<char>::empty())));
        assert(t.subrange(1, 1 + l) =~= b);
        lemma_basic_body_reads(k, t, 1, l + 1, Seq::<char>::empty());
        assert(k + Seq::<char>::empty() =~= k);
    } else {
        assert(enc == Some(Encoding::LiteralString));
        assert(key_literal_ok(k));
        assert(t =~= seq!['\''] + k + seq!['\'']);
        assert forall|x: int| 0 <= x < k.len() implies literal_char(#[trigger] k[x]) by {
            if key_needs_escape_code(k[x]) {
                assert(key_has_escape_codes(k));
            }
            assert(k.contains(k[x]));
            lemma_literal_char(k[x]);
        }
        let l = k.len() as int;
        assert(t.subrange(1, 1 + l) =~= k);
        lemma_literal_run(k, t, 1, 0);
        assert(literal_chars_end(t, 1 + l) == 1 + l);
        assert(t.subrange(1, 1 + l) =~= k);
    }
}

/// A string written the way `TomlStringBuilder::as_default` writes it reads
/// back as itself where the encoding chosen is a basic string, a literal
/// string, or a multi-line literal string that does not end with an
/// apostrophe. (Multi-line basic strings are left out: their reading back is
/// not proved here.)
#[verifier::spinoff_prover]
#[verifier::rlimit(40)]
pub proof fn law_string_builder_roundtrip(s: Seq<char>)
    requires
        default_string_encoding(s) != Encoding::MlBasicString,
        default_string_encoding(s) == Encoding::MlLiteralString && s.len() > 0 ==> s.last() != '\'',
    ensures
        string_at(encoded(s, Some(default_string_encoding(s)), s.contains('\n')), 0) == Some(
            (encoded(s, Some(default_string_encoding(s)), s.contains('\n')).len() as int, s),
        ),
{
    let enc = default_string_encoding(s);
    let t = encoded(s, Some(enc), s.contains('\n'));
    if s.len() == 0 {
        assert(!value_has_escape_codes(s));
        assert(!s.contains('\\'));
        assert(!s.contains('\n'));
        assert(max_run(s, '"') == 0);
        assert(enc == Encoding::BasicString);
    }
    if enc == Encoding::BasicString {
        lemma_escaped_body_single(s, 0);
        let b = standard_body(s, StringStyle::OnelineSingle);
        assert(t =~= seq!['"'] + b + seq!['"']);
        lemma_basic_string_reads(s);
    } else if enc == Encoding::LiteralString {
        assert(literal_ok(s));
        assert(t =~= seq!['\''] + s + seq!['\'']);
        assert forall|x: int| 0 <= x < s.len() implies literal_char(#[trigger] s[x]) by {
            if value_needs_escape_code(s[x]) {
                assert(value_has_escape_codes(s));
            }
            assert(s.contains(s[x]));
            lemma_no_char(s, '\'', x);
            lemma_literal_char(s[x]);
        }
        lemma_literal_string_reads(s);
    } else {
        assert(enc == Encoding::MlLiteralString);
        assert(ml_literal_ok(s));
        let open = if s.contains('\n') {
            seq!['\'', '\'', '\'', '\n']
        } else {
            seq!['\'', '\'', '\'']
        };
        assert(t =~= open + s + seq!['\'', '\'', '\'']);
        assert forall|x: int| 0 <= x < s.len() implies literal_char(#[trigger] s[x]) || s[x] == '\n'
            || s[x] == '\'' by {
            if value_needs_escape_code(s[x]) {
                assert(value_has_escape_codes(s));
            }
            if s[x] != '\n' && s[x] != '\'' {
                lemma_literal_char(s[x]);
            }
        }
        assert forall|x: int| 0 <= x && x + 2 < s.len() implies !(#[trigger] s[x] == '\'' && s[x
            + 1] == '\'' && s[x + 2] == '\'') by {
            lemma_no_triple(s, '\'', x);
        }
        if !s.contains('\n') {
            assert(s.len() > 0);
            assert(s.contains(s[0]));
            if s[0] == '\r' {
                assert(value_needs_escape_code(s[0]));
                assert(value_has_escape_codes(s));
            }
        }
        lemma_ml_literal_string_reads(s, open);
    }
}

} // verus!
