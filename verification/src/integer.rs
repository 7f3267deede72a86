//! Writing integers in the radixes TOML allows.

use vstd::prelude::*;

use crate::text::push_char;
use crate::write::TomlWrite;

verus! {

/// Letter case of hexadecimal digits.
#[derive(Copy, Clone, PartialEq, Eq, Debug)]
pub enum HexCase {
    Upper,
    Lower,
}

/// The radix an integer is written in.
#[derive(Copy, Clone, PartialEq, Eq, Debug)]
pub enum Radix {
    Decimal,
    Hexadecimal { case: HexCase },
    Octal,
    Binary,
}

/// The base of a radix.
pub open spec fn base(radix: Radix) -> nat {
    match radix {
        Radix::Decimal => 10,
        Radix::Hexadecimal { .. } => 16,
        Radix::Octal => 8,
        Radix::Binary => 2,
    }
}

/// The digit character for `d`, lower-case letters unless `upper`.
pub open spec fn digit_char(d: nat, upper: bool) -> char {
    if d < 10 {
        ((48 + d) as u8) as char
    } else if upper {
        ((55 + d) as u8) as char
    } else {
        ((87 + d) as u8) as char
    }
}

/// The digits of `n` in base `b`, most significant first, without leading
/// zeros (`0` is the single digit `0`).
pub open spec fn digits(n: nat, b: nat, upper: bool) -> Seq<char>
    decreases n,
{
    if b < 2 || n < b {
        seq![digit_char(n, upper)]
    } else {
        proof {
            vstd::arithmetic::div_mod::lemma_div_decreases(n as int, b as int);
        }
        digits(n / b, b, upper).push(digit_char(n % b, upper))
    }
}

/// The radix prefix: `0x`, `0o`, `0b`, or nothing for decimal.
pub open spec fn radix_prefix(radix: Radix) -> Seq<char> {
    match radix {
        Radix::Decimal => Seq::empty(),
        Radix::Hexadecimal { .. } => seq!['0', 'x'],
        Radix::Octal => seq!['0', 'o'],
        Radix::Binary => seq!['0', 'b'],
    }
}

/// The TOML text of the integer `v` in the radix; only decimal is used for a
/// negative `v`.
pub open spec fn integer_text(v: int, radix: Radix) -> Seq<char> {
    let upper = radix == (Radix::Hexadecimal { case: HexCase::Upper });
    if v < 0 {
        seq!['-'] + digits((-v) as nat, base(radix), upper)
    } else {
        radix_prefix(radix) + digits(v as nat, base(radix), upper)
    }
}

fn digit(d: u128, upper: bool) -> (c: char)
    requires
        d < 16,
    ensures
        c == digit_char(d as nat, upper),
{
    if d < 10 {
        (48u8 + d as u8) as char
    } else if upper {
        (55u8 + d as u8) as char
    } else {
        (87u8 + d as u8) as char
    }
}

/// Appends the digits of `n` in base `b`.
fn write_digits<W: TomlWrite>(n: u128, b: u128, upper: bool, writer: &mut W)
    requires
        b == 2 || b == 8 || b == 10 || b == 16,
    ensures
        final(writer).written() == old(writer).written() + digits(n as nat, b as nat, upper),
{
    let mut m = n;
    let mut low: Vec<char> = Vec::new();
    let ghost mut suffix: Seq<char> = Seq::empty();
    while m >= b
        invariant
            b == 2 || b == 8 || b == 10 || b == 16,
            digits(n as nat, b as nat, upper) == digits(m as nat, b as nat, upper) + suffix,
            low@.len() == suffix.len(),
            forall|k: int| 0 <= k < low@.len() ==> #[trigger] low@[k] == suffix[suffix.len() - 1 - k],
        decreases m,
    {
        let d = m % b;
        let c = digit(d, upper);
        proof {
            vstd::arithmetic::div_mod::lemma_div_decreases(m as int, b as int);
            let rest = digits((m / b) as nat, b as nat, upper);
            assert(digits(m as nat, b as nat, upper) == rest.push(c));
            assert(rest.push(c) + suffix =~= rest + (seq![c] + suffix));
            suffix = seq![c] + suffix;
        }
        low.push(c);
        m = m / b;
    }
    let top = digit(m, upper);
    assert(digits(m as nat, b as nat, upper) == seq![top]);
    writer.write_char(top);
    let ghost start = old(writer).written();
    let mut j = low.len();
    while j > 0
        invariant
            j <= low@.len(),
            low@.len() == suffix.len(),
            forall|k: int| 0 <= k < low@.len() ==> #[trigger] low@[k] == suffix[suffix.len() - 1 - k],
            digits(n as nat, b as nat, upper) == seq![top] + suffix,
            writer.written() == start + seq![top] + suffix.take(suffix.len() - j),
        decreases j,
    {
        j = j - 1;
        let c = low[j];
        writer.write_char(c);
        proof {
            assert(c == suffix[suffix.len() - 1 - j]);
            assert(suffix.take(suffix.len() - j) =~= suffix.take(suffix.len() - 1 - j).push(c));
        }
    }
    assert(suffix.take(suffix.len() as int) =~= suffix);
    assert(writer.written() =~= start + digits(n as nat, b as nat, upper));
}

/// Writes `v` in the radix.
fn write_toml_integer<W: TomlWrite>(v: i128, radix: Radix, writer: &mut W)
    requires
        v < 0 ==> radix == Radix::Decimal,
    ensures
        final(writer).written() == old(writer).written() + integer_text(v as int, radix),
{
    let ghost start = writer.written();
    let (b, upper): (u128, bool) = match radix {
        Radix::Decimal => (10, false),
        Radix::Hexadecimal { case } => match case {
            HexCase::Upper => (16, true),
            HexCase::Lower => (16, false),
        },
        Radix::Octal => (8, false),
        Radix::Binary => (2, false),
    };
    if v < 0 {
        writer.write_char('-');
        let magnitude: u128 = ((-(v + 1)) as u128) + 1;
        write_digits(magnitude, b, upper, writer);
    } else {
        match radix {
            Radix::Decimal => {},
            Radix::Hexadecimal { .. } => {
                writer.write_char('0');
                writer.write_char('x');
            },
            Radix::Octal => {
                writer.write_char('0');
                writer.write_char('o');
            },
            Radix::Binary => {
                writer.write_char('0');
                writer.write_char('b');
            },
        }
        write_digits(v as u128, b, upper, writer);
    }
    assert(writer.written() =~= start + integer_text(v as int, radix));
}

/// An integer together with the radix to write it in.
#[derive(Copy, Clone, Debug)]
pub struct TomlInteger {
    value: i128,
    radix: Radix,
}

impl TomlInteger {
    #[verifier::type_invariant]
    spec fn wf(self) -> bool {
        self.value < 0 ==> self.radix == Radix::Decimal
    }

    /// The integer.
    pub closed spec fn value(self) -> int {
        self.value as int
    }

    /// The radix it is written in.
    pub closed spec fn radix(self) -> Radix {
        self.radix
    }

    /// The TOML text of the integer.
    pub open spec fn toml_text(self) -> Seq<char> {
        integer_text(self.value(), self.radix())
    }

    /// Writes the TOML text of the integer.
    pub fn write_toml_value<W: TomlWrite>(&self, writer: &mut W)
        ensures
            final(writer).written() == old(writer).written() + self.toml_text(),
    {
        proof {
            use_type_invariant(self);
        }
        write_toml_integer(self.value, self.radix, writer)
    }

    /// The TOML text of the integer.
    pub fn to_toml_value(&self) -> (s: String)
        ensures
            s@ == self.toml_text(),
    {
        let mut out = String::new();
        self.write_toml_value(&mut out);
        out
    }
}

/// How to write integers: the radix (and, in the future, digit separators).
#[derive(Copy, Clone, Debug)]
pub struct TomlIntegerFormat {
    radix: Radix,
    _separators: (),
}

impl TomlIntegerFormat {
    /// The radix integers are written in.
    pub closed spec fn radix(self) -> Radix {
        self.radix
    }

    /// Decimal.
    pub fn new() -> (f: Self)
        ensures
            f.radix() == Radix::Decimal,
    {
        Self { radix: Radix::Decimal, _separators: () }
    }

    /// Write in decimal.
    pub fn as_decimal(self) -> (f: Self)
        ensures
            f.radix() == Radix::Decimal,
    {
        Self { radix: Radix::Decimal, ..self }
    }

    /// Write in hexadecimal with upper-case digits.
    pub fn as_hex_upper(self) -> (f: Self)
        ensures
            f.radix() == (Radix::Hexadecimal { case: HexCase::Upper }),
    {
        Self { radix: Radix::Hexadecimal { case: HexCase::Upper }, ..self }
    }

    /// Write in hexadecimal with lower-case digits.
    pub fn as_hex_lower(self) -> (f: Self)
        ensures
            f.radix() == (Radix::Hexadecimal { case: HexCase::Lower }),
    {
        Self { radix: Radix::Hexadecimal { case: HexCase::Lower }, ..self }
    }

    /// Write in octal.
    pub fn as_octal(self) -> (f: Self)
        ensures
            f.radix() == Radix::Octal,
    {
        Self { radix: Radix::Octal, ..self }
    }

    /// Write in binary.
    pub fn as_binary(self) -> (f: Self)
        ensures
            f.radix() == Radix::Binary,
    {
        Self { radix: Radix::Binary, ..self }
    }

    /// Pairs `value` with this format; `None` if the value is negative and
    /// the radix is not decimal.
    pub fn format(self, value: i128) -> (i: Option<TomlInteger>)
        ensures
            i is None <==> (value < 0 && self.radix() != Radix::Decimal),
            i matches Some(t) ==> t.value() == value && t.radix() == self.radix(),
    {
        match self.radix {
            Radix::Decimal => {},
            Radix::Hexadecimal { .. } | Radix::Octal | Radix::Binary => {
                if value < 0 {
                    return None;
                }
            },
        }
        Some(TomlInteger { value, radix: self.radix })
    }
}

impl Default for TomlIntegerFormat {
    fn default() -> (f: Self)
        ensures
            f.radix() == Radix::Decimal,
    {
        Self::new()
    }
}

} // verus!

verus! {

/// The lowercase hexadecimal digits of `n`.
pub fn hex_lower_digits(n: u128) -> (s: String)
    ensures
        s@ == digits(n as nat, 16, false),
{
    let mut out = String::new();
    write_digits(n, 16, false, &mut out);
    out
}

/// The decimal digits of `n`.
pub fn decimal_digits(n: u128) -> (s: String)
    ensures
        s@ == digits(n as nat, 10, false),
{
    let mut out = String::new();
    write_digits(n, 10, false, &mut out);
    out
}

} // verus!
