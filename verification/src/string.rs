//! Choosing and writing the TOML encoding of a string or a key.

use vstd::prelude::*;

use crate::text::chars_of;
use crate::write::TomlWrite;

verus! {

/// Length of the run of `c` that ends the sequence.
pub open spec fn trailing_run(s: Seq<char>, c: char) -> nat
    decreases s.len(),
{
    if s.len() == 0 {
        0
    } else if s.last() == c {
        trailing_run(s.drop_last(), c) + 1
    } else {
        0
    }
}

/// Length of the longest run of consecutive `c` in the sequence.
pub open spec fn max_run(s: Seq<char>, c: char) -> nat
    decreases s.len(),
{
    if s.len() == 0 {
        0
    } else {
        let m = max_run(s.drop_last(), c);
        let t = trailing_run(s, c);
        if m < t {
            t
        } else {
            m
        }
    }
}

/// An ASCII control character (including DEL).
pub open spec fn is_control(c: char) -> bool {
    (c as u32) <= 0x1f || (c as u32) == 0x7f
}

/// A character that a string value can hold only through an escape code.
pub open spec fn value_needs_escape_code(c: char) -> bool {
    is_control(c) && c != '\t' && c != '\n'
}

/// A character that a key can hold only through an escape code.
pub open spec fn key_needs_escape_code(c: char) -> bool {
    is_control(c) && c != '\t'
}

/// A character allowed in an unquoted (bare) key: `A-Z a-z 0-9 - _`.
pub open spec fn is_unquoted_key_char(c: char) -> bool {
    ('a' <= c && c <= 'z') || ('A' <= c && c <= 'Z') || ('0' <= c && c <= '9') || c == '-' || c
        == '_'
}

/// Some character of the string value needs an escape code.
pub open spec fn value_has_escape_codes(s: Seq<char>) -> bool {
    exists|i: int| 0 <= i < s.len() && #[trigger] value_needs_escape_code(s[i])
}

/// Some character of the key needs an escape code.
pub open spec fn key_has_escape_codes(s: Seq<char>) -> bool {
    exists|i: int| 0 <= i < s.len() && #[trigger] key_needs_escape_code(s[i])
}

/// The key can be written bare.
pub open spec fn is_unquoted_key(s: Seq<char>) -> bool {
    s.len() > 0 && forall|i: int| 0 <= i < s.len() ==> #[trigger] is_unquoted_key_char(s[i])
}

/// Growing a sequence never shrinks its longest run.
pub proof fn lemma_max_run_prefix(s: Seq<char>, c: char, i: int)
    requires
        0 <= i <= s.len(),
    ensures
        max_run(s.take(i), c) <= max_run(s, c),
        trailing_run(s, c) <= max_run(s, c),
    decreases s.len(),
{
    if s.len() > 0 {
        if i < s.len() {
            assert(s.drop_last().take(i) =~= s.take(i));
            lemma_max_run_prefix(s.drop_last(), c, i);
        } else {
            assert(s.take(i) =~= s);
        }
    }
}

/// Facts about a string that decide which encodings can hold it.
#[derive(Copy, Clone, Debug)]
pub struct ValueMetrics {
    pub max_seq_single_quotes: u8,
    pub max_seq_double_quotes: u8,
    pub escape_codes: bool,
    pub escape: bool,
    pub newline: bool,
}

/// The metrics of a string whose quote runs are shorter than 256.
pub open spec fn value_metrics_of(s: Seq<char>) -> ValueMetrics {
    ValueMetrics {
        max_seq_single_quotes: max_run(s, '\'') as u8,
        max_seq_double_quotes: max_run(s, '"') as u8,
        escape_codes: value_has_escape_codes(s),
        escape: s.contains('\\'),
        newline: s.contains('\n'),
    }
}

/// The quote runs of the string fit the counters that measure them.
pub open spec fn quote_runs_fit(s: Seq<char>) -> bool {
    max_run(s, '\'') < 256 && max_run(s, '"') < 256
}

impl ValueMetrics {
    fn new() -> (m: Self)
        ensures
            m == value_metrics_of(Seq::empty()),
    {
        ValueMetrics {
            max_seq_single_quotes: 0,
            max_seq_double_quotes: 0,
            escape_codes: false,
            escape: false,
            newline: false,
        }
    }

    fn calculate(s: &str) -> (m: Self)
        requires
            quote_runs_fit(s@),
        ensures
            m == value_metrics_of(s@),
    {
        let cs = chars_of(s);
        let mut metrics = Self::new();
        let mut prev_single_quotes: u8 = 0;
        let mut prev_double_quotes: u8 = 0;
        let mut i: usize = 0;
        while i < cs.len()
            invariant
                i <= cs@.len(),
                cs@ == s@,
                quote_runs_fit(s@),
                prev_single_quotes == trailing_run(s@.take(i as int), '\''),
                prev_double_quotes == trailing_run(s@.take(i as int), '"'),
                metrics == value_metrics_of(s@.take(i as int)),
            decreases cs.len() - i,
        {
            let c = cs[i];
            let ghost prefix = s@.take(i as int);
            let ghost next = s@.take(i + 1);
            assert(next.drop_last() =~= prefix);
            assert(next.last() == c);
            proof {
                lemma_max_run_prefix(s@, '\'', i + 1);
                lemma_max_run_prefix(s@, '"', i + 1);
                lemma_max_run_prefix(next, '\'', i + 1);
                lemma_max_run_prefix(next, '"', i + 1);
                assert(next.take(i + 1) =~= next);
            }
            if c == '\'' {
                prev_single_quotes = prev_single_quotes + 1;
                if metrics.max_seq_single_quotes < prev_single_quotes {
                    metrics.max_seq_single_quotes = prev_single_quotes;
                }
            } else {
                prev_single_quotes = 0;
            }
            if c == '"' {
                prev_double_quotes = prev_double_quotes + 1;
                if metrics.max_seq_double_quotes < prev_double_quotes {
                    metrics.max_seq_double_quotes = prev_double_quotes;
                }
            } else {
                prev_double_quotes = 0;
            }
            let code = c as u32;  // a char always fits in u32
            if c == '\\' {
                metrics.escape = true;
            } else if c == '\t' {
            } else if c == '\n' {
                metrics.newline = true;
            } else if code <= 0x1f || code == 0x7f {
                metrics.escape_codes = true;
            }
            proof {
                assert(next[i as int] == c);
                if value_needs_escape_code(c) {
                    assert(value_needs_escape_code(next[i as int]));
                }
                if value_has_escape_codes(prefix) {
                    let j = choose|j: int| 0 <= j < prefix.len() && #[trigger] value_needs_escape_code(prefix[j]);
                    assert(next[j] == prefix[j]);
                }
                if value_has_escape_codes(next) {
                    let j = choose|j: int| 0 <= j < next.len() && #[trigger] value_needs_escape_code(next[j]);
                    if j < i {
                        assert(prefix[j] == next[j]);
                    }
                }
                if prefix.contains('\\') {
                    let j = choose|j: int| 0 <= j < prefix.len() && prefix[j] == '\\';
                    assert(next[j] == prefix[j]);
                }
                if next.contains('\\') {
                    let j = choose|j: int| 0 <= j < next.len() && next[j] == '\\';
                    if j < i {
                        assert(prefix[j] == next[j]);
                    }
                }
                if prefix.contains('\n') {
                    let j = choose|j: int| 0 <= j < prefix.len() && prefix[j] == '\n';
                    assert(next[j] == prefix[j]);
                }
                if next.contains('\n') {
                    let j = choose|j: int| 0 <= j < next.len() && next[j] == '\n';
                    if j < i {
                        assert(prefix[j] == next[j]);
                    }
                }
            }
            i = i + 1;
        }
        assert(s@.take(i as int) =~= s@);
        metrics
    }
}

} // verus!

verus! {

/// Facts about a string that decide which encodings can hold it as a key.
#[derive(Copy, Clone, Debug)]
pub struct KeyMetrics {
    pub unquoted: bool,
    pub single_quotes: bool,
    pub double_quotes: bool,
    pub escape_codes: bool,
    pub escape: bool,
}

/// The key metrics of a string.
pub open spec fn key_metrics_of(s: Seq<char>) -> KeyMetrics {
    KeyMetrics {
        unquoted: is_unquoted_key(s),
        single_quotes: s.contains('\''),
        double_quotes: s.contains('"'),
        escape_codes: key_has_escape_codes(s),
        escape: s.contains('\\'),
    }
}

/// The key metrics of a prefix, before the emptiness test of `unquoted`.
spec fn key_metrics_prefix(s: Seq<char>) -> KeyMetrics {
    KeyMetrics {
        unquoted: forall|j: int| 0 <= j < s.len() ==> #[trigger] is_unquoted_key_char(s[j]),
        single_quotes: s.contains('\''),
        double_quotes: s.contains('"'),
        escape_codes: key_has_escape_codes(s),
        escape: s.contains('\\'),
    }
}

proof fn lemma_contains_push(p: Seq<char>, c: char, x: char)
    ensures
        p.push(c).contains(x) == (p.contains(x) || c == x),
{
    let n = p.push(c);
    if p.contains(x) {
        let j = choose|j: int| 0 <= j < p.len() && p[j] == x;
        assert(n[j] == p[j]);
    }
    if c == x {
        assert(n[p.len() as int] == c);
    }
    if n.contains(x) {
        let j = choose|j: int| 0 <= j < n.len() && n[j] == x;
        if j < p.len() {
            assert(p[j] == n[j]);
        }
    }
}

impl KeyMetrics {
    fn new() -> (m: Self)
        ensures
            m == key_metrics_prefix(Seq::empty()),
    {
        KeyMetrics {
            unquoted: true,
            single_quotes: false,
            double_quotes: false,
            escape_codes: false,
            escape: false,
        }
    }

    fn calculate(s: &str) -> (m: Self)
        ensures
            m == key_metrics_of(s@),
    {
        let cs = chars_of(s);
        let mut metrics = Self::new();
        let mut i: usize = 0;
        while i < cs.len()
            invariant
                i <= cs@.len(),
                cs@ == s@,
                metrics == key_metrics_prefix(s@.take(i as int)),
            decreases cs.len() - i,
        {
            let c = cs[i];
            let ghost prefix = s@.take(i as int);
            let ghost next = s@.take(i + 1);
            assert(next =~= prefix.push(c));
            let code = c as u32;
            if !(('a' <= c && c <= 'z') || ('A' <= c && c <= 'Z') || ('0' <= c && c <= '9') || c
                == '-' || c == '_') {
                metrics.unquoted = false;
            }
            if c == '\'' {
                metrics.single_quotes = true;
            } else if c == '"' {
                metrics.double_quotes = true;
            } else if c == '\\' {
                metrics.escape = true;
            } else if c == '\t' {
            } else if code <= 0x1f || code == 0x7f {
                metrics.escape_codes = true;
            }
            proof {
                lemma_contains_push(prefix, c, '\'');
                lemma_contains_push(prefix, c, '"');
                lemma_contains_push(prefix, c, '\\');
                assert(next[i as int] == c);
                if key_needs_escape_code(c) {
                    assert(key_needs_escape_code(next[i as int]));
                }
                if key_has_escape_codes(prefix) {
                    let j = choose|j: int|
                        0 <= j < prefix.len() && #[trigger] key_needs_escape_code(prefix[j]);
                    assert(next[j] == prefix[j]);
                }
                if key_has_escape_codes(next) {
                    let j = choose|j: int|
                        0 <= j < next.len() && #[trigger] key_needs_escape_code(next[j]);
                    if j < i {
                        assert(prefix[j] == next[j]);
                    }
                }
                if metrics.unquoted {
                    assert forall|j: int| 0 <= j < next.len() implies #[trigger] is_unquoted_key_char(
                        next[j],
                    ) by {
                        if j < i {
                            assert(prefix[j] == next[j]);
                        }
                    }
                } else {
                    if is_unquoted_key_char(c) {
                        let j = choose|j: int|
                            0 <= j < prefix.len() && !#[trigger] is_unquoted_key_char(prefix[j]);
                        assert(next[j] == prefix[j]);
                    } else {
                        assert(!is_unquoted_key_char(next[i as int]));
                    }
                }
            }
            i = i + 1;
        }
        assert(s@.take(i as int) =~= s@);
        if cs.len() == 0 {
            metrics.unquoted = false;
        }
        metrics
    }
}

/// The quoting of a TOML string or quoted key.
#[derive(Copy, Clone, PartialEq, Eq, Hash, Debug)]
pub enum Encoding {
    LiteralString,
    BasicString,
    MlLiteralString,
    MlBasicString,
}

/// The delimiter that opens and closes the encoding (empty for a bare key).
pub open spec fn delimiter(encoding: Option<Encoding>) -> Seq<char> {
    match encoding {
        Some(Encoding::LiteralString) => seq!['\''],
        Some(Encoding::BasicString) => seq!['"'],
        Some(Encoding::MlLiteralString) => seq!['\'', '\'', '\''],
        Some(Encoding::MlBasicString) => seq!['"', '"', '"'],
        None => Seq::empty(),
    }
}

/// The encoding interprets escapes (basic strings).
pub open spec fn is_escaped(encoding: Option<Encoding>) -> bool {
    encoding == Some(Encoding::BasicString) || encoding == Some(Encoding::MlBasicString)
}

/// The encoding spans lines (multi-line strings).
pub open spec fn is_multiline(encoding: Option<Encoding>) -> bool {
    encoding == Some(Encoding::MlLiteralString) || encoding == Some(Encoding::MlBasicString)
}

/// The upper-case hexadecimal digit for `d < 16`.
pub open spec fn hex_digit_upper(d: u32) -> char {
    if d < 10 {
        ((48 + d) as u8) as char
    } else {
        ((55 + d) as u8) as char
    }
}

/// The escape sequence (or the character itself) for `c` in a basic string,
/// for every character but `"`.
pub open spec fn escape_char(c: char, multiline: bool) -> Seq<char> {
    if c == '\u{8}' {
        seq!['\\', 'b']
    } else if c == '\t' {
        seq!['\\', 't']
    } else if c == '\n' {
        if multiline {
            seq!['\n']
        } else {
            seq!['\\', 'n']
        }
    } else if c == '\u{c}' {
        seq!['\\', 'f']
    } else if c == '\r' {
        seq!['\\', 'r']
    } else if c == '\\' {
        seq!['\\', '\\']
    } else if is_control(c) {
        seq!['\\', 'u', '0', '0', hex_digit_upper((c as u32) / 16), hex_digit_upper((c as u32) % 16)]
    } else {
        seq![c]
    }
}

/// The longest run of unescaped `"` a basic string body may hold.
pub open spec fn max_unescaped_quotes(multiline: bool) -> nat {
    if multiline {
        2
    } else {
        0
    }
}

/// The body of a basic string holding `s`, where `run` unescaped quotes
/// directly precede `s`.
pub open spec fn escaped_body(s: Seq<char>, multiline: bool, run: nat) -> Seq<char>
    decreases s.len(),
{
    if s.len() == 0 {
        Seq::empty()
    } else if s[0] == '"' {
        if run + 1 > max_unescaped_quotes(multiline) {
            seq!['\\', '"'] + escaped_body(s.drop_first(), multiline, 0)
        } else {
            seq!['"'] + escaped_body(s.drop_first(), multiline, run + 1)
        }
    } else {
        escape_char(s[0], multiline) + escaped_body(s.drop_first(), multiline, 0)
    }
}

/// The TOML text of `decoded` in the given encoding; a multi-line string that
/// holds a newline starts with one.
pub open spec fn encoded(decoded: Seq<char>, encoding: Option<Encoding>, newline: bool) -> Seq<
    char,
> {
    delimiter(encoding) + (if newline && is_multiline(encoding) {
        seq!['\n']
    } else {
        Seq::empty()
    }) + (if is_escaped(encoding) {
        escaped_body(decoded, is_multiline(encoding), 0)
    } else {
        decoded
    }) + delimiter(encoding)
}

fn hex_digit(d: u32) -> (c: char)
    requires
        d < 16,
    ensures
        c == hex_digit_upper(d),
{
    if d < 10 {
        (48u8 + d as u8) as char
    } else {
        (55u8 + d as u8) as char
    }
}

fn write_delimiter<W: TomlWrite>(encoding: Option<Encoding>, writer: &mut W)
    ensures
        final(writer).written() == old(writer).written() + delimiter(encoding),
{
    match encoding {
        Some(Encoding::LiteralString) => {
            writer.write_char('\'');
        },
        Some(Encoding::BasicString) => {
            writer.write_char('"');
        },
        Some(Encoding::MlLiteralString) => {
            writer.write_char('\'');
            writer.write_char('\'');
            writer.write_char('\'');
        },
        Some(Encoding::MlBasicString) => {
            writer.write_char('"');
            writer.write_char('"');
            writer.write_char('"');
        },
        None => {},
    }
    assert(final(writer).written() =~= old(writer).written() + delimiter(encoding));
}

fn write_escaped_char<W: TomlWrite>(c: char, multiline: bool, writer: &mut W)
    requires
        c != '"',
    ensures
        final(writer).written() == old(writer).written() + escape_char(c, multiline),
{
    let code = c as u32;
    if c == '\u{8}' {
        writer.write_char('\\');
        writer.write_char('b');
    } else if c == '\t' {
        writer.write_char('\\');
        writer.write_char('t');
    } else if c == '\n' {
        if multiline {
            writer.write_char('\n');
        } else {
            writer.write_char('\\');
            writer.write_char('n');
        }
    } else if c == '\u{c}' {
        writer.write_char('\\');
        writer.write_char('f');
    } else if c == '\r' {
        writer.write_char('\\');
        writer.write_char('r');
    } else if c == '\\' {
        writer.write_char('\\');
        writer.write_char('\\');
    } else if code <= 0x1f || code == 0x7f {
        writer.write_char('\\');
        writer.write_char('u');
        writer.write_char('0');
        writer.write_char('0');
        writer.write_char(hex_digit(code / 16));
        writer.write_char(hex_digit(code % 16));
    } else {
        writer.write_char(c);
    }
    assert(final(writer).written() =~= old(writer).written() + escape_char(c, multiline));
}

/// Writes `decoded` in the given encoding.
fn write_toml_value<W: TomlWrite>(
    decoded: &str,
    encoding: Option<Encoding>,
    newline: bool,
    writer: &mut W,
)
    ensures
        final(writer).written() == old(writer).written() + encoded(decoded@, encoding, newline),
{
    let escaped = match encoding {
        Some(Encoding::BasicString) | Some(Encoding::MlBasicString) => true,
        _ => false,
    };
    let is_ml = match encoding {
        Some(Encoding::MlLiteralString) | Some(Encoding::MlBasicString) => true,
        _ => false,
    };
    let ghost start = writer.written();
    write_delimiter(encoding, writer);
    if newline && is_ml {
        writer.newline();
    }
    let ghost after_open = writer.written();
    if escaped {
        let max_quotes: usize = if is_ml {
            2
        } else {
            0
        };
        let cs = chars_of(decoded);
        let mut i: usize = 0;
        let mut run: usize = 0;
        let ghost mut out: Seq<char> = Seq::empty();
        assert(decoded@.skip(0) =~= decoded@);
        assert(out + escaped_body(decoded@, is_ml, 0) =~= escaped_body(decoded@, is_ml, 0));
        while i < cs.len()
            invariant
                i <= cs@.len(),
                cs@ == decoded@,
                max_quotes == max_unescaped_quotes(is_ml),
                run <= max_quotes,
                writer.written() == after_open + out,
                out + escaped_body(decoded@.skip(i as int), is_ml, run as nat) == escaped_body(
                    decoded@,
                    is_ml,
                    0,
                ),
            decreases cs.len() - i,
        {
            let c = cs[i];
            let ghost rest = decoded@.skip(i as int);
            assert(rest[0] == c);
            assert(rest.drop_first() =~= decoded@.skip(i + 1));
            let ghost piece: Seq<char>;
            if c == '"' {
                if run + 1 > max_quotes {
                    writer.write_char('\\');
                    writer.write_char('"');
                    proof {
                        piece = seq!['\\', '"'];
                    }
                    run = 0;
                } else {
                    writer.write_char('"');
                    proof {
                        piece = seq!['"'];
                    }
                    run = run + 1;
                }
            } else {
                write_escaped_char(c, is_ml, writer);
                proof {
                    piece = escape_char(c, is_ml);
                }
                run = 0;
            }
            proof {
                assert(out + piece + escaped_body(decoded@.skip(i + 1), is_ml, run as nat) =~= out
                    + (piece + escaped_body(decoded@.skip(i + 1), is_ml, run as nat)));
                out = out + piece;
                assert(writer.written() =~= after_open + out);
            }
            i = i + 1;
        }
        assert(decoded@.skip(i as int) =~= Seq::<char>::empty());
        assert(out =~= escaped_body(decoded@, is_ml, 0));
    } else {
        writer.write_str(decoded);
    }
    write_delimiter(encoding, writer);
    assert(writer.written() =~= start + encoded(decoded@, encoding, newline));
}

} // verus!

verus! {

/// A string value can be a literal string (`'...'`).
pub open spec fn literal_ok(s: Seq<char>) -> bool {
    !value_has_escape_codes(s) && max_run(s, '\'') == 0 && !s.contains('\n')
}

/// A string value can be a multi-line literal string (`'''...'''`).
pub open spec fn ml_literal_ok(s: Seq<char>) -> bool {
    !value_has_escape_codes(s) && max_run(s, '\'') <= 2
}

/// A string value can be a basic string without any escape (`"..."`).
pub open spec fn basic_pretty_ok(s: Seq<char>) -> bool {
    !value_has_escape_codes(s) && !s.contains('\\') && max_run(s, '"') == 0 && !s.contains('\n')
}

/// A string value can be a multi-line basic string without any escape.
pub open spec fn ml_basic_pretty_ok(s: Seq<char>) -> bool {
    !value_has_escape_codes(s) && !s.contains('\\') && max_run(s, '"') <= 2
}

/// The encoding chosen by default for a string value: the first of basic,
/// literal, multi-line basic and multi-line literal that needs no escape,
/// else a basic string (multi-line when the value holds a newline).
pub open spec fn default_string_encoding(s: Seq<char>) -> Encoding {
    if basic_pretty_ok(s) {
        Encoding::BasicString
    } else if literal_ok(s) {
        Encoding::LiteralString
    } else if ml_basic_pretty_ok(s) {
        Encoding::MlBasicString
    } else if ml_literal_ok(s) {
        Encoding::MlLiteralString
    } else if s.contains('\n') {
        Encoding::MlBasicString
    } else {
        Encoding::BasicString
    }
}

/// A key can be a literal string.
pub open spec fn key_literal_ok(s: Seq<char>) -> bool {
    !key_has_escape_codes(s) && !s.contains('\'')
}

/// A key can be a basic string without any escape.
pub open spec fn key_basic_pretty_ok(s: Seq<char>) -> bool {
    !key_has_escape_codes(s) && !s.contains('\\') && !s.contains('"')
}

/// The encoding chosen by default for a key: bare, then basic without
/// escapes, then literal, else basic.
pub open spec fn default_key_encoding(s: Seq<char>) -> Option<Encoding> {
    if is_unquoted_key(s) {
        None
    } else if key_basic_pretty_ok(s) {
        Some(Encoding::BasicString)
    } else if key_literal_ok(s) {
        Some(Encoding::LiteralString)
    } else {
        Some(Encoding::BasicString)
    }
}

/// Chooses among the encodings of a string value.
#[derive(Copy, Clone, Debug)]
pub struct TomlStringBuilder<'s> {
    decoded: &'s str,
    metrics: ValueMetrics,
}

/// A string value together with the encoding to write it in.
#[derive(Copy, Clone, PartialEq, Eq, Hash, Debug)]
pub struct TomlString<'s> {
    decoded: &'s str,
    encoding: Encoding,
    newline: bool,
}

impl<'s> TomlString<'s> {
    /// The string value.
    pub closed spec fn decoded(self) -> Seq<char> {
        self.decoded@
    }

    /// The encoding it is written in.
    pub closed spec fn encoding(self) -> Encoding {
        self.encoding
    }

    /// A multi-line encoding starts with a newline.
    pub closed spec fn newline(self) -> bool {
        self.newline
    }

    /// The TOML text of the string.
    pub open spec fn toml_text(self) -> Seq<char> {
        encoded(self.decoded(), Some(self.encoding()), self.newline())
    }

    /// Writes the TOML text of the string.
    pub fn write_toml_value<W: TomlWrite>(&self, writer: &mut W)
        ensures
            final(writer).written() == old(writer).written() + self.toml_text(),
    {
        write_toml_value(self.decoded, Some(self.encoding), self.newline, writer)
    }

    /// The TOML text of the string.
    pub fn to_toml_value(&self) -> (s: String)
        ensures
            s@ == self.toml_text(),
    {
        let mut out = String::new();
        self.write_toml_value(&mut out);
        out
    }
}

impl<'s> TomlStringBuilder<'s> {
    #[verifier::type_invariant]
    spec fn wf(self) -> bool {
        &&& quote_runs_fit(self.decoded@)
        &&& self.metrics == value_metrics_of(self.decoded@)
    }

    /// The string value to encode.
    pub closed spec fn decoded(self) -> Seq<char> {
        self.decoded@
    }

    /// Measures `decoded` to choose its encodings.
    pub fn new(decoded: &'s str) -> (b: Self)
        requires
            quote_runs_fit(decoded@),
        ensures
            b.decoded() == decoded@,
    {
        Self { decoded, metrics: ValueMetrics::calculate(decoded) }
    }

    /// The encoding that needs the fewest escapes, preferring single-line
    /// and basic strings.
    pub fn as_default(&self) -> (s: TomlString<'s>)
        ensures
            s.decoded() == self.decoded(),
            s.encoding() == default_string_encoding(self.decoded()),
            s.newline() == self.decoded().contains('\n'),
    {
        proof {
            use_type_invariant(self);
        }
        if let Some(s) = self.as_basic_pretty() {
            s
        } else if let Some(s) = self.as_literal() {
            s
        } else if let Some(s) = self.as_ml_basic_pretty() {
            s
        } else if let Some(s) = self.as_ml_literal() {
            s
        } else if self.metrics.newline {
            self.as_ml_basic()
        } else {
            self.as_basic()
        }
    }

    /// A literal string, if the value can be one.
    pub fn as_literal(&self) -> (s: Option<TomlString<'s>>)
        ensures
            s is Some <==> literal_ok(self.decoded()),
            s matches Some(t) ==> t.decoded() == self.decoded() && t.encoding()
                == Encoding::LiteralString && t.newline() == self.decoded().contains('\n'),
    {
        proof {
            use_type_invariant(self);
        }
        if self.metrics.escape_codes || 0 < self.metrics.max_seq_single_quotes
            || self.metrics.newline {
            None
        } else {
            Some(
                TomlString {
                    decoded: self.decoded,
                    encoding: Encoding::LiteralString,
                    newline: self.metrics.newline,
                },
            )
        }
    }

    /// A multi-line literal string, if the value can be one.
    pub fn as_ml_literal(&self) -> (s: Option<TomlString<'s>>)
        ensures
            s is Some <==> ml_literal_ok(self.decoded()),
            s matches Some(t) ==> t.decoded() == self.decoded() && t.encoding()
                == Encoding::MlLiteralString && t.newline() == self.decoded().contains('\n'),
    {
        proof {
            use_type_invariant(self);
        }
        if self.metrics.escape_codes || 2 < self.metrics.max_seq_single_quotes {
            None
        } else {
            Some(
                TomlString {
                    decoded: self.decoded,
                    encoding: Encoding::MlLiteralString,
                    newline: self.metrics.newline,
                },
            )
        }
    }

    /// A basic string without escapes, if the value can be one.
    pub fn as_basic_pretty(&self) -> (s: Option<TomlString<'s>>)
        ensures
            s is Some <==> basic_pretty_ok(self.decoded()),
            s matches Some(t) ==> t.decoded() == self.decoded() && t.encoding()
                == Encoding::BasicString && t.newline() == self.decoded().contains('\n'),
    {
        proof {
            use_type_invariant(self);
        }
        if self.metrics.escape_codes || self.metrics.escape || 0 < self.metrics.max_seq_double_quotes
            || self.metrics.newline {
            None
        } else {
            Some(self.as_basic())
        }
    }

    /// A multi-line basic string without escapes, if the value can be one.
    pub fn as_ml_basic_pretty(&self) -> (s: Option<TomlString<'s>>)
        ensures
            s is Some <==> ml_basic_pretty_ok(self.decoded()),
            s matches Some(t) ==> t.decoded() == self.decoded() && t.encoding()
                == Encoding::MlBasicString && t.newline() == self.decoded().contains('\n'),
    {
        proof {
            use_type_invariant(self);
        }
        if self.metrics.escape_codes || self.metrics.escape || 2
            < self.metrics.max_seq_double_quotes {
            None
        } else {
            Some(self.as_ml_basic())
        }
    }

    /// A basic string, escaping what needs it.
    pub fn as_basic(&self) -> (s: TomlString<'s>)
        ensures
            s.decoded() == self.decoded(),
            s.encoding() == Encoding::BasicString,
            s.newline() == self.decoded().contains('\n'),
    {
        proof {
            use_type_invariant(self);
        }
        TomlString {
            decoded: self.decoded,
            encoding: Encoding::BasicString,
            newline: self.metrics.newline,
        }
    }

    /// A multi-line basic string, escaping what needs it.
    pub fn as_ml_basic(&self) -> (s: TomlString<'s>)
        ensures
            s.decoded() == self.decoded(),
            s.encoding() == Encoding::MlBasicString,
            s.newline() == self.decoded().contains('\n'),
    {
        proof {
            use_type_invariant(self);
        }
        TomlString {
            decoded: self.decoded,
            encoding: Encoding::MlBasicString,
            newline: self.metrics.newline,
        }
    }
}

/// Chooses among the encodings of a key.
#[derive(Copy, Clone, Debug)]
pub struct TomlKeyBuilder<'s> {
    decoded: &'s str,
    metrics: KeyMetrics,
}

/// A key together with the encoding to write it in (`None`: bare).
#[derive(Copy, Clone, PartialEq, Eq, Hash, Debug)]
pub struct TomlKey<'s> {
    decoded: &'s str,
    encoding: Option<Encoding>,
}

impl<'s> TomlKey<'s> {
    /// The key.
    pub closed spec fn decoded(self) -> Seq<char> {
        self.decoded@
    }

    /// The encoding it is written in (`None`: bare).
    pub closed spec fn encoding(self) -> Option<Encoding> {
        self.encoding
    }

    /// The TOML text of the key.
    pub open spec fn toml_text(self) -> Seq<char> {
        encoded(self.decoded(), self.encoding(), false)
    }

    /// Writes the TOML text of the key.
    pub fn write_toml_key<W: TomlWrite>(&self, writer: &mut W)
        ensures
            final(writer).written() == old(writer).written() + self.toml_text(),
    {
        let newline = false;
        write_toml_value(self.decoded, self.encoding, newline, writer)
    }

    /// The TOML text of the key.
    pub fn to_toml_key(&self) -> (s: String)
        ensures
            s@ == self.toml_text(),
    {
        let mut out = String::new();
        self.write_toml_key(&mut out);
        out
    }
}

impl<'s> TomlKeyBuilder<'s> {
    #[verifier::type_invariant]
    spec fn wf(self) -> bool {
        self.metrics == key_metrics_of(self.decoded@)
    }

    /// The key to encode.
    pub closed spec fn decoded(self) -> Seq<char> {
        self.decoded@
    }

    /// Measures `decoded` to choose its encodings.
    pub fn new(decoded: &'s str) -> (b: Self)
        ensures
            b.decoded() == decoded@,
    {
        Self { decoded, metrics: KeyMetrics::calculate(decoded) }
    }

    /// Bare if possible, else a basic string without escapes, else a literal
    /// string, else a basic string.
    pub fn as_default(&self) -> (k: TomlKey<'s>)
        ensures
            k.decoded() == self.decoded(),
            k.encoding() == default_key_encoding(self.decoded()),
    {
        if let Some(k) = self.as_unquoted() {
            k
        } else if let Some(k) = self.as_basic_pretty() {
            k
        } else if let Some(k) = self.as_literal() {
            k
        } else {
            self.as_basic()
        }
    }

    /// A bare key, if the key can be one.
    pub fn as_unquoted(&self) -> (k: Option<TomlKey<'s>>)
        ensures
            k is Some <==> is_unquoted_key(self.decoded()),
            k matches Some(t) ==> t.decoded() == self.decoded() && t.encoding() is None,
    {
        proof {
            use_type_invariant(self);
        }
        if self.metrics.unquoted {
            Some(TomlKey { decoded: self.decoded, encoding: None })
        } else {
            None
        }
    }

    /// A literal string key, if the key can be one.
    pub fn as_literal(&self) -> (k: Option<TomlKey<'s>>)
        ensures
            k is Some <==> key_literal_ok(self.decoded()),
            k matches Some(t) ==> t.decoded() == self.decoded() && t.encoding() == Some(
                Encoding::LiteralString,
            ),
    {
        proof {
            use_type_invariant(self);
        }
        if self.metrics.escape_codes || self.metrics.single_quotes {
            None
        } else {
            Some(TomlKey { decoded: self.decoded, encoding: Some(Encoding::LiteralString) })
        }
    }

    /// A basic string key without escapes, if the key can be one.
    pub fn as_basic_pretty(&self) -> (k: Option<TomlKey<'s>>)
        ensures
            k is Some <==> key_basic_pretty_ok(self.decoded()),
            k matches Some(t) ==> t.decoded() == self.decoded() && t.encoding() == Some(
                Encoding::BasicString,
            ),
    {
        proof {
            use_type_invariant(self);
        }
        if self.metrics.escape_codes || self.metrics.escape || self.metrics.double_quotes {
            None
        } else {
            Some(self.as_basic())
        }
    }

    /// A basic string key, escaping what needs it.
    pub fn as_basic(&self) -> (k: TomlKey<'s>)
        ensures
            k.decoded() == self.decoded(),
            k.encoding() == Some(Encoding::BasicString),
    {
        TomlKey { decoded: self.decoded, encoding: Some(Encoding::BasicString) }
    }
}

} // verus!

verus! {

/// Appends the escape sequence (or the character itself) for `c`, which is
/// not `"`.
pub fn push_escaped_char(out: &mut String, c: char, multiline: bool)
    requires
        c != '"',
    ensures
        final(out)@ == old(out)@ + escape_char(c, multiline),
{
    write_escaped_char(c, multiline, out);
}

} // verus!
