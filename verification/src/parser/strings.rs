//! Basic, literal and multi-line strings.

use vstd::prelude::*;

use crate::parser::trivia::{
    as_pos, is_wschar, lemma_ws_end_bounds, lemma_ws_newline_end_bounds, newline, newline_end,
    non_ascii, wschar, ws, ws_end, ws_newline, ws_newline_end,
};
use crate::text::{char_from_u32, is_scalar_value, push_char};

verus! {

// basic-unescaped = wschar / %x21 / %x23-5B / %x5D-7E / non-ascii
/// A character a basic string holds as itself.
pub open spec fn basic_unescaped(c: char) -> bool {
    wschar(c) || c == '\u{21}' || ('\u{23}' <= c && c <= '\u{5B}') || ('\u{5D}' <= c && c
        <= '\u{7E}') || non_ascii(c)
}

/// A character a basic string holds as itself.
pub fn is_basic_unescaped(c: char) -> (b: bool)
    ensures
        b == basic_unescaped(c),
{
    is_wschar(c) || c == '\u{21}' || ('\u{23}' <= c && c <= '\u{5B}') || ('\u{5D}' <= c && c
        <= '\u{7E}') || (c as u32) >= 0x80
}

/// A character a multi-line basic string holds as itself (the same set).
pub fn is_mlb_unescaped(c: char) -> (b: bool)
    ensures
        b == basic_unescaped(c),
{
    is_basic_unescaped(c)
}

// literal-char = %x09 / %x20-26 / %x28-7E / non-ascii
/// A character a literal string may hold.
pub open spec fn literal_char(c: char) -> bool {
    c == '\t' || ('\u{20}' <= c && c <= '\u{26}') || ('\u{28}' <= c && c <= '\u{7E}') || non_ascii(
        c,
    )
}

/// A character a literal string may hold.
pub fn is_literal_char(c: char) -> (b: bool)
    ensures
        b == literal_char(c),
{
    c == '\t' || ('\u{20}' <= c && c <= '\u{26}') || ('\u{28}' <= c && c <= '\u{7E}') || (c
        as u32) >= 0x80
}

/// A character a multi-line literal string may hold (the same set).
pub fn is_mll_char(c: char) -> (b: bool)
    ensures
        b == literal_char(c),
{
    is_literal_char(c)
}

/// A character that may follow `\` in an escape sequence.
pub open spec fn escape_seq_char(c: char) -> bool {
    c == '"' || c == '\\' || c == 'b' || c == 'f' || c == 'n' || c == 'r' || c == 't' || c == 'u'
        || c == 'U'
}

/// A character that may follow `\` in an escape sequence.
pub fn is_escape_seq_char(c: char) -> (b: bool)
    ensures
        b == escape_seq_char(c),
{
    c == '"' || c == '\\' || c == 'b' || c == 'f' || c == 'n' || c == 'r' || c == 't' || c == 'u'
        || c == 'U'
}

/// A hexadecimal digit.
pub open spec fn hex_char(c: char) -> bool {
    ('0' <= c && c <= '9') || ('a' <= c && c <= 'f') || ('A' <= c && c <= 'F')
}

/// The value of a hexadecimal digit.
pub open spec fn hex_char_value(c: char) -> int {
    if '0' <= c && c <= '9' {
        (c as u32) - 48
    } else if 'a' <= c && c <= 'f' {
        (c as u32) - 87
    } else {
        (c as u32) - 55
    }
}

/// The value of a sequence of hexadecimal digits.
pub open spec fn hex_value(t: Seq<char>) -> int
    decreases t.len(),
{
    if t.len() == 0 {
        0
    } else {
        hex_value(t.drop_last()) * 16 + hex_char_value(t.last())
    }
}

/// `16` to the power `n`.
pub open spec fn pow16(n: nat) -> int
    decreases n,
{
    if n == 0 {
        1
    } else {
        pow16((n - 1) as nat) * 16
    }
}

/// Every character is a hexadecimal digit.
pub open spec fn all_hex(t: Seq<char>) -> bool {
    forall|k: int| 0 <= k < t.len() ==> #[trigger] hex_char(t[k])
}

/// The value of a hexadecimal numeral with an optional leading `+`, as
/// `u32::from_str_radix` reads it.
pub open spec fn parse_hex(t: Seq<char>) -> Option<int> {
    let d = if t.len() > 0 && t[0] == '+' {
        t.drop_first()
    } else {
        t
    };
    if d.len() > 0 && all_hex(d) {
        Some(hex_value(d))
    } else {
        None
    }
}

/// The character written as `n` hexadecimal digits starting at `k`, and
/// where they end.
pub open spec fn hex_escape(s: Seq<char>, k: int, n: int) -> Option<(int, char)> {
    if 0 <= k && k + n <= s.len() {
        match parse_hex(s.subrange(k, k + n)) {
            Some(v) => if is_scalar_value(v) {
                Some((k + n, (v as u32) as char))
            } else {
                None
            },
            None => None,
        }
    } else {
        None
    }
}

// escape-seq-char = " \ b f n r t uXXXX UXXXXXXXX
/// The character an escape sequence starting after its `\` at `j` stands
/// for, and where the sequence ends.
pub open spec fn escape_at(s: Seq<char>, j: int) -> Option<(int, char)> {
    if 0 <= j < s.len() {
        let c = s[j];
        if c == 'b' {
            Some((j + 1, '\u{8}'))
        } else if c == 'f' {
            Some((j + 1, '\u{c}'))
        } else if c == 'n' {
            Some((j + 1, '\n'))
        } else if c == 'r' {
            Some((j + 1, '\r'))
        } else if c == 't' {
            Some((j + 1, '\t'))
        } else if c == '"' || c == '\\' {
            Some((j + 1, c))
        } else if c == 'u' {
            hex_escape(s, j + 1, 4)
        } else if c == 'U' {
            hex_escape(s, j + 1, 8)
        } else {
            None
        }
    } else {
        None
    }
}

proof fn lemma_hex_value_bound(t: Seq<char>)
    requires
        all_hex(t),
    ensures
        0 <= hex_value(t) < pow16(t.len()),
    decreases t.len(),
{
    if t.len() > 0 {
        assert(all_hex(t.drop_last())) by {
            assert forall|k: int| 0 <= k < t.drop_last().len() implies #[trigger] hex_char(
                t.drop_last()[k],
            ) by {
                assert(t.drop_last()[k] == t[k]);
            }
        }
        assert(hex_char(t[t.len() - 1]));
        lemma_hex_value_bound(t.drop_last());
    }
}

fn hex_digit_value(c: char) -> (v: Option<u64>)
    ensures
        v is Some <==> hex_char(c),
        v matches Some(x) ==> x as int == hex_char_value(c) && x < 16,
{
    let code = c as u32;
    if '0' <= c && c <= '9' {
        Some((code - 48) as u64)
    } else if 'a' <= c && c <= 'f' {
        Some((code - 87) as u64)
    } else if 'A' <= c && c <= 'F' {
        Some((code - 55) as u64)
    } else {
        None
    }
}

/// The character of the hexadecimal escape of `n` (4 or 8) digits at `pos`.
pub fn hexescape(s: &[char], pos: usize, n: usize) -> (r: Option<(usize, char)>)
    requires
        pos <= s@.len(),
        n == 4 || n == 8,
    ensures
        r matches Some((e, c)) ==> hex_escape(s@, pos as int, n as int) == Some((e as int, c)),
        r is None ==> hex_escape(s@, pos as int, n as int) is None,
{
    if s.len() - pos < n {
        return None;
    }
    let ghost t = s@.subrange(pos as int, pos + n);
    let mut k = pos;
    if s[k] == '+' {
        k = k + 1;
    }
    let ghost d = s@.subrange(k as int, pos + n);
    assert(d =~= (if t.len() > 0 && t[0] == '+' {
        t.drop_first()
    } else {
        t
    }));
    if k == pos + n {
        return None;
    }
    let mut v: u64 = 0;
    let mut i = k;
    let end = pos + n;
    assert(pow16(0) == 1);
    while i < end
        invariant
            pos <= k <= i <= end <= s@.len(),
            end == pos + n,
            n == 4 || n == 8,
            k <= pos + 1,
            t == s@.subrange(pos as int, pos + n),
            d == s@.subrange(k as int, pos + n),
            d =~= (if t.len() > 0 && t[0] == '+' {
                t.drop_first()
            } else {
                t
            }),
            all_hex(s@.subrange(k as int, i as int)),
            v as int == hex_value(s@.subrange(k as int, i as int)),
            v < pow16((i - k) as nat),
        decreases pos + n - i,
    {
        let h = hex_digit_value(s[i]);
        match h {
            None => {
                assert(d[i - k] == s@[i as int]);
                assert(!all_hex(d));
                return None;
            },
            Some(x) => {
                let ghost prev = s@.subrange(k as int, i as int);
                let ghost next = s@.subrange(k as int, i + 1);
                assert(next.drop_last() =~= prev);
                assert(next.last() == s@[i as int]);
                assert(all_hex(next)) by {
                    assert forall|j: int| 0 <= j < next.len() implies #[trigger] hex_char(
                        next[j],
                    ) by {
                        if j < prev.len() {
                            assert(next[j] == prev[j]);
                        }
                    }
                }
                assert(pow16((i + 1 - k) as nat) == pow16((i - k) as nat) * 16);
                assert(pow16(8) == 4294967296) by {
                    reveal_with_fuel(pow16, 9);
                }
                assert((i - k) < 8);
                proof {
                    lemma_pow16_mono((i - k) as nat, 7);
                }
                v = v * 16 + x;
                i = i + 1;
            },
        }
    }
    assert(s@.subrange(k as int, i as int) =~= d);
    proof {
        lemma_hex_value_bound(d);
        lemma_pow16_mono(d.len(), 8);
        assert(pow16(8) == 4294967296) by {
            reveal_with_fuel(pow16, 9);
        }
    }
    match char_from_u32(v as u32) {
        Some(c) => {
            proof {
                vstd::utf8::char_u32_cast(c, v as u32);
            }
            Some((pos + n, c))
        },
        None => None,
    }
}

proof fn lemma_pow16_mono(a: nat, b: nat)
    requires
        a <= b,
    ensures
        1 <= pow16(a) <= pow16(b),
    decreases b,
{
    if b > 0 {
        if a < b {
            lemma_pow16_mono(a, (b - 1) as nat);
        } else {
            lemma_pow16_mono((b - 1) as nat, (b - 1) as nat);
        }
    }
}

} // verus!

verus! {

/// The character of the escape sequence whose `\` is just before `pos`.
pub fn escape_seq(s: &[char], pos: usize) -> (r: Option<(usize, char)>)
    requires
        pos <= s@.len(),
    ensures
        r matches Some((e, c)) ==> escape_at(s@, pos as int) == Some((e as int, c)) && pos < e
            <= s@.len(),
        r is None ==> escape_at(s@, pos as int) is None,
{
    if pos >= s.len() {
        return None;
    }
    let c = s[pos];
    if !is_escape_seq_char(c) {
        return None;
    }
    if c == 'b' {
        Some((pos + 1, '\u{8}'))
    } else if c == 'f' {
        Some((pos + 1, '\u{c}'))
    } else if c == 'n' {
        Some((pos + 1, '\n'))
    } else if c == 'r' {
        Some((pos + 1, '\r'))
    } else if c == 't' {
        Some((pos + 1, '\t'))
    } else if c == 'u' {
        hexescape(s, pos + 1, 4)
    } else if c == 'U' {
        hexescape(s, pos + 1, 8)
    } else {
        Some((pos + 1, c))
    }
}

/// Prepends `p` to the value of a parse result.
pub open spec fn prepend(p: Seq<char>, r: Option<(int, Seq<char>)>) -> Option<(int, Seq<char>)> {
    match r {
        Some((e, v)) => Some((e, p + v)),
        None => None,
    }
}

proof fn lemma_prepend_twice(a: Seq<char>, b: Seq<char>, r: Option<(int, Seq<char>)>)
    ensures
        prepend(a, prepend(b, r)) == prepend(a + b, r),
{
    if let Some((e, v)) = r {
        assert(a + (b + v) =~= (a + b) + v);
    }
}

proof fn lemma_prepend_empty(r: Option<(int, Seq<char>)>)
    ensures
        prepend(Seq::empty(), r) == r,
{
    if let Some((e, v)) = r {
        assert(Seq::<char>::empty() + v =~= v);
    }
}

// basic-string = quotation-mark *basic-char quotation-mark
/// The body of a basic string from `i` up to its closing quote: the
/// position of that quote and the decoded characters.
pub open spec fn basic_body(s: Seq<char>, i: int) -> Option<(int, Seq<char>)>
    decreases s.len() - i,
{
    if 0 <= i < s.len() {
        let c = s[i];
        if c == '"' {
            Some((i, Seq::empty()))
        } else if basic_unescaped(c) {
            prepend(seq![c], basic_body(s, i + 1))
        } else if c == '\\' {
            match escape_at(s, i + 1) {
                Some((j, ch)) => if i < j <= s.len() {
                    prepend(seq![ch], basic_body(s, j))
                } else {
                    None
                },
                None => None,
            }
        } else {
            None
        }
    } else {
        None
    }
}

/// A basic string starting at `i`: where it ends and what it holds.
pub open spec fn basic_string_at(s: Seq<char>, i: int) -> Option<(int, Seq<char>)> {
    if 0 <= i < s.len() && s[i] == '"' {
        match basic_body(s, i + 1) {
            Some((e, v)) => Some((e + 1, v)),
            None => None,
        }
    } else {
        None
    }
}

pub proof fn lemma_escape_at_bounds(s: Seq<char>, j: int)
    ensures
        escape_at(s, j) matches Some((e, c)) ==> j < e <= s.len(),
{
}

/// Parses a basic string at `pos`.
pub fn basic_string(s: &[char], pos: usize) -> (r: Option<(usize, String)>)
    requires
        pos <= s@.len(),
    ensures
        r matches Some((e, v)) ==> basic_string_at(s@, pos as int) == Some((e as int, v@)) && pos
            < e <= s@.len(),
        r is None ==> basic_string_at(s@, pos as int) is None,
{
    if pos >= s.len() || s[pos] != '"' {
        return None;
    }
    let mut out = String::new();
    let mut i = pos + 1;
    proof {
        lemma_prepend_empty(basic_body(s@, i as int));
    }
    loop
        invariant
            pos < i <= s@.len(),
            s@[pos as int] == '"',
            basic_body(s@, pos + 1) == prepend(out@, basic_body(s@, i as int)),
        decreases s@.len() - i,
    {
        if i >= s.len() {
            return None;
        }
        let c = s[i];
        if c == '"' {
            assert(out@ + Seq::<char>::empty() =~= out@);
            return Some((i + 1, out));
        } else if is_basic_unescaped(c) {
            proof {
                lemma_prepend_twice(out@, seq![c], basic_body(s@, i + 1));
            }
            push_char(&mut out, c);
            i = i + 1;
        } else if c == '\\' {
            match escape_seq(s, i + 1) {
                Some((j, ch)) => {
                    proof {
                        lemma_prepend_twice(out@, seq![ch], basic_body(s@, j as int));
                    }
                    push_char(&mut out, ch);
                    i = j;
                },
                None => {
                    return None;
                },
            }
        } else {
            return None;
        }
    }
}

} // verus!

verus! {

// literal-string = apostrophe *literal-char apostrophe
/// The end of the run of literal characters starting at `i`.
pub open spec fn literal_chars_end(s: Seq<char>, i: int) -> int
    decreases s.len() - i,
{
    if 0 <= i < s.len() && literal_char(s[i]) {
        literal_chars_end(s, i + 1)
    } else {
        i
    }
}

/// A literal string starting at `i`: where it ends and what it holds.
pub open spec fn literal_string_at(s: Seq<char>, i: int) -> Option<(int, Seq<char>)> {
    if 0 <= i < s.len() && s[i] == '\'' {
        let e = literal_chars_end(s, i + 1);
        if e < s.len() && s[e] == '\'' {
            Some((e + 1, s.subrange(i + 1, e)))
        } else {
            None
        }
    } else {
        None
    }
}

proof fn lemma_literal_chars_end(s: Seq<char>, i: int)
    requires
        0 <= i <= s.len(),
    ensures
        i <= literal_chars_end(s, i) <= s.len(),
    decreases s.len() - i,
{
    if i < s.len() && literal_char(s[i]) {
        lemma_literal_chars_end(s, i + 1);
    }
}

/// Parses a literal string at `pos`.
pub fn literal_string(s: &[char], pos: usize) -> (r: Option<(usize, String)>)
    requires
        pos <= s@.len(),
    ensures
        r matches Some((e, v)) ==> literal_string_at(s@, pos as int) == Some((e as int, v@))
            && pos < e <= s@.len(),
        r is None ==> literal_string_at(s@, pos as int) is None,
{
    if pos >= s.len() || s[pos] != '\'' {
        return None;
    }
    let mut out = String::new();
    let mut i = pos + 1;
    while i < s.len() && is_literal_char(s[i])
        invariant
            pos < i <= s@.len(),
            literal_chars_end(s@, i as int) == literal_chars_end(s@, pos + 1),
            out@ == s@.subrange(pos + 1, i as int),
        decreases s@.len() - i,
    {
        push_char(&mut out, s[i]);
        assert(out@ =~= s@.subrange(pos + 1, i + 1));
        i = i + 1;
    }
    if i < s.len() && s[i] == '\'' {
        Some((i + 1, out))
    } else {
        None
    }
}

/// How many of the (up to three) characters starting at `i` are `q`, in a
/// row.
pub open spec fn quote_count(s: Seq<char>, i: int, q: char) -> int {
    if 0 <= i && i + 2 < s.len() && s[i] == q && s[i + 1] == q && s[i + 2] == q {
        3
    } else if 0 <= i && i + 1 < s.len() && s[i] == q && s[i + 1] == q {
        2
    } else if 0 <= i < s.len() && s[i] == q {
        1
    } else {
        0
    }
}

/// How many of the (up to three) characters starting at `pos` are `q`.
pub fn count_quotes(s: &[char], pos: usize, q: char) -> (n: usize)
    requires
        pos <= s@.len(),
    ensures
        n == quote_count(s@, pos as int, q),
        pos + n <= s@.len(),
{
    let left = s.len() - pos;
    if left >= 3 && s[pos] == q && s[pos + 1] == q && s[pos + 2] == q {
        3
    } else if left >= 2 && s[pos] == q && s[pos + 1] == q {
        2
    } else if left >= 1 && s[pos] == q {
        1
    } else {
        0
    }
}

/// `n` copies of `c`.
pub open spec fn repeat(c: char, n: int) -> Seq<char> {
    Seq::new(n as nat, |k: int| c)
}

/// A character or newline may start at `a` in a multi-line literal string.
pub open spec fn mll_content_at(s: Seq<char>, a: int) -> bool {
    (0 <= a < s.len() && literal_char(s[a])) || newline_end(s, a) is Some
}

// ml-literal-body = *mll-content *( mll-quotes 1*mll-content )
/// The body of a multi-line literal string from `i` up to its closing
/// delimiter: where the delimiter starts, and the characters held, each
/// newline read as a line feed.
pub open spec fn ml_literal_body(s: Seq<char>, i: int) -> Option<(int, Seq<char>)>
    decreases s.len() - i,
{
    if 0 <= i < s.len() && literal_char(s[i]) {
        prepend(seq![s[i]], ml_literal_body(s, i + 1))
    } else if let Some(e) = newline_end(s, i) {
        prepend(seq!['\n'], ml_literal_body(s, e))
    } else {
        let q = quote_count(s, i, '\'');
        if q == 3 {
            Some((i, Seq::empty()))
        } else if q > 0 && mll_content_at(s, i + q) {
            prepend(repeat('\'', q), ml_literal_body(s, i + q))
        } else {
            None
        }
    }
}

/// Where the optional newline right after an opening delimiter ends.
pub open spec fn skip_newline(s: Seq<char>, i: int) -> int {
    match newline_end(s, i) {
        Some(e) => e,
        None => i,
    }
}

// ml-literal-string = ml-literal-string-delim [ newline ] ml-literal-body
//                     ml-literal-string-delim
/// A multi-line literal string starting at `i`: where it ends and what it
/// holds.
pub open spec fn ml_literal_string_at(s: Seq<char>, i: int) -> Option<(int, Seq<char>)> {
    if quote_count(s, i, '\'') == 3 {
        match ml_literal_body(s, skip_newline(s, i + 3)) {
            Some((e, v)) => Some((e + 3, v)),
            None => None,
        }
    } else {
        None
    }
}

/// Parses a multi-line literal string at `pos`.
pub fn ml_literal_string(s: &[char], pos: usize) -> (r: Option<(usize, String)>)
    requires
        pos <= s@.len(),
    ensures
        r matches Some((e, v)) ==> ml_literal_string_at(s@, pos as int) == Some((e as int, v@))
            && pos < e <= s@.len(),
        r is None ==> ml_literal_string_at(s@, pos as int) is None,
{
    let q0 = count_quotes(s, pos, '\'');
    if q0 != 3 {
        return None;
    }

    let len = s.len();
    assert(pos + 3 <= len);
    let start = match newline(s, pos + 3) {
        Some(e) => e,
        None => pos + 3,
    };
    let mut out = String::new();
    let mut i = start;
    proof {
        lemma_prepend_empty(ml_literal_body(s@, i as int));
    }
    loop
        invariant
            pos + 3 <= start <= i <= s@.len(),
            start == skip_newline(s@, pos + 3),
            quote_count(s@, pos as int, '\'') == 3,
            ml_literal_body(s@, start as int) == prepend(out@, ml_literal_body(s@, i as int)),
        decreases s@.len() - i,
    {
        if i < s.len() && is_mll_char(s[i]) {
            let c = s[i];
            proof {
                lemma_prepend_twice(out@, seq![c], ml_literal_body(s@, i + 1));
            }
            push_char(&mut out, c);
            i = i + 1;
        } else if let Some(e) = newline(s, i) {
            proof {
                lemma_prepend_twice(out@, seq!['\n'], ml_literal_body(s@, e as int));
            }
            push_char(&mut out, '\n');
            i = e;
        } else {
            let q = count_quotes(s, i, '\'');
            if q == 3 {
                proof {
                    assert(out@ + Seq::<char>::empty() =~= out@);
                    assert(ml_literal_body(s@, i as int) == Some((i as int, Seq::<char>::empty())));
                }
                return Some((i + 3, out));
            }
            let content = q > 0 && ((i + q < s.len() && is_mll_char(s[i + q])) || newline(
                s,
                i + q,
            ).is_some());
            if !content {
                return None;
            }
            proof {
                lemma_prepend_twice(out@, repeat('\'', q as int), ml_literal_body(s@, i + q));
            }
            let ghost before = out@;
            let mut k: usize = 0;
            while k < q
                invariant
                    k <= q,
                    out@ == before + repeat('\'', k as int),
                decreases q - k,
            {
                push_char(&mut out, '\'');
                assert(out@ =~= before + repeat('\'', k + 1));
                k = k + 1;
            }
            i = i + q;
        }
    }
}

} // verus!

verus! {

// mlb-escaped-nl = escape ws newline *( wschar / newline )
/// Where a line-ending backslash starting at `i`, with the whitespace and
/// newlines after it, ends.
pub open spec fn mlb_escaped_nl_end(s: Seq<char>, i: int) -> Option<int> {
    if 0 <= i < s.len() && s[i] == '\\' {
        match newline_end(s, ws_end(s, i + 1)) {
            Some(n) => Some(ws_newline_end(s, n)),
            None => None,
        }
    } else {
        None
    }
}

proof fn lemma_mlb_escaped_nl_end_bounds(s: Seq<char>, i: int)
    ensures
        mlb_escaped_nl_end(s, i) matches Some(e) ==> i < e <= s.len(),
{
    if 0 <= i < s.len() && s[i] == '\\' {
        lemma_ws_end_bounds(s, i + 1);
        if let Some(n) = newline_end(s, ws_end(s, i + 1)) {
            lemma_ws_newline_end_bounds(s, n);
        }
    }
}

/// Some content (a character, escape, newline or escaped newline) may start
/// at `a` in a multi-line basic string.
pub open spec fn mlb_content_at(s: Seq<char>, a: int) -> bool {
    (0 <= a < s.len() && basic_unescaped(s[a])) || (0 <= a < s.len() && s[a] == '\\' && (escape_at(
        s,
        a + 1,
    ) is Some || mlb_escaped_nl_end(s, a) is Some)) || newline_end(s, a) is Some
}

// ml-basic-body = *mlb-content *( mlb-quotes 1*mlb-content )
/// The body of a multi-line basic string from `i` up to its closing
/// delimiter: where the delimiter starts, and the decoded characters.
pub open spec fn ml_basic_body(s: Seq<char>, i: int) -> Option<(int, Seq<char>)>
    decreases s.len() - i,
{
    if 0 <= i < s.len() && basic_unescaped(s[i]) {
        prepend(seq![s[i]], ml_basic_body(s, i + 1))
    } else if 0 <= i < s.len() && s[i] == '\\' {
        match escape_at(s, i + 1) {
            Some((j, ch)) => if i < j <= s.len() {
                prepend(seq![ch], ml_basic_body(s, j))
            } else {
                None
            },
            None => match mlb_escaped_nl_end(s, i) {
                Some(e) => if i < e <= s.len() {
                    ml_basic_body(s, e)
                } else {
                    None
                },
                None => None,
            },
        }
    } else if let Some(e) = newline_end(s, i) {
        prepend(seq!['\n'], ml_basic_body(s, e))
    } else {
        let q = quote_count(s, i, '"');
        if q == 3 {
            Some((i, Seq::empty()))
        } else if q > 0 && mlb_content_at(s, i + q) {
            prepend(repeat('"', q), ml_basic_body(s, i + q))
        } else {
            None
        }
    }
}

// ml-basic-string = ml-basic-string-delim [ newline ] ml-basic-body
//                   ml-basic-string-delim
/// A multi-line basic string starting at `i`: where it ends and what it
/// holds.
pub open spec fn ml_basic_string_at(s: Seq<char>, i: int) -> Option<(int, Seq<char>)> {
    if quote_count(s, i, '"') == 3 {
        match ml_basic_body(s, skip_newline(s, i + 3)) {
            Some((e, v)) => Some((e + 3, v)),
            None => None,
        }
    } else {
        None
    }
}

/// Where the line-ending backslash at `pos` and the whitespace after it end.
pub fn mlb_escaped_nl(s: &[char], pos: usize) -> (r: Option<usize>)
    requires
        pos <= s@.len(),
    ensures
        as_pos(r) == mlb_escaped_nl_end(s@, pos as int),
        r matches Some(e) ==> pos < e <= s@.len(),
{
    proof {
        lemma_mlb_escaped_nl_end_bounds(s@, pos as int);
    }
    if pos < s.len() && s[pos] == '\\' {
        let w = ws(s, pos + 1);
        match newline(s, w) {
            Some(n) => Some(ws_newline(s, n)),
            None => None,
        }
    } else {
        None
    }
}

fn mlb_content_starts(s: &[char], a: usize) -> (b: bool)
    requires
        a <= s@.len(),
    ensures
        b == mlb_content_at(s@, a as int),
{
    if a < s.len() && is_mlb_unescaped(s[a]) {
        true
    } else if a < s.len() && s[a] == '\\' {
        escape_seq(s, a + 1).is_some() || mlb_escaped_nl(s, a).is_some()
    } else {
        newline(s, a).is_some()
    }
}

/// Parses a multi-line basic string at `pos`.
pub fn ml_basic_string(s: &[char], pos: usize) -> (r: Option<(usize, String)>)
    requires
        pos <= s@.len(),
    ensures
        r matches Some((e, v)) ==> ml_basic_string_at(s@, pos as int) == Some((e as int, v@))
            && pos < e <= s@.len(),
        r is None ==> ml_basic_string_at(s@, pos as int) is None,
{
    let q0 = count_quotes(s, pos, '"');
    if q0 != 3 {
        return None;
    }
    let len = s.len();
    assert(pos + 3 <= len);
    let start = match newline(s, pos + 3) {
        Some(e) => e,
        None => pos + 3,
    };
    let mut out = String::new();
    let mut i = start;
    proof {
        lemma_prepend_empty(ml_basic_body(s@, i as int));
    }
    loop
        invariant
            pos + 3 <= start <= i <= s@.len(),
            start == skip_newline(s@, pos + 3),
            quote_count(s@, pos as int, '"') == 3,
            ml_basic_body(s@, start as int) == prepend(out@, ml_basic_body(s@, i as int)),
        decreases s@.len() - i,
    {
        if i < s.len() && is_mlb_unescaped(s[i]) {
            let c = s[i];
            proof {
                lemma_prepend_twice(out@, seq![c], ml_basic_body(s@, i + 1));
            }
            push_char(&mut out, c);
            i = i + 1;
        } else if i < s.len() && s[i] == '\\' {
            match escape_seq(s, i + 1) {
                Some((j, ch)) => {
                    proof {
                        lemma_prepend_twice(out@, seq![ch], ml_basic_body(s@, j as int));
                    }
                    push_char(&mut out, ch);
                    i = j;
                },
                None => match mlb_escaped_nl(s, i) {
                    Some(e) => {
                        i = e;
                    },
                    None => {
                        return None;
                    },
                },
            }
        } else if let Some(e) = newline(s, i) {
            proof {
                lemma_prepend_twice(out@, seq!['\n'], ml_basic_body(s@, e as int));
            }
            push_char(&mut out, '\n');
            i = e;
        } else {
            let q = count_quotes(s, i, '"');
            if q == 3 {
                proof {
                    assert(out@ + Seq::<char>::empty() =~= out@);
                }
                return Some((i + 3, out));
            }
            if !(q > 0 && mlb_content_starts(s, i + q)) {
                return None;
            }
            proof {
                lemma_prepend_twice(out@, repeat('"', q as int), ml_basic_body(s@, i + q));
            }
            let ghost before = out@;
            let mut k: usize = 0;
            while k < q
                invariant
                    k <= q,
                    out@ == before + repeat('"', k as int),
                decreases q - k,
            {
                push_char(&mut out, '"');
                assert(out@ =~= before + repeat('"', k + 1));
                k = k + 1;
            }
            i = i + q;
        }
    }
}

// string = ml-basic-string / basic-string / ml-literal-string / literal-string
/// Any kind of string starting at `i`: where it ends and what it holds.
pub open spec fn string_at(s: Seq<char>, i: int) -> Option<(int, Seq<char>)> {
    if quote_count(s, i, '"') == 3 {
        ml_basic_string_at(s, i)
    } else if 0 <= i < s.len() && s[i] == '"' {
        basic_string_at(s, i)
    } else if quote_count(s, i, '\'') == 3 {
        ml_literal_string_at(s, i)
    } else {
        literal_string_at(s, i)
    }
}

/// Parses any kind of string at `pos`.
pub fn string(s: &[char], pos: usize) -> (r: Option<(usize, String)>)
    requires
        pos <= s@.len(),
    ensures
        r matches Some((e, v)) ==> string_at(s@, pos as int) == Some((e as int, v@)) && pos < e
            <= s@.len(),
        r is None ==> string_at(s@, pos as int) is None,
{
    if count_quotes(s, pos, '"') == 3 {
        ml_basic_string(s, pos)
    } else if pos < s.len() && s[pos] == '"' {
        basic_string(s, pos)
    } else if count_quotes(s, pos, '\'') == 3 {
        ml_literal_string(s, pos)
    } else {
        literal_string(s, pos)
    }
}

} // verus!
