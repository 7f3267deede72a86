//! Parse errors: where they are, and the messages that say so.

use vstd::prelude::*;

use crate::integer::{decimal_digits, digits, hex_lower_digits};
use crate::key::Key;
use crate::text::push_char;

verus! {

/// A line and a column, both counted from 0.
#[derive(Debug, Clone, Copy, PartialEq, Eq)]
pub struct SourcePosition {
    pub line: i32,
    pub column: i32,
}

/// The text that UTF-8 bytes encode, if they are valid UTF-8.
pub open spec fn utf8_text(bytes: Seq<u8>) -> Option<Seq<char>> {
    if vstd::utf8::valid_utf8(bytes) {
        Some(vstd::utf8::decode_utf8(bytes))
    } else {
        None
    }
}

/// Decodes UTF-8.
///
/// Wraps `std::str::from_utf8`, which returns the text the bytes encode when
/// they are valid UTF-8 and an error otherwise, depending on the bytes
/// alone. Valid UTF-8 that is not empty encodes at least one character,
/// and no more characters than it has bytes.
#[verifier::external_body]
fn decode_utf8(bytes: &[u8]) -> (r: Option<&str>)
    ensures
        r is Some <==> utf8_text(bytes@) is Some,
        r matches Some(t) ==> utf8_text(bytes@) == Some(t@),
        bytes@.len() > 0 ==> (r matches Some(t) ==> t@.len() > 0),
        r matches Some(t) ==> t@.len() <= bytes@.len(),
{
    std::str::from_utf8(bytes).ok()
}

/// The number of newline bytes.
pub open spec fn newline_count(b: Seq<u8>) -> nat
    decreases b.len(),
{
    if b.len() == 0 {
        0
    } else {
        newline_count(b.drop_last()) + if b.last() == 10 {
            1nat
        } else {
            0nat
        }
    }
}

/// Where the line holding byte `k` starts: just after the last newline
/// before `k`, or at 0.
pub open spec fn line_start(b: Seq<u8>, k: int) -> int
    decreases k,
{
    if k <= 0 || k > b.len() {
        0
    } else if b[k - 1] == 10 {
        k
    } else {
        line_start(b, k - 1)
    }
}

/// The line and the column of byte `index`, counting columns in
/// characters; past the last byte, columns go on counting bytes.
pub open spec fn position_of(input: Seq<u8>, index: int) -> (int, int) {
    if input.len() == 0 {
        (0, index)
    } else {
        let safe = if index < input.len() - 1 {
            index
        } else {
            input.len() - 1
        };
        let ls = line_start(input, safe);
        let column = match utf8_text(input.subrange(ls, safe + 1)) {
            Some(t) => t.len() - 1,
            None => safe - ls,
        };
        (newline_count(input.subrange(0, ls)) as int, column + (index - safe))
    }
}

proof fn lemma_line_start_bounds(b: Seq<u8>, k: int)
    requires
        0 <= k <= b.len(),
    ensures
        0 <= line_start(b, k) <= k,
    decreases k,
{
    if k > 0 && b[k - 1] != 10 {
        lemma_line_start_bounds(b, k - 1);
    }
}

/// The line and the column of byte `index` of `input`.
pub fn translate_position(input: &[u8], index: usize) -> (p: SourcePosition)
    requires
        input@.len() + index <= usize::MAX,
    ensures
        p.line == position_of(input@, index as int).0 as i32,
        p.column == position_of(input@, index as int).1 as i32,
{
    if input.len() == 0 {
        return SourcePosition { line: 0, column: index as i32 };
    }
    let safe_index = if index < input.len() - 1 {
        index
    } else {
        input.len() - 1
    };
    let column_offset = index - safe_index;
    let mut k = safe_index;
    while k > 0 && input[k - 1] != 10
        invariant
            k <= safe_index < input@.len(),
            line_start(input@, k as int) == line_start(input@, safe_index as int),
        decreases k,
    {
        k = k - 1;
    }
    let start = k;
    proof {
        lemma_line_start_bounds(input@, safe_index as int);
    }
    let mut line: usize = 0;
    let mut m: usize = 0;
    while m < start
        invariant
            m <= start <= safe_index < input@.len(),
            line == newline_count(input@.subrange(0, m as int)),
            line <= m,
        decreases start - m,
    {
        assert(input@.subrange(0, m + 1).drop_last() =~= input@.subrange(0, m as int));
        if input[m] == 10 {
            line = line + 1;
        }
        m = m + 1;
    }
    let column = match decode_utf8(&input[start..safe_index + 1]) {
        Some(t) => t.unicode_len() - 1,
        None => safe_index - start,
    };
    proof {
        assert(input@.subrange(start as int, safe_index + 1).len() > 0);
    }
    SourcePosition { line: line as i32, column: (column + column_offset) as i32 }
}

/// A reason a document cannot be what it says.
#[derive(Debug, Clone)]
pub enum CustomError {
    /// A key defined twice, in the given table (by its path) when known.
    DuplicateKey { key: String, table: Option<Vec<Key>> },
    /// A dotted key going through something other than a table.
    DottedKeyExtendWrongType { key: Vec<Key>, actual: String },
    /// An escape naming no character.
    InvalidHexEscape(u32),
    /// A line that is none of what a document holds.
    UnparsedLine,
    /// A number too large or too small.
    OutOfRange,
}

/// The TOML texts of keys, joined by dots.
pub open spec fn keys_path_text(ks: Seq<Key>) -> Seq<char>
    decreases ks.len(),
{
    if ks.len() == 0 {
        Seq::empty()
    } else if ks.len() == 1 {
        ks[0].repr_view()@
    } else {
        keys_path_text(ks.drop_last()) + seq!['.'] + ks.last().repr_view()@
    }
}

/// The message of an error, ending with a newline.
pub open spec fn custom_error_text(e: CustomError) -> Seq<char> {
    match e {
        CustomError::DuplicateKey { key, table } => match table {
            Some(t) => if t@.len() == 0 {
                "Duplicate key `"@ + key@ + "` in document root\n"@
            } else {
                "Duplicate key `"@ + key@ + "` in table `"@ + keys_path_text(t@) + "`\n"@
            },
            None => "Duplicate key `"@ + key@ + "`\n"@,
        },
        CustomError::DottedKeyExtendWrongType { key, actual } => "Dotted key `"@ + keys_path_text(
            key@,
        ) + "` attempted to extend non-table type ("@ + actual@ + ")\n"@,
        CustomError::InvalidHexEscape(h) => "Invalid hex escape code: "@ + digits(h as nat, 16, false)
            + " \n"@,
        CustomError::UnparsedLine => "Could not parse the line\n"@,
        CustomError::OutOfRange => "Value is out of range\n"@,
    }
}

/// The TOML texts of keys, joined by dots.
pub fn keys_path_string(ks: &Vec<Key>) -> (s: String)
    ensures
        s@ == keys_path_text(ks@),
{
    let mut s = String::new();
    let mut i: usize = 0;
    while i < ks.len()
        invariant
            i <= ks@.len(),
            s@ == keys_path_text(ks@.subrange(0, i as int)),
        decreases ks@.len() - i,
    {
        let ghost before = ks@.subrange(0, i as int);
        let ghost after = ks@.subrange(0, i + 1);
        assert(after.drop_last() =~= before);
        if i > 0 {
            push_char(&mut s, '.');
        }
        s.append(ks[i].repr().as_raw());
        i = i + 1;
    }
    assert(ks@.subrange(0, ks@.len() as int) =~= ks@);
    s
}

impl CustomError {
    /// The message of the error, ending with a newline.
    pub fn to_message(&self) -> (s: String)
        ensures
            s@ == custom_error_text(*self),
    {
        match self {
            CustomError::DuplicateKey { key, table } => {
                let mut s = String::from_str("Duplicate key `");
                s.append(key.as_str());
                match table {
                    Some(t) => {
                        if t.len() == 0 {
                            s.append("` in document root\n");
                        } else {
                            s.append("` in table `");
                            let p = keys_path_string(t);
                            s.append(p.as_str());
                            s.append("`\n");
                        }
                    },
                    None => {
                        s.append("`\n");
                    },
                }
                s
            },
            CustomError::DottedKeyExtendWrongType { key, actual } => {
                let mut s = String::from_str("Dotted key `");
                let p = keys_path_string(key);
                s.append(p.as_str());
                s.append("` attempted to extend non-table type (");
                s.append(actual.as_str());
                s.append(")\n");
                s
            },
            CustomError::InvalidHexEscape(h) => {
                let mut s = String::from_str("Invalid hex escape code: ");
                let d = hex_lower_digits(*h as u128);
                s.append(d.as_str());
                s.append(" \n");
                s
            },
            CustomError::UnparsedLine => String::from_str("Could not parse the line\n"),
            CustomError::OutOfRange => String::from_str("Value is out of range\n"),
        }
    }
}

/// The key at part `i` of `path` defined twice, in the table named by the
/// parts before it.
pub fn duplicate_key(path: &Vec<Key>, i: usize) -> (e: CustomError)
    requires
        i < path@.len(),
    ensures
        e matches CustomError::DuplicateKey { key, table } && key@ == path@[i as int].repr_view()@
            && (table matches Some(t) && t@ == path@.subrange(0, i as int)),
{
    let mut table: Vec<Key> = Vec::new();
    let mut j: usize = 0;
    while j < i
        invariant
            j <= i < path@.len(),
            table@ == path@.subrange(0, j as int),
        decreases i - j,
    {
        table.push(path[j].duplicate());
        assert(table@ =~= path@.subrange(0, j + 1));
        j = j + 1;
    }
    CustomError::DuplicateKey { key: path[i].to_repr_string(), table: Some(table) }
}

/// Where the line holding character `k` starts.
pub open spec fn char_line_start(cs: Seq<char>, k: int) -> int
    decreases k,
{
    if k <= 0 || k > cs.len() {
        0
    } else if cs[k - 1] == '\n' {
        k
    } else {
        char_line_start(cs, k - 1)
    }
}

/// The number of newlines among the characters.
pub open spec fn char_newline_count(cs: Seq<char>) -> nat
    decreases cs.len(),
{
    if cs.len() == 0 {
        0
    } else {
        char_newline_count(cs.drop_last()) + if cs.last() == '\n' {
            1nat
        } else {
            0nat
        }
    }
}

/// Where the line starting at `k` ends: at the next newline, or the end.
pub open spec fn char_line_end(cs: Seq<char>, k: int) -> int
    decreases cs.len() - k,
{
    if 0 <= k < cs.len() && cs[k] != '\n' {
        char_line_end(cs, k + 1)
    } else {
        k
    }
}

/// The line start used for character `index`: that of the last character
/// when `index` is past it.
pub open spec fn error_line_start(cs: Seq<char>, index: int) -> int {
    if cs.len() == 0 {
        0
    } else if index < cs.len() - 1 {
        char_line_start(cs, index)
    } else {
        char_line_start(cs, cs.len() - 1)
    }
}

/// `n` copies of `c`.
pub open spec fn repeated(c: char, n: nat) -> Seq<char> {
    Seq::new(n, |i: int| c)
}

/// The message locating an error at character `index` of `cs`: the line
/// and column (from 1), the line's text, a caret under the column, then
/// `errors`.
pub open spec fn fancy_text(cs: Seq<char>, index: int, errors: Seq<char>) -> Seq<char> {
    let ls = error_line_start(cs, index);
    let line = char_newline_count(cs.subrange(0, ls));
    let column = index - ls;
    let line_num = digits(line + 1, 10, false);
    let offset = line_num.len();
    "TOML parse error at line "@ + line_num + ", column "@ + digits((column + 1) as nat, 10, false)
        + "\n"@ + repeated(' ', offset + 1) + "|\n"@ + line_num + " | "@ + cs.subrange(
        ls,
        char_line_end(cs, ls),
    ) + "\n"@ + repeated(' ', offset + 1) + "|"@ + repeated(' ', (column + 1) as nat) + "^\n"@
        + errors
}

proof fn lemma_char_line_start_bounds(cs: Seq<char>, k: int)
    requires
        0 <= k <= cs.len(),
    ensures
        0 <= char_line_start(cs, k) <= k,
    decreases k,
{
    if k > 0 && cs[k - 1] != '\n' {
        lemma_char_line_start_bounds(cs, k - 1);
    }
}

proof fn lemma_char_line_end_bounds(cs: Seq<char>, k: int)
    requires
        0 <= k <= cs.len(),
    ensures
        k <= char_line_end(cs, k) <= cs.len(),
    decreases cs.len() - k,
{
    if k < cs.len() && cs[k] != '\n' {
        lemma_char_line_end_bounds(cs, k + 1);
    }
}

/// Appends `n` copies of `c`.
fn push_repeated(out: &mut String, c: char, n: u128)
    ensures
        final(out)@ == old(out)@ + repeated(c, n as nat),
{
    let ghost start = out@;
    let mut i: u128 = 0;
    while i < n
        invariant
            i <= n,
            out@ == start + repeated(c, i as nat),
        decreases n - i,
    {
        push_char(out, c);
        assert(repeated(c, (i + 1) as nat) =~= repeated(c, i as nat).push(c));
        i = i + 1;
    }
}

/// A parse error: its message, and its line and column (from 0) when known.
#[derive(Debug, Clone, PartialEq, Eq)]
pub struct TomlError {
    message: String,
    line_col: Option<(usize, usize)>,
}

impl TomlError {
    /// The message.
    pub closed spec fn message_view(&self) -> Seq<char> {
        self.message@
    }

    /// The line and column, from 0, when known.
    pub closed spec fn line_col_view(&self) -> Option<(usize, usize)> {
        self.line_col
    }

    /// An error at character `index` of `input`, with `errors` saying what
    /// is wrong there.
    pub fn new(input: &[char], index: usize, errors: &str) -> (e: TomlError)
        requires
            index <= input@.len(),
        ensures
            e.message_view() == fancy_text(input@, index as int, errors@),
            e.line_col_view() == Some(
                (
                    char_newline_count(
                        input@.subrange(0, error_line_start(input@, index as int)),
                    ) as usize,
                    (index - error_line_start(input@, index as int)) as usize,
                ),
            ),
    {
        let n = input.len();
        let safe = if n == 0 {
            0
        } else if index < n - 1 {
            index
        } else {
            n - 1
        };
        let mut k = safe;
        while k > 0 && input[k - 1] != '\n'
            invariant
                k <= safe,
                n == input@.len(),
                n == 0 ==> safe == 0 && k == 0,
                n > 0 ==> safe < n,
                n > 0 ==> char_line_start(input@, k as int) == char_line_start(input@, safe as int),
            decreases k,
        {
            k = k - 1;
        }
        let ls = k;
        proof {
            if n > 0 {
                lemma_char_line_start_bounds(input@, safe as int);
            }
            assert(ls as int == error_line_start(input@, index as int));
        }
        let mut line: usize = 0;
        let mut m: usize = 0;
        while m < ls
            invariant
                m <= ls <= input@.len(),
                line == char_newline_count(input@.subrange(0, m as int)),
                line <= m,
            decreases ls - m,
        {
            assert(input@.subrange(0, m + 1).drop_last() =~= input@.subrange(0, m as int));
            if input[m] == '\n' {
                line = line + 1;
            }
            m = m + 1;
        }
        let mut le = ls;
        while le < n && input[le] != '\n'
            invariant
                ls <= le <= n,
                n == input@.len(),
                char_line_end(input@, le as int) == char_line_end(input@, ls as int),
            decreases n - le,
        {
            le = le + 1;
        }
        let column = index - ls;
        let line_num = decimal_digits(line as u128 + 1);
        let offset = line_num.as_str().unicode_len();
        let mut message = String::from_str("TOML parse error at line ");
        message.append(line_num.as_str());
        message.append(", column ");
        let col_num = decimal_digits(column as u128 + 1);
        message.append(col_num.as_str());
        message.append("\n");
        push_repeated(&mut message, ' ', offset as u128 + 1);
        message.append("|\n");
        message.append(line_num.as_str());
        message.append(" | ");
        let content = crate::text::slice_string(input, ls, le);
        message.append(content.as_str());
        message.append("\n");
        push_repeated(&mut message, ' ', offset as u128 + 1);
        message.append("|");
        push_repeated(&mut message, ' ', column as u128 + 1);
        message.append("^\n");
        message.append(errors);
        proof {
            reveal_strlit("TOML parse error at line ");
            reveal_strlit(", column ");
            reveal_strlit("\n");
            reveal_strlit("|\n");
            reveal_strlit(" | ");
            reveal_strlit("|");
            reveal_strlit("^\n");
            assert(message@ =~= fancy_text(input@, index as int, errors@));
        }
        TomlError { message, line_col: Some((line, column)) }
    }

    /// An error known by its message alone.
    pub fn custom(message: String) -> (e: TomlError)
        ensures
            e.message_view() == message@,
            e.line_col_view() is None,
    {
        TomlError { message, line_col: None }
    }

    /// The line and column of the error, from 0, when known.
    pub fn line_col(&self) -> (r: Option<(usize, usize)>)
        ensures
            r == self.line_col_view(),
    {
        self.line_col
    }

    /// The message.
    pub fn message(&self) -> (s: &str)
        ensures
            s@ == self.message_view(),
    {
        self.message.as_str()
    }
}

} // verus!
