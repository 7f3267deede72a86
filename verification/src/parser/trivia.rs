//! Whitespace, newlines and comments.

use vstd::prelude::*;

verus! {

// wschar = ( %x20 / %x09 )
/// Space or horizontal tab.
pub open spec fn wschar(c: char) -> bool {
    c == ' ' || c == '\t'
}

/// Space or horizontal tab.
pub fn is_wschar(c: char) -> (b: bool)
    ensures
        b == wschar(c),
{
    c == ' ' || c == '\t'
}

// non-eol = %x09 / %x20-10FFFF
/// A character a comment may hold.
pub open spec fn non_eol(c: char) -> bool {
    c == '\t' || (c as u32) >= 0x20
}

/// A character a comment may hold.
pub fn is_non_eol(c: char) -> (b: bool)
    ensures
        b == non_eol(c),
{
    c == '\t' || (c as u32) >= 0x20
}

/// An optional position, as an integer.
pub open spec fn as_pos(o: Option<usize>) -> Option<int> {
    match o {
        Some(e) => Some(e as int),
        None => None,
    }
}

/// A character outside ASCII.
pub open spec fn non_ascii(c: char) -> bool {
    (c as u32) >= 0x80
}

/// The end of the run of spaces and tabs that starts at `i`.
pub open spec fn ws_end(s: Seq<char>, i: int) -> int
    decreases s.len() - i,
{
    if 0 <= i < s.len() && wschar(s[i]) {
        ws_end(s, i + 1)
    } else {
        i
    }
}

/// The end of the comment body (non-eol characters) that starts at `i`.
pub open spec fn non_eol_end(s: Seq<char>, i: int) -> int
    decreases s.len() - i,
{
    if 0 <= i < s.len() && non_eol(s[i]) {
        non_eol_end(s, i + 1)
    } else {
        i
    }
}

// comment = comment-start-symbol *non-eol
/// The end of the comment that starts at `i`, if one does.
pub open spec fn comment_end(s: Seq<char>, i: int) -> Option<int> {
    if 0 <= i < s.len() && s[i] == '#' {
        Some(non_eol_end(s, i + 1))
    } else {
        None
    }
}

// newline = %x0A / %x0D.0A
/// The end of the newline (LF or CRLF) that starts at `i`, if one does.
pub open spec fn newline_end(s: Seq<char>, i: int) -> Option<int> {
    if 0 <= i < s.len() && s[i] == '\n' {
        Some(i + 1)
    } else if 0 <= i && i + 1 < s.len() && s[i] == '\r' && s[i + 1] == '\n' {
        Some(i + 2)
    } else {
        None
    }
}

/// The end of the run of whitespace and newlines that starts at `i`.
pub open spec fn ws_newline_end(s: Seq<char>, i: int) -> int
    decreases s.len() - i,
{
    if 0 <= i < s.len() && wschar(s[i]) {
        ws_newline_end(s, i + 1)
    } else if let Some(e) = newline_end(s, i) {
        ws_newline_end(s, e)
    } else {
        i
    }
}

/// The end of the run of whitespace, newlines and comments that starts at `i`.
pub open spec fn ws_comment_newline_end(s: Seq<char>, i: int) -> int
    decreases s.len() - i,
{
    if 0 <= i < s.len() && wschar(s[i]) {
        ws_comment_newline_end(s, i + 1)
    } else if let Some(e) = newline_end(s, i) {
        ws_comment_newline_end(s, e)
    } else if let Some(e) = comment_end(s, i) {
        proof {
            lemma_non_eol_end_bounds(s, i + 1);
        }
        if e > i {
            ws_comment_newline_end(s, e)
        } else {
            i
        }
    } else {
        i
    }
}

pub proof fn lemma_non_eol_end_bounds(s: Seq<char>, i: int)
    requires
        0 <= i <= s.len(),
    ensures
        i <= non_eol_end(s, i) <= s.len(),
    decreases s.len() - i,
{
    if i < s.len() && non_eol(s[i]) {
        lemma_non_eol_end_bounds(s, i + 1);
    }
}

/// The end of the spaces and tabs starting at `pos`.
pub fn ws(s: &[char], pos: usize) -> (end: usize)
    requires
        pos <= s@.len(),
    ensures
        end == ws_end(s@, pos as int),
        pos <= end <= s@.len(),
{
    let mut i = pos;
    while i < s.len() && is_wschar(s[i])
        invariant
            pos <= i <= s@.len(),
            ws_end(s@, i as int) == ws_end(s@, pos as int),
        decreases s@.len() - i,
    {
        i = i + 1;
    }
    i
}

fn non_eol_run(s: &[char], pos: usize) -> (end: usize)
    requires
        pos <= s@.len(),
    ensures
        end == non_eol_end(s@, pos as int),
        pos <= end <= s@.len(),
{
    let mut i = pos;
    while i < s.len() && is_non_eol(s[i])
        invariant
            pos <= i <= s@.len(),
            non_eol_end(s@, i as int) == non_eol_end(s@, pos as int),
        decreases s@.len() - i,
    {
        i = i + 1;
    }
    i
}

/// The end of the comment starting at `pos`, if one does.
pub fn comment(s: &[char], pos: usize) -> (end: Option<usize>)
    requires
        pos <= s@.len(),
    ensures
        as_pos(end) == comment_end(s@, pos as int),
        end matches Some(e) ==> pos < e <= s@.len(),
{
    if pos < s.len() && s[pos] == '#' {
        Some(non_eol_run(s, pos + 1))
    } else {
        None
    }
}

/// The end of the newline starting at `pos`, if one does.
pub fn newline(s: &[char], pos: usize) -> (end: Option<usize>)
    requires
        pos <= s@.len(),
    ensures
        as_pos(end) == newline_end(s@, pos as int),
        end matches Some(e) ==> pos < e <= s@.len(),
{
    if pos < s.len() && s[pos] == '\n' {
        Some(pos + 1)
    } else if pos < s.len() && s.len() - pos >= 2 && s[pos] == '\r' && s[pos + 1] == '\n' {
        Some(pos + 2)
    } else {
        None
    }
}

/// The end of the whitespace and newlines starting at `pos`.
pub fn ws_newline(s: &[char], pos: usize) -> (end: usize)
    requires
        pos <= s@.len(),
    ensures
        end == ws_newline_end(s@, pos as int),
        pos <= end <= s@.len(),
{
    let mut i = pos;
    loop
        invariant
            pos <= i <= s@.len(),
            ws_newline_end(s@, i as int) == ws_newline_end(s@, pos as int),
        decreases s@.len() - i,
    {
        if i < s.len() && is_wschar(s[i]) {
            i = i + 1;
        } else if let Some(e) = newline(s, i) {
            i = e;
        } else {
            return i;
        }
    }
}

/// The end of the whitespace, newlines and comments starting at `pos`.
pub fn ws_comment_newline(s: &[char], pos: usize) -> (end: usize)
    requires
        pos <= s@.len(),
    ensures
        end == ws_comment_newline_end(s@, pos as int),
        pos <= end <= s@.len(),
{
    let mut i = pos;
    loop
        invariant
            pos <= i <= s@.len(),
            ws_comment_newline_end(s@, i as int) == ws_comment_newline_end(s@, pos as int),
        decreases s@.len() - i,
    {
        if i < s.len() && is_wschar(s[i]) {
            i = i + 1;
        } else if let Some(e) = newline(s, i) {
            i = e;
        } else if let Some(e) = comment(s, i) {
            i = e;
        } else {
            return i;
        }
    }
}

// line-ending = newline / eof
/// The end of the line ending (a newline, or the end of input) at `i`.
pub open spec fn line_ending_end(s: Seq<char>, i: int) -> Option<int> {
    if i == s.len() {
        Some(i)
    } else {
        newline_end(s, i)
    }
}

// line-trailing = ws [comment] line-ending
/// Where the whitespace and optional comment that close a line end (before
/// the line ending), and where the line ending ends.
pub open spec fn line_trailing_end(s: Seq<char>, i: int) -> Option<(int, int)> {
    let w = ws_end(s, i);
    let c = match comment_end(s, w) {
        Some(e) => e,
        None => w,
    };
    match line_ending_end(s, c) {
        Some(e) => Some((c, e)),
        None => None,
    }
}

/// Where the trailing whitespace and comment of a line end, and where its
/// line ending ends.
pub fn line_trailing(s: &[char], pos: usize) -> (r: Option<(usize, usize)>)
    requires
        pos <= s@.len(),
    ensures
        r matches Some((c, e)) ==> line_trailing_end(s@, pos as int) == Some((c as int, e as int))
            && pos <= c <= e <= s@.len(),
        r is None <==> line_trailing_end(s@, pos as int) is None,
{
    let w = ws(s, pos);
    let c = match comment(s, w) {
        Some(e) => e,
        None => w,
    };
    if c == s.len() {
        Some((c, c))
    } else {
        match newline(s, c) {
            Some(e) => Some((c, e)),
            None => None,
        }
    }
}

} // verus!

verus! {

/// Skipping whitespace never moves backwards or past the end.
pub proof fn lemma_ws_end_bounds(s: Seq<char>, i: int)
    requires
        0 <= i <= s.len(),
    ensures
        i <= ws_end(s, i) <= s.len(),
    decreases s.len() - i,
{
    if i < s.len() && wschar(s[i]) {
        lemma_ws_end_bounds(s, i + 1);
    }
}

/// Skipping whitespace twice goes no further than skipping it once.
pub proof fn lemma_ws_end_idempotent(s: Seq<char>, i: int)
    requires
        0 <= i <= s.len(),
    ensures
        ws_end(s, ws_end(s, i)) == ws_end(s, i),
    decreases s.len() - i,
{
    if i < s.len() && wschar(s[i]) {
        lemma_ws_end_idempotent(s, i + 1);
    }
}

/// Skipping whitespace and newlines never moves backwards or past the end.
pub proof fn lemma_ws_newline_end_bounds(s: Seq<char>, i: int)
    requires
        0 <= i <= s.len(),
    ensures
        i <= ws_newline_end(s, i) <= s.len(),
    decreases s.len() - i,
{
    if i < s.len() && wschar(s[i]) {
        lemma_ws_newline_end_bounds(s, i + 1);
    } else if let Some(e) = newline_end(s, i) {
        lemma_ws_newline_end_bounds(s, e);
    }
}

/// Skipping whitespace, newlines and comments never moves backwards or past
/// the end.
pub proof fn lemma_ws_comment_newline_end_bounds(s: Seq<char>, i: int)
    requires
        0 <= i <= s.len(),
    ensures
        i <= ws_comment_newline_end(s, i) <= s.len(),
    decreases s.len() - i,
{
    if i < s.len() && wschar(s[i]) {
        lemma_ws_comment_newline_end_bounds(s, i + 1);
    } else if let Some(e) = newline_end(s, i) {
        lemma_ws_comment_newline_end_bounds(s, e);
    } else if let Some(e) = comment_end(s, i) {
        lemma_non_eol_end_bounds(s, i + 1);
        if e > i {
            lemma_ws_comment_newline_end_bounds(s, e);
        }
    }
}

} // verus!
