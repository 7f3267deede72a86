//! Booleans, integers and floats.

use vstd::prelude::*;

use crate::parser::strings::{hex_char, hex_char_value};
use crate::parser::trivia::as_pos;
use crate::text::push_char;

verus! {

// boolean = true / false
/// A boolean starting at `i`: where it ends and its value.
pub open spec fn boolean_at(s: Seq<char>, i: int) -> Option<(int, bool)> {
    if 0 <= i && i + 4 <= s.len() && s.subrange(i, i + 4) == seq!['t', 'r', 'u', 'e'] {
        Some((i + 4, true))
    } else if 0 <= i && i + 5 <= s.len() && s.subrange(i, i + 5) == seq!['f', 'a', 'l', 's', 'e'] {
        Some((i + 5, false))
    } else {
        None
    }
}

/// Parses a boolean at `pos`.
pub fn boolean(s: &[char], pos: usize) -> (r: Option<(usize, bool)>)
    requires
        pos <= s@.len(),
    ensures
        r matches Some((e, b)) ==> boolean_at(s@, pos as int) == Some((e as int, b)) && pos < e
            <= s@.len(),
        r is None ==> boolean_at(s@, pos as int) is None,
{
    let left = s.len() - pos;
    if left >= 4 && s[pos] == 't' && s[pos + 1] == 'r' && s[pos + 2] == 'u' && s[pos + 3] == 'e' {
        assert(s@.subrange(pos as int, pos + 4) =~= seq!['t', 'r', 'u', 'e']);
        Some((pos + 4, true))
    } else if left >= 5 && s[pos] == 'f' && s[pos + 1] == 'a' && s[pos + 2] == 'l' && s[pos + 3]
        == 's' && s[pos + 4] == 'e' {
        assert(s@.subrange(pos as int, pos + 5) =~= seq!['f', 'a', 'l', 's', 'e']);
        proof {
            if left >= 4 && s@.subrange(pos as int, pos + 4) == seq!['t', 'r', 'u', 'e'] {
                assert(s@.subrange(pos as int, pos + 4)[0] == 't');
            }
        }
        Some((pos + 5, false))
    } else {
        proof {
            if left >= 4 && s@.subrange(pos as int, pos + 4) == seq!['t', 'r', 'u', 'e'] {
                assert(s@.subrange(pos as int, pos + 4)[1] == 'r');
                assert(s@.subrange(pos as int, pos + 4)[2] == 'u');
                assert(s@.subrange(pos as int, pos + 4)[3] == 'e');
                assert(s@.subrange(pos as int, pos + 4)[0] == 't');
            }
            if left >= 5 && s@.subrange(pos as int, pos + 5) == seq!['f', 'a', 'l', 's', 'e'] {
                assert(s@.subrange(pos as int, pos + 5)[0] == 'f');
                assert(s@.subrange(pos as int, pos + 5)[1] == 'a');
                assert(s@.subrange(pos as int, pos + 5)[2] == 'l');
                assert(s@.subrange(pos as int, pos + 5)[3] == 's');
                assert(s@.subrange(pos as int, pos + 5)[4] == 'e');
            }
        }
        None
    }
}

/// A digit of the given base (2, 8, 10 or 16).
pub open spec fn digit_in(c: char, base: nat) -> bool {
    if base == 16 {
        hex_char(c)
    } else if base == 8 {
        '0' <= c && c <= '7'
    } else if base == 2 {
        c == '0' || c == '1'
    } else {
        '0' <= c && c <= '9'
    }
}

fn is_digit_in(c: char, base: u64) -> (b: bool)
    requires
        base == 2 || base == 8 || base == 10 || base == 16,
    ensures
        b == digit_in(c, base as nat),
{
    if base == 16 {
        ('0' <= c && c <= '9') || ('a' <= c && c <= 'f') || ('A' <= c && c <= 'F')
    } else if base == 8 {
        '0' <= c && c <= '7'
    } else if base == 2 {
        c == '0' || c == '1'
    } else {
        '0' <= c && c <= '9'
    }
}

/// Where a run of digits, each `_` between two digits, that starts at `k`
/// ends; `None` when an `_` is not followed by a digit.
pub open spec fn digit_groups_end(s: Seq<char>, k: int, base: nat) -> Option<int>
    decreases s.len() - k,
{
    if 0 <= k < s.len() && digit_in(s[k], base) {
        digit_groups_end(s, k + 1, base)
    } else if 0 <= k < s.len() && s[k] == '_' {
        if k + 1 < s.len() && digit_in(s[k + 1], base) {
            digit_groups_end(s, k + 2, base)
        } else {
            None
        }
    } else {
        Some(k)
    }
}

/// The value of a numeral in the given base, ignoring underscores.
pub open spec fn radix_value(t: Seq<char>, base: nat) -> nat
    decreases t.len(),
{
    if t.len() == 0 {
        0
    } else if t.last() == '_' {
        radix_value(t.drop_last(), base)
    } else {
        radix_value(t.drop_last(), base) * base + hex_char_value(t.last()) as nat
    }
}

/// The numeral without its underscores.
pub open spec fn remove_underscores(t: Seq<char>) -> Seq<char>
    decreases t.len(),
{
    if t.len() == 0 {
        Seq::empty()
    } else if t.last() == '_' {
        remove_underscores(t.drop_last())
    } else {
        remove_underscores(t.drop_last()).push(t.last())
    }
}

fn digit_groups(s: &[char], pos: usize, base: u64) -> (r: Option<usize>)
    requires
        pos <= s@.len(),
        base == 2 || base == 8 || base == 10 || base == 16,
    ensures
        r matches Some(e) ==> digit_groups_end(s@, pos as int, base as nat) == Some(e as int) && pos
            <= e <= s@.len(),
        r is None ==> digit_groups_end(s@, pos as int, base as nat) is None,
{
    let mut k = pos;
    loop
        invariant
            pos <= k <= s@.len(),
            base == 2 || base == 8 || base == 10 || base == 16,
            digit_groups_end(s@, k as int, base as nat) == digit_groups_end(
                s@,
                pos as int,
                base as nat,
            ),
        decreases s@.len() - k,
    {
        if k < s.len() && is_digit_in(s[k], base) {
            k = k + 1;
        } else if k < s.len() && s[k] == '_' {
            if k + 1 < s.len() && is_digit_in(s[k + 1], base) {
                k = k + 2;
            } else {
                return None;
            }
        } else {
            return Some(k);
        }
    }
}

/// A numeral in base `base` holds only digits and underscores.
pub open spec fn is_numeral(t: Seq<char>, base: nat) -> bool {
    forall|k: int| 0 <= k < t.len() ==> #[trigger] digit_in(t[k], base) || t[k] == '_'
}

proof fn lemma_digit_groups_numeral(s: Seq<char>, k: int, base: nat)
    requires
        0 <= k <= s.len(),
        digit_groups_end(s, k, base) is Some,
    ensures
        k <= digit_groups_end(s, k, base)->0 <= s.len(),
        is_numeral(s.subrange(k, digit_groups_end(s, k, base)->0), base),
    decreases s.len() - k,
{
    if k < s.len() && digit_in(s[k], base) {
        lemma_digit_groups_numeral(s, k + 1, base);
        let e = digit_groups_end(s, k, base)->0;
        assert forall|j: int| 0 <= j < s.subrange(k, e).len() implies #[trigger] digit_in(
            s.subrange(k, e)[j],
            base,
        ) || s.subrange(k, e)[j] == '_' by {
            if j > 0 {
                assert(s.subrange(k, e)[j] == s.subrange(k + 1, e)[j - 1]);
            }
        }
    } else if k < s.len() && s[k] == '_' {
        lemma_digit_groups_numeral(s, k + 2, base);
        let e = digit_groups_end(s, k, base)->0;
        assert forall|j: int| 0 <= j < s.subrange(k, e).len() implies #[trigger] digit_in(
            s.subrange(k, e)[j],
            base,
        ) || s.subrange(k, e)[j] == '_' by {
            if j > 1 {
                assert(s.subrange(k, e)[j] == s.subrange(k + 2, e)[j - 2]);
            }
        }
    }
}

proof fn lemma_radix_value_mono(t: Seq<char>, j: int, base: nat)
    requires
        0 <= j <= t.len(),
        base >= 1,
    ensures
        radix_value(t.take(j), base) <= radix_value(t, base),
    decreases t.len(),
{
    if j < t.len() {
        assert(t.drop_last().take(j) =~= t.take(j));
        lemma_radix_value_mono(t.drop_last(), j, base);
        let v = radix_value(t.drop_last(), base);
        assert(v <= v * base) by (nonlinear_arith)
            requires
                base >= 1,
        ;
    } else {
        assert(t.take(j) =~= t);
    }
}

/// The value of the numeral `s[start..end]` if it is at most `bound`.
fn numeral_value(s: &[char], start: usize, end: usize, base: u64, bound: u64) -> (r: Option<u64>)
    requires
        start <= end <= s@.len(),
        base == 2 || base == 8 || base == 10 || base == 16,
        bound >= 16,
        is_numeral(s@.subrange(start as int, end as int), base as nat),
    ensures
        r is Some <==> radix_value(s@.subrange(start as int, end as int), base as nat) <= bound,
        r matches Some(v) ==> v == radix_value(s@.subrange(start as int, end as int), base as nat),
{
    let ghost t = s@.subrange(start as int, end as int);
    let mut v: u64 = 0;
    let mut k = start;
    while k < end
        invariant
            start <= k <= end <= s@.len(),
            base == 2 || base == 8 || base == 10 || base == 16,
            t == s@.subrange(start as int, end as int),
            is_numeral(t, base as nat),
            v == radix_value(t.take(k - start), base as nat),
            v <= bound,
            bound >= 16,
        decreases end - k,
    {
        let c = s[k];
        let ghost p = t.take(k - start);
        let ghost n = t.take(k - start + 1);
        assert(n.drop_last() =~= p);
        assert(n.last() == c);
        assert(t[k - start] == c);
        if c == '_' {
        } else {
            assert(digit_in(c, base as nat));
            let d: u64 = if '0' <= c && c <= '9' {
                (c as u32 - 48) as u64
            } else if 'a' <= c && c <= 'f' {
                (c as u32 - 87) as u64
            } else {
                (c as u32 - 55) as u64
            };
            let lim = (bound - d) / base;
            if v > lim {
                proof {
                    assert(v * base + d > bound) by (nonlinear_arith)
                        requires
                            v > lim,
                            lim == (bound - d) / (base as int),
                            base > 0,
                            d <= bound,
                    ;
                    lemma_radix_value_mono(t, k - start + 1, base as nat);
                }
                return None;
            }
            proof {
                assert(v * base + d <= bound) by (nonlinear_arith)
                    requires
                        v <= lim,
                        lim == (bound - d) / (base as int),
                        base > 0,
                        d <= bound,
                ;
            }
            v = v * base + d;
        }
        k = k + 1;
    }
    assert(t.take(end - start) =~= t);
    Some(v)
}

} // verus!

verus! {

/// `1` if a sign starts at `i`, else `0`.
pub open spec fn sign_len(s: Seq<char>, i: int) -> int {
    if 0 <= i < s.len() && (s[i] == '+' || s[i] == '-') {
        1
    } else {
        0
    }
}

// dec-int = [ minus / plus ] unsigned-dec-int
// unsigned-dec-int = DIGIT / digit1-9 1*( DIGIT / underscore DIGIT )
/// Where a decimal integer starting at `i` ends.
pub open spec fn dec_int_end(s: Seq<char>, i: int) -> Option<int> {
    let j = i + sign_len(s, i);
    if 0 <= j < s.len() && s[j] == '0' {
        Some(j + 1)
    } else if 0 <= j < s.len() && '1' <= s[j] && s[j] <= '9' {
        digit_groups_end(s, j + 1, 10)
    } else {
        None
    }
}

/// The decimal integer starting at `i`, if its value fits an `i64`.
pub open spec fn dec_int_at(s: Seq<char>, i: int) -> Option<(int, int)> {
    match dec_int_end(s, i) {
        Some(e) => {
            let m = radix_value(s.subrange(i + sign_len(s, i), e), 10) as int;
            let v = if s[i] == '-' {
                -m
            } else {
                m
            };
            if i64::MIN <= v <= i64::MAX {
                Some((e, v))
            } else {
                None
            }
        },
        None => None,
    }
}

// hex-int = 0x HEXDIG *( HEXDIG / underscore HEXDIG ), and likewise 0o, 0b
/// Where an integer with radix prefix `0p` starting at `i` ends.
pub open spec fn prefixed_int_end(s: Seq<char>, i: int, p: char, base: nat) -> Option<int> {
    if 0 <= i && i + 2 < s.len() && s[i] == '0' && s[i + 1] == p && digit_in(s[i + 2], base) {
        digit_groups_end(s, i + 3, base)
    } else {
        None
    }
}

/// The integer with radix prefix `0p` starting at `i`, if it fits an `i64`.
pub open spec fn prefixed_int_at(s: Seq<char>, i: int, p: char, base: nat) -> Option<(int, int)> {
    match prefixed_int_end(s, i, p, base) {
        Some(e) => {
            let v = radix_value(s.subrange(i + 2, e), base) as int;
            if v <= i64::MAX {
                Some((e, v))
            } else {
                None
            }
        },
        None => None,
    }
}

// integer = dec-int / hex-int / oct-int / bin-int
/// An integer starting at `i`: where it ends and its value.
pub open spec fn integer_at(s: Seq<char>, i: int) -> Option<(int, int)> {
    if prefixed_int_at(s, i, 'x', 16) is Some {
        prefixed_int_at(s, i, 'x', 16)
    } else if prefixed_int_at(s, i, 'o', 8) is Some {
        prefixed_int_at(s, i, 'o', 8)
    } else if prefixed_int_at(s, i, 'b', 2) is Some {
        prefixed_int_at(s, i, 'b', 2)
    } else {
        dec_int_at(s, i)
    }
}

proof fn lemma_leading_digit_numeral(s: Seq<char>, j: int, base: nat)
    requires
        0 <= j < s.len(),
        digit_in(s[j], base),
        digit_groups_end(s, j + 1, base) is Some,
    ensures
        j < digit_groups_end(s, j + 1, base)->0 <= s.len(),
        is_numeral(s.subrange(j, digit_groups_end(s, j + 1, base)->0), base),
{
    lemma_digit_groups_numeral(s, j + 1, base);
    let e = digit_groups_end(s, j + 1, base)->0;
    let t = s.subrange(j, e);
    assert forall|k: int| 0 <= k < t.len() implies #[trigger] digit_in(t[k], base) || t[k]
        == '_' by {
        if k > 0 {
            assert(t[k] == s.subrange(j + 1, e)[k - 1]);
        }
    }
}

fn prefixed_int(s: &[char], pos: usize, p: char, base: u64) -> (r: Option<(usize, i64)>)
    requires
        pos <= s@.len(),
        base == 2 || base == 8 || base == 16,
    ensures
        r matches Some((e, v)) ==> prefixed_int_at(s@, pos as int, p, base as nat) == Some(
            (e as int, v as int),
        ) && pos < e <= s@.len(),
        r is None ==> prefixed_int_at(s@, pos as int, p, base as nat) is None,
{
    if !(s.len() - pos > 2 && s[pos] == '0' && s[pos + 1] == p && is_digit_in(s[pos + 2], base)) {
        return None;
    }
    match digit_groups(s, pos + 3, base) {
        None => None,
        Some(e) => {
            proof {
                lemma_leading_digit_numeral(s@, pos + 2, base as nat);
            }
            match numeral_value(s, pos + 2, e, base, 9223372036854775807) {
                Some(v) => Some((e, v as i64)),
                None => None,
            }
        },
    }
}

fn dec_int(s: &[char], pos: usize) -> (r: Option<(usize, i64)>)
    requires
        pos <= s@.len(),
    ensures
        r matches Some((e, v)) ==> dec_int_at(s@, pos as int) == Some((e as int, v as int)) && pos
            < e <= s@.len(),
        r is None ==> dec_int_at(s@, pos as int) is None,
{
    let j = if pos < s.len() && (s[pos] == '+' || s[pos] == '-') {
        pos + 1
    } else {
        pos
    };
    let negative = pos < s.len() && s[pos] == '-';
    let e = if j < s.len() && s[j] == '0' {
        proof {
            assert(s@.subrange(j as int, j + 1)[0] == '0');
            assert(is_numeral(s@.subrange(j as int, j + 1), 10));
        }
        j + 1
    } else if j < s.len() && '1' <= s[j] && s[j] <= '9' {
        match digit_groups(s, j + 1, 10) {
            Some(e) => {
                proof {
                    lemma_leading_digit_numeral(s@, j as int, 10);
                }
                e
            },
            None => {
                return None;
            },
        }
    } else {
        return None;
    };
    let m = match numeral_value(s, j, e, 10, 9223372036854775808) {
        Some(m) => m,
        None => {
            return None;
        },
    };
    if negative {
        if m == 9223372036854775808 {
            Some((e, i64::MIN))
        } else {
            Some((e, -(m as i64)))
        }
    } else if m <= 9223372036854775807 {
        Some((e, m as i64))
    } else {
        None
    }
}

/// Parses an integer at `pos`.
pub fn integer(s: &[char], pos: usize) -> (r: Option<(usize, i64)>)
    requires
        pos <= s@.len(),
    ensures
        r matches Some((e, v)) ==> integer_at(s@, pos as int) == Some((e as int, v as int)) && pos
            < e <= s@.len(),
        r is None ==> integer_at(s@, pos as int) is None,
{
    if let Some(r) = prefixed_int(s, pos, 'x', 16) {
        return Some(r);
    }
    if let Some(r) = prefixed_int(s, pos, 'o', 8) {
        return Some(r);
    }
    if let Some(r) = prefixed_int(s, pos, 'b', 2) {
        return Some(r);
    }
    dec_int(s, pos)
}

} // verus!

verus! {

// zero-prefixable-int = DIGIT *( DIGIT / underscore DIGIT )
/// Where a zero-prefixable integer starting at `k` ends.
pub open spec fn zero_prefixable_int_end(s: Seq<char>, k: int) -> Option<int> {
    if 0 <= k < s.len() && '0' <= s[k] && s[k] <= '9' {
        digit_groups_end(s, k + 1, 10)
    } else {
        None
    }
}

// exp = "e" float-exp-part ; float-exp-part = [ minus / plus ] zero-prefixable-int
/// Where an exponent whose `e` is at `k` ends.
pub open spec fn exp_end(s: Seq<char>, k: int) -> Option<int> {
    zero_prefixable_int_end(s, k + 1 + sign_len(s, k + 1))
}

/// The character at `k` is `e` or `E`.
pub open spec fn is_exp_char_at(s: Seq<char>, k: int) -> bool {
    0 <= k < s.len() && (s[k] == 'e' || s[k] == 'E')
}

// float = float-int-part ( exp / frac [ exp ] )
/// Where a float with a fraction or an exponent starting at `i` ends.
pub open spec fn float_number_end(s: Seq<char>, i: int) -> Option<int> {
    match dec_int_end(s, i) {
        Some(d) => if is_exp_char_at(s, d) {
            exp_end(s, d)
        } else if 0 <= d < s.len() && s[d] == '.' {
            match zero_prefixable_int_end(s, d + 1) {
                Some(f) => if is_exp_char_at(s, f) {
                    exp_end(s, f)
                } else {
                    Some(f)
                },
                None => None,
            }
        } else {
            None
        },
        None => None,
    }
}

// special-float = [ minus / plus ] ( inf / nan )
/// Where a special float (`inf`, `nan`, signed or not) starting at `i` ends.
pub open spec fn special_float_end(s: Seq<char>, i: int) -> Option<int> {
    let j = i + sign_len(s, i);
    if 0 <= j && j + 3 <= s.len() && (s.subrange(j, j + 3) == seq!['i', 'n', 'f'] || s.subrange(
        j,
        j + 3,
    ) == seq!['n', 'a', 'n']) {
        Some(j + 3)
    } else {
        None
    }
}

/// A float starting at `i`: where it ends and its text without underscores.
pub open spec fn float_at(s: Seq<char>, i: int) -> Option<(int, Seq<char>)> {
    match float_number_end(s, i) {
        Some(e) => Some((e, remove_underscores(s.subrange(i, e)))),
        None => match special_float_end(s, i) {
            Some(e) => Some((e, s.subrange(i, e))),
            None => None,
        },
    }
}

fn zero_prefixable_int(s: &[char], k: usize) -> (r: Option<usize>)
    requires
        k <= s@.len(),
    ensures
        as_pos(r) == zero_prefixable_int_end(s@, k as int),
        r matches Some(e) ==> k < e <= s@.len(),
{
    if k < s.len() && '0' <= s[k] && s[k] <= '9' {
        digit_groups(s, k + 1, 10)
    } else {
        None
    }
}

fn exponent(s: &[char], k: usize) -> (r: Option<usize>)
    requires
        k < s@.len(),
    ensures
        as_pos(r) == exp_end(s@, k as int),
        r matches Some(e) ==> k < e <= s@.len(),
{
    let j = if s.len() - k > 1 && (s[k + 1] == '+' || s[k + 1] == '-') {
        k + 2
    } else {
        k + 1
    };
    zero_prefixable_int(s, j)
}

fn float_number(s: &[char], pos: usize) -> (r: Option<usize>)
    requires
        pos <= s@.len(),
    ensures
        as_pos(r) == float_number_end(s@, pos as int),
        r matches Some(e) ==> pos < e <= s@.len(),
{
    let j = if pos < s.len() && (s[pos] == '+' || s[pos] == '-') {
        pos + 1
    } else {
        pos
    };
    let d = if j < s.len() && s[j] == '0' {
        j + 1
    } else if j < s.len() && '1' <= s[j] && s[j] <= '9' {
        match digit_groups(s, j + 1, 10) {
            Some(e) => e,
            None => {
                return None;
            },
        }
    } else {
        return None;
    };
    if d < s.len() && (s[d] == 'e' || s[d] == 'E') {
        exponent(s, d)
    } else if d < s.len() && s[d] == '.' {
        match zero_prefixable_int(s, d + 1) {
            Some(f) => if f < s.len() && (s[f] == 'e' || s[f] == 'E') {
                exponent(s, f)
            } else {
                Some(f)
            },
            None => None,
        }
    } else {
        None
    }
}

fn special_float(s: &[char], pos: usize) -> (r: Option<usize>)
    requires
        pos <= s@.len(),
    ensures
        as_pos(r) == special_float_end(s@, pos as int),
        r matches Some(e) ==> pos < e <= s@.len(),
{
    let j = if pos < s.len() && (s[pos] == '+' || s[pos] == '-') {
        pos + 1
    } else {
        pos
    };
    if s.len() - j >= 3 && ((s[j] == 'i' && s[j + 1] == 'n' && s[j + 2] == 'f') || (s[j] == 'n'
        && s[j + 1] == 'a' && s[j + 2] == 'n')) {
        assert(s@.subrange(j as int, j + 3) =~= seq![s@[j as int], s@[j + 1], s@[j + 2]]);
        Some(j + 3)
    } else {
        proof {
            if j + 3 <= s@.len() {
                let t = s@.subrange(j as int, j + 3);
                assert(t[0] == s@[j as int] && t[1] == s@[j + 1] && t[2] == s@[j + 2]);
            }
        }
        None
    }
}

/// Parses a float at `pos`, giving its text without underscores (the text a
/// float conversion reads).
pub fn float(s: &[char], pos: usize) -> (r: Option<(usize, String)>)
    requires
        pos <= s@.len(),
    ensures
        r matches Some((e, t)) ==> float_at(s@, pos as int) == Some((e as int, t@)) && pos < e
            <= s@.len(),
        r is None ==> float_at(s@, pos as int) is None,
{
    let (e, keep_underscores) = match float_number(s, pos) {
        Some(e) => (e, false),
        None => match special_float(s, pos) {
            Some(e) => (e, true),
            None => {
                return None;
            },
        },
    };
    let mut out = String::new();
    let mut k = pos;
    while k < e
        invariant
            pos <= k <= e <= s@.len(),
            keep_underscores ==> out@ == s@.subrange(pos as int, k as int),
            !keep_underscores ==> out@ == remove_underscores(s@.subrange(pos as int, k as int)),
        decreases e - k,
    {
        let c = s[k];
        let ghost p = s@.subrange(pos as int, k as int);
        let ghost n = s@.subrange(pos as int, k + 1);
        assert(n.drop_last() =~= p);
        assert(n.last() == c);
        if keep_underscores || c != '_' {
            push_char(&mut out, c);
        }
        assert(keep_underscores ==> out@ =~= n);
        k = k + 1;
    }
    Some((e, out))
}

/// A boolean is read from exactly the text that writes it: `true` reads as
/// true and `false` as false, and what is read is the text of the value read.
pub proof fn law_boolean_text(s: Seq<char>, i: int)
    ensures
        boolean_at(s, i) matches Some((e, b)) ==> s.subrange(i, e) == (if b {
            seq!['t', 'r', 'u', 'e']
        } else {
            seq!['f', 'a', 'l', 's', 'e']
        }),
        0 <= i && i + 4 <= s.len() && s.subrange(i, i + 4) == seq!['t', 'r', 'u', 'e'] ==> boolean_at(
            s,
            i,
        ) == Some((i + 4, true)),
        0 <= i && i + 5 <= s.len() && s.subrange(i, i + 5) == seq!['f', 'a', 'l', 's', 'e']
            ==> boolean_at(s, i) == Some((i + 5, false)),
{
    if 0 <= i && i + 5 <= s.len() && s.subrange(i, i + 5) == seq!['f', 'a', 'l', 's', 'e'] {
        assert(s[i] == s.subrange(i, i + 5)[0]);
        if i + 4 <= s.len() && s.subrange(i, i + 4) == seq!['t', 'r', 'u', 'e'] {
            assert(s[i] == s.subrange(i, i + 4)[0]);
        }
    }
}

/// Where a run of digit groups from `k` ends: not before `k`, not after the
/// text.
proof fn lemma_digit_groups_end_bounds(s: Seq<char>, k: int, base: nat)
    requires
        0 <= k <= s.len(),
    ensures
        digit_groups_end(s, k, base) matches Some(x) ==> k <= x <= s.len(),
    decreases s.len() - k,
{
    if 0 <= k < s.len() && digit_in(s[k], base) {
        lemma_digit_groups_end_bounds(s, k + 1, base);
    } else if 0 <= k < s.len() && s[k] == '_' {
        if k + 1 < s.len() && digit_in(s[k + 1], base) {
            lemma_digit_groups_end_bounds(s, k + 2, base);
        }
    }
}

/// A float with a fraction or an exponent ends after where it starts, within
/// the text.
proof fn lemma_float_number_end_bounds(s: Seq<char>, i: int)
    requires
        0 <= i <= s.len(),
    ensures
        float_number_end(s, i) matches Some(e) ==> i < e <= s.len(),
{
    let j = i + sign_len(s, i);
    if 0 <= j < s.len() && '1' <= s[j] && s[j] <= '9' && s[j] != '0' {
        lemma_digit_groups_end_bounds(s, j + 1, 10);
    }
    if let Some(d) = dec_int_end(s, i) {
        assert(i < d <= s.len());
        if is_exp_char_at(s, d) {
            let k = d + 1 + sign_len(s, d + 1);
            if 0 <= k < s.len() && '0' <= s[k] && s[k] <= '9' {
                lemma_digit_groups_end_bounds(s, k + 1, 10);
            }
        } else if 0 <= d < s.len() && s[d] == '.' {
            if d + 1 < s.len() && '0' <= s[d + 1] && s[d + 1] <= '9' {
                lemma_digit_groups_end_bounds(s, d + 2, 10);
                if let Some(f) = zero_prefixable_int_end(s, d + 1) {
                    if is_exp_char_at(s, f) {
                        let k = f + 1 + sign_len(s, f + 1);
                        if 0 <= k < s.len() && '0' <= s[k] && s[k] <= '9' {
                            lemma_digit_groups_end_bounds(s, k + 1, 10);
                        }
                    }
                }
            }
        }
    }
}

/// Without underscores, removing them changes nothing.
proof fn lemma_remove_no_underscores(t: Seq<char>)
    requires
        forall|x: int| 0 <= x < t.len() ==> #[trigger] t[x] != '_',
    ensures
        remove_underscores(t) == t,
    decreases t.len(),
{
    if t.len() > 0 {
        let u = t.drop_last();
        assert forall|x: int| 0 <= x < u.len() implies #[trigger] u[x] != '_' by {
            assert(u[x] == t[x]);
        }
        lemma_remove_no_underscores(u);
        assert(u.push(t.last()) =~= t);
    }
}

/// Removing underscores keeps a first character that is not one.
proof fn lemma_remove_underscores_first(t: Seq<char>)
    requires
        t.len() > 0,
        t[0] != '_',
    ensures
        remove_underscores(t).len() > 0,
        remove_underscores(t)[0] == t[0],
    decreases t.len(),
{
    if t.len() == 1 {
        assert(t.drop_last() =~= Seq::<char>::empty());
        assert(t.last() == t[0]);
    } else {
        let u = t.drop_last();
        assert(u[0] == t[0]);
        lemma_remove_underscores_first(u);
    }
}

/// The text a float is read as is the text it is written with, without its
/// underscores: a special float (`inf`, `nan`) is kept as written, and a
/// sign in front is kept.
pub proof fn law_float_text(s: Seq<char>, i: int)
    requires
        0 <= i <= s.len(),
    ensures
        float_at(s, i) matches Some((e, t)) ==> i < e <= s.len() && t == remove_underscores(
            s.subrange(i, e),
        ),
        float_number_end(s, i) is None ==> (special_float_end(s, i) matches Some(e) ==> float_at(
            s,
            i,
        ) == Some((e, s.subrange(i, e)))),
        float_at(s, i) matches Some((e, t)) ==> ((s[i] == '-' || s[i] == '+') ==> t.len() > 0
            && t[0] == s[i]),
{
    lemma_float_number_end_bounds(s, i);
    if float_number_end(s, i) is None {
        if let Some(e) = special_float_end(s, i) {
            let j = i + sign_len(s, i);
            let t = s.subrange(i, e);
            assert forall|x: int| 0 <= x < t.len() implies #[trigger] t[x] != '_' by {
                if x < j - i {
                    assert(t[x] == s[i]);
                } else {
                    assert(t[x] == s.subrange(j, j + 3)[x - (j - i)]);
                }
            }
            lemma_remove_no_underscores(t);
        }
    }
    if let Some((e, t)) = float_at(s, i) {
        if s[i] == '-' || s[i] == '+' {
            assert(s.subrange(i, e)[0] == s[i]);
            lemma_remove_underscores_first(s.subrange(i, e));
        }
    }
}

} // verus!
