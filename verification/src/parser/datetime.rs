//! Date-times as defined by RFC 3339.

use vstd::prelude::*;

use crate::datetime::{Date, Datetime, Offset, Time};
use crate::parser::numbers::radix_value;

verus! {

/// A decimal digit.
pub open spec fn dec_digit(c: char) -> bool {
    '0' <= c && c <= '9'
}

/// Every character is a decimal digit.
pub open spec fn all_digits(t: Seq<char>) -> bool {
    forall|k: int| 0 <= k < t.len() ==> #[trigger] dec_digit(t[k])
}

/// The value of a short numeral as `u32`'s `from_str` reads it: an optional
/// `+`, then at least one digit.
pub open spec fn parse_unsigned(t: Seq<char>) -> Option<int> {
    let d = if t.len() > 0 && t[0] == '+' {
        t.drop_first()
    } else {
        t
    };
    if d.len() > 0 && all_digits(d) {
        Some(radix_value(d, 10) as int)
    } else {
        None
    }
}

/// The value of a short numeral as `i32`'s `from_str` reads it: an optional
/// sign, then at least one digit.
pub open spec fn parse_signed(t: Seq<char>) -> Option<int> {
    if t.len() > 0 && t[0] == '-' {
        let d = t.drop_first();
        if d.len() > 0 && all_digits(d) {
            Some(-(radix_value(d, 10) as int))
        } else {
            None
        }
    } else {
        parse_unsigned(t)
    }
}

/// The value of the `n` characters at `i`, read as an unsigned numeral.
pub open spec fn unsigned_digits_at(s: Seq<char>, i: int, n: int) -> Option<int> {
    if 0 <= i && i + n <= s.len() {
        parse_unsigned(s.subrange(i, i + n))
    } else {
        None
    }
}

/// A two-character field at `i` whose value lies in `lo..=hi`.
pub open spec fn field_at(s: Seq<char>, i: int, lo: int, hi: int) -> Option<int> {
    match unsigned_digits_at(s, i, 2) {
        Some(v) => if lo <= v <= hi {
            Some(v)
        } else {
            None
        },
        None => None,
    }
}

// date-fullyear = 4DIGIT
/// The year at `i`: four characters read as an `i32`, kept as a `u16`.
pub open spec fn date_fullyear_at(s: Seq<char>, i: int) -> Option<int> {
    if 0 <= i && i + 4 <= s.len() {
        match parse_signed(s.subrange(i, i + 4)) {
            Some(v) => Some(
                if v < 0 {
                    v + 65536
                } else {
                    v
                },
            ),
            None => None,
        }
    } else {
        None
    }
}

// full-date = date-fullyear "-" date-month "-" date-mday
/// A full date starting at `i`: where it ends and the date.
pub open spec fn full_date_at(s: Seq<char>, i: int) -> Option<(int, Date)> {
    match (date_fullyear_at(s, i), field_at(s, i + 5, 1, 12), field_at(s, i + 8, 1, 31)) {
        (Some(y), Some(m), Some(d)) => if s[i + 4] == '-' && s[i + 7] == '-' {
            Some((i + 10, Date { year: y as u16, month: m as u8, day: d as u8 }))
        } else {
            None
        },
        _ => None,
    }
}

// time-secfrac = "." 1*DIGIT
/// The end of the run of decimal digits starting at `k`.
pub open spec fn digits_end(s: Seq<char>, k: int) -> int
    decreases s.len() - k,
{
    if 0 <= k < s.len() && dec_digit(s[k]) {
        digits_end(s, k + 1)
    } else {
        k
    }
}

/// `10` to the power `n`.
pub open spec fn pow10(n: nat) -> int
    decreases n,
{
    if n == 0 {
        1
    } else {
        pow10((n - 1) as nat) * 10
    }
}

/// A fraction of a second whose `.` is at `k`: where it ends and its
/// nanoseconds; only one to nine digits are read.
pub open spec fn secfrac_at(s: Seq<char>, k: int) -> Option<(int, int)> {
    if 0 <= k < s.len() && s[k] == '.' {
        let e = digits_end(s, k + 1);
        let n = e - (k + 1);
        if 1 <= n <= 9 {
            Some((e, radix_value(s.subrange(k + 1, e), 10) as int * pow10((9 - n) as nat)))
        } else {
            None
        }
    } else {
        None
    }
}

// partial-time = time-hour ":" time-minute ":" time-second [time-secfrac]
/// A time starting at `i`: where it ends and the time.
pub open spec fn partial_time_at(s: Seq<char>, i: int) -> Option<(int, Time)> {
    match (field_at(s, i, 0, 23), field_at(s, i + 3, 0, 59), field_at(s, i + 6, 0, 60)) {
        (Some(h), Some(m), Some(sec)) => if s[i + 2] == ':' && s[i + 5] == ':' {
            match secfrac_at(s, i + 8) {
                Some((e, ns)) => Some(
                    (e, Time { hour: h as u8, minute: m as u8, second: sec as u8, nanosecond: ns as u32 }),
                ),
                None => Some(
                    (i + 8, Time { hour: h as u8, minute: m as u8, second: sec as u8, nanosecond: 0 }),
                ),
            }
        } else {
            None
        },
        _ => None,
    }
}

/// What follows a time: an offset, or nothing, or (after a sign that starts
/// no valid offset) a failure.
pub enum OffsetParse {
    Absent,
    Present(int, Offset),
    Invalid,
}

// time-offset = "Z" / time-numoffset ; time-numoffset = ( "+" / "-" ) time-hour ":" time-minute
/// The offset at `i`.
pub open spec fn time_offset_at(s: Seq<char>, i: int) -> OffsetParse {
    if 0 <= i < s.len() && (s[i] == 'Z' || s[i] == 'z') {
        OffsetParse::Present(i + 1, Offset::Z)
    } else if 0 <= i < s.len() && (s[i] == '+' || s[i] == '-') {
        match (field_at(s, i + 1, 0, 23), field_at(s, i + 4, 0, 59)) {
            (Some(h), Some(m)) => if s[i + 3] == ':' {
                OffsetParse::Present(
                    i + 6,
                    Offset::Custom {
                        hours: (if s[i] == '-' {
                            -h
                        } else {
                            h
                        }) as i8,
                        minutes: m as u8,
                    },
                )
            } else {
                OffsetParse::Invalid
            },
            _ => OffsetParse::Invalid,
        }
    } else {
        OffsetParse::Absent
    }
}

// time-delim = "T" / %x20 ; T, t, or space
/// Separates the date from the time.
pub open spec fn time_delim(c: char) -> bool {
    c == 'T' || c == 't' || c == ' '
}

/// Separates the date from the time.
pub fn is_time_delim(c: char) -> (b: bool)
    ensures
        b == time_delim(c),
{
    c == 'T' || c == 't' || c == ' '
}

// date-time = offset-date-time / local-date-time / local-date / local-time
/// A date-time starting at `i`: where it ends and its value. After a date
/// and a delimiter a time must follow.
pub open spec fn date_time_at(s: Seq<char>, i: int) -> Option<(int, Datetime)> {
    match full_date_at(s, i) {
        Some((e, date)) => if 0 <= e < s.len() && time_delim(s[e]) {
            match partial_time_at(s, e + 1) {
                Some((te, time)) => match time_offset_at(s, te) {
                    OffsetParse::Present(oe, off) => Some(
                        (oe, Datetime { date: Some(date), time: Some(time), offset: Some(off) }),
                    ),
                    OffsetParse::Absent => Some(
                        (te, Datetime { date: Some(date), time: Some(time), offset: None }),
                    ),
                    OffsetParse::Invalid => None,
                },
                None => None,
            }
        } else {
            Some((e, Datetime { date: Some(date), time: None, offset: None }))
        },
        None => match partial_time_at(s, i) {
            Some((e, time)) => Some((e, Datetime { date: None, time: Some(time), offset: None })),
            None => None,
        },
    }
}

} // verus!

verus! {

proof fn lemma_radix10_bound(t: Seq<char>)
    requires
        all_digits(t),
    ensures
        radix_value(t, 10) < pow10(t.len()),
    decreases t.len(),
{
    if t.len() > 0 {
        assert(all_digits(t.drop_last())) by {
            assert forall|k: int| 0 <= k < t.drop_last().len() implies #[trigger] dec_digit(
                t.drop_last()[k],
            ) by {
                assert(t.drop_last()[k] == t[k]);
            }
        }
        assert(dec_digit(t[t.len() - 1]));
        lemma_radix10_bound(t.drop_last());
    }
}

/// The value of the digits `s[start..end]` (at most nine of them).
fn digits_value(s: &[char], start: usize, end: usize) -> (v: u32)
    requires
        start <= end <= s@.len(),
        end - start <= 9,
        all_digits(s@.subrange(start as int, end as int)),
    ensures
        v as int == radix_value(s@.subrange(start as int, end as int), 10),
{
    let ghost t = s@.subrange(start as int, end as int);
    let mut v: u32 = 0;
    let mut k = start;
    assert(pow10(9) == 1000000000) by {
        reveal_with_fuel(pow10, 10);
    }
    while k < end
        invariant
            start <= k <= end <= s@.len(),
            end - start <= 9,
            t == s@.subrange(start as int, end as int),
            all_digits(t),
            v as int == radix_value(t.take(k - start), 10),
            v < pow10((k - start) as nat),
            pow10(9) == 1000000000,
        decreases end - k,
    {
        let ghost p = t.take(k - start);
        let ghost n = t.take(k - start + 1);
        assert(n.drop_last() =~= p);
        assert(n.last() == s@[k as int]);
        assert(dec_digit(t[k - start]));
        proof {
            lemma_pow10_mono((k - start) as nat, 8);
        }
        v = v * 10 + (s[k] as u32 - 48);
        k = k + 1;
    }
    assert(t.take(end - start) =~= t);
    v
}

proof fn lemma_pow10_mono(a: nat, b: nat)
    requires
        a <= b,
    ensures
        1 <= pow10(a) <= pow10(b),
    decreases b,
{
    if b > 0 {
        if a < b {
            lemma_pow10_mono(a, (b - 1) as nat);
        } else {
            lemma_pow10_mono((b - 1) as nat, (b - 1) as nat);
        }
    }
}

fn all_digits_in(s: &[char], start: usize, end: usize) -> (b: bool)
    requires
        start <= end <= s@.len(),
    ensures
        b == all_digits(s@.subrange(start as int, end as int)),
{
    let mut k = start;
    while k < end
        invariant
            start <= k <= end <= s@.len(),
            all_digits(s@.subrange(start as int, k as int)),
        decreases end - k,
    {
        if !('0' <= s[k] && s[k] <= '9') {
            assert(s@.subrange(start as int, end as int)[k - start] == s@[k as int]);
            assert(!dec_digit(s@.subrange(start as int, end as int)[k - start]));
            return false;
        }
        assert forall|j: int| 0 <= j < k + 1 - start implies #[trigger] dec_digit(
            s@.subrange(start as int, k + 1)[j],
        ) by {
            if j < k - start {
                assert(s@.subrange(start as int, k + 1)[j] == s@.subrange(start as int, k as int)[j]);
            }
        }
        k = k + 1;
    }
    true
}

/// The value of the `n` (two or four) characters at `pos` read as an
/// unsigned numeral.
fn unsigned_digits(s: &[char], pos: usize, n: usize) -> (r: Option<u32>)
    requires
        pos <= s@.len(),
        n == 2 || n == 4,
    ensures
        r matches Some(v) ==> unsigned_digits_at(s@, pos as int, n as int) == Some(v as int),
        r is None ==> unsigned_digits_at(s@, pos as int, n as int) is None,
{
    if s.len() - pos < n {
        return None;
    }
    let ghost t = s@.subrange(pos as int, pos + n);
    let start = if s[pos] == '+' {
        pos + 1
    } else {
        pos
    };
    assert(s@.subrange(start as int, pos + n) =~= (if t.len() > 0 && t[0] == '+' {
        t.drop_first()
    } else {
        t
    }));
    if start < pos + n && all_digits_in(s, start, pos + n) {
        Some(digits_value(s, start, pos + n))
    } else {
        None
    }
}

/// The year at `pos`.
fn date_fullyear(s: &[char], pos: usize) -> (r: Option<u16>)
    requires
        pos <= s@.len(),
    ensures
        r matches Some(v) ==> date_fullyear_at(s@, pos as int) == Some(v as int),
        r is None ==> date_fullyear_at(s@, pos as int) is None,
{
    if s.len() - pos < 4 {
        return None;
    }
    if s[pos] == '-' {
        let ghost t = s@.subrange(pos as int, pos + 4);
        assert(s@.subrange(pos + 1, pos + 4) =~= t.drop_first());
        if all_digits_in(s, pos + 1, pos + 4) {
            let v = digits_value(s, pos + 1, pos + 4);
            proof {
                lemma_radix10_bound(t.drop_first());
                assert(pow10(3) == 1000) by {
                    reveal_with_fuel(pow10, 4);
                }
            }
            if v == 0 {
                Some(0)
            } else {
                Some((65536 - v) as u16)
            }
        } else {
            None
        }
    } else {
        match unsigned_digits(s, pos, 4) {
            Some(v) => {
                proof {
                    let t = s@.subrange(pos as int, pos + 4);
                    let d = if t.len() > 0 && t[0] == '+' {
                        t.drop_first()
                    } else {
                        t
                    };
                    lemma_radix10_bound(d);
                    lemma_pow10_mono(d.len(), 4);
                    assert(pow10(4) == 10000) by {
                        reveal_with_fuel(pow10, 5);
                    }
                }
                Some(v as u16)
            },
            None => None,
        }
    }
}

fn field(s: &[char], pos: usize, lo: u32, hi: u32) -> (r: Option<u8>)
    requires
        pos <= s@.len(),
        hi < 256,
    ensures
        r matches Some(v) ==> field_at(s@, pos as int, lo as int, hi as int) == Some(v as int),
        r is None ==> field_at(s@, pos as int, lo as int, hi as int) is None,
{
    match unsigned_digits(s, pos, 2) {
        Some(v) => if lo <= v && v <= hi {
            Some(v as u8)
        } else {
            None
        },
        None => None,
    }
}

/// Parses a full date at `pos`.
fn full_date(s: &[char], pos: usize) -> (r: Option<(usize, Date)>)
    requires
        pos <= s@.len(),
    ensures
        r matches Some((e, d)) ==> full_date_at(s@, pos as int) == Some((e as int, d)) && pos < e
            <= s@.len(),
        r is None ==> full_date_at(s@, pos as int) is None,
{
    if s.len() - pos < 10 {
        return None;
    }
    let y = date_fullyear(s, pos);
    let m = field(s, pos + 5, 1, 12);
    let d = field(s, pos + 8, 1, 31);
    match (y, m, d) {
        (Some(y), Some(m), Some(d)) => if s[pos + 4] == '-' && s[pos + 7] == '-' {
            Some((pos + 10, Date { year: y, month: m, day: d }))
        } else {
            None
        },
        _ => None,
    }
}

fn secfrac(s: &[char], k: usize) -> (r: Option<(usize, u32)>)
    requires
        k <= s@.len(),
    ensures
        r matches Some((e, ns)) ==> secfrac_at(s@, k as int) == Some((e as int, ns as int)) && k
            < e <= s@.len(),
        r is None ==> secfrac_at(s@, k as int) is None,
{
    if !(k < s.len() && s[k] == '.') {
        return None;
    }
    let mut e = k + 1;
    while e < s.len() && '0' <= s[e] && s[e] <= '9'
        invariant
            k < e <= s@.len(),
            digits_end(s@, e as int) == digits_end(s@, k + 1),
            all_digits(s@.subrange(k + 1, e as int)),
        decreases s@.len() - e,
    {
        assert forall|j: int| 0 <= j < e + 1 - (k + 1) implies #[trigger] dec_digit(
            s@.subrange(k + 1, e + 1)[j],
        ) by {
            if j < e - (k + 1) {
                assert(s@.subrange(k + 1, e + 1)[j] == s@.subrange(k + 1, e as int)[j]);
            }
        }
        e = e + 1;
    }
    let n = e - (k + 1);
    if n < 1 || n > 9 {
        return None;
    }
    let v = digits_value(s, k + 1, e);
    let mut scale: u32 = 1;
    let mut j: usize = 0;
    while j < 9 - n
        invariant
            j <= 9 - n,
            1 <= n <= 9,
            scale as int == pow10(j as nat),
        decreases 9 - n - j,
    {
        proof {
            lemma_pow10_mono((j + 1) as nat, 8);
            assert(pow10(8) == 100000000) by {
                reveal_with_fuel(pow10, 9);
            }
        }
        scale = scale * 10;
        j = j + 1;
    }
    proof {
        lemma_pow10_mono(0, (9 - n) as nat);
        lemma_radix10_bound(s@.subrange(k + 1, e as int));
        assert(pow10(n as nat) * pow10((9 - n) as nat) == pow10(9)) by {
            lemma_pow10_add(n as nat, (9 - n) as nat);
        }
        assert(pow10(9) == 1000000000) by {
            reveal_with_fuel(pow10, 10);
        }
        assert(v * scale < 1000000000) by (nonlinear_arith)
            requires
                v < pow10(n as nat),
                scale == pow10((9 - n) as nat),
                pow10(n as nat) * pow10((9 - n) as nat) == 1000000000,
                scale >= 1,
        ;
    }
    Some((e, v * scale))
}

proof fn lemma_pow10_add(a: nat, b: nat)
    ensures
        pow10(a) * pow10(b) == pow10(a + b),
    decreases b,
{
    if b > 0 {
        lemma_pow10_add(a, (b - 1) as nat);
        assert(pow10(a) * pow10(b) == pow10(a) * (pow10((b - 1) as nat) * 10));
        assert(pow10(a) * (pow10((b - 1) as nat) * 10) == (pow10(a) * pow10((b - 1) as nat)) * 10)
            by (nonlinear_arith);
    }
}

/// Parses a time at `pos`.
fn partial_time(s: &[char], pos: usize) -> (r: Option<(usize, Time)>)
    requires
        pos <= s@.len(),
    ensures
        r matches Some((e, t)) ==> partial_time_at(s@, pos as int) == Some((e as int, t)) && pos < e
            <= s@.len(),
        r is None ==> partial_time_at(s@, pos as int) is None,
{
    if s.len() - pos < 8 {
        return None;
    }
    let h = field(s, pos, 0, 23);
    let m = field(s, pos + 3, 0, 59);
    let sec = field(s, pos + 6, 0, 60);
    match (h, m, sec) {
        (Some(h), Some(m), Some(sec)) => if s[pos + 2] == ':' && s[pos + 5] == ':' {
            match secfrac(s, pos + 8) {
                Some((e, ns)) => Some(
                    (e, Time { hour: h, minute: m, second: sec, nanosecond: ns }),
                ),
                None => Some((pos + 8, Time { hour: h, minute: m, second: sec, nanosecond: 0 })),
            }
        } else {
            None
        },
        _ => None,
    }
}

/// Parses a date-time at `pos`.
pub fn date_time(s: &[char], pos: usize) -> (r: Option<(usize, Datetime)>)
    requires
        pos <= s@.len(),
    ensures
        r matches Some((e, d)) ==> date_time_at(s@, pos as int) == Some((e as int, d)) && pos < e
            <= s@.len(),
        r is None ==> date_time_at(s@, pos as int) is None,
{
    match full_date(s, pos) {
        Some((e, date)) => if e < s.len() && is_time_delim(s[e]) {
            match partial_time(s, e + 1) {
                Some((te, time)) => {
                    if te < s.len() && (s[te] == 'Z' || s[te] == 'z') {
                        Some(
                            (
                                te + 1,
                                Datetime { date: Some(date), time: Some(time), offset: Some(Offset::Z) },
                            ),
                        )
                    } else if te < s.len() && (s[te] == '+' || s[te] == '-') {
                        if s.len() - te < 6 {
                            return None;
                        }
                        let oh = field(s, te + 1, 0, 23);
                        let om = field(s, te + 4, 0, 59);
                        match (oh, om) {
                            (Some(oh), Some(om)) => if s[te + 3] == ':' {
                                let hours: i8 = if s[te] == '-' {
                                    -(oh as i8)
                                } else {
                                    oh as i8
                                };
                                Some(
                                    (
                                        te + 6,
                                        Datetime {
                                            date: Some(date),
                                            time: Some(time),
                                            offset: Some(Offset::Custom { hours, minutes: om }),
                                        },
                                    ),
                                )
                            } else {
                                None
                            },
                            _ => None,
                        }
                    } else {
                        Some((te, Datetime { date: Some(date), time: Some(time), offset: None }))
                    }
                },
                None => None,
            }
        } else {
            Some((e, Datetime { date: Some(date), time: None, offset: None }))
        },
        None => match partial_time(s, pos) {
            Some((e, time)) => Some((e, Datetime { date: None, time: Some(time), offset: None })),
            None => None,
        },
    }
}

} // verus!
