//! TOML date-times: offset date-times, local date-times, local dates and
//! local times.

use vstd::prelude::*;

use crate::integer::digits;
use crate::text::push_char;
use crate::write::TomlWrite;

verus! {

/// A calendar date.
#[derive(Copy, Clone, PartialEq, Eq, Debug)]
pub struct Date {
    pub year: u16,
    pub month: u8,
    pub day: u8,
}

/// A time of day.
#[derive(Copy, Clone, PartialEq, Eq, Debug)]
pub struct Time {
    pub hour: u8,
    pub minute: u8,
    pub second: u8,
    pub nanosecond: u32,
}

/// A UTC offset.
#[derive(Copy, Clone, PartialEq, Eq, Debug)]
pub enum Offset {
    /// `Z`
    Z,
    /// `+hh:mm` or `-hh:mm`
    Custom { hours: i8, minutes: u8 },
}

/// A date, a time, or both, with an optional offset.
#[derive(Copy, Clone, PartialEq, Eq, Debug)]
pub struct Datetime {
    pub date: Option<Date>,
    pub time: Option<Time>,
    pub offset: Option<Offset>,
}

impl Datetime {
    /// A date, a time and an offset.
    pub fn is_offset_date_time(&self) -> (b: bool)
        ensures
            b == (self.date is Some && self.time is Some && self.offset is Some),
    {
        self.date.is_some() && self.time.is_some() && self.offset.is_some()
    }

    /// A date and a time without offset.
    pub fn is_local_date_time(&self) -> (b: bool)
        ensures
            b == (self.date is Some && self.time is Some && self.offset is None),
    {
        self.date.is_some() && self.time.is_some() && self.offset.is_none()
    }

    /// A date alone.
    pub fn is_local_date(&self) -> (b: bool)
        ensures
            b == (self.date is Some && self.time is None),
    {
        self.date.is_some() && self.time.is_none()
    }

    /// A time alone.
    pub fn is_local_time(&self) -> (b: bool)
        ensures
            b == (self.date is None && self.time is Some),
    {
        self.date.is_none() && self.time.is_some()
    }
}

/// The decimal digits of `n`, left-padded with zeros to `width`.
pub open spec fn padded(n: nat, width: nat) -> Seq<char> {
    let d = digits(n, 10, false);
    if d.len() < width {
        Seq::new((width - d.len()) as nat, |k: int| '0') + d
    } else {
        d
    }
}

/// The sequence without its trailing zeros.
pub open spec fn trim_trailing_zeros(t: Seq<char>) -> Seq<char>
    decreases t.len(),
{
    if t.len() > 0 && t.last() == '0' {
        trim_trailing_zeros(t.drop_last())
    } else {
        t
    }
}

/// `YYYY-MM-DD`
pub open spec fn date_text(d: Date) -> Seq<char> {
    padded(d.year as nat, 4) + seq!['-'] + padded(d.month as nat, 2) + seq!['-'] + padded(
        d.day as nat,
        2,
    )
}

/// `HH:MM:SS`, then `.` and the fraction without trailing zeros when the
/// nanoseconds are not zero.
pub open spec fn time_text(t: Time) -> Seq<char> {
    padded(t.hour as nat, 2) + seq![':'] + padded(t.minute as nat, 2) + seq![':'] + padded(
        t.second as nat,
        2,
    ) + if t.nanosecond != 0 {
        seq!['.'] + trim_trailing_zeros(padded(t.nanosecond as nat, 9))
    } else {
        Seq::empty()
    }
}

/// `Z`, or the sign, two-digit hours, `:` and two-digit minutes.
pub open spec fn offset_text(o: Offset) -> Seq<char> {
    match o {
        Offset::Z => seq!['Z'],
        Offset::Custom { hours, minutes } => (if hours < 0 {
            seq!['-']
        } else {
            seq!['+']
        }) + padded(
            (if hours < 0 {
                -hours
            } else {
                hours as int
            }) as nat,
            2,
        ) + seq![':'] + padded(minutes as nat, 2),
    }
}

/// A date that RFC 3339 can write: a four-digit year, a month and a day of
/// the month in range.
pub open spec fn valid_date(d: Date) -> bool {
    d.year <= 9999 && 1 <= d.month <= 12 && 1 <= d.day <= 31
}

/// A time that RFC 3339 can write (a leap second included).
pub open spec fn valid_time(t: Time) -> bool {
    t.hour <= 23 && t.minute <= 59 && t.second <= 60 && t.nanosecond < 1_000_000_000
}

/// An offset of at most 23 hours and 59 minutes.
pub open spec fn valid_offset(o: Offset) -> bool {
    match o {
        Offset::Z => true,
        Offset::Custom { hours, minutes } => -23 <= hours <= 23 && minutes <= 59,
    }
}

/// One of the four kinds of TOML date-time, each part in range: an offset
/// only after a date and a time.
pub open spec fn valid_datetime(dt: Datetime) -> bool {
    &&& dt.date is Some || dt.time is Some
    &&& dt.date matches Some(d) ==> valid_date(d)
    &&& dt.time matches Some(t) ==> valid_time(t)
    &&& dt.offset matches Some(o) ==> dt.date is Some && dt.time is Some && valid_offset(o)
}

/// The TOML text of a date-time: date, `T`, time, offset, each when present.
pub open spec fn datetime_text(dt: Datetime) -> Seq<char> {
    (match dt.date {
        Some(d) => date_text(d),
        None => Seq::empty(),
    }) + (if dt.date is Some && dt.time is Some {
        seq!['T']
    } else {
        Seq::empty()
    }) + (match dt.time {
        Some(t) => time_text(t),
        None => Seq::empty(),
    }) + (match dt.offset {
        Some(o) => offset_text(o),
        None => Seq::empty(),
    })
}

} // verus!

verus! {

fn push_str_chars(out: &mut String, t: &String)
    ensures
        final(out)@ == old(out)@ + t@,
{
    out.append(t.as_str());
}

/// Appends the decimal digits of `n`, left-padded with zeros to `width`.
fn push_padded(out: &mut String, n: u64, width: usize)
    ensures
        final(out)@ == old(out)@ + padded(n as nat, width as nat),
{
    let d = crate::integer::decimal_digits(n as u128);
    let dl = d.as_str().unicode_len();
    let ghost start = out@;
    if dl < width {
        let mut k: usize = 0;
        while k < width - dl
            invariant
                k <= width - dl,
                dl == d@.len(),
                dl < width,
                out@ == start + Seq::new(k as nat, |j: int| '0'),
            decreases width - dl - k,
        {
            push_char(out, '0');
            assert(out@ =~= start + Seq::new((k + 1) as nat, |j: int| '0'));
            k = k + 1;
        }
    }
    push_str_chars(out, &d);
    assert(out@ =~= start + padded(n as nat, width as nat));
}

fn push_fraction(out: &mut String, nanos: u32)
    ensures
        final(out)@ == old(out)@ + trim_trailing_zeros(padded(nanos as nat, 9)),
{
    let mut p = String::new();
    push_padded(&mut p, nanos as u64, 9);
    let cs = crate::text::chars_of(p.as_str());
    let mut end = cs.len();
    assert(cs@.take(cs@.len() as int) =~= cs@);
    while end > 0 && cs[end - 1] == '0'
        invariant
            end <= cs@.len(),
            cs@ == padded(nanos as nat, 9),
            trim_trailing_zeros(cs@.take(end as int)) == trim_trailing_zeros(cs@),
        decreases end,
    {
        assert(cs@.take(end as int).drop_last() =~= cs@.take(end - 1));
        end = end - 1;
    }
    assert(cs@.take(cs@.len() as int) =~= cs@);
    let ghost start = out@;
    let mut k: usize = 0;
    while k < end
        invariant
            k <= end <= cs@.len(),
            out@ == start + cs@.take(k as int),
        decreases end - k,
    {
        push_char(out, cs[k]);
        assert(cs@.take(k + 1) =~= cs@.take(k as int).push(cs@[k as int]));
        k = k + 1;
    }
    assert(trim_trailing_zeros(cs@.take(end as int)) == cs@.take(end as int));
}

fn push_date(out: &mut String, d: Date)
    ensures
        final(out)@ == old(out)@ + date_text(d),
{
    let ghost start = out@;
    push_padded(out, d.year as u64, 4);
    push_char(out, '-');
    push_padded(out, d.month as u64, 2);
    push_char(out, '-');
    push_padded(out, d.day as u64, 2);
    assert(out@ =~= start + date_text(d));
}

fn push_time(out: &mut String, t: Time)
    ensures
        final(out)@ == old(out)@ + time_text(t),
{
    let ghost start = out@;
    push_padded(out, t.hour as u64, 2);
    push_char(out, ':');
    push_padded(out, t.minute as u64, 2);
    push_char(out, ':');
    push_padded(out, t.second as u64, 2);
    if t.nanosecond != 0 {
        push_char(out, '.');
        push_fraction(out, t.nanosecond);
    }
    assert(out@ =~= start + time_text(t));
}

fn push_offset(out: &mut String, o: Offset)
    ensures
        final(out)@ == old(out)@ + offset_text(o),
{
    let ghost start = out@;
    match o {
        Offset::Z => push_char(out, 'Z'),
        Offset::Custom { hours, minutes } => {
            let h: u64 = if hours < 0 {
                push_char(out, '-');
                (-(hours as i64)) as u64
            } else {
                push_char(out, '+');
                hours as u64
            };
            push_padded(out, h, 2);
            push_char(out, ':');
            push_padded(out, minutes as u64, 2);
        },
    }
    assert(out@ =~= start + offset_text(o));
}

impl Datetime {
    /// The TOML text of the date-time.
    pub fn to_toml_string(&self) -> (s: String)
        ensures
            s@ == datetime_text(*self),
    {
        let mut out = String::new();
        if let Some(d) = self.date {
            push_date(&mut out, d);
        }
        let ghost a = out@;
        if self.date.is_some() && self.time.is_some() {
            push_char(&mut out, 'T');
        }
        let ghost b = out@;
        if let Some(t) = self.time {
            push_time(&mut out, t);
        }
        let ghost c = out@;
        if let Some(o) = self.offset {
            push_offset(&mut out, o);
        }
        assert(out@ =~= datetime_text(*self));
        out
    }
}

} // verus!
