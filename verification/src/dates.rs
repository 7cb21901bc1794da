//! Calendar timestamps in the journal's fixed textual format.
//!
//! A creation date is always the 20-character form `YYYY-MM-DDTHH:MM:SSZ`
//! (UTC); anything else is rejected outright.

use vstd::prelude::*;
use crate::DecodeError;

verus! {

/// A UTC timestamp split into its calendar and clock fields.
#[derive(Clone, Copy, PartialEq, Eq, Structural, Debug)]
pub struct Timestamp {
    pub year: i32,
    pub month: u32,
    pub day: u32,
    pub hour: u32,
    pub minute: u32,
    pub second: u32,
}

pub open spec fn is_leap_year(y: int) -> bool {
    y % 4 == 0 && (y % 100 != 0 || y % 400 == 0)
}

pub open spec fn days_in_month(y: int, m: int) -> int {
    if m == 2 {
        if is_leap_year(y) {
            29
        } else {
            28
        }
    } else if m == 4 || m == 6 || m == 9 || m == 11 {
        30
    } else {
        31
    }
}

/// A real calendar date: month in range and day within the month's length.
pub open spec fn valid_date(y: int, m: int, d: int) -> bool {
    1 <= m <= 12 && 1 <= d <= days_in_month(y, m)
}

impl Timestamp {
    /// Field ranges that every decoded timestamp satisfies.
    pub open spec fn wf(&self) -> bool {
        &&& 0 <= self.year <= 9999
        &&& valid_date(self.year as int, self.month as int, self.day as int)
        &&& self.hour <= 23
        &&& self.minute <= 59
        &&& self.second <= 59
    }

    /// Runtime check of `wf`, for callers outside verified code.
    pub fn check(&self) -> (b: bool)
        ensures
            b == self.wf(),
    {
        0 <= self.year && self.year <= 9999 && is_valid_date(self.year, self.month, self.day)
            && self.hour <= 23 && self.minute <= 59 && self.second <= 59
    }
}

pub fn leap_year(y: i32) -> (b: bool)
    requires
        0 <= y,
    ensures
        b == is_leap_year(y as int),
{
    y % 4 == 0 && (y % 100 != 0 || y % 400 == 0)
}

pub fn month_length(y: i32, m: u32) -> (n: u32)
    requires
        0 <= y,
    ensures
        n == days_in_month(y as int, m as int),
{
    if m == 2 {
        if leap_year(y) {
            29
        } else {
            28
        }
    } else if m == 4 || m == 6 || m == 9 || m == 11 {
        30
    } else {
        31
    }
}

pub fn is_valid_date(y: i32, m: u32, d: u32) -> (b: bool)
    requires
        0 <= y,
    ensures
        b == valid_date(y as int, m as int, d as int),
{
    1 <= m && m <= 12 && 1 <= d && d <= month_length(y, m)
}

/// The numeric value of a decimal digit character.
pub open spec fn dv(c: char) -> int {
    c as int - 48
}

pub open spec fn is_dig(c: char) -> bool {
    48 <= c as int <= 57
}

/// The 20-character shape `YYYY-MM-DDTHH:MM:SSZ`.
pub open spec fn ts_shape_ok(s: Seq<char>) -> bool {
    &&& s.len() == 20
    &&& is_dig(s[0]) && is_dig(s[1]) && is_dig(s[2]) && is_dig(s[3])
    &&& s[4] == '-'
    &&& is_dig(s[5]) && is_dig(s[6])
    &&& s[7] == '-'
    &&& is_dig(s[8]) && is_dig(s[9])
    &&& s[10] == 'T'
    &&& is_dig(s[11]) && is_dig(s[12])
    &&& s[13] == ':'
    &&& is_dig(s[14]) && is_dig(s[15])
    &&& s[16] == ':'
    &&& is_dig(s[17]) && is_dig(s[18])
    &&& s[19] == 'Z'
}

/// The fields read off a string of the right shape.
pub open spec fn ts_of(s: Seq<char>) -> Timestamp {
    Timestamp {
        year: (dv(s[0]) * 1000 + dv(s[1]) * 100 + dv(s[2]) * 10 + dv(s[3])) as i32,
        month: (dv(s[5]) * 10 + dv(s[6])) as u32,
        day: (dv(s[8]) * 10 + dv(s[9])) as u32,
        hour: (dv(s[11]) * 10 + dv(s[12])) as u32,
        minute: (dv(s[14]) * 10 + dv(s[15])) as u32,
        second: (dv(s[17]) * 10 + dv(s[18])) as u32,
    }
}

/// What decoding a creation date means: the string has the fixed shape and
/// the fields it spells are a real date and clock time.
pub open spec fn parse_timestamp(s: Seq<char>) -> Option<Timestamp> {
    if ts_shape_ok(s) && ts_of(s).wf() {
        Some(ts_of(s))
    } else {
        None
    }
}

fn digit(c: char) -> (r: Option<u32>)
    ensures
        match r {
            Some(v) => is_dig(c) && v == dv(c) && v <= 9,
            None => !is_dig(c),
        },
{
    let u = c as u32;
    if 48 <= u && u <= 57 {
        Some(u - 48)
    } else {
        None
    }
}

/// Decodes a creation date from the fixed `YYYY-MM-DDTHH:MM:SSZ` format.
/// Any deviation — wrong length, wrong separators, out-of-range fields,
/// an impossible calendar day — is rejected.
pub fn deserialize(s: &str) -> (r: Result<Timestamp, DecodeError>)
    ensures
        match r {
            Ok(t) => parse_timestamp(s@) == Some(t) && t.wf(),
            Err(e) => parse_timestamp(s@) is None && e == DecodeError::Timestamp,
        },
{
    let n = s.unicode_len();
    if n != 20 {
        return Err(DecodeError::Timestamp);
    }
    if !(s.get_char(4) == '-' && s.get_char(7) == '-' && s.get_char(10) == 'T'
        && s.get_char(13) == ':' && s.get_char(16) == ':' && s.get_char(19) == 'Z') {
        return Err(DecodeError::Timestamp);
    }
    let d0 = digit(s.get_char(0));
    let d1 = digit(s.get_char(1));
    let d2 = digit(s.get_char(2));
    let d3 = digit(s.get_char(3));
    let d5 = digit(s.get_char(5));
    let d6 = digit(s.get_char(6));
    let d8 = digit(s.get_char(8));
    let d9 = digit(s.get_char(9));
    let d11 = digit(s.get_char(11));
    let d12 = digit(s.get_char(12));
    let d14 = digit(s.get_char(14));
    let d15 = digit(s.get_char(15));
    let d17 = digit(s.get_char(17));
    let d18 = digit(s.get_char(18));
    match (d0, d1, d2, d3, d5, d6, d8, d9, d11, d12, d14, d15, d17, d18) {
        (
            Some(y0),
            Some(y1),
            Some(y2),
            Some(y3),
            Some(m0),
            Some(m1),
            Some(a0),
            Some(a1),
            Some(h0),
            Some(h1),
            Some(i0),
            Some(i1),
            Some(s0),
            Some(s1),
        ) => {
            let year: u32 = y0 * 1000 + y1 * 100 + y2 * 10 + y3;
            let month: u32 = m0 * 10 + m1;
            let day: u32 = a0 * 10 + a1;
            let hour: u32 = h0 * 10 + h1;
            let minute: u32 = i0 * 10 + i1;
            let second: u32 = s0 * 10 + s1;
            let t = Timestamp {
                year: year as i32,
                month,
                day,
                hour,
                minute,
                second,
            };
            if is_valid_date(t.year, t.month, t.day) && hour <= 23 && minute <= 59 && second <= 59 {
                assert(t == ts_of(s@));
                Ok(t)
            } else {
                assert(ts_of(s@) == t);
                Err(DecodeError::Timestamp)
            }
        },
        _ => Err(DecodeError::Timestamp),
    }
}

/// The fixed English month name used in outline headings.
pub open spec fn spec_month_name(m: int) -> Seq<char> {
    if m == 1 {
        "January"@
    } else if m == 2 {
        "February"@
    } else if m == 3 {
        "March"@
    } else if m == 4 {
        "April"@
    } else if m == 5 {
        "May"@
    } else if m == 6 {
        "June"@
    } else if m == 7 {
        "July"@
    } else if m == 8 {
        "August"@
    } else if m == 9 {
        "September"@
    } else if m == 10 {
        "October"@
    } else if m == 11 {
        "November"@
    } else {
        "December"@
    }
}

pub fn month_name(m: u32) -> (r: &'static str)
    requires
        1 <= m <= 12,
    ensures
        r@ == spec_month_name(m as int),
{
    if m == 1 {
        "January"
    } else if m == 2 {
        "February"
    } else if m == 3 {
        "March"
    } else if m == 4 {
        "April"
    } else if m == 5 {
        "May"
    } else if m == 6 {
        "June"
    } else if m == 7 {
        "July"
    } else if m == 8 {
        "August"
    } else if m == 9 {
        "September"
    } else if m == 10 {
        "October"
    } else if m == 11 {
        "November"
    } else {
        "December"
    }
}

/// The English weekday name of a calendar date; opaque, computed by the
/// calendar library.
pub uninterp spec fn weekday_of(y: int, m: int, d: int) -> Seq<char>;

/// Relies on `chrono::NaiveDate::from_ymd_opt` and `NaiveDate::format` with
/// `%A`: for a valid calendar date the date exists, and the formatted full
/// (English) weekday name depends on the date alone.
#[verifier::external_body]
pub fn weekday_name(y: i32, m: u32, d: u32) -> (r: String)
    requires
        valid_date(y as int, m as int, d as int),
    ensures
        r@ == weekday_of(y as int, m as int, d as int),
{
    match chrono::NaiveDate::from_ymd_opt(y, m, d) {
        Some(date) => date.format("%A").to_string(),
        None => String::new(),
    }
}

} // verus!
