//! Recognition of the textual encodings a string may carry: calendar dates,
//! times of day with an offset, date-times and hyphenated UUIDs. All grammars
//! are stated over the UTF-8 bytes of the string.

use vstd::prelude::*;
use vstd::string::*;

verus! {

/// `b` is an ASCII decimal digit.
pub open spec fn is_digit(b: u8) -> bool {
    0x30 <= b <= 0x39
}

/// `b` is an ASCII hexadecimal digit, in either case.
pub open spec fn is_hex_digit(b: u8) -> bool {
    is_digit(b) || (0x41 <= b <= 0x46) || (0x61 <= b <= 0x66)
}

/// The number written by the two digits at `s[i]` and `s[i + 1]`, if both are digits.
pub open spec fn two_digits(s: Seq<u8>, i: int) -> Option<int> {
    if is_digit(s[i]) && is_digit(s[i + 1]) {
        Some(10 * (s[i] - 0x30) + (s[i + 1] - 0x30))
    } else {
        None
    }
}

/// The number written by the four digits at `s[i] .. s[i + 3]`, if all are digits.
pub open spec fn four_digits(s: Seq<u8>, i: int) -> Option<int> {
    match (two_digits(s, i), two_digits(s, i + 2)) {
        (Some(hi), Some(lo)) => Some(100 * hi + lo),
        _ => None,
    }
}

/// Whether `year` is a leap year of the Gregorian calendar.
pub open spec fn leap_year(year: int) -> bool {
    (year % 4 == 0 && year % 100 != 0) || year % 400 == 0
}

/// The number of days of `month` (1 to 12) in `year`.
pub open spec fn days_in_month(year: int, month: int) -> int {
    if month == 2 {
        if leap_year(year) {
            29
        } else {
            28
        }
    } else if month == 4 || month == 6 || month == 9 || month == 11 {
        30
    } else {
        31
    }
}

/// `s` is a calendar date `YYYY-MM-DD`: exactly ten bytes, a month from 1 to
/// 12 and a day that exists in that month of that year.
pub open spec fn valid_date(s: Seq<u8>) -> bool {
    &&& s.len() == 10
    &&& s[4] == 0x2d
    &&& s[7] == 0x2d
    &&& four_digits(s, 0) is Some
    &&& two_digits(s, 5) is Some
    &&& two_digits(s, 8) is Some
    &&& 1 <= two_digits(s, 5)->0 <= 12
    &&& 1 <= two_digits(s, 8)->0 <= days_in_month(four_digits(s, 0)->0, two_digits(s, 5)->0)
}

/// The first index at or after `i` that does not hold a digit.
pub open spec fn digits_end(s: Seq<u8>, i: int) -> int
    decreases s.len() - i,
{
    if 0 <= i < s.len() && is_digit(s[i]) {
        digits_end(s, i + 1)
    } else {
        i
    }
}

/// The minute of the UTC day that the wall-clock time `hour:minute` denotes
/// under an offset of `offset` minutes east of UTC.
pub open spec fn utc_minute_of_day(hour: int, minute: int, offset: int) -> int {
    (hour * 60 + minute - offset) % 1440
}

/// The last minute of a day, the only one that may hold a leap second.
pub open spec fn last_minute() -> int {
    1439
}

/// The offset that starts at `s[i]` is well formed and runs to the end of
/// `s`, and a leap second falls on the last second of the UTC day.
pub open spec fn valid_offset(s: Seq<u8>, i: int, hour: int, minute: int, second: int) -> bool {
    if s[i] == 0x5a || s[i] == 0x7a {
        i == s.len() - 1 && (second == 60 ==> utc_minute_of_day(hour, minute, 0) == last_minute())
    } else if s[i] == 0x2b || s[i] == 0x2d {
        &&& s.len() - i == 6
        &&& s[i + 3] == 0x3a
        &&& two_digits(s, i + 1) is Some
        &&& two_digits(s, i + 4) is Some
        &&& two_digits(s, i + 1)->0 <= 23
        &&& two_digits(s, i + 4)->0 <= 59
        &&& second == 60 ==> utc_minute_of_day(
            hour,
            minute,
            if s[i] == 0x2b {
                two_digits(s, i + 1)->0 * 60 + two_digits(s, i + 4)->0
            } else {
                -(two_digits(s, i + 1)->0 * 60 + two_digits(s, i + 4)->0)
            },
        ) == last_minute()
    } else {
        false
    }
}

/// Where the offset of a time starts: behind the seconds, or behind the
/// fraction if there is one.
pub open spec fn offset_start(s: Seq<u8>) -> int {
    if s.len() > 8 && s[8] == 0x2e {
        digits_end(s, 9)
    } else {
        8
    }
}

/// `s` is a time of day `HH:MM:SS`, an optional fraction of at least one
/// digit, and an offset (`Z`, `z` or `+HH:MM` / `-HH:MM`). The second may be
/// 60 only on the last second of a UTC day.
pub open spec fn valid_time(s: Seq<u8>) -> bool {
    &&& s.len() >= 9
    &&& s[2] == 0x3a
    &&& s[5] == 0x3a
    &&& two_digits(s, 0) is Some
    &&& two_digits(s, 3) is Some
    &&& two_digits(s, 6) is Some
    &&& two_digits(s, 0)->0 <= 23
    &&& two_digits(s, 3)->0 <= 59
    &&& two_digits(s, 6)->0 <= 60
    &&& s[8] == 0x2e ==> offset_start(s) > 9
    &&& offset_start(s) < s.len()
    &&& valid_offset(s, offset_start(s), two_digits(s, 0)->0, two_digits(s, 3)->0, two_digits(s, 6)->0)
}

/// `b` separates the date from the time in a date-time.
pub open spec fn is_separator(b: u8) -> bool {
    b == 0x54 || b == 0x74
}

/// `p` is the index of the first separator in `s`.
pub open spec fn first_separator(s: Seq<u8>, p: int) -> bool {
    &&& 0 <= p < s.len()
    &&& is_separator(s[p])
    &&& forall|j: int| 0 <= j < p ==> !is_separator(#[trigger] s[j])
}

/// `s` is a date and a time around the first `T` or `t` in it.
pub open spec fn valid_datetime(s: Seq<u8>) -> bool {
    exists|p: int|
        #![trigger first_separator(s, p)]
        first_separator(s, p) && valid_date(s.subrange(0, p)) && valid_time(
            s.subrange(p + 1, s.len() as int),
        )
}

/// `s` is a UUID in the hyphenated layout: 36 bytes, hyphens at the four
/// fixed places and hexadecimal digits everywhere else.
pub open spec fn valid_uuid(s: Seq<u8>) -> bool {
    &&& s.len() == 36
    &&& forall|i: int|
        0 <= i < 36 ==> if i == 8 || i == 13 || i == 18 || i == 23 {
            #[trigger] s[i] == 0x2d
        } else {
            is_hex_digit(s[i])
        }
}

/// Calls `uuid_simd::parse_hyphenated` and reports whether it succeeded. The
/// parser accepts exactly the inputs of 36 bytes with hyphens at offsets 8,
/// 13, 18 and 23 and a hexadecimal digit of either case at every other place.
#[verifier::external_body]
fn parse_hyphenated_ok(bytes: &[u8]) -> (ok: bool)
    ensures
        ok == valid_uuid(bytes@),
{
    let mut out: [u8; 16] = [0; 16];
    uuid_simd::parse_hyphenated(bytes, uuid_simd::Out::from_mut(&mut out)).is_ok()
}

/// Whether `uuid` is a hyphenated UUID.
pub fn is_valid_uuid(uuid: &str) -> (r: bool)
    ensures
        r == valid_uuid(uuid.spec_bytes()),
{
    parse_hyphenated_ok(uuid.as_bytes())
}

/// Reads the two digits at `bytes[at]` and `bytes[at + 1]`.
pub fn parse_two_digits(bytes: &[u8], at: usize) -> (r: Option<u8>)
    requires
        at + 1 < bytes.len(),
    ensures
        r is Some <==> two_digits(bytes@, at as int) is Some,
        r is Some ==> r->0 as int == two_digits(bytes@, at as int)->0,
{
    let hi: u8 = bytes[at];
    let lo: u8 = bytes[at + 1];
    if 0x30 <= hi && hi <= 0x39 && 0x30 <= lo && lo <= 0x39 {
        Some(10 * (hi - 0x30) + (lo - 0x30))
    } else {
        None
    }
}

/// Reads the four digits at `bytes[at] .. bytes[at + 3]`.
pub fn parse_four_digits(bytes: &[u8], at: usize) -> (r: Option<u16>)
    requires
        at + 3 < bytes.len(),
    ensures
        r is Some <==> four_digits(bytes@, at as int) is Some,
        r is Some ==> r->0 as int == four_digits(bytes@, at as int)->0,
{
    match (parse_two_digits(bytes, at), parse_two_digits(bytes, at + 2)) {
        (Some(hi), Some(lo)) => {
            let hi16: u16 = hi as u16;
            let lo16: u16 = lo as u16;
            Some(100 * hi16 + lo16)
        },
        _ => None,
    }
}

/// Whether `year` is a leap year.
pub fn is_leap_year(year: u16) -> (r: bool)
    ensures
        r == leap_year(year as int),
{
    (year % 4 == 0 && year % 100 != 0) || (year % 400 == 0)
}

/// Whether `bytes[start .. end]` is a calendar date.
fn date_in(bytes: &[u8], start: usize, end: usize) -> (r: bool)
    requires
        start <= end <= bytes.len(),
    ensures
        r == valid_date(bytes@.subrange(start as int, end as int)),
{
    let ghost s = bytes@.subrange(start as int, end as int);
    if end - start != 10 {
        return false;
    }
    assert(forall|k: int| 0 <= k < 10 ==> s[k] == bytes@[start + k]);
    if bytes[start + 4] != 0x2d || bytes[start + 7] != 0x2d {
        return false;
    }
    let year: u16 = match parse_four_digits(bytes, start) {
        Some(y) => y,
        None => {
            return false;
        },
    };
    let month: u8 = match parse_two_digits(bytes, start + 5) {
        Some(m) => m,
        None => {
            return false;
        },
    };
    if month < 1 || month > 12 {
        return false;
    }
    let day: u8 = match parse_two_digits(bytes, start + 8) {
        Some(d) => d,
        None => {
            return false;
        },
    };
    if day == 0 {
        return false;
    }
    if month == 2 {
        if is_leap_year(year) {
            day <= 29
        } else {
            day <= 28
        }
    } else if month == 4 || month == 6 || month == 9 || month == 11 {
        day <= 30
    } else {
        day <= 31
    }
}

/// Whether `date` is a calendar date `YYYY-MM-DD`.
pub fn is_valid_date(date: &str) -> (r: bool)
    ensures
        r == valid_date(date.spec_bytes()),
{
    let bytes = date.as_bytes();
    assert(bytes@.subrange(0, bytes@.len() as int) =~= bytes@);
    date_in(bytes, 0, bytes.len())
}

/// Whether the offset at `bytes[at .. end]`, read as a part of
/// `bytes[start .. end]`, closes a time with the given fields.
fn offset_in(bytes: &[u8], start: usize, at: usize, end: usize, hour: u8, minute: u8, second: u8) -> (r: bool)
    requires
        start <= at < end <= bytes.len(),
        hour <= 23,
        minute <= 59,
        second <= 60,
    ensures
        r == valid_offset(
            bytes@.subrange(start as int, end as int),
            at - start,
            hour as int,
            minute as int,
            second as int,
        ),
{
    let ghost s = bytes@.subrange(start as int, end as int);
    assert(forall|k: int| 0 <= k < end - start ==> s[k] == bytes@[start + k]);
    let local: i32 = (hour as i32) * 60 + (minute as i32);
    let sign: u8 = bytes[at];
    if sign == 0x5a || sign == 0x7a {
        at == end - 1 && (second != 60 || local == 1439)
    } else if sign == 0x2b || sign == 0x2d {
        if end - at != 6 {
            return false;
        }
        if bytes[at + 3] != 0x3a {
            return false;
        }
        let offset_hh: u8 = match parse_two_digits(bytes, at + 1) {
            Some(h) => h,
            None => {
                return false;
            },
        };
        let offset_mm: u8 = match parse_two_digits(bytes, at + 4) {
            Some(m) => m,
            None => {
                return false;
            },
        };
        if offset_hh > 23 || offset_mm > 59 {
            return false;
        }
        if second == 60 {
            let offset: i32 = (offset_hh as i32) * 60 + (offset_mm as i32);
            let utc: i32 = if sign == 0x2b {
                (local - offset + 1440) % 1440
            } else {
                (local + offset) % 1440
            };
            utc == 1439
        } else {
            true
        }
    } else {
        false
    }
}

/// Whether `bytes[start .. end]` is a time of day with an offset.
fn time_in(bytes: &[u8], start: usize, end: usize) -> (r: bool)
    requires
        start <= end <= bytes.len(),
    ensures
        r == valid_time(bytes@.subrange(start as int, end as int)),
{
    let ghost s = bytes@.subrange(start as int, end as int);
    if end - start < 9 {
        return false;
    }
    assert(forall|k: int| 0 <= k < end - start ==> s[k] == bytes@[start + k]);
    if bytes[start + 2] != 0x3a || bytes[start + 5] != 0x3a {
        return false;
    }
    let hour: u8 = match parse_two_digits(bytes, start) {
        Some(h) => h,
        None => {
            return false;
        },
    };
    let minute: u8 = match parse_two_digits(bytes, start + 3) {
        Some(m) => m,
        None => {
            return false;
        },
    };
    let second: u8 = match parse_two_digits(bytes, start + 6) {
        Some(sec) => sec,
        None => {
            return false;
        },
    };
    if hour > 23 || minute > 59 || second > 60 {
        return false;
    }
    let mut i: usize = start + 8;
    if bytes[i] == 0x2e {
        i = i + 1;
        while i < end && 0x30 <= bytes[i] && bytes[i] <= 0x39
            invariant
                start + 9 <= i <= end <= bytes.len(),
                s == bytes@.subrange(start as int, end as int),
                digits_end(s, 9) == digits_end(s, i - start),
            decreases end - i,
        {
            assert(s[i - start] == bytes@[i as int]);
            i = i + 1;
        }
        assert(i < end ==> s[i - start] == bytes@[i as int]);
        assert(digits_end(s, 9) == i - start);
        if i == start + 9 {
            return false;
        }
    }
    if i == end {
        return false;
    }
    offset_in(bytes, start, i, end, hour, minute, second)
}

/// Whether `time` is a time of day `HH:MM:SS`, with an optional fraction and
/// a mandatory offset.
pub fn is_valid_time(time: &str) -> (r: bool)
    ensures
        r == valid_time(time.spec_bytes()),
{
    let bytes = time.as_bytes();
    assert(bytes@.subrange(0, bytes@.len() as int) =~= bytes@);
    time_in(bytes, 0, bytes.len())
}

/// Whether `datetime` is a date and a time around the first `T` or `t`.
pub fn is_valid_datetime(datetime: &str) -> (r: bool)
    ensures
        r == valid_datetime(datetime.spec_bytes()),
{
    let bytes = datetime.as_bytes();
    let len: usize = bytes.len();
    let mut p: usize = 0;
    while p < len && bytes[p] != 0x54 && bytes[p] != 0x74
        invariant
            p <= len == bytes.len(),
            forall|j: int| 0 <= j < p ==> !is_separator(#[trigger] bytes@[j]),
        decreases len - p,
    {
        p = p + 1;
    }
    if p == len {
        assert(forall|q: int| !first_separator(bytes@, q));
        return false;
    }
    assert(first_separator(bytes@, p as int));
    assert(forall|q: int| first_separator(bytes@, q) ==> q == p);
    date_in(bytes, 0, p) && time_in(bytes, p + 1, len)
}

} // verus!
