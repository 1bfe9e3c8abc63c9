//! Timestamps, dates and times of day: reading and writing PostgreSQL's text
//! form, as microseconds.

use vstd::prelude::*;
use vstd::slice::slice_subrange;
use vstd::string::*;
use crate::calendar::{
    civil_date, civil_days, date_to_epoch_days, epoch_days_to_date, lemma_near_year,
};
use crate::decimal::{append_digits, append_padded, digit_char, digits, padded, pow10};
use crate::search::{first_where, lemma_first_is, lemma_first_none};
use crate::trim::{trim, trimmed};

verus! {

pub const USEC_PER_SEC: i64 = 1_000_000;

pub const USEC_PER_MINUTE: i64 = 60_000_000;

pub const USEC_PER_HOUR: i64 = 3_600_000_000;

pub const USEC_PER_DAY: i64 = 86_400_000_000;

// ---------------------------------------------------------------------------
// Digits
// ---------------------------------------------------------------------------

pub open spec fn is_digit(b: u8) -> bool {
    0x30 <= b <= 0x39
}

pub open spec fn all_digits(s: Seq<u8>) -> bool {
    forall|i: int| 0 <= i < s.len() ==> is_digit(#[trigger] s[i])
}

/// The number that decimal digits stand for.
pub open spec fn value(s: Seq<u8>) -> int
    decreases s.len(),
{
    if s.len() == 0 {
        0
    } else {
        10 * value(s.drop_last()) + (s.last() - 0x30)
    }
}

/// The number in the bytes from `i` to `j`.
pub open spec fn value_at(s: Seq<u8>, i: int, j: int) -> int {
    value(s.subrange(i, j))
}

pub open spec fn digits_at(s: Seq<u8>, i: int, j: int) -> bool {
    j <= s.len() && all_digits(s.subrange(i, j))
}

pub proof fn lemma_value_bound(s: Seq<u8>)
    requires
        all_digits(s),
    ensures
        0 <= value(s) < pow10(s.len()),
    decreases s.len(),
{
    if s.len() > 0 {
        assert(all_digits(s.drop_last()));
        lemma_value_bound(s.drop_last());
        assert(is_digit(s[s.len() - 1]));
    }
}

/// The number of some of the first digits is no larger than that of all.
proof fn lemma_value_of_front(s: Seq<u8>, i: int)
    requires
        all_digits(s),
        0 <= i <= s.len(),
    ensures
        0 <= value(s.subrange(0, i)) <= value(s),
    decreases s.len(),
{
    if i < s.len() {
        let t = s.drop_last();
        assert(all_digits(t)) by {
            assert forall|k: int| 0 <= k < t.len() implies is_digit(#[trigger] t[k]) by {
                assert(is_digit(s[k]));
            }
        }
        lemma_value_of_front(t, i);
        assert(t.subrange(0, i) =~= s.subrange(0, i));
        assert(is_digit(s[s.len() - 1]));
    } else {
        assert(s.subrange(0, i) =~= s);
        lemma_value_bound(s);
    }
}

/// The number that decimal digits stand for, where it has 32 bits.
pub fn parse_int_fast(bytes: &[u8]) -> (r: u32)
    requires
        all_digits(bytes@),
        value(bytes@) <= u32::MAX,
    ensures
        r == value(bytes@),
{
    let n: usize = bytes.len();
    let mut result: u32 = 0;
    let mut i: usize = 0;
    assert(bytes@.subrange(0, 0) =~= Seq::<u8>::empty());
    while i < n
        invariant
            i <= n == bytes@.len(),
            all_digits(bytes@),
            value(bytes@) <= u32::MAX,
            result == value(bytes@.subrange(0, i as int)),
        decreases n - i,
    {
        let ghost t = bytes@.subrange(0, i + 1);
        assert(t.drop_last() =~= bytes@.subrange(0, i as int));
        proof {
            lemma_value_of_front(bytes@, i + 1);
        }
        assert(is_digit(bytes@[i as int]));
        result = result * 10 + (bytes[i] - 0x30) as u32;
        i += 1;
    }
    assert(bytes@.subrange(0, i as int) =~= bytes@);
    result
}

proof fn lemma_pow10_mono(m: nat, n: nat)
    requires
        m <= n <= 9,
    ensures
        pow10(m) <= pow10(n) <= 1_000_000_000,
{
    reveal_with_fuel(pow10, 11);
    if m < n {
        lemma_pow10_step(m, n);
    }
    if n < 9 {
        lemma_pow10_step(n, 9);
    }
}

proof fn lemma_pow10_step(m: nat, n: nat)
    requires
        m <= n,
    ensures
        1 <= pow10(m) <= pow10(n),
    decreases n,
{
    if m < n {
        lemma_pow10_step(m, (n - 1) as nat);
    } else if m > 0 {
        lemma_pow10_step((m - 1) as nat, (m - 1) as nat);
    }
}

fn number_at(b: &[u8], i: usize, j: usize) -> (r: u32)
    requires
        i <= j <= i + 9,
        digits_at(b@, i as int, j as int),
    ensures
        r == value_at(b@, i as int, j as int),
{
    proof {
        let s = b@.subrange(i as int, j as int);
        lemma_value_bound(s);
        lemma_pow10_mono(s.len(), 9);
    }
    parse_int_fast(slice_subrange(b, i, j))
}

// ---------------------------------------------------------------------------
// Reading timestamps
// ---------------------------------------------------------------------------

/// Whether `s` starts with a date `YYYY-MM-DD`. A zeroth of March is none.
pub open spec fn is_date(s: Seq<u8>) -> bool {
    &&& s.len() >= 10
    &&& digits_at(s, 0, 4)
    &&& digits_at(s, 5, 7)
    &&& digits_at(s, 8, 10)
    &&& value_at(s, 5, 7) != 3 || value_at(s, 8, 10) != 0
}

/// Days from 1970-01-01 to the date that `s` starts with.
pub open spec fn date_days(s: Seq<u8>) -> int {
    civil_days(value_at(s, 0, 4), value_at(s, 5, 7), value_at(s, 8, 10))
}

/// Where the digits that start at `i` end.
pub open spec fn digits_end(s: Seq<u8>, i: int) -> int
    decreases s.len() - i,
{
    if 0 <= i < s.len() && is_digit(s[i]) {
        digits_end(s, i + 1)
    } else {
        i
    }
}

/// Where the time zone starts, behind `HH:MM:SS` and a fraction.
pub open spec fn zone_start(s: Seq<u8>) -> Option<int> {
    let i = if 8 < s.len() && s[8] == 0x2e {
        digits_end(s, 9)
    } else {
        8
    };
    if i < s.len() && (s[i] == 0x2b || s[i] == 0x2d) {
        Some(i)
    } else {
        None
    }
}

/// The first six digits of a fraction, filled up with zeros on the right.
pub open spec fn six_digits(s: Seq<u8>) -> Seq<u8> {
    Seq::new(
        6,
        |i: int|
            if i < s.len() {
                s[i]
            } else {
                0x30u8
            },
    )
}

/// Microseconds of a fraction of a second.
pub open spec fn fraction_usec(s: Seq<u8>) -> int {
    value(six_digits(s))
}

/// The digits behind the point of `HH:MM:SS.ffffff`.
pub open spec fn fraction(s: Seq<u8>) -> Seq<u8> {
    if s.len() > 8 && s[8] == 0x2e {
        s.subrange(9, s.len() as int)
    } else {
        Seq::empty()
    }
}

/// Whether `s` is a time of day `HH:MM:SS`, perhaps with a fraction.
pub open spec fn is_time(s: Seq<u8>) -> bool {
    &&& s.len() >= 8
    &&& digits_at(s, 0, 2)
    &&& digits_at(s, 3, 5)
    &&& digits_at(s, 6, 8)
    &&& all_digits(six_digits(fraction(s)))
}

/// Microseconds from midnight.
pub open spec fn time_usec(s: Seq<u8>) -> int {
    value_at(s, 0, 2) * USEC_PER_HOUR + value_at(s, 3, 5) * USEC_PER_MINUTE + value_at(s, 6, 8)
        * USEC_PER_SEC + fraction_usec(fraction(s))
}

/// Whether `s` is a time zone `+HH`, `+HH:MM` or `+HHMM`, with either sign.
pub open spec fn is_zone(s: Seq<u8>) -> bool {
    &&& s.len() >= 3
    &&& digits_at(s, 1, 3)
    &&& s.len() >= 6 && s[3] == 0x3a ==> digits_at(s, 4, 6)
    &&& s.len() >= 5 && s[3] != 0x3a ==> digits_at(s, 3, 5)
}

/// Minutes of a time zone besides its hours.
pub open spec fn zone_minutes(s: Seq<u8>) -> int {
    if s.len() >= 6 && s[3] == 0x3a {
        value_at(s, 4, 6)
    } else if s.len() >= 5 && s[3] != 0x3a {
        value_at(s, 3, 5)
    } else {
        0
    }
}

/// Microseconds by which a time zone is ahead of UTC.
pub open spec fn zone_usec(s: Seq<u8>) -> int {
    let ahead = value_at(s, 1, 3) * USEC_PER_HOUR + zone_minutes(s) * USEC_PER_MINUTE;
    if s[0] == 0x2d {
        -ahead
    } else {
        ahead
    }
}

/// Whether `s` is a time of day, perhaps with a time zone.
pub open spec fn is_zoned_time(s: Seq<u8>) -> bool {
    match zone_start(s) {
        Some(i) => is_time(s.subrange(0, i)) && is_zone(s.subrange(i, s.len() as int)),
        None => is_time(s),
    }
}

/// Microseconds from midnight UTC of a time of day with its time zone.
pub open spec fn zoned_time_usec(s: Seq<u8>) -> int {
    match zone_start(s) {
        Some(i) => time_usec(s.subrange(0, i)) - zone_usec(s.subrange(i, s.len() as int)),
        None => time_usec(s),
    }
}

pub open spec fn is_blank() -> spec_fn(u8) -> bool {
    |b: u8| b == 0x20
}

/// Where the time of day starts less one: at the first blank, or at a `T`
/// behind the date.
pub open spec fn separator(s: Seq<u8>) -> Option<int> {
    match first_where(s, is_blank()) {
        Some(i) => Some(i),
        None => if s.len() > 10 && s[10] == 0x54 {
            Some(10int)
        } else {
            None
        },
    }
}

/// Whether `s` is a date, perhaps with a time of day.
pub open spec fn is_timestamp(s: Seq<u8>) -> bool {
    match separator(s) {
        Some(i) => is_date(s.subrange(0, i)) && is_zoned_time(s.subrange(i + 1, s.len() as int)),
        None => is_date(s),
    }
}

/// Microseconds from 1970-01-01 00:00:00 UTC.
pub open spec fn timestamp_usec(s: Seq<u8>) -> int {
    match separator(s) {
        Some(i) => date_days(s.subrange(0, i)) * USEC_PER_DAY + zoned_time_usec(
            s.subrange(i + 1, s.len() as int),
        ),
        None => date_days(s) * USEC_PER_DAY,
    }
}

/// The bytes of a text without the white space around it.
pub open spec fn text_bytes(s: Seq<char>) -> Seq<u8> {
    vstd::utf8::encode_utf8(trimmed(s))
}

/// Year, month and day of a date `YYYY-MM-DD`.
fn parse_date_part(b: &[u8]) -> (r: (i32, u32, u32))
    requires
        is_date(b@),
    ensures
        r.0 == value_at(b@, 0, 4),
        r.1 == value_at(b@, 5, 7),
        r.2 == value_at(b@, 8, 10),
        0 <= r.0 < 10_000,
        r.1 < 100,
        r.2 < 100,
{
    proof {
        reveal_with_fuel(pow10, 5);
        lemma_value_bound(b@.subrange(0, 4));
        lemma_value_bound(b@.subrange(5, 7));
        lemma_value_bound(b@.subrange(8, 10));
    }
    let year: u32 = number_at(b, 0, 4);
    (year as i32, number_at(b, 5, 7), number_at(b, 8, 10))
}

/// Microseconds of a fraction of a second, given by its digits.
pub fn parse_fractional_usec(d: &[u8]) -> (r: i64)
    requires
        all_digits(six_digits(d@)),
    ensures
        r == fraction_usec(d@),
        0 <= r < 1_000_000,
{
    let ghost six = six_digits(d@);
    let mut result: i64 = 0;
    let mut i: usize = 0;
    assert(six.subrange(0, 0) =~= Seq::<u8>::empty());
    while i < 6
        invariant
            i <= 6,
            six == six_digits(d@),
            all_digits(six),
            result == value(six.subrange(0, i as int)),
        decreases 6 - i,
    {
        let b: u8 = if i < d.len() {
            d[i]
        } else {
            0x30
        };
        let ghost t = six.subrange(0, i + 1);
        assert(t.drop_last() =~= six.subrange(0, i as int));
        assert(six[i as int] == b);
        assert(is_digit(b));
        assert(all_digits(t)) by {
            assert forall|k: int| 0 <= k < t.len() implies is_digit(#[trigger] t[k]) by {
                assert(is_digit(six[k]));
            }
        }
        proof {
            lemma_value_bound(t);
            lemma_pow10_mono(t.len(), 9);
        }
        result = result * 10 + (b - 0x30) as i64;
        i += 1;
    }
    assert(six.subrange(0, i as int) =~= six);
    proof {
        reveal_with_fuel(pow10, 7);
        lemma_value_bound(six);
    }
    result
}

/// Microseconds from midnight of `HH:MM:SS[.ffffff]`.
pub fn parse_time_part(b: &[u8]) -> (r: i64)
    requires
        is_time(b@),
    ensures
        r == time_usec(b@),
        0 <= r < 1_000_000_000_000,
{
    proof {
        reveal_with_fuel(pow10, 3);
        lemma_value_bound(b@.subrange(0, 2));
        lemma_value_bound(b@.subrange(3, 5));
        lemma_value_bound(b@.subrange(6, 8));
    }
    let hours: i64 = number_at(b, 0, 2) as i64;
    let minutes: i64 = number_at(b, 3, 5) as i64;
    let seconds: i64 = number_at(b, 6, 8) as i64;
    let n: usize = b.len();
    let frac: i64 = if n > 8 && b[8] == 0x2e {
        parse_fractional_usec(slice_subrange(b, 9, n))
    } else {
        let none: [u8; 0] = [];
        assert(none@ =~= Seq::<u8>::empty());
        parse_fractional_usec(&none)
    };
    hours * USEC_PER_HOUR + minutes * USEC_PER_MINUTE + seconds * USEC_PER_SEC + frac
}

/// Microseconds by which a time zone is ahead of UTC.
pub fn parse_tz_offset(b: &[u8]) -> (r: i64)
    requires
        is_zone(b@),
    ensures
        r == zone_usec(b@),
        -1_000_000_000_000 < r < 1_000_000_000_000,
{
    let n: usize = b.len();
    proof {
        reveal_with_fuel(pow10, 3);
        lemma_value_bound(b@.subrange(1, 3));
    }
    let hours: i64 = number_at(b, 1, 3) as i64;
    let minutes: i64 = if n >= 6 && b[3] == 0x3a {
        proof {
            lemma_value_bound(b@.subrange(4, 6));
        }
        number_at(b, 4, 6) as i64
    } else if n >= 5 && b[3] != 0x3a {
        proof {
            lemma_value_bound(b@.subrange(3, 5));
        }
        number_at(b, 3, 5) as i64
    } else {
        0
    };
    let ahead: i64 = hours * USEC_PER_HOUR + minutes * USEC_PER_MINUTE;
    if b[0] == 0x2d {
        -ahead
    } else {
        ahead
    }
}

/// Where the time zone starts in a time of day.
fn find_tz_split(b: &[u8]) -> (r: Option<usize>)
    ensures
        match r {
            Some(i) => zone_start(b@) == Some(i as int) && i < b@.len(),
            None => zone_start(b@) is None,
        },
{
    let n: usize = b.len();
    let mut i: usize = 8;
    if i < n && b[i] == 0x2e {
        i = 9;
        while i < n && 0x30 <= b[i] && b[i] <= 0x39
            invariant
                9 <= i <= n == b@.len(),
                digits_end(b@, 9) == digits_end(b@, i as int),
            decreases n - i,
        {
            i += 1;
        }
    }
    if i < n && (b[i] == 0x2b || b[i] == 0x2d) {
        Some(i)
    } else {
        None
    }
}

/// Microseconds from midnight UTC of a time of day with its time zone.
fn parse_time_and_tz(b: &[u8]) -> (r: i64)
    requires
        is_zoned_time(b@),
    ensures
        r == zoned_time_usec(b@),
        -2_000_000_000_000 < r < 2_000_000_000_000,
{
    match find_tz_split(b) {
        Some(i) => {
            let t: i64 = parse_time_part(slice_subrange(b, 0, i));
            let z: i64 = parse_tz_offset(slice_subrange(b, i, b.len()));
            t - z
        },
        None => parse_time_part(b),
    }
}

fn find_separator(b: &[u8]) -> (r: Option<usize>)
    ensures
        match r {
            Some(i) => separator(b@) == Some(i as int) && i < b@.len(),
            None => separator(b@) is None,
        },
{
    let n: usize = b.len();
    let mut i: usize = 0;
    while i < n
        invariant
            i <= n == b@.len(),
            forall|j: int| 0 <= j < i ==> b@[j] != 0x20,
        decreases n - i,
    {
        if b[i] == 0x20 {
            proof {
                lemma_first_is(b@, is_blank(), i as int);
            }
            return Some(i);
        }
        i += 1;
    }
    proof {
        lemma_first_none(b@, is_blank());
    }
    if n > 10 && b[10] == 0x54 {
        Some(10)
    } else {
        None
    }
}

/// Microseconds from 1970-01-01 00:00:00 UTC of a timestamp or date in
/// PostgreSQL's text form: a date `YYYY-MM-DD`, perhaps with a time of day
/// `HH:MM:SS[.ffffff]` and a time zone `+HH[[:]MM]`. Without a time zone it is UTC.
pub fn parse_timestamp_to_usec(s: &str) -> (r: i64)
    requires
        is_timestamp(text_bytes(s@)),
    ensures
        r == timestamp_usec(text_bytes(s@)),
{
    let t = trim(s);
    let b = t.as_bytes();
    let n: usize = b.len();
    assert(b@ == text_bytes(s@));
    match find_separator(b) {
        Some(i) => {
            let (year, month, day) = parse_date_part(slice_subrange(b, 0, i));
            let days: i64 = date_to_epoch_days(year, month, day);
            let time: i64 = parse_time_and_tz(slice_subrange(b, i + 1, n));
            days * USEC_PER_DAY + time
        },
        None => {
            let (year, month, day) = parse_date_part(b);
            let days: i64 = date_to_epoch_days(year, month, day);
            days * USEC_PER_DAY
        },
    }
}

// ---------------------------------------------------------------------------
// Reading times of day
// ---------------------------------------------------------------------------

/// The number that a numeral with an optional sign stands for, where it fits in
/// 64 bits.
pub open spec fn signed_number(s: Seq<u8>) -> Option<int> {
    let signed = s.len() > 0 && (s[0] == 0x2b || s[0] == 0x2d);
    let d = if signed {
        s.subrange(1, s.len() as int)
    } else {
        s
    };
    let v = if signed && s[0] == 0x2d {
        -value(d)
    } else {
        value(d)
    };
    if d.len() > 0 && all_digits(d) && i64::MIN <= v <= i64::MAX {
        Some(v)
    } else {
        None
    }
}

pub open spec fn is_byte(b: u8) -> spec_fn(u8) -> bool {
    |x: u8| x == b
}

/// What comes before the first `b`, and what comes behind it.
pub open spec fn split_once(s: Seq<u8>, b: u8) -> Option<(Seq<u8>, Seq<u8>)> {
    match first_where(s, is_byte(b)) {
        Some(i) => Some((s.subrange(0, i), s.subrange(i + 1, s.len() as int))),
        None => None,
    }
}

/// Hours, minutes, seconds and microseconds.
pub struct ClockView {
    pub hours: int,
    pub minutes: int,
    pub seconds: int,
    pub usec: int,
}

/// Seconds and microseconds of `SS[.ffffff]`.
pub open spec fn seconds_of(s: Seq<u8>) -> Option<(int, int)> {
    match split_once(s, 0x2e) {
        None => match signed_number(s) {
            Some(n) => Some((n, 0int)),
            None => None,
        },
        Some((whole, frac)) => match signed_number(whole) {
            Some(n) => if all_digits(frac) {
                Some((n, fraction_usec(frac)))
            } else {
                None
            },
            None => None,
        },
    }
}

/// Minutes, seconds and microseconds of `MM[:SS[.ffffff]]`.
pub open spec fn minutes_of(s: Seq<u8>) -> Option<(int, int, int)> {
    match split_once(s, 0x3a) {
        None => match signed_number(s) {
            Some(m) => Some((m, 0int, 0int)),
            None => None,
        },
        Some((minutes, rest)) => match (signed_number(minutes), seconds_of(rest)) {
            (Some(m), Some((sec, usec))) => Some((m, sec, usec)),
            _ => None,
        },
    }
}

/// What the fields of `HH:MM[:SS[.ffffff]]` say.
pub open spec fn clock_of(s: Seq<u8>) -> Option<ClockView> {
    match split_once(s, 0x3a) {
        None => None,
        Some((hours, rest)) => match (signed_number(hours), minutes_of(rest)) {
            (Some(h), Some((m, sec, usec))) => Some(
                ClockView { hours: h, minutes: m, seconds: sec, usec },
            ),
            _ => None,
        },
    }
}

impl ClockView {
    /// Whether this is a time of day. The last one is 24:00:00, and a minute may
    /// have a sixtieth second.
    pub open spec fn in_range(self) -> bool {
        &&& 0 <= self.hours <= 24
        &&& 0 <= self.minutes < 60
        &&& 0 <= self.seconds <= 60
        &&& self.hours == 24 ==> self.minutes == 0 && self.seconds == 0 && self.usec == 0
    }

    pub open spec fn total(self) -> int {
        (self.hours * 3600 + self.minutes * 60 + self.seconds) * 1_000_000 + self.usec
    }
}

/// What reading a time of day gives: its microseconds, or a message.
pub open spec fn parsed_time(s: Seq<char>) -> Result<int, Seq<char>> {
    match clock_of(text_bytes(s)) {
        None => Err("invalid time: "@ + trimmed(s)),
        Some(c) => if c.in_range() {
            Ok(c.total())
        } else {
            Err("time out of range: "@ + trimmed(s))
        },
    }
}

fn digits_only(b: &[u8]) -> (r: bool)
    ensures
        r == all_digits(b@),
{
    let n: usize = b.len();
    let mut i: usize = 0;
    while i < n
        invariant
            i <= n == b@.len(),
            forall|k: int| 0 <= k < i ==> is_digit(#[trigger] b@[k]),
        decreases n - i,
    {
        if b[i] < 0x30 || b[i] > 0x39 {
            assert(!is_digit(b@[i as int]));
            return false;
        }
        i += 1;
    }
    true
}

proof fn lemma_value_of_prefix(s: Seq<u8>, i: int)
    requires
        all_digits(s),
        0 <= i <= s.len(),
    ensures
        0 <= value(s.subrange(0, i)) <= value(s),
    decreases s.len() - i,
{
    let t = s.subrange(0, i);
    assert(all_digits(t)) by {
        assert forall|k: int| 0 <= k < t.len() implies is_digit(#[trigger] t[k]) by {
            assert(is_digit(s[k]));
        }
    }
    lemma_value_bound(t);
    if i < s.len() {
        lemma_value_of_prefix(s, i + 1);
        assert(s.subrange(0, i + 1).drop_last() =~= t);
        assert(is_digit(s[i]));
    } else {
        assert(t =~= s);
    }
}

/// The number that decimal digits stand for, where it fits.
fn parse_magnitude(b: &[u8]) -> (r: Option<i128>)
    requires
        all_digits(b@),
    ensures
        match r {
            Some(v) => v == value(b@) && 0 <= v <= 0x8000_0000_0000_0000,
            None => value(b@) > 0x8000_0000_0000_0000,
        },
{
    let n: usize = b.len();
    let mut result: i128 = 0;
    let mut i: usize = 0;
    assert(b@.subrange(0, 0) =~= Seq::<u8>::empty());
    while i < n
        invariant
            i <= n == b@.len(),
            all_digits(b@),
            result == value(b@.subrange(0, i as int)),
            0 <= result <= 0x8000_0000_0000_0000,
        decreases n - i,
    {
        assert(b@.subrange(0, i + 1).drop_last() =~= b@.subrange(0, i as int));
        assert(is_digit(b@[i as int]));
        proof {
            lemma_value_of_prefix(b@, i + 1);
        }
        result = result * 10 + (b[i] - 0x30) as i128;
        if result > 0x8000_0000_0000_0000 {
            return None;
        }
        i += 1;
    }
    assert(b@.subrange(0, i as int) =~= b@);
    Some(result)
}

fn parse_signed(b: &[u8]) -> (r: Option<i64>)
    ensures
        match r {
            Some(v) => signed_number(b@) == Some(v as int),
            None => signed_number(b@) is None,
        },
{
    let n: usize = b.len();
    let signed: bool = n > 0 && (b[0] == 0x2b || b[0] == 0x2d);
    let d = if signed {
        slice_subrange(b, 1, n)
    } else {
        b
    };
    if d.len() == 0 || !digits_only(d) {
        return None;
    }
    match parse_magnitude(d) {
        None => None,
        Some(m) => {
            let v: i128 = if signed && b[0] == 0x2d {
                -m
            } else {
                m
            };
            if v <= 0x7fff_ffff_ffff_ffff {
                Some(v as i64)
            } else {
                None
            }
        },
    }
}

fn split_at<'a>(s: &'a [u8], b: u8) -> (r: Option<(&'a [u8], &'a [u8])>)
    ensures
        match r {
            Some(p) => split_once(s@, b) == Some((p.0@, p.1@)),
            None => split_once(s@, b) is None,
        },
{
    let n: usize = s.len();
    let mut i: usize = 0;
    while i < n
        invariant
            i <= n == s@.len(),
            forall|j: int| 0 <= j < i ==> s@[j] != b,
        decreases n - i,
    {
        if s[i] == b {
            proof {
                lemma_first_is(s@, is_byte(b), i as int);
            }
            return Some((slice_subrange(s, 0, i), slice_subrange(s, i + 1, n)));
        }
        i += 1;
    }
    proof {
        lemma_first_none(s@, is_byte(b));
    }
    None
}

fn parse_seconds(s: &[u8]) -> (r: Option<(i64, i64)>)
    ensures
        match r {
            Some(p) => seconds_of(s@) == Some((p.0 as int, p.1 as int)) && 0 <= p.1 < 1_000_000,
            None => seconds_of(s@) is None,
        },
{
    match split_at(s, 0x2e) {
        None => match parse_signed(s) {
            Some(n) => Some((n, 0)),
            None => None,
        },
        Some((whole, frac)) => match parse_signed(whole) {
            Some(n) => if digits_only(frac) {
                proof {
                    lemma_six_digits(frac@);
                }
                Some((n, parse_fractional_usec(frac)))
            } else {
                None
            },
            None => None,
        },
    }
}

proof fn lemma_six_digits(s: Seq<u8>)
    requires
        all_digits(s),
    ensures
        all_digits(six_digits(s)),
{
    let six = six_digits(s);
    assert forall|i: int| 0 <= i < six.len() implies is_digit(#[trigger] six[i]) by {
        if i < s.len() {
            assert(is_digit(s[i]));
        }
    }
}

fn parse_minutes(s: &[u8]) -> (r: Option<(i64, i64, i64)>)
    ensures
        match r {
            Some(p) => minutes_of(s@) == Some((p.0 as int, p.1 as int, p.2 as int)) && 0 <= p.2
                < 1_000_000,
            None => minutes_of(s@) is None,
        },
{
    match split_at(s, 0x3a) {
        None => match parse_signed(s) {
            Some(m) => Some((m, 0, 0)),
            None => None,
        },
        Some((minutes, rest)) => match (parse_signed(minutes), parse_seconds(rest)) {
            (Some(m), Some((sec, usec))) => Some((m, sec, usec)),
            _ => None,
        },
    }
}

fn parse_clock(s: &[u8]) -> (r: Option<(i64, i64, i64, i64)>)
    ensures
        match r {
            Some(p) => clock_of(s@) == Some(
                (ClockView {
                    hours: p.0 as int,
                    minutes: p.1 as int,
                    seconds: p.2 as int,
                    usec: p.3 as int,
                }),
            ) && 0 <= p.3 < 1_000_000,
            None => clock_of(s@) is None,
        },
{
    match split_at(s, 0x3a) {
        None => None,
        Some((hours, rest)) => match (parse_signed(hours), parse_minutes(rest)) {
            (Some(h), Some((m, sec, usec))) => Some((h, m, sec, usec)),
            _ => None,
        },
    }
}

fn message(what: &str, s: &str) -> (r: String)
    ensures
        r@ == what@ + s@,
{
    let mut out = what.to_owned();
    out.append(s);
    out
}

/// Microseconds from midnight of a time of day `HH:MM:SS[.ffffff]` or `HH:MM`.
pub fn parse_time_to_usec(s: &str) -> (r: Result<i64, String>)
    ensures
        match r {
            Ok(v) => parsed_time(s@) == Ok::<int, Seq<char>>(v as int),
            Err(e) => parsed_time(s@) == Err::<int, Seq<char>>(e@),
        },
{
    let t = trim(s);
    let b = t.as_bytes();
    assert(b@ == text_bytes(s@));
    let (hours, minutes, seconds, usec): (i64, i64, i64, i64) = match parse_clock(b) {
        None => return Err(message("invalid time: ", t)),
        Some(c) => c,
    };
    if hours < 0 || hours > 24 || minutes < 0 || minutes >= 60 || seconds < 0 || seconds > 60 || (
    hours == 24 && (minutes != 0 || seconds != 0 || usec != 0)) {
        return Err(message("time out of range: ", t));
    }
    Ok((hours * 3600 + minutes * 60 + seconds) * 1_000_000 + usec)
}

// ---------------------------------------------------------------------------
// Writing
// ---------------------------------------------------------------------------

/// The digits of a fraction of a second without the zeros at the end.
pub open spec fn without_zeros(s: Seq<char>) -> Seq<char>
    decreases s.len(),
{
    if s.len() > 0 && s.last() == '0' {
        without_zeros(s.drop_last())
    } else {
        s
    }
}

pub open spec fn date_text(days: int) -> Seq<char> {
    let (y, m, d) = civil_date(days);
    padded(y, 4) + seq!['-'] + padded(m, 2) + seq!['-'] + padded(d, 2)
}

/// `HH:MM:SS`, and the fraction where there is one.
pub open spec fn clock_text(hours: int, minutes: int, seconds: int, usec: int) -> Seq<char> {
    let clock = padded(hours, 2) + seq![':'] + padded(minutes, 2) + seq![':'] + padded(seconds, 2);
    if usec > 0 {
        clock + seq!['.'] + without_zeros(digits(usec as nat, 6))
    } else {
        clock
    }
}

/// `-n` where the sign is negative, else `n`.
pub open spec fn with_sign(negative: bool, n: int) -> int {
    if negative {
        -n
    } else {
        n
    }
}

/// The text of a time of day. A negative one has its hours, minutes and seconds
/// each negative, and no fraction.
pub open spec fn time_text(usec: int) -> Seq<char> {
    let negative = usec < 0;
    let a = with_sign(negative, usec);
    clock_text(
        with_sign(negative, a / USEC_PER_HOUR as int),
        with_sign(negative, a / USEC_PER_MINUTE as int % 60),
        with_sign(negative, a / USEC_PER_SEC as int % 60),
        with_sign(negative, a % USEC_PER_SEC as int),
    )
}

/// The text of a timestamp, in UTC.
pub open spec fn timestamp_text(usec: int) -> Seq<char> {
    date_text(usec / USEC_PER_DAY as int) + seq![' '] + time_text(usec % USEC_PER_DAY as int)
        + seq!['+', '0', '0']
}

fn append_date(out: &mut String, days: i64)
    requires
        -1_000_000_000 <= days <= 1_000_000_000,
    ensures
        final(out)@ == old(out)@ + date_text(days as int),
{
    let ghost base = out@;
    proof {
        lemma_near_year(days as int);
    }
    let (year, month, day) = epoch_days_to_date(days);
    proof {
        reveal_strlit("-");
    }
    append_padded(out, year as i64, 4);
    out.append("-");
    append_padded(out, month as i64, 2);
    out.append("-");
    append_padded(out, day as i64, 2);
    assert(out@ =~= base + date_text(days as int));
}

/// Appends the digits of a fraction of a second without the zeros at the end.
fn append_fraction(out: &mut String, usec: u64)
    requires
        0 < usec < 1_000_000,
    ensures
        final(out)@ == old(out)@ + without_zeros(digits(usec as nat, 6)),
{
    let mut n: u64 = usec;
    let mut width: usize = 6;
    proof {
        reveal_with_fuel(pow10, 7);
    }
    while n % 10 == 0
        invariant
            width <= 6,
            0 < n < pow10(width as nat),
            without_zeros(digits(usec as nat, 6)) == without_zeros(digits(n as nat, width as nat)),
        decreases width,
    {
        let ghost before = digits(n as nat, width as nat);
        proof {
            if width == 0 {
                reveal_with_fuel(pow10, 1);
            }
        }
        assert(before.drop_last() =~= digits((n / 10) as nat, (width - 1) as nat));
        assert(before.last() == '0');
        n = n / 10;
        width = width - 1;
    }
    proof {
        if width == 0 {
            reveal_with_fuel(pow10, 1);
        }
    }
    assert(digits(n as nat, width as nat).last() == digit_char((n % 10) as int));
    append_digits(out, n, width);
}

fn append_time(out: &mut String, usec: i64)
    ensures
        final(out)@ == old(out)@ + time_text(usec as int),
{
    let ghost base = out@;
    let negative: bool = usec < 0;
    let a: u64 = if negative {
        (-(usec as i128)) as u64
    } else {
        usec as u64
    };
    let hours: i64 = (a / 3_600_000_000) as i64;
    let minutes: i64 = (a / 60_000_000 % 60) as i64;
    let seconds: i64 = (a / 1_000_000 % 60) as i64;
    let rest: u64 = a % 1_000_000;
    proof {
        reveal_strlit(":");
        reveal_strlit(".");
    }
    append_padded(out, if negative { -hours } else { hours }, 2);
    out.append(":");
    append_padded(out, if negative { -minutes } else { minutes }, 2);
    out.append(":");
    append_padded(out, if negative { -seconds } else { seconds }, 2);
    if !negative && rest > 0 {
        out.append(".");
        append_fraction(out, rest);
    }
    assert(out@ =~= base + time_text(usec as int));
}

/// Writes a timestamp as `YYYY-MM-DD HH:MM:SS[.ffffff]+00`, without zeros at the
/// end of the fraction.
pub fn usec_to_timestamp_string(usec: i64) -> (r: String)
    ensures
        r@ == timestamp_text(usec as int),
{
    let wide: i128 = usec as i128;
    let day: i128 = 86_400_000_000;
    let magnitude: i128 = if wide < 0 {
        -wide
    } else {
        wide
    };
    let rest: i128 = magnitude % day;
    let (days, in_day): (i128, i128) = if wide >= 0 {
        (magnitude / day, rest)
    } else if rest == 0 {
        (-(magnitude / day), 0)
    } else {
        (-(magnitude / day) - 1, day - rest)
    };
    proof {
        vstd::arithmetic::div_mod::lemma_fundamental_div_mod_converse(
            usec as int,
            USEC_PER_DAY as int,
            days as int,
            in_day as int,
        );
        reveal_strlit(" ");
        reveal_strlit("+00");
    }
    let mut out = String::new();
    append_date(&mut out, days as i64);
    out.append(" ");
    append_time(&mut out, in_day as i64);
    out.append("+00");
    assert(out@ =~= timestamp_text(usec as int));
    out
}

/// Writes a time of day as `HH:MM:SS[.ffffff]`, without zeros at the end of the
/// fraction.
pub fn usec_to_time_string(usec: i64) -> (r: String)
    ensures
        r@ == time_text(usec as int),
{
    let mut out = String::new();
    append_time(&mut out, usec);
    assert(out@ =~= time_text(usec as int));
    out
}

/// Writes the date of a timestamp as `YYYY-MM-DD`.
pub fn usec_to_date_string(usec: i64) -> (r: String)
    ensures
        r@ == date_text(usec as int / USEC_PER_DAY as int),
{
    let wide: i128 = usec as i128;
    let day: i128 = 86_400_000_000;
    let days: i128 = if wide >= 0 {
        wide / day
    } else {
        -((-wide + (day - 1)) / day)
    };
    proof {
        if wide < 0 {
            let q = (-wide + (day - 1)) / day as int;
            let r = (-wide + (day - 1)) % day as int;
            vstd::arithmetic::div_mod::lemma_fundamental_div_mod_converse(
                usec as int,
                USEC_PER_DAY as int,
                -q,
                day - 1 - r,
            );
        }
    }
    let mut out = String::new();
    append_date(&mut out, days as i64);
    assert(out@ =~= date_text(usec as int / USEC_PER_DAY as int));
    out
}

} // verus!
