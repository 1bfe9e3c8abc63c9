//! What is written as a timestamp, a date or a time of day reads back.

use vstd::prelude::*;
use vstd::utf8::{encode_utf8, is_ascii_chars, is_ascii_chars_encode_utf8};
use crate::calendar::{civil_date, lemma_civil_date};
use crate::decimal::{digits, lemma_digits_len, lemma_numeral_fits, numeral, padded, pow10};
use crate::search::{lemma_first_is, lemma_first_none};
use crate::timeparse::{
    all_digits, clock_text, date_days, date_text, digits_end, fraction, fraction_usec, is_blank,
    is_byte, is_date, is_digit, is_time, is_timestamp, is_zone, is_zoned_time, parsed_time,
    seconds_of, signed_number, six_digits, split_once, text_bytes, time_text, time_usec,
    timestamp_text, timestamp_usec, value, without_zeros, zone_start, zone_usec, zoned_time_usec,
    USEC_PER_DAY, USEC_PER_HOUR, USEC_PER_MINUTE, USEC_PER_SEC,
};
use crate::trim::{is_space, lemma_trim_nothing, trimmed};

verus! {

/// The bytes of a text of characters below 128.
pub open spec fn ascii(s: Seq<char>) -> Seq<u8> {
    Seq::new(s.len(), |i: int| s[i] as u8)
}

pub open spec fn is_digit_char(c: char) -> bool {
    '0' <= c <= '9'
}

pub open spec fn digit_chars(s: Seq<char>) -> bool {
    forall|i: int| 0 <= i < s.len() ==> is_digit_char(#[trigger] s[i])
}

pub open spec fn is_low(c: char) -> bool {
    '\0' <= c <= '\u{7f}'
}

pub open spec fn low_chars(s: Seq<char>) -> bool {
    forall|i: int| 0 <= i < s.len() ==> is_low(#[trigger] s[i])
}

/// Different characters below 128 are different bytes.
pub proof fn lemma_low_bytes(c: char, d: char)
    requires
        is_low(c),
        is_low(d),
        c != d,
    ensures
        c as u8 != d as u8,
{
}

/// The bytes of a text of characters below 128 with no white space around it.
pub proof fn lemma_plain_text(s: Seq<char>)
    requires
        low_chars(s),
        s.len() > 0,
        !is_space(s[0]),
        !is_space(s.last()),
    ensures
        trimmed(s) == s,
        text_bytes(s) == ascii(s),
{
    lemma_trim_nothing(s);
    assert(is_ascii_chars(s)) by {
        assert forall|i: int| 0 <= i < s.len() implies '\0' <= #[trigger] s[i] <= '\u{7f}' by {
            assert(is_low(s[i]));
        }
    }
    is_ascii_chars_encode_utf8(s);
    assert(encode_utf8(s) =~= ascii(s));
}

proof fn lemma_ascii_text(s: Seq<char>)
    requires
        low_chars(s),
        s.len() > 0,
        is_digit_char(s[0]),
        is_digit_char(s.last()),
    ensures
        trimmed(s) == s,
        text_bytes(s) == ascii(s),
{
    lemma_plain_text(s);
}

pub proof fn lemma_digit_bytes(s: Seq<char>)
    requires
        digit_chars(s),
    ensures
        all_digits(ascii(s)),
{
    assert forall|i: int| 0 <= i < s.len() implies is_digit(#[trigger] ascii(s)[i]) by {
        assert(is_digit_char(s[i]));
    }
}

/// A number written with leading zeros reads back.
pub proof fn lemma_digits_value(n: nat, width: nat)
    requires
        n < pow10(width),
    ensures
        digits(n, width).len() == width,
        digit_chars(digits(n, width)),
        all_digits(ascii(digits(n, width))),
        value(ascii(digits(n, width))) == n,
    decreases width,
{
    lemma_digits_len(n, width);
    let s = digits(n, width);
    if width > 0 {
        lemma_digits_value(n / 10, (width - 1) as nat);
        let t = digits(n / 10, (width - 1) as nat);
        assert(ascii(s).drop_last() =~= ascii(t));
        assert(s.last() as u8 - 0x30 == n % 10);
        assert forall|i: int| 0 <= i < s.len() implies is_digit_char(#[trigger] s[i]) by {
            if i < width - 1 {
                assert(is_digit_char(t[i]));
            }
        }
    }
    lemma_digit_bytes(s);
}

/// A number that has room is written with leading zeros.
pub proof fn lemma_padded(n: nat, width: nat)
    requires
        n < pow10(width),
        width >= 1,
    ensures
        padded(n as int, width) == digits(n, width),
    decreases width,
{
    lemma_digits_len(n, width);
    lemma_numeral_fits(n, width);
    if width == 1 {
        reveal_with_fuel(pow10, 2);
        reveal_with_fuel(digits, 2);
        assert(padded(n as int, width) =~= digits(n, width));
    } else {
        lemma_padded(n / 10, (width - 1) as nat);
        if n < 10 {
            assert(n / 10 == 0);
            assert(numeral(0) == seq!['0']);
            assert(padded(n as int, width).drop_last() =~= padded(0, (width - 1) as nat));
        } else {
            assert(padded(n as int, width).drop_last() =~= padded(
                (n / 10) as int,
                (width - 1) as nat,
            ));
        }
        assert(padded(n as int, width) =~= digits(n, width));
    }
}

/// Dropping zeros at the end loses nothing but zeros.
pub proof fn lemma_without_zeros(s: Seq<char>)
    ensures
        ({
            let z = without_zeros(s);
            &&& z.len() <= s.len()
            &&& z == s.subrange(0, z.len() as int)
            &&& forall|i: int| z.len() <= i < s.len() ==> s[i] == '0'
            &&& z.len() > 0 ==> z.last() != '0'
        }),
    decreases s.len(),
{
    if s.len() > 0 && s.last() == '0' {
        let t = s.drop_last();
        lemma_without_zeros(t);
        let z = without_zeros(t);
        assert(z =~= s.subrange(0, z.len() as int));
        assert forall|i: int| z.len() <= i < s.len() implies s[i] == '0' by {
            if i < s.len() - 1 {
                assert(t[i] == '0');
            }
        }
    } else {
        assert(s =~= s.subrange(0, s.len() as int));
    }
}

/// The fraction of a second as written.
pub open spec fn fraction_text(usec: nat) -> Seq<char> {
    without_zeros(digits(usec, 6))
}

/// A fraction written without zeros at the end reads back.
pub proof fn lemma_fraction(usec: nat)
    requires
        usec < 1_000_000,
    ensures
        digit_chars(fraction_text(usec)),
        fraction_text(usec).len() <= 6,
        all_digits(ascii(fraction_text(usec))),
        all_digits(six_digits(ascii(fraction_text(usec)))),
        fraction_usec(ascii(fraction_text(usec))) == usec,
{
    reveal_with_fuel(pow10, 7);
    let s = digits(usec, 6);
    let z = fraction_text(usec);
    lemma_digits_value(usec, 6);
    lemma_without_zeros(s);
    assert forall|i: int| 0 <= i < z.len() implies is_digit_char(#[trigger] z[i]) by {
        assert(is_digit_char(s[i]));
    }
    lemma_digit_bytes(z);
    assert(six_digits(ascii(z)) =~= ascii(s));
}

/// The parts of a written time of day, where each has its place.
pub proof fn lemma_clock(h: int, m: int, s: int, usec: int)
    requires
        0 <= h < 100,
        0 <= m < 100,
        0 <= s < 100,
        0 <= usec < 1_000_000,
    ensures
        ({
            let t = clock_text(h, m, s, usec);
            let z = fraction_text(usec as nat);
            &&& low_chars(t)
            &&& t.len() == if usec > 0 {
                9 + z.len()
            } else {
                8
            }
            &&& t.subrange(0, 2) == digits(h as nat, 2)
            &&& t[2] == ':'
            &&& t.subrange(3, 5) == digits(m as nat, 2)
            &&& t[5] == ':'
            &&& t.subrange(6, 8) == digits(s as nat, 2)
            &&& is_digit_char(t[0])
            &&& usec > 0 ==> t[8] == '.' && t.subrange(9, t.len() as int) == z
            &&& digit_chars(z)
            &&& usec > 0 ==> z.len() > 0
            &&& is_digit_char(t.last())
        }),
{
    reveal_with_fuel(pow10, 3);
    let t = clock_text(h, m, s, usec);
    let z = fraction_text(usec as nat);
    lemma_padded(h as nat, 2);
    lemma_padded(m as nat, 2);
    lemma_padded(s as nat, 2);
    lemma_digits_value(h as nat, 2);
    lemma_digits_value(m as nat, 2);
    lemma_digits_value(s as nat, 2);
    lemma_fraction(usec as nat);
    if usec > 0 && z.len() == 0 {
        assert(ascii(z) =~= Seq::<u8>::empty());
        let six = six_digits(ascii(z));
        assert(six =~= seq![0x30u8, 0x30u8, 0x30u8, 0x30u8, 0x30u8, 0x30u8]);
        reveal_with_fuel(value, 7);
        assert(six.drop_last().drop_last().drop_last().drop_last().drop_last().drop_last().len()
            == 0);
        assert(value(six) == 0);
    }
    assert(t.subrange(0, 2) =~= digits(h as nat, 2));
    assert(t.subrange(3, 5) =~= digits(m as nat, 2));
    assert(t.subrange(6, 8) =~= digits(s as nat, 2));
    assert(is_digit_char(digits(h as nat, 2)[0]));
    assert(is_digit_char(digits(s as nat, 2)[1]));
    if usec > 0 {
        assert(t.subrange(9, t.len() as int) =~= z);
        assert(is_digit_char(z[z.len() - 1]));
    }
    assert forall|i: int| 0 <= i < t.len() implies is_low(#[trigger] t[i]) by {
        if i < 2 {
            assert(is_digit_char(digits(h as nat, 2)[i]));
        } else if 3 <= i < 5 {
            assert(is_digit_char(digits(m as nat, 2)[i - 3]));
        } else if 6 <= i < 8 {
            assert(is_digit_char(digits(s as nat, 2)[i - 6]));
        } else if 9 <= i {
            assert(is_digit_char(z[i - 9]));
        }
    }
}

proof fn lemma_ascii_part(s: Seq<char>, i: int, j: int)
    requires
        0 <= i <= j <= s.len(),
    ensures
        ascii(s).subrange(i, j) == ascii(s.subrange(i, j)),
{
    assert(ascii(s).subrange(i, j) =~= ascii(s.subrange(i, j)));
}

/// A written time of day reads back, by the fixed places of its parts.
proof fn lemma_clock_time(h: int, m: int, s: int, usec: int)
    requires
        0 <= h < 100,
        0 <= m < 100,
        0 <= s < 100,
        0 <= usec < 1_000_000,
    ensures
        ({
            let b = ascii(clock_text(h, m, s, usec));
            &&& is_time(b)
            &&& time_usec(b) == h * USEC_PER_HOUR + m * USEC_PER_MINUTE + s * USEC_PER_SEC + usec
        }),
{
    let t = clock_text(h, m, s, usec);
    let b = ascii(t);
    let z = fraction_text(usec as nat);
    reveal_with_fuel(pow10, 3);
    lemma_clock(h, m, s, usec);
    lemma_digits_value(h as nat, 2);
    lemma_digits_value(m as nat, 2);
    lemma_digits_value(s as nat, 2);
    lemma_ascii_part(t, 0, 2);
    lemma_ascii_part(t, 3, 5);
    lemma_ascii_part(t, 6, 8);
    lemma_fraction(usec as nat);
    if usec > 0 {
        assert(b[8] == 0x2e);
        lemma_ascii_part(t, 9, t.len() as int);
        assert(fraction(b) == ascii(z));
    } else {
        assert(fraction(b) =~= Seq::<u8>::empty());
        lemma_no_fraction();
    }
}

/// No fraction is a fraction of nothing.
proof fn lemma_no_fraction()
    ensures
        all_digits(six_digits(Seq::<u8>::empty())),
        fraction_usec(Seq::<u8>::empty()) == 0,
{
    let six = six_digits(Seq::<u8>::empty());
    assert(six =~= seq![0x30u8, 0x30u8, 0x30u8, 0x30u8, 0x30u8, 0x30u8]);
    reveal_with_fuel(value, 7);
    assert(six.drop_last().drop_last().drop_last().drop_last().drop_last().drop_last().len() == 0);
}

proof fn lemma_digits_end(s: Seq<u8>, i: int, j: int)
    requires
        0 <= i <= j < s.len(),
        forall|k: int| i <= k < j ==> is_digit(#[trigger] s[k]),
        !is_digit(s[j]),
    ensures
        digits_end(s, i) == j,
    decreases j - i,
{
    if i < j {
        lemma_digits_end(s, i + 1, j);
    }
}

/// A written time of day with the time zone of UTC behind it reads back.
proof fn lemma_zoned_clock(h: int, m: int, s: int, usec: int)
    requires
        0 <= h < 100,
        0 <= m < 100,
        0 <= s < 100,
        0 <= usec < 1_000_000,
    ensures
        ({
            let b = ascii(clock_text(h, m, s, usec) + seq!['+', '0', '0']);
            &&& is_zoned_time(b)
            &&& zoned_time_usec(b) == h * USEC_PER_HOUR + m * USEC_PER_MINUTE + s * USEC_PER_SEC
                + usec
        }),
{
    let c = clock_text(h, m, s, usec);
    let t = c + seq!['+', '0', '0'];
    let b = ascii(t);
    let n = c.len() as int;
    let z = fraction_text(usec as nat);
    lemma_clock(h, m, s, usec);
    lemma_clock_time(h, m, s, usec);
    assert(b[n] == 0x2b);
    if usec > 0 {
        assert(b[8] == 0x2e);
        assert forall|k: int| 9 <= k < n implies is_digit(#[trigger] b[k]) by {
            assert(c[k] == c.subrange(9, n)[k - 9]);
            assert(is_digit_char(z[k - 9]));
        }
        lemma_digits_end(b, 9, n);
    }
    assert(zone_start(b) == Some(n));
    assert(b.subrange(0, n) =~= ascii(c));
    let zone = b.subrange(n, b.len() as int);
    assert(zone =~= seq![0x2bu8, 0x30u8, 0x30u8]);
    let hours = zone.subrange(1, 3);
    assert(hours =~= seq![0x30u8, 0x30u8]);
    reveal_with_fuel(value, 3);
    assert(hours.drop_last().drop_last().len() == 0);
    assert(value(hours) == 0);
    assert(is_zone(zone));
    assert(zone_usec(zone) == 0);
}

/// A time zone, written with hours alone, or with minutes behind them or behind a
/// colon.
pub open spec fn zone_text(ahead: bool, hours: int, minutes: Option<int>, colon: bool) -> Seq<char> {
    let sign = if ahead {
        seq!['+']
    } else {
        seq!['-']
    };
    sign + digits(hours as nat, 2) + match minutes {
        Some(m) => if colon {
            seq![':'] + digits(m as nat, 2)
        } else {
            digits(m as nat, 2)
        },
        None => Seq::empty(),
    }
}

/// A time of day with a time zone behind it is that much earlier in UTC where the
/// zone is ahead, and that much later where it is behind, in whichever form the
/// zone is written.
pub proof fn lemma_zone_shifts(
    h: int,
    m: int,
    s: int,
    usec: int,
    ahead: bool,
    hours: int,
    minutes: Option<int>,
    colon: bool,
)
    requires
        0 <= h < 100,
        0 <= m < 100,
        0 <= s < 100,
        0 <= usec < 1_000_000,
        0 <= hours < 100,
        minutes matches Some(k) ==> 0 <= k < 100,
    ensures
        ({
            let b = ascii(clock_text(h, m, s, usec) + zone_text(ahead, hours, minutes, colon));
            let shift = (hours * 60 + (match minutes {
                Some(k) => k,
                None => 0,
            })) * 60_000_000;
            &&& is_zoned_time(b)
            &&& zoned_time_usec(b) == ((h * 60 + m) * 60 + s) * 1_000_000 + usec - (if ahead {
                shift
            } else {
                -shift
            })
        }),
{
    let c = clock_text(h, m, s, usec);
    let zt = zone_text(ahead, hours, minutes, colon);
    let t = c + zt;
    let b = ascii(t);
    let n = c.len() as int;
    let z = fraction_text(usec as nat);
    lemma_clock(h, m, s, usec);
    lemma_clock_time(h, m, s, usec);
    reveal_with_fuel(pow10, 3);
    lemma_digits_value(hours as nat, 2);
    if let Some(k) = minutes {
        lemma_digits_value(k as nat, 2);
    }
    assert(t[n] == zt[0]);
    assert(b[n] == if ahead {
        0x2bu8
    } else {
        0x2du8
    });
    if usec > 0 {
        assert(b[8] == 0x2e);
        assert forall|k: int| 9 <= k < n implies is_digit(#[trigger] b[k]) by {
            assert(c[k] == c.subrange(9, n)[k - 9]);
            assert(is_digit_char(z[k - 9]));
        }
        lemma_digits_end(b, 9, n);
    }
    assert(zone_start(b) == Some(n));
    assert(b.subrange(0, n) =~= ascii(c));
    let zone = b.subrange(n, b.len() as int);
    assert(zone =~= ascii(zt));
    assert(zone.subrange(1, 3) =~= ascii(digits(hours as nat, 2)));
    assert forall|i: int| 1 <= i < 3 implies is_digit(#[trigger] zone[i]) by {
        assert(zone[i] == zone.subrange(1, 3)[i - 1]);
    }
    if let Some(k) = minutes {
        let at = if colon {
            4int
        } else {
            3
        };
        assert(zone.subrange(at, at + 2) =~= ascii(digits(k as nat, 2)));
        assert forall|i: int| at <= i < at + 2 implies is_digit(#[trigger] zone[i]) by {
            assert(zone[i] == zone.subrange(at, at + 2)[i - at]);
        }
        assert(zone.len() == at + 2);
        if colon {
            assert(zone[3] == 0x3a);
        } else {
            assert(is_digit(zone[3]));
            assert(zone[3] != 0x3a);
        }
    } else {
        assert(zone.len() == 3);
    }
    assert(is_zone(zone));
}

/// The parts of a written date, where the year has four digits.
pub proof fn lemma_date(days: int)
    requires
        0 <= civil_date(days).0 <= 9999,
    ensures
        ({
            let t = date_text(days);
            &&& t.len() == 10
            &&& low_chars(t)
            &&& is_digit_char(t[0])
            &&& is_digit_char(t[9])
            &&& forall|i: int| 0 <= i < 10 ==> #[trigger] t[i] != ' '
            &&& is_date(ascii(t))
            &&& date_days(ascii(t)) == days
        }),
{
    let t = date_text(days);
    let (y, m, d) = civil_date(days);
    reveal_with_fuel(pow10, 5);
    lemma_civil_date(days);
    lemma_padded(y as nat, 4);
    lemma_padded(m as nat, 2);
    lemma_padded(d as nat, 2);
    lemma_digits_value(y as nat, 4);
    lemma_digits_value(m as nat, 2);
    lemma_digits_value(d as nat, 2);
    assert(t.subrange(0, 4) =~= digits(y as nat, 4));
    assert(t.subrange(5, 7) =~= digits(m as nat, 2));
    assert(t.subrange(8, 10) =~= digits(d as nat, 2));
    lemma_ascii_part(t, 0, 4);
    lemma_ascii_part(t, 5, 7);
    lemma_ascii_part(t, 8, 10);
    assert(is_digit_char(digits(y as nat, 4)[0]));
    assert(is_digit_char(digits(d as nat, 2)[1]));
    assert forall|i: int| 0 <= i < 10 implies is_low(#[trigger] t[i]) && t[i] != ' ' by {
        if i < 4 {
            assert(is_digit_char(digits(y as nat, 4)[i]));
        } else if 5 <= i < 7 {
            assert(is_digit_char(digits(m as nat, 2)[i - 5]));
        } else if 8 <= i {
            assert(is_digit_char(digits(d as nat, 2)[i - 8]));
        }
    }
}

/// The hours, minutes, seconds and microseconds that a time of day is written as.
pub proof fn lemma_time_of_day(usec: int)
    requires
        0 <= usec <= USEC_PER_DAY,
    ensures
        ({
            let h = usec / USEC_PER_HOUR as int;
            let m = usec / USEC_PER_MINUTE as int % 60;
            let s = usec / USEC_PER_SEC as int % 60;
            let f = usec % USEC_PER_SEC as int;
            &&& 0 <= h <= 24
            &&& 0 <= m < 60
            &&& 0 <= s < 60
            &&& 0 <= f < 1_000_000
            &&& time_text(usec) == clock_text(h, m, s, f)
            &&& h * USEC_PER_HOUR + m * USEC_PER_MINUTE + s * USEC_PER_SEC + f == usec
            &&& h == 24 ==> m == 0 && s == 0 && f == 0
        }),
{
    let minutes = usec / USEC_PER_MINUTE as int;
    let seconds = usec / USEC_PER_SEC as int;
    vstd::arithmetic::div_mod::lemma_div_denominator(usec, USEC_PER_SEC as int, 60);
    vstd::arithmetic::div_mod::lemma_div_denominator(usec, USEC_PER_MINUTE as int, 60);
    assert(seconds / 60 == minutes);
    assert(minutes / 60 == usec / USEC_PER_HOUR as int);
}

/// A timestamp in the years 0 to 9999 that is written out reads back as it was.
pub proof fn lemma_timestamp_round_trip(usec: int)
    requires
        0 <= civil_date(usec / USEC_PER_DAY as int).0 <= 9999,
    ensures
        is_timestamp(text_bytes(timestamp_text(usec))),
        timestamp_usec(text_bytes(timestamp_text(usec))) == usec,
{
    let days = usec / USEC_PER_DAY as int;
    let in_day = usec % USEC_PER_DAY as int;
    let d = date_text(days);
    let c = time_text(in_day);
    let zoned = c + seq!['+', '0', '0'];
    let t = timestamp_text(usec);
    let b = ascii(t);
    lemma_date(days);
    lemma_time_of_day(in_day);
    let h = in_day / USEC_PER_HOUR as int;
    let m = in_day / USEC_PER_MINUTE as int % 60;
    let s = in_day / USEC_PER_SEC as int % 60;
    let f = in_day % USEC_PER_SEC as int;
    lemma_clock(h, m, s, f);
    lemma_zoned_clock(h, m, s, f);
    assert(t =~= d + seq![' '] + zoned);
    assert forall|i: int| 0 <= i < t.len() implies is_low(#[trigger] t[i]) by {
        if i < 10 {
            assert(is_low(d[i]));
        } else if 11 <= i < 11 + c.len() {
            assert(is_low(c[i - 11]));
        }
    }
    assert(t[0] == d[0]);
    lemma_ascii_text(t);
    assert forall|i: int| 0 <= i < 10 implies b[i] != 0x20 by {
        lemma_low_bytes(d[i], ' ');
    }
    lemma_first_is(b, is_blank(), 10);
    assert(b.subrange(0, 10) =~= ascii(d));
    assert(b.subrange(11, b.len() as int) =~= ascii(zoned));
}

/// The date of a timestamp in the years 0 to 9999, written out, reads back as
/// the midnight before it.
pub proof fn lemma_date_round_trip(usec: int)
    requires
        0 <= civil_date(usec / USEC_PER_DAY as int).0 <= 9999,
    ensures
        ({
            let b = text_bytes(date_text(usec / USEC_PER_DAY as int));
            is_timestamp(b) && timestamp_usec(b) == usec - usec % USEC_PER_DAY as int
        }),
{
    let days = usec / USEC_PER_DAY as int;
    let t = date_text(days);
    let b = ascii(t);
    lemma_date(days);
    lemma_ascii_text(t);
    assert forall|i: int| 0 <= i < b.len() implies b[i] != 0x20 by {
        lemma_low_bytes(t[i], ' ');
    }
    lemma_first_none(b, is_blank());
}

proof fn lemma_split(s: Seq<char>, i: int, c: char)
    requires
        0 <= i < s.len(),
        s[i] == c,
        low_chars(s),
        is_low(c),
        forall|k: int| 0 <= k < i ==> #[trigger] s[k] != c,
    ensures
        split_once(ascii(s), c as u8) == Some(
            (ascii(s.subrange(0, i)), ascii(s.subrange(i + 1, s.len() as int))),
        ),
{
    let b = ascii(s);
    assert forall|k: int| 0 <= k < i implies b[k] != c as u8 by {
        lemma_low_bytes(s[k], c);
    }
    lemma_first_is(b, is_byte(c as u8), i);
    lemma_ascii_part(s, 0, i);
    lemma_ascii_part(s, i + 1, s.len() as int);
}

proof fn lemma_two_digits(n: int)
    requires
        0 <= n < 100,
    ensures
        signed_number(ascii(digits(n as nat, 2))) == Some(n),
{
    reveal_with_fuel(pow10, 3);
    lemma_digits_value(n as nat, 2);
    let b = ascii(digits(n as nat, 2));
    assert(is_digit(b[0]));
}

proof fn lemma_seconds(s: int, usec: int)
    requires
        0 <= s < 100,
        0 <= usec < 1_000_000,
    ensures
        ({
            let z = fraction_text(usec as nat);
            let t = if usec > 0 {
                digits(s as nat, 2) + seq!['.'] + z
            } else {
                digits(s as nat, 2)
            };
            seconds_of(ascii(t)) == Some((s, usec))
        }),
{
    let z = fraction_text(usec as nat);
    let d = digits(s as nat, 2);
    reveal_with_fuel(pow10, 3);
    lemma_digits_value(s as nat, 2);
    lemma_two_digits(s);
    lemma_fraction(usec as nat);
    assert(is_digit_char(d[0]) && is_digit_char(d[1]));
    if usec > 0 {
        let t = d + seq!['.'] + z;
        assert forall|i: int| 0 <= i < t.len() implies is_low(#[trigger] t[i]) by {
            if i > 2 {
                assert(is_digit_char(z[i - 3]));
            }
        }
        assert('.' as u8 == 0x2e);
        lemma_split(t, 2, '.');
        assert(t.subrange(0, 2) =~= d);
        assert(t.subrange(3, t.len() as int) =~= z);
    } else {
        let b = ascii(d);
        assert(b[0] != 0x2e && b[1] != 0x2e);
        lemma_first_none(b, is_byte(0x2e));
    }
}

/// A time of day that is written out reads back as it was.
pub proof fn lemma_time_round_trip(usec: int)
    requires
        0 <= usec <= USEC_PER_DAY,
    ensures
        parsed_time(time_text(usec)) == Ok::<int, Seq<char>>(usec),
{
    let t = time_text(usec);
    lemma_time_of_day(usec);
    let h = usec / USEC_PER_HOUR as int;
    let m = usec / USEC_PER_MINUTE as int % 60;
    let s = usec / USEC_PER_SEC as int % 60;
    let f = usec % USEC_PER_SEC as int;
    let n = t.len() as int;
    lemma_clock(h, m, s, f);
    lemma_ascii_text(t);
    lemma_two_digits(h);
    lemma_two_digits(m);
    lemma_seconds(s, f);
    reveal_with_fuel(pow10, 3);
    lemma_digits_value(h as nat, 2);
    lemma_digits_value(m as nat, 2);
    lemma_digits_value(s as nat, 2);
    assert(':' as u8 == 0x3a);
    assert(is_digit_char(t.subrange(0, 2)[0]) && is_digit_char(t.subrange(0, 2)[1]));
    lemma_split(t, 2, ':');
    let rest = t.subrange(3, n);
    assert(is_digit_char(t.subrange(3, 5)[0]) && is_digit_char(t.subrange(3, 5)[1]));
    assert(low_chars(rest));
    lemma_split(rest, 2, ':');
    assert(rest.subrange(0, 2) =~= digits(m as nat, 2));
    let seconds = rest.subrange(3, rest.len() as int);
    if f > 0 {
        let z = fraction_text(f as nat);
        assert(seconds =~= t.subrange(6, 8) + seq!['.'] + t.subrange(9, n));
    } else {
        assert(seconds =~= t.subrange(6, 8));
    }
}

} // verus!
