//! The forms in which a timestamp can be written.

use vstd::prelude::*;
use vstd::string::*;
use crate::calendar::{civil_date, civil_days, lemma_date_round_trip, valid_date};
use crate::decimal::{digits, pow10};
use crate::search::{lemma_first_is, lemma_first_none};
use crate::timeparse::{
    all_digits, clock_text, date_text, fraction, fraction_usec, is_blank, is_date, is_timestamp,
    is_zoned_time, lemma_value_bound, separator, six_digits, text_bytes, time_text, timestamp_text,
    timestamp_usec, value, without_zeros, zone_start, USEC_PER_DAY, USEC_PER_HOUR, USEC_PER_MINUTE,
    USEC_PER_SEC,
};
use crate::timeparse_laws::{
    ascii, digit_chars, is_digit_char, is_low, lemma_digit_bytes, lemma_low_bytes, lemma_padded,
    lemma_plain_text, lemma_timestamp_round_trip, lemma_without_zeros, low_chars,
};
use crate::trim::{all_space, is_space, lemma_trim_around};

verus! {

/// White space around a timestamp makes no difference.
pub proof fn lemma_outer_space(before: Seq<char>, s: Seq<char>, behind: Seq<char>)
    requires
        all_space(before),
        all_space(behind),
    ensures
        text_bytes(before + s + behind) == text_bytes(s),
{
    lemma_trim_around(before, s, behind);
}

/// A text of characters below 128 without white space.
pub open spec fn is_word(s: Seq<char>) -> bool {
    low_chars(s) && forall|i: int| 0 <= i < s.len() ==> !is_space(#[trigger] s[i])
}

/// Ten characters, a blank or a `T`, and more characters without white space.
proof fn lemma_separated(d: Seq<char>, sep: char, c: Seq<char>)
    requires
        is_word(d),
        is_word(c),
        d.len() == 10,
        c.len() > 0,
        sep == ' ' || sep == 'T',
    ensures
        text_bytes(d + seq![sep] + c) == ascii(d + seq![sep] + c),
        separator(ascii(d + seq![sep] + c)) == Some(10int),
        ascii(d + seq![sep] + c).subrange(0, 10) == ascii(d),
        ascii(d + seq![sep] + c).subrange(11, 11int + c.len()) == ascii(c),
{
    let t = d + seq![sep] + c;
    let b = ascii(t);
    assert forall|i: int| 0 <= i < t.len() implies is_low(#[trigger] t[i]) by {
        if i < 10 {
            assert(is_low(d[i]));
        } else if i > 10 {
            assert(is_low(c[i - 11]));
        }
    }
    assert(t[0] == d[0]);
    assert(t.last() == c[c.len() - 1]);
    lemma_plain_text(t);
    assert(is_space(' '));
    assert forall|i: int| 0 <= i < t.len() && i != 10 implies b[i] != 0x20 by {
        if i < 10 {
            assert(!is_space(d[i]));
        } else {
            assert(!is_space(c[i - 11]));
        }
        lemma_low_bytes(t[i], ' ');
    }
    if sep == ' ' {
        assert(b[10] == 0x20);
        lemma_first_is(b, is_blank(), 10);
    } else {
        assert(b[10] == 0x54);
        lemma_first_none(b, is_blank());
    }
    assert(b.subrange(0, 10) =~= ascii(d));
    assert(b.subrange(11, 11int + c.len()) =~= ascii(c));
}

/// Between a date and a time of day a `T` says the same as a blank.
pub proof fn lemma_t_is_a_blank(d: Seq<char>, c: Seq<char>)
    requires
        is_word(d),
        is_word(c),
        d.len() == 10,
        c.len() > 0,
    ensures
        ({
            let with_t = text_bytes(d + seq!['T'] + c);
            let with_blank = text_bytes(d + seq![' '] + c);
            &&& is_timestamp(with_t) == (is_date(ascii(d)) && is_zoned_time(ascii(c)))
            &&& is_timestamp(with_blank) == is_timestamp(with_t)
            &&& timestamp_usec(with_blank) == timestamp_usec(with_t)
        }),
{
    lemma_separated(d, 'T', c);
    lemma_separated(d, ' ', c);
}

/// A date alone says the same as the date with midnight behind it.
pub proof fn lemma_date_is_midnight(d: Seq<char>)
    requires
        is_word(d),
        d.len() == 10,
    ensures
        ({
            let alone = text_bytes(d);
            let midnight = text_bytes(d + seq![' '] + "00:00:00"@);
            &&& is_timestamp(alone) == is_date(ascii(d))
            &&& is_timestamp(midnight) == is_timestamp(alone)
            &&& timestamp_usec(midnight) == timestamp_usec(alone)
        }),
{
    reveal_strlit("00:00:00");
    let c = "00:00:00"@;
    let z = ascii(c);
    assert(c =~= seq!['0', '0', ':', '0', '0', ':', '0', '0']);
    assert(z =~= seq![0x30u8, 0x30u8, 0x3au8, 0x30u8, 0x30u8, 0x3au8, 0x30u8, 0x30u8]);
    lemma_separated(d, ' ', c);
    lemma_two_zeros(z, 0);
    lemma_two_zeros(z, 3);
    lemma_two_zeros(z, 6);
    assert(zone_start(z) is None);
    assert(fraction(z) =~= Seq::<u8>::empty());
    lemma_zero_fraction(Seq::<u8>::empty());
    lemma_plain_text(d);
    let b = ascii(d);
    assert(is_space(' '));
    assert forall|i: int| 0 <= i < b.len() implies b[i] != 0x20 by {
        assert(!is_space(d[i]));
        lemma_low_bytes(d[i], ' ');
    }
    lemma_first_none(b, is_blank());
}

proof fn lemma_two_zeros(z: Seq<u8>, i: int)
    requires
        0 <= i,
        i + 2 <= z.len(),
        z[i] == 0x30,
        z[i + 1] == 0x30,
    ensures
        all_digits(z.subrange(i, i + 2)),
        value(z.subrange(i, i + 2)) == 0,
{
    let s = z.subrange(i, i + 2);
    reveal_with_fuel(value, 3);
    assert(s.drop_last().drop_last().len() == 0);
}

proof fn lemma_zero_fraction(s: Seq<u8>)
    requires
        s.len() == 0,
    ensures
        all_digits(six_digits(s)),
        fraction_usec(s) == 0,
{
    let six = six_digits(s);
    reveal_with_fuel(value, 7);
    assert(six.drop_last().drop_last().drop_last().drop_last().drop_last().drop_last().len() == 0);
}

// ---------------------------------------------------------------------------
// Canonical texts
// ---------------------------------------------------------------------------

/// Digits are those of the number that they stand for.
proof fn lemma_value_digits(s: Seq<char>)
    requires
        digit_chars(s),
    ensures
        0 <= value(ascii(s)) < pow10(s.len()),
        digits(value(ascii(s)) as nat, s.len()) == s,
    decreases s.len(),
{
    lemma_digit_bytes(s);
    lemma_value_bound(ascii(s));
    if s.len() > 0 {
        let front = s.drop_last();
        assert(digit_chars(front)) by {
            assert forall|i: int| 0 <= i < front.len() implies is_digit_char(#[trigger] front[i]) by {
                assert(is_digit_char(s[i]));
            }
        }
        lemma_value_digits(front);
        assert(ascii(s).drop_last() =~= ascii(front));
        assert(is_digit_char(s[s.len() - 1]));
        let n = value(ascii(s));
        let last = s.last() as u8 - 0x30;
        assert(n == 10 * value(ascii(front)) + last);
        assert(n / 10 == value(ascii(front)) && n % 10 == last);
        assert(digits(n as nat, s.len()) =~= s);
    } else {
        assert(digits(0, 0) =~= s);
    }
}

/// Zeros behind digits that do not end in one are all that is dropped.
proof fn lemma_drop_zeros(s: Seq<char>, n: nat)
    requires
        s.len() > 0 ==> s.last() != '0',
    ensures
        without_zeros(s + Seq::new(n, |i: int| '0')) == s,
    decreases n,
{
    let t = s + Seq::new(n, |i: int| '0');
    if n > 0 {
        lemma_drop_zeros(s, (n - 1) as nat);
        assert(t.drop_last() =~= s + Seq::new((n - 1) as nat, |i: int| '0'));
    } else {
        assert(t =~= s);
    }
}

/// A fraction of up to six digits that does not end in a zero is written as it
/// was read.
proof fn lemma_fraction_back(f: Seq<char>)
    requires
        digit_chars(f),
        f.len() <= 6,
        f.len() > 0 ==> f.last() != '0',
    ensures
        0 <= fraction_usec(ascii(f)) < 1_000_000,
        without_zeros(digits(fraction_usec(ascii(f)) as nat, 6)) == f,
        f.len() > 0 ==> fraction_usec(ascii(f)) > 0,
{
    let zeros = Seq::new((6 - f.len()) as nat, |i: int| '0');
    let six = f + zeros;
    assert forall|i: int| 0 <= i < six.len() implies is_digit_char(#[trigger] six[i]) by {
        if i < f.len() {
            assert(is_digit_char(f[i]));
        }
    }
    assert(six_digits(ascii(f)) =~= ascii(six));
    reveal_with_fuel(pow10, 7);
    lemma_value_digits(six);
    lemma_drop_zeros(f, (6 - f.len()) as nat);
    if f.len() > 0 && fraction_usec(ascii(f)) == 0 {
        lemma_zero_digits(6);
        lemma_without_zeros(six);
        assert(six[f.len() - 1] == '0');
    }
}

proof fn lemma_zero_digits(width: nat)
    ensures
        digits(0, width).len() == width,
        forall|i: int| 0 <= i < width ==> #[trigger] digits(0, width)[i] == '0',
    decreases width,
{
    if width > 0 {
        lemma_zero_digits((width - 1) as nat);
    }
}

/// `YYYY-MM-DD HH:MM:SS`, the fraction where there is one, and `+00`.
pub open spec fn canonical_text(
    date: (int, int, int),
    h: int,
    m: int,
    s: int,
    f: Seq<char>,
) -> Seq<char> {
    digits(date.0 as nat, 4) + seq!['-'] + digits(date.1 as nat, 2) + seq!['-'] + digits(
        date.2 as nat,
        2,
    ) + seq![' '] + digits(h as nat, 2) + seq![':'] + digits(m as nat, 2) + seq![':'] + digits(
        s as nat,
        2,
    ) + (if f.len() > 0 {
        seq!['.'] + f
    } else {
        Seq::empty()
    }) + seq!['+', '0', '0']
}

/// A timestamp in canonical form is read, and what was read is written in the
/// same form: a date of the calendar in the years 0 to 9999, a time of that day,
/// and a fraction of at most six digits that does not end in a zero.
pub proof fn lemma_canonical_text_back(
    date: (int, int, int),
    h: int,
    m: int,
    s: int,
    f: Seq<char>,
)
    requires
        0 <= date.0 <= 9999,
        valid_date(date.0, date.1, date.2),
        0 <= h < 24,
        0 <= m < 60,
        0 <= s < 60,
        digit_chars(f),
        f.len() <= 6,
        f.len() > 0 ==> f.last() != '0',
    ensures
        ({
            let b = text_bytes(canonical_text(date, h, m, s, f));
            is_timestamp(b) && timestamp_text(timestamp_usec(b)) == canonical_text(date, h, m, s, f)
        }),
{
    let text = canonical_text(date, h, m, s, f);
    let days = civil_days(date.0, date.1, date.2);
    let usec = fraction_usec(ascii(f));
    let in_day = h * USEC_PER_HOUR + m * USEC_PER_MINUTE + s * USEC_PER_SEC + usec;
    let u = days * USEC_PER_DAY + in_day;
    lemma_fraction_back(f);
    lemma_date_round_trip(date.0, date.1, date.2);
    lemma_clock_in_day(h, m, s, usec);
    lemma_quotient(u, 86_400_000_000, days, in_day);
    lemma_date_digits(date, days);
    lemma_clock_digits(h, m, s, f);
    assert(timestamp_text(u) =~= text);
    lemma_timestamp_round_trip(u);
}

proof fn lemma_clock_in_day(h: int, m: int, s: int, usec: int)
    requires
        0 <= h < 24,
        0 <= m < 60,
        0 <= s < 60,
        0 <= usec < 1_000_000,
    ensures
        ({
            let in_day = h * USEC_PER_HOUR + m * USEC_PER_MINUTE + s * USEC_PER_SEC + usec;
            &&& 0 <= in_day < USEC_PER_DAY
            &&& time_text(in_day) == clock_text(h, m, s, usec)
        }),
{
    let in_day = h * USEC_PER_HOUR + m * USEC_PER_MINUTE + s * USEC_PER_SEC + usec;
    let minutes = 60 * h + m;
    let seconds = 60 * minutes + s;
    lemma_quotient(in_day, 3_600_000_000, h, m * USEC_PER_MINUTE + s * USEC_PER_SEC + usec);
    lemma_quotient(in_day, 60_000_000, minutes, s * USEC_PER_SEC + usec);
    lemma_quotient(in_day, 1_000_000, seconds, usec);
    lemma_quotient(minutes, 60, h, m);
    lemma_quotient(seconds, 60, minutes, s);
}

/// Quotient and remainder, from what they make.
pub proof fn lemma_quotient(x: int, d: int, q: int, r: int)
    requires
        x == d * q + r,
        0 <= r < d,
    ensures
        x / d == q,
        x % d == r,
{
    assert(x == q * d + r) by (nonlinear_arith)
        requires
            x == d * q + r,
    ;
    vstd::arithmetic::div_mod::lemma_fundamental_div_mod_converse(x, d, q, r);
}

/// The digits of a written date.
pub proof fn lemma_date_digits(date: (int, int, int), days: int)
    requires
        0 <= date.0 <= 9999,
        valid_date(date.0, date.1, date.2),
        civil_date(days) == date,
    ensures
        date_text(days) == digits(date.0 as nat, 4) + seq!['-'] + digits(date.1 as nat, 2)
            + seq!['-'] + digits(date.2 as nat, 2),
{
    reveal_with_fuel(pow10, 5);
    lemma_padded(date.0 as nat, 4);
    lemma_padded(date.1 as nat, 2);
    lemma_padded(date.2 as nat, 2);
}

proof fn lemma_clock_digits(h: int, m: int, s: int, f: Seq<char>)
    requires
        0 <= h < 24,
        0 <= m < 60,
        0 <= s < 60,
        digit_chars(f),
        f.len() <= 6,
        f.len() > 0 ==> f.last() != '0',
    ensures
        clock_text(h, m, s, fraction_usec(ascii(f))) == digits(h as nat, 2) + seq![':'] + digits(
            m as nat,
            2,
        ) + seq![':'] + digits(s as nat, 2) + (if f.len() > 0 {
            seq!['.'] + f
        } else {
            Seq::empty()
        }),
{
    reveal_with_fuel(pow10, 3);
    lemma_padded(h as nat, 2);
    lemma_padded(m as nat, 2);
    lemma_padded(s as nat, 2);
    lemma_fraction_back(f);
    if f.len() == 0 {
        assert(ascii(f) =~= Seq::<u8>::empty());
        lemma_zero_fraction(Seq::<u8>::empty());
    }
    assert(clock_text(h, m, s, fraction_usec(ascii(f))) =~= digits(h as nat, 2) + seq![':']
        + digits(m as nat, 2) + seq![':'] + digits(s as nat, 2) + (if f.len() > 0 {
        seq!['.'] + f
    } else {
        Seq::empty()
    }));
}

} // verus!
