//! The order of timestamps and the order of their texts.

use vstd::prelude::*;
use vstd::utf8::encode_utf8;
use crate::calendar::{
    civil_date, civil_days, earlier, lemma_civil_date, lemma_date_round_trip, lemma_dates_in_order,
};
use crate::decimal::{digit_char, digits, lemma_digits_len, pow10};
use crate::stats::values::{bytes_le, text_le};
use crate::timeparse::{
    clock_text, date_text, time_text, timestamp_text, USEC_PER_DAY, USEC_PER_HOUR, USEC_PER_MINUTE,
    USEC_PER_SEC,
};
use crate::timeparse_forms::lemma_date_digits;
use crate::timeparse_laws::{
    ascii, fraction_text, is_digit_char, is_low, lemma_clock, lemma_date, lemma_digits_value,
    lemma_padded, lemma_plain_text, lemma_time_of_day, lemma_without_zeros, low_chars,
};

verus! {

/// Whether a timestamp falls in the years 0 to 9999.
pub open spec fn in_four_digit_years(usec: int) -> bool {
    -62_167_219_200_000_000 <= usec < 253_402_300_800_000_000
}

/// The years 0 to 9999 begin and end where they are said to.
pub proof fn lemma_four_digit_years(usec: int)
    ensures
        in_four_digit_years(usec) <==> 0 <= civil_date(usec / USEC_PER_DAY as int).0 <= 9999,
{
    let days = usec / USEC_PER_DAY as int;
    let (y, m, d) = civil_date(days);
    lemma_civil_date(days);
    assert(civil_days(0, 1, 1) == -719_528);
    assert(civil_days(10_000, 1, 1) == 2_932_897);
    lemma_date_round_trip(0, 1, 1);
    lemma_date_round_trip(10_000, 1, 1);
    if days < -719_528 {
        lemma_dates_in_order(days, -719_528);
    } else if days > -719_528 {
        lemma_dates_in_order(-719_528, days);
    }
    if days < 2_932_897 {
        lemma_dates_in_order(days, 2_932_897);
    } else if days > 2_932_897 {
        lemma_dates_in_order(2_932_897, days);
    }
}

/// Whether `k` is the first place where two texts differ, and `a` has the lower
/// character there.
spec fn lower_at(a: Seq<char>, b: Seq<char>, k: int) -> bool {
    &&& 0 <= k < a.len()
    &&& k < b.len()
    &&& a[k] < b[k]
    &&& forall|i: int| 0 <= i < k ==> #[trigger] a[i] == b[i]
}

/// What comes in front of both, and what comes behind either, does not matter.
proof fn lemma_lower_within(
    front: Seq<char>,
    a: Seq<char>,
    b: Seq<char>,
    x: Seq<char>,
    y: Seq<char>,
    k: int,
)
    requires
        lower_at(a, b, k),
    ensures
        lower_at(front + a + x, front + b + y, front.len() + k),
{
    let s = front + a + x;
    let t = front + b + y;
    assert forall|i: int| 0 <= i < front.len() + k implies #[trigger] s[i] == t[i] by {
        if i >= front.len() {
            assert(a[i - front.len()] == b[i - front.len()]);
        }
    }
}

/// Numbers with as many digits have the order of their digits.
proof fn lemma_digits_order(m: nat, n: nat, width: nat) -> (k: int)
    requires
        m < n < pow10(width),
    ensures
        lower_at(digits(m, width), digits(n, width), k),
    decreases width,
{
    let w = (width - 1) as nat;
    lemma_digits_len(m / 10, w);
    lemma_digits_len(n / 10, w);
    if m / 10 < n / 10 {
        let k = lemma_digits_order(m / 10, n / 10, w);
        lemma_lower_within(
            Seq::empty(),
            digits(m / 10, w),
            digits(n / 10, w),
            seq![digit_char((m % 10) as int)],
            seq![digit_char((n % 10) as int)],
            k,
        );
        assert(digits(m, width) =~= Seq::empty() + digits(m / 10, w) + seq![
            digit_char((m % 10) as int),
        ]);
        assert(digits(n, width) =~= Seq::empty() + digits(n / 10, w) + seq![
            digit_char((n % 10) as int),
        ]);
        k
    } else {
        assert(m / 10 == n / 10 && m % 10 < n % 10);
        w as int
    }
}

/// Earlier dates have texts that come first.
proof fn lemma_date_order(m: int, n: int) -> (k: int)
    requires
        m < n,
        0 <= civil_date(m).0 <= 9999,
        0 <= civil_date(n).0 <= 9999,
    ensures
        lower_at(date_text(m), date_text(n), k),
{
    let a = civil_date(m);
    let b = civil_date(n);
    lemma_civil_date(m);
    lemma_civil_date(n);
    lemma_dates_in_order(m, n);
    lemma_date_digits(a, m);
    lemma_date_digits(b, n);
    reveal_with_fuel(pow10, 5);
    let (y, y2) = (digits(a.0 as nat, 4), digits(b.0 as nat, 4));
    let (mo, mo2) = (digits(a.1 as nat, 2), digits(b.1 as nat, 2));
    let (d, d2) = (digits(a.2 as nat, 2), digits(b.2 as nat, 2));
    let dash = seq!['-'];
    let none = Seq::<char>::empty();
    if a.0 < b.0 {
        let k = lemma_digits_order(a.0 as nat, b.0 as nat, 4);
        lemma_lower_within(none, y, y2, dash + mo + dash + d, dash + mo2 + dash + d2, k);
        assert(date_text(m) =~= none + y + (dash + mo + dash + d));
        assert(date_text(n) =~= none + y2 + (dash + mo2 + dash + d2));
        k
    } else if a.1 < b.1 {
        let k = lemma_digits_order(a.1 as nat, b.1 as nat, 2);
        lemma_lower_within(y + dash, mo, mo2, dash + d, dash + d2, k);
        assert(date_text(m) =~= (y + dash) + mo + (dash + d));
        assert(date_text(n) =~= (y + dash) + mo2 + (dash + d2));
        (y + dash).len() + k
    } else {
        let k = lemma_digits_order(a.2 as nat, b.2 as nat, 2);
        lemma_lower_within(y + dash + mo + dash, d, d2, none, none, k);
        assert(date_text(m) =~= (y + dash + mo + dash) + d + none);
        assert(date_text(n) =~= (y + dash + mo + dash) + d2 + none);
        (y + dash + mo + dash).len() + k
    }
}

/// What stands behind the seconds: the fraction where there is one, and the time
/// zone.
spec fn tail_text(usec: int) -> Seq<char> {
    (if usec > 0 {
        seq!['.'] + fraction_text(usec as nat)
    } else {
        Seq::empty()
    }) + seq!['+', '0', '0']
}

/// Smaller fractions have texts that come first: a time zone sorts before a
/// point, and both before a digit.
proof fn lemma_fraction_order(m: int, n: int) -> (k: int)
    requires
        0 <= m < n < 1_000_000,
    ensures
        lower_at(tail_text(m), tail_text(n), k),
{
    let (a, b) = (tail_text(m), tail_text(n));
    if m == 0 {
        assert(a[0] == '+' && b[0] == '.');
        0
    } else {
        reveal_with_fuel(pow10, 7);
        let (s, t) = (digits(m as nat, 6), digits(n as nat, 6));
        let (y, z) = (fraction_text(m as nat), fraction_text(n as nat));
        let j = lemma_digits_order(m as nat, n as nat, 6);
        lemma_without_zeros(s);
        lemma_without_zeros(t);
        lemma_digits_value(m as nat, 6);
        lemma_digits_value(n as nat, 6);
        assert(is_digit_char(s[j]) && is_digit_char(t[j]));
        assert(t[j] != '0');
        assert(j < z.len());
        let k = if j < y.len() {
            j
        } else {
            y.len() as int
        };
        assert forall|i: int| 0 <= i < 1 + k implies #[trigger] a[i] == b[i] by {
            if i > 0 {
                assert(a[i] == y[i - 1] && b[i] == z[i - 1]);
                assert(y[i - 1] == s[i - 1] && z[i - 1] == t[i - 1]);
            }
        }
        assert(b[1 + k] == z[k] && z[k] == t[k]);
        if j < y.len() {
            assert(a[1 + k] == y[k] && y[k] == s[k]);
        } else {
            assert(is_digit_char(t[k]));
            assert(a[1 + k] == '+');
        }
        1 + k
    }
}

spec fn zoned_text(h: int, m: int, s: int, usec: int) -> Seq<char> {
    clock_text(h, m, s, usec) + seq!['+', '0', '0']
}

proof fn lemma_zoned_text(h: int, m: int, s: int, usec: int)
    requires
        0 <= h < 24,
        0 <= m < 60,
        0 <= s < 60,
        0 <= usec < 1_000_000,
    ensures
        zoned_text(h, m, s, usec) == digits(h as nat, 2) + seq![':'] + digits(m as nat, 2)
            + seq![':'] + digits(s as nat, 2) + tail_text(usec),
{
    reveal_with_fuel(pow10, 3);
    lemma_padded(h as nat, 2);
    lemma_padded(m as nat, 2);
    lemma_padded(s as nat, 2);
    assert(zoned_text(h, m, s, usec) =~= digits(h as nat, 2) + seq![':'] + digits(m as nat, 2)
        + seq![':'] + digits(s as nat, 2) + tail_text(usec));
}

/// Earlier times of day have texts that come first.
proof fn lemma_clock_order(
    h: int,
    m: int,
    s: int,
    usec: int,
    h2: int,
    m2: int,
    s2: int,
    usec2: int,
) -> (k: int)
    requires
        0 <= h < 24,
        0 <= m < 60,
        0 <= s < 60,
        0 <= usec < 1_000_000,
        0 <= h2 < 24,
        0 <= m2 < 60,
        0 <= s2 < 60,
        0 <= usec2 < 1_000_000,
        h < h2 || (h == h2 && (m < m2 || (m == m2 && (s < s2 || (s == s2 && usec < usec2))))),
    ensures
        lower_at(zoned_text(h, m, s, usec), zoned_text(h2, m2, s2, usec2), k),
{
    lemma_zoned_text(h, m, s, usec);
    lemma_zoned_text(h2, m2, s2, usec2);
    reveal_with_fuel(pow10, 3);
    let (a, a2) = (digits(h as nat, 2), digits(h2 as nat, 2));
    let (b, b2) = (digits(m as nat, 2), digits(m2 as nat, 2));
    let (c, c2) = (digits(s as nat, 2), digits(s2 as nat, 2));
    let (t, t2) = (tail_text(usec), tail_text(usec2));
    let (z, z2) = (zoned_text(h, m, s, usec), zoned_text(h2, m2, s2, usec2));
    let colon = seq![':'];
    let none = Seq::<char>::empty();
    if h < h2 {
        let k = lemma_digits_order(h as nat, h2 as nat, 2);
        let (x, x2) = (colon + b + colon + c + t, colon + b2 + colon + c2 + t2);
        lemma_lower_within(none, a, a2, x, x2, k);
        assert(z =~= none + a + x);
        assert(z2 =~= none + a2 + x2);
        k
    } else if m < m2 {
        let k = lemma_digits_order(m as nat, m2 as nat, 2);
        let (x, x2) = (colon + c + t, colon + c2 + t2);
        lemma_lower_within(a + colon, b, b2, x, x2, k);
        assert(z =~= (a + colon) + b + x);
        assert(z2 =~= (a + colon) + b2 + x2);
        (a + colon).len() + k
    } else if s < s2 {
        let front = a + colon + b + colon;
        let k = lemma_digits_order(s as nat, s2 as nat, 2);
        lemma_lower_within(front, c, c2, t, t2, k);
        assert(z =~= front + c + t);
        assert(z2 =~= front + c2 + t2);
        front.len() + k
    } else {
        let front = a + colon + b + colon + c;
        let k = lemma_fraction_order(usec, usec2);
        lemma_lower_within(front, t, t2, none, none, k);
        assert(z =~= front + t + none);
        assert(z2 =~= front + t2 + none);
        front.len() + k
    }
}

/// Earlier times of one day have texts that come first.
proof fn lemma_time_order(u: int, v: int) -> (k: int)
    requires
        0 <= u < v < USEC_PER_DAY,
    ensures
        lower_at(time_text(u) + seq!['+', '0', '0'], time_text(v) + seq!['+', '0', '0'], k),
{
    lemma_time_of_day(u);
    lemma_time_of_day(v);
    lemma_clock_order(
        u / USEC_PER_HOUR as int,
        u / USEC_PER_MINUTE as int % 60,
        u / USEC_PER_SEC as int % 60,
        u % USEC_PER_SEC as int,
        v / USEC_PER_HOUR as int,
        v / USEC_PER_MINUTE as int % 60,
        v / USEC_PER_SEC as int % 60,
        v % USEC_PER_SEC as int,
    )
}

proof fn lemma_bytes_lower(a: Seq<u8>, b: Seq<u8>, k: int)
    requires
        0 <= k < a.len(),
        k < b.len(),
        a[k] < b[k],
        forall|i: int| 0 <= i < k ==> #[trigger] a[i] == b[i],
    ensures
        bytes_le(a, b),
        !bytes_le(b, a),
    decreases k,
{
    if k > 0 {
        assert(a[0] == b[0]);
        let (s, t) = (a.drop_first(), b.drop_first());
        assert forall|i: int| 0 <= i < k - 1 implies #[trigger] s[i] == t[i] by {
            assert(a[i + 1] == b[i + 1]);
        }
        lemma_bytes_lower(s, t, k - 1);
    }
}

/// The bytes of a written timestamp.
proof fn lemma_timestamp_bytes(usec: int)
    requires
        0 <= civil_date(usec / USEC_PER_DAY as int).0 <= 9999,
    ensures
        low_chars(timestamp_text(usec)),
        encode_utf8(timestamp_text(usec)) == ascii(timestamp_text(usec)),
{
    let in_day = usec % USEC_PER_DAY as int;
    let d = date_text(usec / USEC_PER_DAY as int);
    let c = time_text(in_day);
    let t = timestamp_text(usec);
    lemma_date(usec / USEC_PER_DAY as int);
    lemma_time_of_day(in_day);
    lemma_clock(
        in_day / USEC_PER_HOUR as int,
        in_day / USEC_PER_MINUTE as int % 60,
        in_day / USEC_PER_SEC as int % 60,
        in_day % USEC_PER_SEC as int,
    );
    assert forall|i: int| 0 <= i < t.len() implies is_low(#[trigger] t[i]) by {
        if i < 10 {
            assert(is_low(d[i]));
        } else if 11 <= i < 11 + c.len() {
            assert(is_low(c[i - 11]));
        }
    }
    assert(t[0] == d[0] && t.last() == '0');
    lemma_plain_text(t);
}

/// The texts of timestamps in the years 0 to 9999 are in the order of time: the
/// text of the earlier one comes first, by its bytes.
pub proof fn lemma_text_order_is_time_order(u: int, v: int)
    requires
        in_four_digit_years(u),
        in_four_digit_years(v),
        u < v,
    ensures
        text_le(timestamp_text(u), timestamp_text(v)),
        !text_le(timestamp_text(v), timestamp_text(u)),
{
    let (a, b) = (timestamp_text(u), timestamp_text(v));
    let (m, n) = (u / USEC_PER_DAY as int, v / USEC_PER_DAY as int);
    let (d, e) = (date_text(m), date_text(n));
    let zone = seq!['+', '0', '0'];
    let (x, y) = (time_text(u % USEC_PER_DAY as int) + zone, time_text(v % USEC_PER_DAY as int) + zone);
    let none = Seq::<char>::empty();
    let blank = seq![' '];
    lemma_four_digit_years(u);
    lemma_four_digit_years(v);
    lemma_timestamp_bytes(u);
    lemma_timestamp_bytes(v);
    let k = if m < n {
        let k = lemma_date_order(m, n);
        lemma_lower_within(none, d, e, blank + x, blank + y, k);
        assert(a =~= none + d + (blank + x));
        assert(b =~= none + e + (blank + y));
        k
    } else {
        let k = lemma_time_order(u % USEC_PER_DAY as int, v % USEC_PER_DAY as int);
        lemma_lower_within(d + blank, x, y, none, none, k);
        assert(a =~= (d + blank) + x + none);
        assert(b =~= (d + blank) + y + none);
        (d + blank).len() + k
    };
    assert(is_low(a[k]) && is_low(b[k]));
    assert forall|i: int| 0 <= i < k implies #[trigger] ascii(a)[i] == ascii(b)[i] by {
        assert(a[i] == b[i]);
    }
    lemma_bytes_lower(ascii(a), ascii(b), k);
}

} // verus!
