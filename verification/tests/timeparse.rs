use pg_deltax::calendar::{date_to_epoch_days, epoch_days_to_date};
use pg_deltax::timeparse::{
    parse_fractional_usec, parse_int_fast, parse_time_part, parse_time_to_usec,
    parse_timestamp_to_usec, parse_tz_offset, usec_to_date_string, usec_to_time_string,
    usec_to_timestamp_string,
};
use pg_deltax::trim::trim;

#[test]
fn test_date_only() {
    // 2013-07-15 midnight UTC
    let usec = parse_timestamp_to_usec("2013-07-15");
    // 2013-07-15 00:00:00 UTC in epoch seconds: 1373846400
    assert_eq!(usec, 1_373_846_400_000_000);
}

#[test]
fn test_timestamp_no_tz() {
    let usec = parse_timestamp_to_usec("2013-07-15 10:23:45");
    // 1373846400 + 10*3600 + 23*60 + 45 = 1373846400 + 37425 = 1373883825
    assert_eq!(usec, 1_373_883_825_000_000);
}

#[test]
fn test_timestamp_with_frac() {
    let usec = parse_timestamp_to_usec("2013-07-15 10:23:45.123456");
    assert_eq!(usec, 1_373_883_825_123_456);
}

#[test]
fn test_timestamp_with_tz_plus00() {
    let usec = parse_timestamp_to_usec("2013-07-15 10:23:45+00");
    assert_eq!(usec, 1_373_883_825_000_000);
}

#[test]
fn test_timestamp_with_tz_plus03() {
    // +03 means local time is 3 hours ahead of UTC, so UTC = local - 3h
    let usec = parse_timestamp_to_usec("2013-07-15 10:23:45+03");
    assert_eq!(usec, 1_373_883_825_000_000 - 3 * 3_600_000_000);
}

#[test]
fn test_timestamp_with_tz_minus05() {
    let usec = parse_timestamp_to_usec("2013-07-15 10:23:45-05");
    assert_eq!(usec, 1_373_883_825_000_000 + 5 * 3_600_000_000);
}

#[test]
fn test_timestamp_with_tz_plus0530() {
    let usec = parse_timestamp_to_usec("2013-07-15 10:23:45+05:30");
    assert_eq!(
        usec,
        1_373_883_825_000_000 - 5 * 3_600_000_000 - 30 * 60_000_000
    );
}

#[test]
fn test_epoch() {
    let usec = parse_timestamp_to_usec("1970-01-01 00:00:00");
    assert_eq!(usec, 0);
}

#[test]
fn test_leap_year_feb29() {
    let usec = parse_timestamp_to_usec("2000-02-29");
    // 2000-02-29 00:00:00 UTC = 951782400 seconds
    assert_eq!(usec, 951_782_400_000_000);
}

#[test]
fn test_leap_year_2024() {
    let usec = parse_timestamp_to_usec("2024-02-29 12:00:00");
    // 2024-02-29 12:00:00 UTC = 1709208000 seconds
    assert_eq!(usec, 1_709_208_000_000_000);
}

#[test]
fn test_before_epoch() {
    let usec = parse_timestamp_to_usec("1969-12-31 23:59:59");
    assert_eq!(usec, -1_000_000);
}

#[test]
fn test_usec_to_timestamp_roundtrip() {
    let cases = [
        "2013-07-15 10:23:45+00",
        "1970-01-01 00:00:00+00",
        "2024-02-29 12:00:00+00",
    ];
    for ts in &cases {
        let usec = parse_timestamp_to_usec(ts);
        let back = usec_to_timestamp_string(usec);
        assert_eq!(&back, ts, "roundtrip failed for {}", ts);
    }
}

#[test]
fn test_usec_to_timestamp_with_frac() {
    let usec = 1_373_883_825_123_456i64;
    let s = usec_to_timestamp_string(usec);
    assert_eq!(s, "2013-07-15 10:23:45.123456+00");
}

#[test]
fn test_usec_to_timestamp_frac_trailing_zeros() {
    let usec = 1_373_883_825_100_000i64;
    let s = usec_to_timestamp_string(usec);
    assert_eq!(s, "2013-07-15 10:23:45.1+00");
}

#[test]
fn test_usec_to_date_string() {
    let usec = 1_373_883_825_000_000i64;
    let s = usec_to_date_string(usec);
    assert_eq!(s, "2013-07-15");
}

#[test]
fn test_usec_to_date_string_epoch() {
    assert_eq!(usec_to_date_string(0), "1970-01-01");
}

#[test]
fn test_date_roundtrip() {
    let cases = ["2013-07-15", "1970-01-01", "2024-02-29", "2000-01-01"];
    for d in &cases {
        let usec = parse_timestamp_to_usec(d);
        let back = usec_to_date_string(usec);
        assert_eq!(&back, d, "date roundtrip failed for {}", d);
    }
}

#[test]
fn test_before_epoch_formatting() {
    let usec = parse_timestamp_to_usec("1969-12-31 23:59:59");
    let s = usec_to_timestamp_string(usec);
    assert_eq!(s, "1969-12-31 23:59:59+00");
}

#[test]
fn test_fractional_second_variants() {
    // .1 = 100000 usec
    assert_eq!(
        parse_timestamp_to_usec("2020-01-01 00:00:00.1"),
        parse_timestamp_to_usec("2020-01-01 00:00:00") + 100_000
    );
    // .12 = 120000 usec
    assert_eq!(
        parse_timestamp_to_usec("2020-01-01 00:00:00.12"),
        parse_timestamp_to_usec("2020-01-01 00:00:00") + 120_000
    );
    // .123 = 123000 usec
    assert_eq!(
        parse_timestamp_to_usec("2020-01-01 00:00:00.123"),
        parse_timestamp_to_usec("2020-01-01 00:00:00") + 123_000
    );
}

#[test]
fn timestamp_forms() {
    let base = parse_timestamp_to_usec("2013-07-15 10:23:45");
    // The ISO form with a `T`, white space around, and `+HHMM`.
    assert_eq!(parse_timestamp_to_usec("2013-07-15T10:23:45"), base);
    assert_eq!(parse_timestamp_to_usec("  2013-07-15 10:23:45\n"), base);
    assert_eq!(
        parse_timestamp_to_usec("2013-07-15 10:23:45+0530"),
        base - 19_800_000_000
    );
    assert_eq!(
        parse_timestamp_to_usec("2013-07-15 10:23:45.5-03:30"),
        base + 500_000 + 12_600_000_000
    );
    // Digits past the sixth are dropped.
    assert_eq!(
        parse_timestamp_to_usec("2013-07-15 10:23:45.123456789"),
        base + 123_456
    );
    // A zone cut short behind its colon has no minutes.
    assert_eq!(parse_timestamp_to_usec("2013-07-15 10:23:45+05:"), base - 18_000_000_000);
}

#[test]
fn forms_that_say_the_same() {
    for time in ["10:23:45", "00:00:00.5", "23:59:59.999999+05:30", "10:23:45-0330"] {
        let base = parse_timestamp_to_usec(&format!("2013-07-15 {time}"));
        assert_eq!(parse_timestamp_to_usec(&format!("2013-07-15T{time}")), base);
        assert_eq!(parse_timestamp_to_usec(&format!("\t\u{a0} 2013-07-15 {time} \n")), base);
    }
    let midnight = parse_timestamp_to_usec("2013-07-15 00:00:00");
    assert_eq!(parse_timestamp_to_usec("2013-07-15"), midnight);
    assert_eq!(parse_timestamp_to_usec(" 2013-07-15 "), midnight);
}

#[test]
fn canonical_texts_come_back() {
    for text in [
        "0000-01-01 00:00:00+00",
        "2000-02-29 23:59:59.000001+00",
        "1969-12-31 23:59:59.9+00",
        "2013-07-15 10:23:45.12345+00",
        "9999-12-31 23:59:59.999999+00",
    ] {
        assert_eq!(usec_to_timestamp_string(parse_timestamp_to_usec(text)), text);
    }
}

#[test]
fn texts_are_in_the_order_of_time() {
    let times = [
        -62_167_219_200_000_000,
        -62_167_219_199_999_999,
        -1,
        0,
        1,
        90_000,
        100_000,
        109_999,
        120_000,
        1_000_000,
        9_999_999,
        10_000_000,
        86_399_999_999,
        86_400_000_000,
        1_373_883_825_123_456,
        253_402_300_799_999_999,
    ];
    for pair in times.windows(2) {
        assert!(pair[0] < pair[1]);
        assert!(usec_to_timestamp_string(pair[0]) < usec_to_timestamp_string(pair[1]));
    }
}

#[test]
fn timestamps_survive_a_round_trip() {
    for usec in [
        0,
        1,
        -1,
        -86_400_000_000,
        1_373_883_825_123_456,
        -62_167_219_200_000_000,
        253_402_300_799_999_999,
    ] {
        assert_eq!(parse_timestamp_to_usec(&usec_to_timestamp_string(usec)), usec);
    }
    assert_eq!(usec_to_timestamp_string(-62_167_219_200_000_000), "0000-01-01 00:00:00+00");
    assert_eq!(
        usec_to_timestamp_string(253_402_300_799_999_999),
        "9999-12-31 23:59:59.999999+00"
    );
}

#[test]
fn timestamps_out_of_the_four_digit_years() {
    assert_eq!(usec_to_timestamp_string(253_402_300_800_000_000), "10000-01-01 00:00:00+00");
    assert_eq!(usec_to_timestamp_string(-62_167_219_200_000_001), "-001-12-31 23:59:59.999999+00");
    assert_eq!(usec_to_timestamp_string(i64::MAX), "294247-01-10 04:00:54.775807+00");
    assert_eq!(usec_to_timestamp_string(i64::MIN), "-290308-12-21 19:59:05.224192+00");
}

#[test]
fn dates_are_the_midnight_before() {
    assert_eq!(usec_to_date_string(-1), "1969-12-31");
    assert_eq!(usec_to_date_string(86_399_999_999), "1970-01-01");
    for usec in [1_373_883_825_123_456i64, -1, 0, 951_782_400_000_000] {
        let midnight = parse_timestamp_to_usec(&usec_to_date_string(usec));
        assert_eq!(midnight, usec - usec.rem_euclid(86_400_000_000));
    }
}

#[test]
fn times_of_day() {
    assert_eq!(parse_time_to_usec("10:23:45"), Ok(37_425_000_000));
    assert_eq!(parse_time_to_usec(" 10:23 "), Ok(37_380_000_000));
    assert_eq!(parse_time_to_usec("00:00:00.1"), Ok(100_000));
    assert_eq!(parse_time_to_usec("00:00:01."), Ok(1_000_000));
    assert_eq!(parse_time_to_usec("00:00:00.1234567"), Ok(123_456));
    assert_eq!(parse_time_to_usec("24:00:00"), Ok(86_400_000_000));
    assert_eq!(parse_time_to_usec("23:59:60"), Ok(86_400_000_000));
    assert_eq!(parse_time_to_usec("+1:-0:2"), Ok(3_602_000_000));
}

#[test]
fn times_that_are_none() {
    for s in ["", "10", "x:00", "10:", "10:00:", "10:00:x", "10:00:00.x", "1:2:3:4", "9223372036854775808:00"] {
        assert_eq!(parse_time_to_usec(s), Err(format!("invalid time: {}", s)));
    }
    for s in ["25:00", "-1:00", "10:60", "10:-1", "10:00:61", "24:00:00.1", "24:01", "9223372036854775807:00"] {
        assert_eq!(parse_time_to_usec(s), Err(format!("time out of range: {}", s)));
    }
    assert_eq!(parse_time_to_usec(" x "), Err("invalid time: x".to_string()));
}

#[test]
fn times_survive_a_round_trip() {
    for usec in [0, 1, 100_000, 37_425_000_000, 86_399_999_999, 86_400_000_000] {
        assert_eq!(parse_time_to_usec(&usec_to_time_string(usec)), Ok(usec));
    }
    assert_eq!(usec_to_time_string(37_425_500_000), "10:23:45.5");
    assert_eq!(usec_to_time_string(360_000_000_000_000), "100000:00:00");
    assert_eq!(usec_to_time_string(-3_661_500_000), "-1:-1:-1");
}

#[test]
fn parts_of_timestamps() {
    assert_eq!(parse_int_fast(b"2013"), 2013);
    assert_eq!(parse_int_fast(b""), 0);
    assert_eq!(parse_int_fast(b"4294967295"), u32::MAX);
    assert_eq!(parse_int_fast(b"000000000000007"), 7);
    assert_eq!(parse_fractional_usec(b"5"), 500_000);
    assert_eq!(parse_fractional_usec(b"1234567"), 123_456);
    assert_eq!(parse_time_part(b"10:23:45.25"), 37_425_250_000);
    assert_eq!(parse_tz_offset(b"-05"), -18_000_000_000);
    assert_eq!(parse_tz_offset(b"+05:30"), 19_800_000_000);
    assert_eq!(parse_tz_offset(b"+0530"), 19_800_000_000);
}

#[test]
fn days_and_dates() {
    assert_eq!(date_to_epoch_days(1970, 1, 1), 0);
    assert_eq!(date_to_epoch_days(2000, 2, 29), 11_016);
    assert_eq!(epoch_days_to_date(11_016), (2000, 2, 29));
    assert_eq!(epoch_days_to_date(-1), (1969, 12, 31));
    for date in [(i32::MIN, 1, 1), (i32::MAX, 12, 31)] {
        assert_eq!(epoch_days_to_date(date_to_epoch_days(date.0, date.1, date.2)), date);
    }
    for days in -800_000i64..800_000 {
        if days % 97 == 0 {
            let (y, m, d) = epoch_days_to_date(days);
            assert_eq!(date_to_epoch_days(y, m, d), days);
        }
    }
}

#[test]
fn trimming() {
    assert_eq!(trim("\u{3000} a b\t"), "a b");
    assert_eq!(trim(" \u{85}"), "");
    assert_eq!(trim("a"), "a");
    // A zero-width space is no white space.
    assert_eq!(trim("\u{200b}a"), "\u{200b}a");
}
