use parse_logs::calendar::{Date, Time, Timestamp};
use parse_logs::scan::{digit, hex_digit, match_text, same_text, scan_until, ParseError};

fn ymd(year: u16, month: u8, day: u8) -> Date {
    Date::new(year, month, day).unwrap()
}

fn hms(hour: u8, minute: u8, second: u8) -> Time {
    Time::new(hour, minute, second).unwrap()
}

fn is_leap(year: u16) -> bool {
    year % 4 == 0 && (year % 100 != 0 || year % 400 == 0)
}

fn month_length(year: u16, month: u8) -> u8 {
    match month {
        2 => {
            if is_leap(year) {
                29
            } else {
                28
            }
        }
        4 | 6 | 9 | 11 => 30,
        _ => 31,
    }
}

#[test]
fn date() {
    assert_eq!(
        parse_logs::calendar::date(&b"2016:04:03"[..], 0),
        Ok((ymd(2016, 4, 3), 10))
    );
}

#[test]
fn time() {
    assert_eq!(
        parse_logs::calendar::time(&b"23:59:59"[..], 0),
        Ok((hms(23, 59, 59), 8))
    );
}

#[test]
fn datetime() {
    let want = Timestamp::new(ymd(2016, 4, 3), hms(23, 59, 59));
    assert_eq!(
        parse_logs::calendar::datetime(&b"2016:04:03-23:59:59"[..], 0),
        Ok((want, 19))
    );
}

#[test]
fn date_fields_come_back() {
    let (date, end) = parse_logs::calendar::date(b"1999:12:31", 0).unwrap();
    assert_eq!((date.year(), date.month(), date.day()), (1999, 12, 31));
    assert_eq!(end, 10);
    let (time, end) = parse_logs::calendar::time(b"00:01:09", 0).unwrap();
    assert_eq!((time.hour(), time.minute(), time.second()), (0, 1, 9));
    assert_eq!(end, 8);
}

#[test]
fn every_real_date_round_trips() {
    for year in [0u16, 1, 1900, 1999, 2000, 2015, 2016, 2100, 2400, 9999] {
        for month in 1..=12u8 {
            for day in 1..=month_length(year, month) {
                let token = format!("{:04}:{:02}:{:02}", year, month, day);
                let (date, end) = parse_logs::calendar::date(token.as_bytes(), 0).unwrap();
                assert_eq!((date.year(), date.month(), date.day()), (year, month, day));
                assert_eq!(end, 10);
            }
        }
    }
}

#[test]
fn date_validity_is_the_calendar() {
    for year in [0u16, 4, 100, 400, 1900, 2000, 2015, 2016, 2100, 9999, 10000, 65535] {
        for month in 0..=14u8 {
            for day in 0..=33u8 {
                let real =
                    1 <= month && month <= 12 && 1 <= day && day <= month_length(year, month);
                assert_eq!(Date::new(year, month, day).is_some(), real);
                let theirs = chrono::NaiveDate::from_ymd_opt(year as i32, month as u32, day as u32);
                assert_eq!(theirs.is_some(), real);
            }
        }
    }
}

#[test]
fn time_validity_is_the_clock() {
    for hour in 0..=30u8 {
        for minute in [0u8, 1, 30, 59, 60, 61, 99] {
            for second in [0u8, 1, 30, 59, 60, 61, 99] {
                let real = hour < 24 && minute < 60 && second < 60;
                assert_eq!(Time::new(hour, minute, second).is_some(), real);
            }
        }
    }
    assert!(Time::new(255, 0, 0).is_none());
}

#[test]
fn date_with_wrong_digit_counts_is_malformed() {
    for token in [
        &b"2016:4:03"[..],
        b"2016:04:3",
        b"216:04:03",
        b"20160:04:03",
        b"2016:004:03",
        b"2016:04:031",
        b"2016:04:",
        b"2016:04",
        b"",
        b"2016-04-03",
        b"2016:04:0x",
        b"x016:04:03",
    ] {
        assert_eq!(
            parse_logs::calendar::date(token, 0),
            Err(ParseError::Malformed)
        );
    }
}

#[test]
fn date_that_does_not_exist_is_out_of_range() {
    for token in [
        &b"2016:13:03"[..],
        b"2016:00:03",
        b"2016:04:00",
        b"2016:04:31",
        b"2015:02:29",
        b"2015:02:30",
        b"1900:02:29",
        b"2016:02:30",
        b"2016:99:99",
    ] {
        assert_eq!(
            parse_logs::calendar::date(token, 0),
            Err(ParseError::OutOfRange)
        );
    }
    assert!(parse_logs::calendar::date(b"2016:02:29", 0).is_ok());
    assert!(parse_logs::calendar::date(b"2000:02:29", 0).is_ok());
    assert!(parse_logs::calendar::date(b"0000:02:29", 0).is_ok());
}

#[test]
fn time_errors() {
    for token in [&b"24:00:00"[..], b"23:60:00", b"23:59:60", b"99:99:99"] {
        assert_eq!(
            parse_logs::calendar::time(token, 0),
            Err(ParseError::OutOfRange)
        );
    }
    for token in [
        &b"3:59:59"[..],
        b"23:5:59",
        b"23:59:5",
        b"023:59:59",
        b"23:059:59",
        b"23:59:591",
        b"23-59-59",
        b"",
    ] {
        assert_eq!(
            parse_logs::calendar::time(token, 0),
            Err(ParseError::Malformed)
        );
    }
}

#[test]
fn datetime_errors() {
    let parse = |s: &[u8]| parse_logs::calendar::datetime(s, 0);
    assert_eq!(parse(b"2016:04:03 23:59:59"), Err(ParseError::Malformed));
    assert_eq!(parse(b"2016:04:03"), Err(ParseError::Malformed));
    assert_eq!(parse(b"2016:04:03-"), Err(ParseError::Malformed));
    assert_eq!(parse(b"2016:04:03-23:59"), Err(ParseError::Malformed));
    assert_eq!(parse(b"2016:04:03-23:59:590"), Err(ParseError::Malformed));
    assert_eq!(parse(b"2015:02:30-23:59:59"), Err(ParseError::OutOfRange));
    assert_eq!(parse(b"2015:02:28-24:00:00"), Err(ParseError::OutOfRange));
    // The date is read first, so it decides where both parts are wrong.
    assert_eq!(parse(b"2015:02:30-23:59"), Err(ParseError::OutOfRange));
    assert_eq!(parse(b"2015:2:30-24:00:00"), Err(ParseError::Malformed));
}

#[test]
fn tokens_are_read_where_they_start() {
    let input = b"xx2016:04:03-23:59:59 yy";
    let want = Timestamp::new(ymd(2016, 4, 3), hms(23, 59, 59));
    assert_eq!(parse_logs::calendar::datetime(input, 2), Ok((want, 21)));
    assert_eq!(
        parse_logs::calendar::date(input, 2),
        Ok((ymd(2016, 4, 3), 12))
    );
    assert_eq!(
        parse_logs::calendar::time(input, 13),
        Ok((hms(23, 59, 59), 21))
    );
    assert_eq!(
        parse_logs::calendar::datetime(input, 0),
        Err(ParseError::Malformed)
    );
    assert_eq!(
        parse_logs::calendar::datetime(input, 100),
        Err(ParseError::Malformed)
    );
    assert_eq!(
        parse_logs::calendar::date(input, usize::MAX),
        Err(ParseError::Malformed)
    );
}

#[test]
fn ordinal_has_its_formula() {
    let t = Timestamp::new(ymd(2016, 4, 3), hms(23, 59, 59));
    assert_eq!(t.ordinal(), ((2016 * 13 + 4) * 32 + 3) * 86400 + 86399);
    assert_eq!(t.ordinal(), 72_471_283_199);
    let first = Timestamp::new(ymd(0, 1, 1), hms(0, 0, 0));
    assert_eq!(first.ordinal(), 33 * 86400);
}

#[test]
fn timestamps_are_ordered_by_instant() {
    let stamps = [
        Timestamp::new(ymd(1999, 12, 31), hms(23, 59, 59)),
        Timestamp::new(ymd(2000, 1, 1), hms(0, 0, 0)),
        Timestamp::new(ymd(2000, 1, 1), hms(0, 0, 1)),
        Timestamp::new(ymd(2000, 1, 1), hms(0, 1, 0)),
        Timestamp::new(ymd(2000, 1, 1), hms(1, 0, 0)),
        Timestamp::new(ymd(2000, 1, 2), hms(0, 0, 0)),
        Timestamp::new(ymd(2000, 2, 1), hms(0, 0, 0)),
        Timestamp::new(ymd(2001, 1, 1), hms(0, 0, 0)),
    ];
    for (i, a) in stamps.iter().enumerate() {
        for (j, b) in stamps.iter().enumerate() {
            assert_eq!(a.is_before(b), i < j);
            assert_eq!(a.ordinal() < b.ordinal(), i < j);
            assert_eq!(a < b, i < j);
            assert_eq!(a == b, i == j);
        }
    }
}

#[test]
fn timestamp_parts() {
    let t = Timestamp::new(ymd(2015, 6, 3), hms(0, 1, 0));
    assert_eq!(t.date(), ymd(2015, 6, 3));
    assert_eq!(t.time(), hms(0, 1, 0));
}

#[test]
fn the_calendar_of_chrono() {
    // The years that `chrono` holds, and the days it knows in them.
    assert!(chrono::NaiveDate::from_ymd_opt(262142, 12, 31).is_some());
    assert!(chrono::NaiveDate::from_ymd_opt(262143, 1, 1).is_none());
    assert!(chrono::NaiveDate::from_ymd_opt(-262143, 1, 1).is_some());
    assert!(chrono::NaiveDate::from_ymd_opt(-262144, 12, 31).is_none());
    assert!(chrono::NaiveDate::from_ymd_opt(i32::MAX, 1, 1).is_none());
    assert!(chrono::NaiveDate::from_ymd_opt(i32::MIN, 1, 1).is_none());
    assert!(chrono::NaiveDate::from_ymd_opt(-4, 2, 29).is_some());
    assert!(chrono::NaiveDate::from_ymd_opt(-1, 2, 29).is_none());
    assert!(chrono::NaiveDate::from_ymd_opt(2016, 2, u32::MAX).is_none());
    assert!(chrono::NaiveDate::from_ymd_opt(2016, u32::MAX, 1).is_none());
    assert!(chrono::NaiveTime::from_hms_opt(23, 59, 59).is_some());
    assert!(chrono::NaiveTime::from_hms_opt(24, 0, 0).is_none());
    assert!(chrono::NaiveTime::from_hms_opt(0, 60, 0).is_none());
    assert!(chrono::NaiveTime::from_hms_opt(0, 0, 60).is_none());
    assert!(chrono::NaiveTime::from_hms_opt(u32::MAX, 0, 0).is_none());
    assert!(chrono::NaiveTime::from_hms_opt(0, u32::MAX, 0).is_none());
    assert!(chrono::NaiveTime::from_hms_opt(0, 0, u32::MAX).is_none());
}

#[test]
fn the_preamble_of_a_line() {
    let parse = |s: &[u8]| parse_logs::preamble::preamble(s, 0);
    let want = Timestamp::new(ymd(2016, 4, 3), hms(23, 59, 59));
    assert_eq!(
        parse(b"2016:04:03-23:59:59 publicwifi httpproxy[18500]: rest"),
        Ok((want, 49))
    );
    assert_eq!(parse(b"2016:04:03-23:59:59x: "), Ok((want, 22)));
    // The banner is one byte at least, holds no colon and ends with colon and space.
    assert_eq!(parse(b"2016:04:03-23:59:59: "), Err(ParseError::Malformed));
    assert_eq!(parse(b"2016:04:03-23:59:59 gw:"), Err(ParseError::Malformed));
    assert_eq!(parse(b"2016:04:03-23:59:59 gw:x"), Err(ParseError::Malformed));
    assert_eq!(parse(b"2016:04:03-23:59:59 gw"), Err(ParseError::Malformed));
    assert_eq!(parse(b"2016:04:03-23:59:59 a:b: "), Err(ParseError::Malformed));
    assert_eq!(parse(b"2016:04:03-23:59:59 gw:\t"), Err(ParseError::Malformed));
    assert_eq!(parse(b"2016:04:03-24:59:59 gw: "), Err(ParseError::OutOfRange));
    assert_eq!(
        parse_logs::preamble::preamble(b"..2016:04:03-23:59:59 gw: ", 2),
        Ok((want, 26))
    );
}

#[test]
fn bytes_and_text() {
    for b in 0..=255u8 {
        assert_eq!(digit(b), b.is_ascii_digit());
        assert_eq!(hex_digit(b), b.is_ascii_hexdigit());
    }
    assert_eq!(match_text(b"DHCPACK", 0, "DHCP"), Some(4));
    assert_eq!(match_text(b"DHCPACK", 4, "ACK"), Some(7));
    assert_eq!(match_text(b"DHCPACK", 4, "NAK"), None);
    assert_eq!(match_text(b"DHCPACK", 5, "ACK"), None);
    assert_eq!(match_text(b"DHCPACK", 7, ""), Some(7));
    assert_eq!(match_text(b"DHCPACK", 8, ""), None);
    assert_eq!(match_text(b"DHCPACK", usize::MAX, "A"), None);
    assert_eq!(match_text("cl\u{e9}".as_bytes(), 0, "cl\u{e9}"), Some(4));
    assert_eq!(scan_until(b"abc:def", 0, b':'), 3);
    assert_eq!(scan_until(b"abc:def", 3, b':'), 3);
    assert_eq!(scan_until(b"abc:def", 4, b':'), 7);
    assert_eq!(scan_until(b"abc:def", 7, b':'), 7);
    assert_eq!(scan_until(b"abc:def", 9, b':'), 9);
    assert!(same_text("", ""));
    assert!(same_text("srcip", "srcip"));
    assert!(!same_text("srcip", "srcIp"));
    assert!(!same_text("srcip", "srcip "));
    assert!(same_text("cl\u{e9}", "cl\u{e9}"));
    assert!(!same_text("cl\u{e9}", "cle"));
}
