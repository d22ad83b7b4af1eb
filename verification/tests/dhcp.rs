use parse_logs::calendar::{Date, Time, Timestamp};
use parse_logs::dhcp::{DhcpMsg, LogEntry};
use parse_logs::scan::ParseError;

fn ack(ip_addr: &str, mac_addr: &str) -> DhcpMsg {
    DhcpMsg::Ack {
        ip_addr: ip_addr.to_string(),
        mac_addr: mac_addr.to_string(),
        friendly_name: None,
    }
}

fn stamp(year: u16, month: u8, day: u8, hour: u8, minute: u8, second: u8) -> Timestamp {
    Timestamp::new(
        Date::new(year, month, day).unwrap(),
        Time::new(hour, minute, second).unwrap(),
    )
}

#[test]
fn mac_addr() {
    assert_eq!(
        parse_logs::dhcp::mac_addr(&b"f4:ec:38:85:d8:a9"[..], 0),
        Ok(("f4:ec:38:85:d8:a9".to_string(), 17))
    );
}

#[test]
fn dhcp_ack() {
    let first = &b" on 192.168.0.254 to a4:db:30:66:4f:90"[..];
    assert_eq!(
        parse_logs::dhcp::dhcp_ack(first, 0),
        Ok((ack("192.168.0.254", "a4:db:30:66:4f:90"), first.len()))
    );
    let second = &b" to 192.168.0.77 (9c:ad:97:d1:65:39"[..];
    assert_eq!(
        parse_logs::dhcp::dhcp_ack(second, 0),
        Ok((ack("192.168.0.77", "9c:ad:97:d1:65:39"), second.len()))
    );
}

#[test]
fn dhcp_msg() {
    let parse = |s: &[u8]| parse_logs::dhcp::dhcp_msg(s, 0);
    assert_eq!(parse(&b"DHCPINFORM"[..]), Ok((DhcpMsg::Inform, 10)));
    assert_eq!(parse(&b"DHCPOFFER"[..]), Ok((DhcpMsg::Offer, 9)));
    assert_eq!(
        parse(&b"DHCPACK on 192.168.0.254 to a4:db:30:66:4f:90"[..]),
        Ok((ack("192.168.0.254", "a4:db:30:66:4f:90"), 45))
    );
    assert_eq!(
        parse(&b"DHCPACK to 192.168.0.77 (9c:ad:97:d1:65:39"[..]),
        Ok((ack("192.168.0.77", "9c:ad:97:d1:65:39"), 42))
    );
    assert_eq!(parse(&b"DHCPNAK"[..]), Ok((DhcpMsg::Nak, 7)));
    assert_eq!(parse(&b"DHCPREQUEST"[..]), Ok((DhcpMsg::Request, 11)));
    assert_eq!(parse(&b"DHCPDISCOVER"[..]), Ok((DhcpMsg::Discover, 12)));
}

#[test]
fn log_entry() {
    let log =
        &br#"2015:06:03-00:01:00 PublicWiFi dhcpd: DHCPACK to 192.168.0.77 (9c:ad:97:d1:65:39"#[..];
    let want = LogEntry {
        datetime: stamp(2015, 6, 3, 0, 1, 0),
        msg: ack("192.168.0.77", "9c:ad:97:d1:65:39"),
    };
    assert_eq!(parse_logs::dhcp::log_entry(log, 0), Ok((want, log.len())));
}

#[test]
fn new_reads_a_whole_dhcp_line() {
    let want = LogEntry {
        datetime: stamp(2015, 6, 3, 0, 1, 0),
        msg: ack("192.168.0.77", "9c:ad:97:d1:65:39"),
    };
    let open = b"2015:06:03-00:01:00 PublicWiFi dhcpd: DHCPACK to 192.168.0.77 (9c:ad:97:d1:65:39";
    assert_eq!(LogEntry::new(open), Ok(want.clone()));
    let closed =
        b"2015:06:03-00:01:00 PublicWiFi dhcpd: DHCPACK to 192.168.0.77 (9c:ad:97:d1:65:39) eth0";
    assert_eq!(LogEntry::new(closed), Ok(want.clone()));
    let other =
        b"2015:06:03-00:01:00 PublicWiFi dhcpd: DHCPACK on 192.168.0.77 to 9c:ad:97:d1:65:39\n";
    assert_eq!(LogEntry::new(other), Ok(want));
}

#[test]
fn messages_without_data() {
    let line =
        |word: &str| format!("2015:06:03-00:01:00 gw dhcpd: DHCP{} from 10.0.0.1 via eth0", word);
    let at = stamp(2015, 6, 3, 0, 1, 0);
    for (word, msg) in [
        ("INFORM", DhcpMsg::Inform),
        ("OFFER", DhcpMsg::Offer),
        ("NAK", DhcpMsg::Nak),
        ("REQUEST", DhcpMsg::Request),
        ("DISCOVER", DhcpMsg::Discover),
    ] {
        assert_eq!(
            LogEntry::new(line(word).as_bytes()),
            Ok(LogEntry { datetime: at, msg })
        );
    }
}

#[test]
fn unknown_keywords_are_malformed() {
    let parse = |s: &[u8]| parse_logs::dhcp::dhcp_msg(s, 0);
    for input in [
        &b"DHCPDECLINE"[..],
        b"DHCPRELEASE",
        b"DHCP",
        b"DHCPA",
        b"DHCPINFOR",
        b"dhcpinform",
        b"BOOTREQUEST",
        b"",
        b" DHCPINFORM",
        b"DHCPACK",
        b"DHCPACK ",
        b"DHCPACKNAK",
    ] {
        assert_eq!(parse(input), Err(ParseError::Malformed));
    }
}

#[test]
fn only_the_two_forms_of_an_acknowledgement() {
    let parse = |s: &[u8]| parse_logs::dhcp::dhcp_ack(s, 0);
    assert!(parse(b" on 10.0.0.5 to aa:bb:cc:dd:ee:ff").is_ok());
    assert!(parse(b" to 10.0.0.5 (aa:bb:cc:dd:ee:ff").is_ok());
    for input in [
        &b" on 10.0.0.5 (aa:bb:cc:dd:ee:ff"[..],
        b" to 10.0.0.5 to aa:bb:cc:dd:ee:ff",
        b"on 10.0.0.5 to aa:bb:cc:dd:ee:ff",
        b"  on 10.0.0.5 to aa:bb:cc:dd:ee:ff",
        b" on  10.0.0.5 to aa:bb:cc:dd:ee:ff",
        b" on 10.0.0.5  to aa:bb:cc:dd:ee:ff",
        b" on 10.0.0.5 to  aa:bb:cc:dd:ee:ff",
        b" to 10.0.0.5(aa:bb:cc:dd:ee:ff",
        b" to 10.0.0.5 aa:bb:cc:dd:ee:ff",
        b" for 10.0.0.5 to aa:bb:cc:dd:ee:ff",
        b"\ton 10.0.0.5 to aa:bb:cc:dd:ee:ff",
        b" on 10.0.0.5\tto aa:bb:cc:dd:ee:ff",
        b" on 10.0.0 to aa:bb:cc:dd:ee:ff",
        b" on 10.0.0.5 to aa:bb:cc:dd:ee:f",
        b" on 10.0.0.5 to ",
        b" on ",
        b"",
    ] {
        assert_eq!(parse(input), Err(ParseError::Malformed));
    }
}

#[test]
fn ip_addr_is_four_runs_of_one_to_three_digits() {
    let parse = |s: &[u8]| parse_logs::dhcp::ip_addr(s, 0);
    assert_eq!(parse(b"1.2.3.4"), Ok(("1.2.3.4".to_string(), 7)));
    assert_eq!(parse(b"10.0.0.5 "), Ok(("10.0.0.5".to_string(), 8)));
    assert_eq!(
        parse(b"192.168.100.200"),
        Ok(("192.168.100.200".to_string(), 15))
    );
    // No octet is held against 255.
    assert_eq!(
        parse(b"999.999.999.999"),
        Ok(("999.999.999.999".to_string(), 15))
    );
    assert_eq!(parse(b"000.00.0.256"), Ok(("000.00.0.256".to_string(), 12)));
    // The last octet ends after three digits or at the first byte that is none.
    assert_eq!(parse(b"1.2.3.4567"), Ok(("1.2.3.456".to_string(), 9)));
    assert_eq!(parse(b"1.2.3.4.5"), Ok(("1.2.3.4".to_string(), 7)));
    for input in [
        &b"1.2.3"[..],
        b"1.2.3.",
        b"1..3.4",
        b".1.2.3",
        b"1234.1.1.1",
        b"1.2345.1.1",
        b"1,2,3,4",
        b"a.b.c.d",
        b"1.2.3.x",
        b"",
    ] {
        assert_eq!(parse(input), Err(ParseError::Malformed));
    }
}

#[test]
fn mac_addr_is_seventeen_hex_digits_or_colons() {
    let parse = |s: &[u8]| parse_logs::dhcp::mac_addr(s, 0);
    assert_eq!(
        parse(b"F4:EC:38:85:D8:A9"),
        Ok(("F4:EC:38:85:D8:A9".to_string(), 17))
    );
    // Where the colons stand is not checked.
    assert_eq!(
        parse(b":::::::::::::::::"),
        Ok((":::::::::::::::::".to_string(), 17))
    );
    assert_eq!(
        parse(b"0123456789abcdefA"),
        Ok(("0123456789abcdefA".to_string(), 17))
    );
    // What follows the seventeenth byte is not read.
    assert_eq!(
        parse(b"f4:ec:38:85:d8:a9)"),
        Ok(("f4:ec:38:85:d8:a9".to_string(), 17))
    );
    assert_eq!(
        parse(b"f4:ec:38:85:d8:a9ff"),
        Ok(("f4:ec:38:85:d8:a9".to_string(), 17))
    );
    for input in [
        &b"f4:ec:38:85:d8:a"[..],
        b"f4:ec:38:85:d8:ag",
        b"g4:ec:38:85:d8:a9",
        b"f4-ec-38-85-d8-a9",
        b"f4:ec:38:85:d8: 9",
        b"",
    ] {
        assert_eq!(parse(input), Err(ParseError::Malformed));
    }
}

#[test]
fn lines_that_are_no_entries() {
    for line in [
        &b""[..],
        b"garbage",
        b"2015:06:03-00:01:00",
        b"2015:06:03-00:01:00 PublicWiFi dhcpd",
        b"2015:06:03-00:01:00 PublicWiFi dhcpd:",
        b"2015:06:03-00:01:00 PublicWiFi dhcpd:DHCPINFORM",
        b"2015:06:03-00:01:00 PublicWiFi dhcpd:\tDHCPINFORM",
        b"2015:06:03-00:01:00: DHCPINFORM",
        b"2015:06:03-00:01:00 a:b: DHCPINFORM",
        b"2015:06:03-00:01:00 PublicWiFi dhcpd: something else",
        b"2015:06:03-00:01:00 PublicWiFi dhcpd: DHCPACK on 192.168.0.77",
        b"2015:06:03-00:01:00 PublicWiFi dhcpd: DHCPACK on 192.168.0.77 (9c:ad:97:d1:65:39",
        b"2015:6:03-00:01:00 PublicWiFi dhcpd: DHCPINFORM",
        b"2015:06:03 00:01:00 PublicWiFi dhcpd: DHCPINFORM",
    ] {
        assert_eq!(LogEntry::new(line), Err(ParseError::Malformed));
    }
}

#[test]
fn lines_with_a_time_that_does_not_exist() {
    for line in [
        &b"2015:02:30-00:01:00 PublicWiFi dhcpd: DHCPINFORM"[..],
        b"2015:13:01-00:01:00 PublicWiFi dhcpd: DHCPINFORM",
        b"2015:06:03-24:01:00 PublicWiFi dhcpd: DHCPINFORM",
        b"2015:06:03-00:60:00 PublicWiFi dhcpd: DHCPINFORM",
        b"2015:06:03-00:00:60 PublicWiFi dhcpd: DHCPINFORM",
        b"2015:02:30-00:01:00 no message here",
    ] {
        assert_eq!(LogEntry::new(line), Err(ParseError::OutOfRange));
    }
}

#[test]
fn the_banner_is_not_read() {
    let want = LogEntry {
        datetime: stamp(2016, 4, 3, 23, 59, 59),
        msg: DhcpMsg::Nak,
    };
    assert_eq!(
        LogEntry::new(b"2016:04:03-23:59:59x: DHCPNAK"),
        Ok(want.clone())
    );
    assert_eq!(
        LogEntry::new(b"2016:04:03-23:59:59 gw-1 dhcpd[42] \"=\x00\xff: DHCPNAK"),
        Ok(want)
    );
}

#[test]
fn entries_are_read_where_they_start() {
    let input = b"##2015:06:03-00:01:00 gw dhcpd: DHCPOFFER on 10.0.0.1";
    let want = LogEntry {
        datetime: stamp(2015, 6, 3, 0, 1, 0),
        msg: DhcpMsg::Offer,
    };
    assert_eq!(parse_logs::dhcp::log_entry(input, 2), Ok((want, 41)));
    assert_eq!(
        parse_logs::dhcp::log_entry(input, 0),
        Err(ParseError::Malformed)
    );
    assert_eq!(
        parse_logs::dhcp::dhcp_msg(input, 32),
        Ok((DhcpMsg::Offer, 41))
    );
    assert_eq!(
        parse_logs::dhcp::ip_addr(input, 45),
        Ok(("10.0.0.1".to_string(), 53))
    );
    assert_eq!(
        parse_logs::dhcp::mac_addr(input, 1000),
        Err(ParseError::Malformed)
    );
}
