use parse_logs::calendar::{Date, Time, Timestamp};
use parse_logs::directory::NameDirectory;
use parse_logs::index::IpToMacBuilder;
use parse_logs::lease::{collapse_runs, Lease, Timeline};

const MAC_A: &str = "aa:aa:aa:aa:aa:aa";
const MAC_B: &str = "bb:bb:bb:bb:bb:bb";
const MAC_C: &str = "cc:cc:cc:cc:cc:cc";

fn at(hour: u8, minute: u8, second: u8) -> Timestamp {
    Timestamp::new(
        Date::new(2016, 4, 3).unwrap(),
        Time::new(hour, minute, second).unwrap(),
    )
}

fn on(year: u16, month: u8, day: u8) -> Timestamp {
    Timestamp::new(
        Date::new(year, month, day).unwrap(),
        Time::new(0, 0, 0).unwrap(),
    )
}

fn lease(since: Timestamp, mac_addr: &str) -> Lease {
    Lease {
        since,
        mac_addr: mac_addr.to_string(),
    }
}

#[test]
fn ownership_timeline() {
    let mut builder = IpToMacBuilder::new();
    builder.add_dhcp_ack(at(0, 0, 0), "10.0.0.5", MAC_A);
    builder.add_dhcp_ack(at(0, 5, 0), "10.0.0.5", MAC_A);
    builder.add_dhcp_ack(at(0, 10, 0), "10.0.0.5", MAC_B);
    let index = builder.finalize();
    assert_eq!(index.get_mac(at(0, 7, 0), "10.0.0.5"), Some(MAC_A));
    assert_eq!(index.get_mac(at(0, 10, 0), "10.0.0.5"), Some(MAC_A));
    assert_eq!(index.get_mac(at(0, 10, 1), "10.0.0.5"), Some(MAC_B));
    assert_eq!(index.get_mac(on(1999, 1, 1), "10.0.0.5"), None);
}

#[test]
fn runs_of_the_timeline() {
    let raw = vec![
        lease(at(0, 0, 0), MAC_A),
        lease(at(0, 5, 0), MAC_A),
        lease(at(0, 10, 0), MAC_B),
    ];
    assert_eq!(
        *Timeline::from_leases(raw).runs(),
        vec![lease(at(0, 0, 0), MAC_A), lease(at(0, 10, 0), MAC_B)]
    );
}

#[test]
fn a_lease_at_the_very_instant_does_not_count_yet() {
    let mut builder = IpToMacBuilder::new();
    builder.add_dhcp_ack(at(1, 0, 0), "10.0.0.5", MAC_A);
    builder.add_dhcp_ack(at(2, 0, 0), "10.0.0.5", MAC_B);
    builder.add_dhcp_ack(at(3, 0, 0), "10.0.0.5", MAC_C);
    let index = builder.finalize();
    assert_eq!(index.get_mac(at(0, 59, 59), "10.0.0.5"), None);
    assert_eq!(index.get_mac(at(1, 0, 0), "10.0.0.5"), None);
    assert_eq!(index.get_mac(at(1, 0, 1), "10.0.0.5"), Some(MAC_A));
    assert_eq!(index.get_mac(at(1, 59, 59), "10.0.0.5"), Some(MAC_A));
    assert_eq!(index.get_mac(at(2, 0, 0), "10.0.0.5"), Some(MAC_A));
    assert_eq!(index.get_mac(at(2, 0, 1), "10.0.0.5"), Some(MAC_B));
    assert_eq!(index.get_mac(at(3, 0, 0), "10.0.0.5"), Some(MAC_B));
    assert_eq!(index.get_mac(at(3, 0, 1), "10.0.0.5"), Some(MAC_C));
    assert_eq!(index.get_mac(on(2100, 1, 1), "10.0.0.5"), Some(MAC_C));
}

#[test]
fn an_unknown_address_has_no_owner() {
    let mut builder = IpToMacBuilder::new();
    builder.add_dhcp_ack(at(1, 0, 0), "10.0.0.5", MAC_A);
    let index = builder.finalize();
    assert!(index.knows("10.0.0.5"));
    assert!(!index.knows("10.0.0.6"));
    assert!(!index.knows(""));
    assert_eq!(index.get_mac(at(2, 0, 0), "10.0.0.6"), None);
    assert_eq!(index.get_mac(at(2, 0, 0), "10.0.0.50"), None);
    assert_eq!(index.get_mac(at(2, 0, 0), ""), None);
    let empty = IpToMacBuilder::new().finalize();
    assert_eq!(empty.get_mac(at(2, 0, 0), "10.0.0.5"), None);
}

#[test]
fn leases_are_put_in_time_order() {
    let mut builder = IpToMacBuilder::new();
    builder.add_dhcp_ack(at(3, 0, 0), "10.0.0.5", MAC_C);
    builder.add_dhcp_ack(at(1, 0, 0), "10.0.0.5", MAC_A);
    builder.add_dhcp_ack(at(2, 0, 0), "10.0.0.5", MAC_B);
    builder.add_dhcp_ack(at(1, 30, 0), "10.0.0.5", MAC_A);
    let index = builder.finalize();
    assert_eq!(index.get_mac(at(1, 0, 0), "10.0.0.5"), None);
    assert_eq!(index.get_mac(at(1, 45, 0), "10.0.0.5"), Some(MAC_A));
    assert_eq!(index.get_mac(at(2, 30, 0), "10.0.0.5"), Some(MAC_B));
    assert_eq!(index.get_mac(at(3, 30, 0), "10.0.0.5"), Some(MAC_C));
    let raw = vec![
        lease(at(3, 0, 0), MAC_C),
        lease(at(1, 0, 0), MAC_A),
        lease(at(2, 0, 0), MAC_B),
        lease(at(1, 30, 0), MAC_A),
    ];
    assert_eq!(
        *Timeline::from_leases(raw).runs(),
        vec![
            lease(at(1, 0, 0), MAC_A),
            lease(at(2, 0, 0), MAC_B),
            lease(at(3, 0, 0), MAC_C)
        ]
    );
}

#[test]
fn leases_of_one_instant_keep_their_order() {
    let raw = vec![
        lease(at(2, 0, 0), MAC_C),
        lease(at(1, 0, 0), MAC_B),
        lease(at(1, 0, 0), MAC_A),
        lease(at(2, 0, 0), MAC_A),
        lease(at(1, 0, 0), MAC_B),
    ];
    // In time order: B, A, B at one o'clock, then C, A at two.
    assert_eq!(
        *Timeline::from_leases(raw).runs(),
        vec![
            lease(at(1, 0, 0), MAC_B),
            lease(at(1, 0, 0), MAC_A),
            lease(at(1, 0, 0), MAC_B),
            lease(at(2, 0, 0), MAC_C),
            lease(at(2, 0, 0), MAC_A),
        ]
    );
    let mut builder = IpToMacBuilder::new();
    builder.add_dhcp_ack(at(1, 0, 0), "10.0.0.5", MAC_B);
    builder.add_dhcp_ack(at(1, 0, 0), "10.0.0.5", MAC_A);
    let index = builder.finalize();
    assert_eq!(index.get_mac(at(1, 0, 0), "10.0.0.5"), None);
    assert_eq!(index.get_mac(at(1, 0, 1), "10.0.0.5"), Some(MAC_A));
}

#[test]
fn each_address_has_its_own_history() {
    let mut builder = IpToMacBuilder::new();
    builder.add_dhcp_ack(at(1, 0, 0), "10.0.0.5", MAC_A);
    builder.add_dhcp_ack(at(1, 0, 0), "10.0.0.6", MAC_B);
    builder.add_dhcp_ack(at(2, 0, 0), "10.0.0.6", MAC_A);
    builder.add_dhcp_ack(at(2, 0, 0), "10.0.0.5", MAC_B);
    builder.add_dhcp_ack(at(3, 0, 0), "10.0.0.7", MAC_C);
    let index = builder.finalize();
    assert_eq!(index.get_mac(at(1, 30, 0), "10.0.0.5"), Some(MAC_A));
    assert_eq!(index.get_mac(at(1, 30, 0), "10.0.0.6"), Some(MAC_B));
    assert_eq!(index.get_mac(at(1, 30, 0), "10.0.0.7"), None);
    assert_eq!(index.get_mac(at(2, 30, 0), "10.0.0.5"), Some(MAC_B));
    assert_eq!(index.get_mac(at(2, 30, 0), "10.0.0.6"), Some(MAC_A));
    assert_eq!(index.get_mac(at(3, 30, 0), "10.0.0.7"), Some(MAC_C));
}

#[test]
fn collapsing_keeps_the_first_of_each_stretch() {
    let list = |macs: &[&str]| -> Vec<Lease> {
        macs.iter()
            .enumerate()
            .map(|(i, mac)| lease(at(0, i as u8, 0), mac))
            .collect()
    };
    let kept = |macs: &[&str], minutes: &[u8]| {
        let want: Vec<Lease> = minutes
            .iter()
            .map(|m| lease(at(0, *m, 0), macs[*m as usize]))
            .collect();
        assert_eq!(collapse_runs(&list(macs)), want);
    };
    kept(&[], &[]);
    kept(&[MAC_A], &[0]);
    kept(&[MAC_A, MAC_A], &[0]);
    kept(&[MAC_A, MAC_B], &[0, 1]);
    kept(&[MAC_A, MAC_A, MAC_A, MAC_A], &[0]);
    kept(&[MAC_A, MAC_B, MAC_A], &[0, 1, 2]);
    kept(
        &[MAC_A, MAC_A, MAC_B, MAC_B, MAC_B, MAC_A, MAC_C, MAC_C],
        &[0, 2, 5, 6],
    );
}

#[test]
fn the_owner_is_found_in_lists_of_any_length() {
    for count in 0..40u8 {
        let runs: Vec<Lease> = (0..count)
            .map(|i| lease(at(1, i, 0), &format!("00:00:00:00:00:{:02}", i)))
            .collect();
        let timeline = Timeline::from_leases(runs.clone());
        assert_eq!(timeline.runs(), &runs);
        assert_eq!(timeline.owner_before(&at(0, 0, 0)), None);
        for i in 0..count {
            let before = if i == 0 {
                None
            } else {
                Some(runs[i as usize - 1].mac_addr.as_str())
            };
            assert_eq!(timeline.owner_before(&at(1, i, 0)), before);
            assert_eq!(
                timeline.owner_before(&at(1, i, 1)),
                Some(runs[i as usize].mac_addr.as_str())
            );
        }
    }
}

#[test]
fn the_first_name_of_a_device_wins() {
    let mut names = NameDirectory::new();
    assert_eq!(names.get(MAC_A), None);
    assert_eq!(names.record(MAC_A, "Joe"), None);
    assert_eq!(names.get(MAC_A), Some("Joe"));
    // The same name again is no conflict.
    assert_eq!(names.record(MAC_A, "Joe"), None);
    // Another name is, and does not replace the first.
    assert_eq!(names.record(MAC_A, "Bob"), Some("Joe".to_string()));
    assert_eq!(names.record(MAC_A, "joe"), Some("Joe".to_string()));
    assert_eq!(names.get(MAC_A), Some("Joe"));
    assert_eq!(names.record(MAC_B, "Bob"), None);
    assert_eq!(names.get(MAC_B), Some("Bob"));
    assert_eq!(names.get(MAC_A), Some("Joe"));
    assert_eq!(names.get(MAC_C), None);
}
