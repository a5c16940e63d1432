use gateway_discovery::addr::Ipv4;
use gateway_discovery::error::Error;
use gateway_discovery::linux::route_parser::{parse, Flags, Route};
use gateway_discovery::linux::{match_routes, retrieve, InterfaceAddress, InterfaceEntry};

const HEADER: &str = "Kernel IP routing table\nDestination     Gateway         Genmask         Flags Metric Ref    Use Iface\n";

fn table(rows: &[&str]) -> Vec<u8> {
    let mut t = String::from(HEADER);
    for r in rows {
        t.push_str(r);
        t.push('\n');
    }
    t.into_bytes()
}

fn eth0(addr: Ipv4) -> Vec<InterfaceEntry> {
    vec![InterfaceEntry { name: String::from("eth0"), ipv4: Some(addr) }]
}

#[test]
fn flags_read_each_character() {
    let f = Flags::try_from("UG").unwrap();
    assert!(f.up && f.gateway);
    assert!(!f.host && !f.reinstate && !f.dynamically && !f.modified);
    assert!(!f.addrconf && !f.cache && !f.reject);
    let all = Flags::try_from("UHGRDMAC!").unwrap();
    assert!(all.up && all.host && all.gateway && all.reinstate && all.dynamically);
    assert!(all.modified && all.addrconf && all.cache && all.reject);
    let none = Flags::try_from("").unwrap();
    assert_eq!(none, Flags::default());
}

#[test]
fn flags_reject_unknown_character() {
    assert_eq!(Flags::try_from("UX"), Err(Error::InvalidFlags));
    assert_eq!(Flags::try_from("u"), Err(Error::InvalidFlags));
}

#[test]
fn default_route_is_empty() {
    let r = Route::default();
    assert_eq!(r.iface, "");
    assert_eq!(r.gateway, Ipv4::unspecified());
    assert_eq!(r.destination, Ipv4::new(0, 0, 0, 0));
    assert_eq!(r.flags, Flags::default());
}

#[test]
fn parse_reads_columns() {
    let t = table(&[
        "0.0.0.0         192.168.1.1     0.0.0.0         UG    100    0        0 eth0",
        "192.168.1.0     0.0.0.0         255.255.255.0   U     0      0        0 wlan0",
    ]);
    let routes = parse(&t).unwrap();
    assert_eq!(routes.len(), 2);
    assert_eq!(routes[0].destination, Ipv4::new(0, 0, 0, 0));
    assert_eq!(routes[0].gateway, Ipv4::new(192, 168, 1, 1));
    assert!(routes[0].flags.up && routes[0].flags.gateway);
    assert_eq!(routes[0].iface, "eth0");
    assert_eq!(routes[1].destination, Ipv4::new(192, 168, 1, 0));
    assert_eq!(routes[1].gateway, Ipv4::new(0, 0, 0, 0));
    assert!(routes[1].flags.up && !routes[1].flags.gateway);
    assert_eq!(routes[1].iface, "wlan0");
}

#[test]
fn parse_tab_separated_rows_in_order() {
    let t = table(&[
        "10.0.0.0\t0.0.0.0\t255.0.0.0\tU\t0\t0\t0\ta",
        "10.1.0.0\t0.0.0.0\t255.255.0.0\tU\t0\t0\t0\tb",
        "10.2.0.0\t0.0.0.0\t255.255.0.0\tU\t0\t0\t0\tc",
    ]);
    let routes = parse(&t).unwrap();
    assert_eq!(routes.len(), 3);
    assert_eq!(routes[0].iface, "a");
    assert_eq!(routes[1].destination, Ipv4::new(10, 1, 0, 0));
    assert_eq!(routes[2].iface, "c");
}

#[test]
fn parse_headers_only_gives_no_route() {
    assert_eq!(parse(HEADER.as_bytes()).unwrap().len(), 0);
}

#[test]
fn parse_needs_two_header_lines() {
    assert_eq!(parse(b"Kernel IP routing table").unwrap_err(), Error::MissingHeader);
    assert_eq!(parse(b"Kernel IP routing table\nDestination").unwrap_err(), Error::MissingHeader);
    assert_eq!(parse(b"").unwrap_err(), Error::MissingHeader);
}

#[test]
fn parse_rejects_unknown_flag() {
    let t = table(&["0.0.0.0 192.168.1.1 0.0.0.0 UX 0 0 0 eth0"]);
    assert_eq!(parse(&t).unwrap_err(), Error::InvalidFlags);
}

#[test]
fn parse_rejects_bad_destination() {
    let t = table(&["0.0.0 192.168.1.1 0.0.0.0 UG 0 0 0 eth0"]);
    assert_eq!(parse(&t).unwrap_err(), Error::InvalidAddress);
}

#[test]
fn parse_rejects_bad_gateway() {
    let t = table(&["0.0.0.0 192.168.1.256 0.0.0.0 UG 0 0 0 eth0"]);
    assert_eq!(parse(&t).unwrap_err(), Error::InvalidAddress);
}

#[test]
fn parse_fails_whole_table_on_later_bad_row() {
    let t = table(&[
        "0.0.0.0 192.168.1.1 0.0.0.0 UG 0 0 0 eth0",
        "default 192.168.1.1 0.0.0.0 UG 0 0 0 eth0",
    ]);
    assert_eq!(parse(&t).unwrap_err(), Error::InvalidAddress);
}

#[test]
fn parse_rejects_ninth_column() {
    let t = table(&["0.0.0.0 192.168.1.1 0.0.0.0 UG 0 0 0 eth0 extra"]);
    assert_eq!(parse(&t).unwrap_err(), Error::UnexpectedField);
}

#[test]
fn parse_empty_line_gives_default_route() {
    let t = table(&[""]);
    let routes = parse(&t).unwrap();
    assert_eq!(routes.len(), 1);
    assert_eq!(routes[0].iface, "");
    assert_eq!(routes[0].flags, Flags::default());
}

#[test]
fn parse_ignores_unterminated_last_line() {
    let mut t = table(&["0.0.0.0 192.168.1.1 0.0.0.0 UG 0 0 0 eth0"]);
    t.extend_from_slice(b"10.0.0.0 10.0.0.1 255.0.0.0 U 0 0 0 eth1");
    let routes = parse(&t).unwrap();
    assert_eq!(routes.len(), 1);
    assert_eq!(routes[0].iface, "eth0");
}

#[test]
fn parse_checks_closed_fields_of_unterminated_line() {
    let mut t = table(&["0.0.0.0 192.168.1.1 0.0.0.0 UG 0 0 0 eth0"]);
    t.extend_from_slice(b"bogus ");
    assert_eq!(parse(&t).unwrap_err(), Error::InvalidAddress);
}

#[test]
fn parse_reads_latin1_interface_name() {
    let mut t = table(&[]);
    t.extend_from_slice(b"0.0.0.0 1.2.3.4 0.0.0.0 UG 0 0 0 e\xe90\n");
    let routes = parse(&t).unwrap();
    assert_eq!(routes[0].iface, "e\u{e9}0");
}

#[test]
fn end_to_end_gateway_row() {
    let t = table(&["0.0.0.0\t192.168.1.1\t0.0.0.0\tUG\t0\t0\t0\teth0"]);
    let pairs = retrieve(&t, &eth0(Ipv4::new(192, 168, 1, 42))).unwrap();
    assert_eq!(pairs, vec![(Ipv4::new(192, 168, 1, 42), Ipv4::new(192, 168, 1, 1))]);
}

#[test]
fn end_to_end_row_without_gateway_flag() {
    let t = table(&["0.0.0.0\t192.168.1.1\t0.0.0.0\tU\t0\t0\t0\teth0"]);
    let pairs = retrieve(&t, &eth0(Ipv4::new(192, 168, 1, 42))).unwrap();
    assert!(pairs.is_empty());
}

#[test]
fn retrieve_passes_parse_failure_on() {
    let t = table(&["0.0.0.0 192.168.1.1 0.0.0.0 UZ 0 0 0 eth0"]);
    assert_eq!(retrieve(&t, &eth0(Ipv4::new(192, 168, 1, 42))), Err(Error::InvalidFlags));
}

#[test]
fn retrieve_skips_non_ipv4_entries_and_other_interfaces() {
    let t = table(&[
        "0.0.0.0 192.168.1.1 0.0.0.0 UG 0 0 0 eth0",
        "0.0.0.0 10.0.0.1 0.0.0.0 UG 0 0 0 wlan0",
        "0.0.0.0 10.9.9.9 0.0.0.0 G 0 0 0 eth0",
    ]);
    let entries = vec![
        InterfaceEntry { name: String::from("eth0"), ipv4: None },
        InterfaceEntry { name: String::from("eth0"), ipv4: Some(Ipv4::new(192, 168, 1, 42)) },
        InterfaceEntry { name: String::from("lo"), ipv4: Some(Ipv4::new(127, 0, 0, 1)) },
        InterfaceEntry { name: String::from("wlan0"), ipv4: Some(Ipv4::new(10, 0, 0, 7)) },
    ];
    let pairs = retrieve(&t, &entries).unwrap();
    assert_eq!(
        pairs,
        vec![
            (Ipv4::new(192, 168, 1, 42), Ipv4::new(192, 168, 1, 1)),
            (Ipv4::new(10, 0, 0, 7), Ipv4::new(10, 0, 0, 1)),
        ]
    );
}

#[test]
fn match_routes_keeps_duplicates_in_order() {
    let t = table(&[
        "0.0.0.0 192.168.1.1 0.0.0.0 UG 0 0 0 eth0",
        "10.0.0.0 192.168.1.2 255.0.0.0 UGH 0 0 0 eth0",
        "0.0.0.0 192.168.1.1 0.0.0.0 UG 0 0 0 eth0",
    ]);
    let routes = parse(&t).unwrap();
    let ifaces = vec![
        InterfaceAddress { name: String::from("eth0"), address: Ipv4::new(192, 168, 1, 42) },
        InterfaceAddress { name: String::from("eth0"), address: Ipv4::new(192, 168, 1, 43) },
    ];
    let pairs = match_routes(&routes, &ifaces);
    let a = Ipv4::new(192, 168, 1, 42);
    let b = Ipv4::new(192, 168, 1, 43);
    let g1 = Ipv4::new(192, 168, 1, 1);
    let g2 = Ipv4::new(192, 168, 1, 2);
    assert_eq!(pairs, vec![(a, g1), (a, g2), (a, g1), (b, g1), (b, g2), (b, g1)]);
}

#[test]
fn parse_treats_latin1_spaces_as_separators() {
    let mut t = table(&[]);
    t.extend_from_slice(b"0.0.0.0\xa01.2.3.4\x850.0.0.0\x0bUG 0 0 0 eth0\r\n");
    let routes = parse(&t).unwrap();
    assert_eq!(routes.len(), 1);
    assert_eq!(routes[0].gateway, Ipv4::new(1, 2, 3, 4));
    assert!(routes[0].flags.up && routes[0].flags.gateway);
    assert_eq!(routes[0].iface, "eth0");
}
