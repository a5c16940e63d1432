use gateway_discovery::addr::Ipv4;
use gateway_discovery::win::{
    after_call, extract_ipv4, gateway_pairs, pair_addresses, retrieve, AdapterRecord, Enumeration,
    SocketAddress, AF_INET, CHUNK, ERROR_BUFFER_OVERFLOW, IF_OPER_STATUS_UP, NO_ERROR,
    SOCKADDR_IN_SIZE,
};

fn sock(a: u8, b: u8, c: u8, d: u8) -> Option<SocketAddress> {
    Some(SocketAddress { family: AF_INET, length: SOCKADDR_IN_SIZE, sin_addr: [a, b, c, d] })
}

fn adapter(up: bool, unicast: Vec<Option<SocketAddress>>, gateways: Vec<Option<SocketAddress>>) -> AdapterRecord {
    AdapterRecord { oper_status: if up { IF_OPER_STATUS_UP } else { 2 }, unicast, gateways }
}

#[test]
fn end_to_end_up_adapter() {
    let adapters = vec![adapter(true, vec![sock(10, 0, 0, 5), sock(10, 0, 0, 6)], vec![sock(10, 0, 0, 1)])];
    let pairs = retrieve(NO_ERROR, &adapters).unwrap();
    let g = Ipv4::new(10, 0, 0, 1);
    assert_eq!(pairs, vec![(Ipv4::new(10, 0, 0, 5), g), (Ipv4::new(10, 0, 0, 6), g)]);
}

#[test]
fn retrieve_unavailable_on_error() {
    let adapters = vec![adapter(true, vec![sock(10, 0, 0, 5)], vec![sock(10, 0, 0, 1)])];
    assert!(retrieve(ERROR_BUFFER_OVERFLOW, &adapters).is_none());
    assert!(retrieve(87, &adapters).is_none());
}

#[test]
fn pairer_is_unicast_major() {
    let us = vec![Ipv4::new(1, 1, 1, 1), Ipv4::new(2, 2, 2, 2)];
    let gs = vec![Ipv4::new(9, 0, 0, 1), Ipv4::new(9, 0, 0, 2), Ipv4::new(9, 0, 0, 3)];
    let pairs = pair_addresses(&us, &gs);
    assert_eq!(pairs.len(), 6);
    for i in 0..2 {
        for j in 0..3 {
            assert_eq!(pairs[i * 3 + j], (us[i], gs[j]));
        }
    }
    assert!(pair_addresses(&us, &vec![]).is_empty());
    assert!(pair_addresses(&vec![], &gs).is_empty());
}

#[test]
fn down_adapter_contributes_nothing() {
    let adapters = vec![
        adapter(false, vec![sock(10, 0, 0, 5)], vec![sock(10, 0, 0, 1)]),
        adapter(true, vec![sock(192, 168, 0, 2)], vec![sock(192, 168, 0, 1)]),
    ];
    let pairs = gateway_pairs(&adapters);
    assert_eq!(pairs, vec![(Ipv4::new(192, 168, 0, 2), Ipv4::new(192, 168, 0, 1))]);
}

#[test]
fn extraction_checks_family_and_length() {
    let entries = vec![
        sock(1, 2, 3, 4),
        None,
        Some(SocketAddress { family: 23, length: SOCKADDR_IN_SIZE, sin_addr: [5, 6, 7, 8] }),
        Some(SocketAddress { family: AF_INET, length: 28, sin_addr: [5, 6, 7, 8] }),
        sock(4, 3, 2, 1),
    ];
    assert_eq!(extract_ipv4(&entries), vec![Ipv4::new(1, 2, 3, 4), Ipv4::new(4, 3, 2, 1)]);
}

#[test]
fn retry_grows_buffer() {
    assert_eq!(after_call(ERROR_BUFFER_OVERFLOW, CHUNK, 20000), Enumeration::Retry(20000 + CHUNK));
    assert_eq!(after_call(ERROR_BUFFER_OVERFLOW, CHUNK, 100), Enumeration::Retry(2 * CHUNK));
    assert_eq!(after_call(ERROR_BUFFER_OVERFLOW, u32::MAX - 10, 0), Enumeration::Unavailable);
    assert_eq!(after_call(NO_ERROR, CHUNK, CHUNK), Enumeration::Walk);
    assert_eq!(after_call(232, CHUNK, CHUNK), Enumeration::Unavailable);
}

#[test]
fn retry_sizes_strictly_increase() {
    let mut tried = CHUNK;
    for reported in [0u32, 15000, 40000, 40001, 1] {
        match after_call(ERROR_BUFFER_OVERFLOW, tried, reported) {
            Enumeration::Retry(size) => {
                assert!(size > tried && size > reported);
                tried = size;
            }
            other => panic!("unexpected {:?}", other),
        }
    }
}
