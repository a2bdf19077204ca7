use magic_packet_builder::broadcast::target_of;
use magic_packet_builder::broadcast::DEFAULT_PORT;
use magic_packet_builder::broadcast_address_from;
use magic_packet_builder::brodcast_address;

fn listing(entries: &[Option<&str>]) -> Option<Vec<Option<String>>> {
    Some(entries.iter().map(|entry| entry.map(|text| text.to_string())).collect())
}

/// `text` is a host without a colon, a colon, and `port` in decimal.
fn names_port(text: &str, port: u16) -> bool {
    match text.split_once(':') {
        Some((_, rest)) => rest == port.to_string(),
        None => false,
    }
}

#[test]
fn default_port_is_nine() {
    assert_eq!(DEFAULT_PORT, 9);
    let found = broadcast_address_from(&listing(&[Some("192.168.1.255:0")]), None);
    assert_eq!(found, Some("192.168.1.255:9".to_string()));
}

#[test]
fn given_port_is_appended() {
    let found = broadcast_address_from(&listing(&[Some("10.0.0.255:0")]), Some(4000));
    assert_eq!(found, Some("10.0.0.255:4000".to_string()));
    let found = broadcast_address_from(&listing(&[Some("10.0.0.255:0")]), Some(9));
    assert_eq!(found, Some("10.0.0.255:9".to_string()));
}

#[test]
fn failed_listing_gives_nothing() {
    assert_eq!(broadcast_address_from(&None, None), None);
    assert_eq!(broadcast_address_from(&None, Some(7)), None);
}

#[test]
fn listing_without_broadcast_gives_nothing() {
    assert_eq!(broadcast_address_from(&listing(&[]), None), None);
    assert_eq!(broadcast_address_from(&listing(&[None, None, None]), Some(9)), None);
}

#[test]
fn first_reported_address_is_taken() {
    let entries = listing(&[None, Some("172.16.255.255:0"), None, Some("192.168.0.255:0")]);
    assert_eq!(broadcast_address_from(&entries, None), Some("172.16.255.255:9".to_string()));
    let entries = listing(&[Some("a:1"), Some("b:2")]);
    assert_eq!(broadcast_address_from(&entries, Some(3)), Some("a:3".to_string()));
}

#[test]
fn text_from_the_first_colon_on_is_replaced() {
    assert_eq!(target_of("192.168.1.255:12345", 9), "192.168.1.255:9");
    assert_eq!(target_of("ff:ff:ff:ff:ff:ff", 9), "ff:9");
    assert_eq!(target_of("[fe80::1]:0", 9), "[fe80:9");
    assert_eq!(target_of("[::1]:0", 9), "[:9");
    assert_eq!(target_of(":0", 9), ":9");
    assert_eq!(target_of("host:", 9), "host:9");
}

#[test]
fn address_without_colon_is_kept_whole() {
    assert_eq!(target_of("192.168.1.255", 9), "192.168.1.255:9");
    assert_eq!(target_of("", 9), ":9");
    assert_eq!(target_of("<Address family unspecified>", 7), "<Address family unspecified>:7");
    assert_eq!(target_of("brücke", 80), "brücke:80");
}

#[test]
fn port_is_written_in_decimal() {
    assert_eq!(target_of("h", 0), "h:0");
    assert_eq!(target_of("h", 7), "h:7");
    assert_eq!(target_of("h", 10), "h:10");
    assert_eq!(target_of("h", 99), "h:99");
    assert_eq!(target_of("h", 100), "h:100");
    assert_eq!(target_of("h", 1024), "h:1024");
    assert_eq!(target_of("h", 40000), "h:40000");
    assert_eq!(target_of("h", 65535), "h:65535");
}

#[test]
fn every_port_is_written_as_the_standard_library_writes_it() {
    for port in 0..=u16::MAX {
        assert_eq!(target_of("1.2.3.4:0", port), format!("1.2.3.4:{}", port));
    }
}

#[test]
fn host_lookup_names_the_default_port() {
    match brodcast_address(None) {
        Some(found) => assert!(names_port(&found, 9), "{:?}", found),
        None => {}
    }
}

#[test]
fn host_lookup_names_the_given_port() {
    match brodcast_address(Some(40000)) {
        Some(found) => assert!(names_port(&found, 40000), "{:?}", found),
        None => {}
    }
}
