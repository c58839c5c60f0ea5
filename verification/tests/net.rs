use rpi_provision::specification::net::{derive_uuid, parse_ipv4, validate_interface, Ipv4Addr, Ipv4Cidr, MacAddr};

#[test]
fn parses_cidr() {
    let cidr = Ipv4Cidr::parse("192.168.1.50/24").unwrap();
    assert_eq!(cidr.address, Ipv4Addr::new(192, 168, 1, 50));
    assert_eq!(cidr.prefix, 24);
    assert_eq!(cidr.network(), Ipv4Addr::new(192, 168, 1, 0));
    assert_eq!(cidr.to_string(), "192.168.1.50/24");
}

#[test]
fn cidr_membership() {
    let cidr = Ipv4Cidr::parse("10.55.0.1/24").unwrap();
    assert!(cidr.contains(Ipv4Addr::new(10, 55, 0, 2)));
    assert!(!cidr.contains(Ipv4Addr::new(10, 55, 1, 2)));
}

#[test]
fn rejects_bad_cidr() {
    assert!(Ipv4Cidr::parse("192.168.1.50").is_err());
    assert!(Ipv4Cidr::parse("192.168.1.500/24").is_err());
    assert!(Ipv4Cidr::parse("192.168.1.50/33").is_err());
}

#[test]
fn parses_mac() {
    let mac = MacAddr::parse("02:1a:2b:3c:4d:5e").unwrap();
    assert_eq!(mac.to_string(), "02:1A:2B:3C:4D:5E");
    assert!(MacAddr::parse("02:1a:2b:3c:4d").is_err());
    assert!(MacAddr::parse("zz:1a:2b:3c:4d:5e").is_err());
}

#[test]
fn derived_mac_is_locally_administered_unicast() {
    for seed in ["a", "b", "usb0", "gadget-host"] {
        let mac = MacAddr::derive(seed.as_bytes());
        assert!(mac.is_locally_administered(), "{mac:?}");
        assert!(!mac.is_multicast(), "{mac:?}");
    }
    assert_ne!(MacAddr::derive(b"a"), MacAddr::derive(b"b"));
    assert_eq!(MacAddr::derive(b"a"), MacAddr::derive(b"a"));
}

#[test]
fn derived_uuid_is_well_formed() {
    let uuid = derive_uuid(b"eth0-static");
    assert_eq!(uuid.len(), 36);
    let fields: Vec<&str> = uuid.split('-').collect();
    assert_eq!(fields.iter().map(|f| f.len()).collect::<Vec<_>>(), vec![8, 4, 4, 4, 12]);
    assert!(uuid.chars().all(|c| c.is_ascii_hexdigit() || c == '-'));
    assert_eq!(fields[2].as_bytes()[0], b'8', "version nibble");
    assert!(matches!(fields[3].as_bytes()[0], b'8' | b'9' | b'a' | b'b'), "variant nibble");
    assert_eq!(uuid, derive_uuid(b"eth0-static"));
}

#[test]
fn validates_interface_names() {
    assert!(validate_interface("eth0").is_ok());
    assert!(validate_interface("").is_err());
    assert!(validate_interface("this-name-is-far-too-long").is_err());
    assert!(validate_interface("eth 0").is_err());
}

#[test]
fn a_derived_mac_is_the_digest_with_the_local_bit() {
    // SHA-256("a") begins ca 97 81 12 ca 1b.
    let mac = MacAddr::derive(b"a");
    assert_eq!(mac.to_string(), "CA:97:81:12:CA:1B");
    assert_eq!(mac, MacAddr([0xca, 0x97, 0x81, 0x12, 0xca, 0x1b]));
}

#[test]
fn a_derived_uuid_is_the_digest_with_version_and_variant() {
    // SHA-256("abc") = ba7816bf 8f01 cfea 4141 40de5dae2223...
    assert_eq!(derive_uuid(b"abc"), "ba7816bf-8f01-8fea-8141-40de5dae2223");
}

#[test]
fn parses_dotted_quads() {
    assert_eq!(parse_ipv4("10.0.0.1").unwrap(), Ipv4Addr::new(10, 0, 0, 1));
    assert_eq!(Ipv4Addr::new(10, 0, 0, 1).to_string(), "10.0.0.1");
    assert_eq!(Ipv4Addr::new(1, 2, 3, 4).bits(), 0x0102_0304);
    assert!(parse_ipv4("10.0.0").is_err());
    assert!(parse_ipv4("10.0.0.256").is_err());
    assert!(parse_ipv4("a.b.c.d").is_err());
}

#[test]
fn a_zero_prefix_contains_everything() {
    let cidr = Ipv4Cidr::parse("10.0.0.1/0").unwrap();
    assert_eq!(cidr.network(), Ipv4Addr::new(0, 0, 0, 0));
    assert!(cidr.contains(Ipv4Addr::new(203, 0, 113, 9)));
    let host = Ipv4Cidr::parse("10.0.0.1/32").unwrap();
    assert!(host.contains(Ipv4Addr::new(10, 0, 0, 1)));
    assert!(!host.contains(Ipv4Addr::new(10, 0, 0, 2)));
}

#[test]
fn a_multicast_mac_is_recognised() {
    let mac = MacAddr::parse("01:00:5e:00:00:01").unwrap();
    assert!(mac.is_multicast());
    assert!(!mac.is_locally_administered());
}

#[test]
fn dot_names_are_not_interfaces() {
    assert!(validate_interface(".").is_err());
    assert!(validate_interface("..").is_err());
    assert!(validate_interface("eth0.1").is_ok());
}

#[test]
fn a_signed_octet_is_not_a_mac_octet() {
    assert!(MacAddr::parse("+f:00:00:00:00:00").is_err());
}
