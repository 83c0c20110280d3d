use wireguard_import::error::WireGuardError;
use wireguard_import::sections::{
    count_sections, optional, parse_key_value, parse_section_header, parse_sections, required,
};
use wireguard_import::values::{parse_endpoint, parse_ipv4_address, parse_u16};

#[test]
fn u16_accepts_plus_leading_zeros_and_surrounding_space() {
    assert_eq!(parse_u16("+80", "f"), Ok(80));
    assert_eq!(parse_u16(" 0080 ", "f"), Ok(80));
    assert_eq!(parse_u16("65535", "f"), Ok(65535));
    assert_eq!(parse_u16("0", "f"), Ok(0));
    assert_eq!(parse_u16("\u{3000}7\u{a0}", "f"), Ok(7));
}

#[test]
fn u16_refusals() {
    for bad in ["65536", "-1", "", "+", "1 2", "٣", "0x10", "99999999999999999999"] {
        assert_eq!(parse_u16(bad, "Field"), Err(WireGuardError::InvalidNumber("Field".to_string())));
    }
}

#[test]
fn endpoint_forms() {
    assert_eq!(parse_endpoint("host:1"), Ok(("host".to_string(), 1)));
    assert_eq!(parse_endpoint("a:b:80"), Ok(("a:b".to_string(), 80)));
    assert_eq!(parse_endpoint("[::1]:51820"), Ok(("::1".to_string(), 51820)));
    assert_eq!(parse_endpoint("[]:7"), Ok(("".to_string(), 7)));
    assert_eq!(parse_endpoint("[::1]51820"), Err(WireGuardError::BadIpv6Endpoint));
    assert_eq!(parse_endpoint(":80"), Err(WireGuardError::BadEndpoint));
    assert_eq!(parse_endpoint("host:"), Err(WireGuardError::BadEndpoint));
    assert_eq!(parse_endpoint("host"), Err(WireGuardError::BadEndpoint));
    assert_eq!(
        parse_endpoint("h: x"),
        Err(WireGuardError::InvalidNumber("Endpoint port".to_string()))
    );
    assert_eq!(parse_endpoint("h: 9 "), Ok(("h".to_string(), 9)));
}

#[test]
fn endpoint_round_trip_on_examples() {
    for (host, port) in [("10.0.0.1", 0u16), ("vpn.example.org", 65535), ("x:y", 51820)] {
        assert_eq!(parse_endpoint(&format!("{host}:{port}")), Ok((host.to_string(), port)));
    }
    assert_eq!(parse_endpoint("[fe80::1%eth0]:443"), Ok(("fe80::1%eth0".to_string(), 443)));
}

#[test]
fn ipv4_address_selection() {
    assert_eq!(parse_ipv4_address("fd00::1/128, 10.0.0.2/32"), Ok("10.0.0.2".to_string()));
    assert_eq!(parse_ipv4_address(" 1.2.3.4 "), Ok("1.2.3.4".to_string()));
    assert_eq!(parse_ipv4_address("0.0.0.0"), Ok("0.0.0.0".to_string()));
    assert_eq!(parse_ipv4_address("255.255.255.255/0"), Ok("255.255.255.255".to_string()));
    for bad in ["010.0.0.1", "256.1.1.1", "1.2.3", "1.2.3.4.5", "1..2.3", "a.b.c.d", "1.2.3.4 /8", ""] {
        assert_eq!(parse_ipv4_address(bad), Err(WireGuardError::NoIpv4Address), "{bad}");
    }
}

#[test]
fn section_headers() {
    assert_eq!(parse_section_header("[Peer]"), Some("peer".to_string()));
    assert_eq!(parse_section_header("[ Peer ]"), Some("peer".to_string()));
    assert_eq!(parse_section_header("[]"), Some("".to_string()));
    assert_eq!(parse_section_header("[Pe er]"), None);
    assert_eq!(parse_section_header("[Peer1]"), None);
    assert_eq!(parse_section_header("Peer"), None);
    assert_eq!(parse_section_header("["), None);
}

#[test]
fn key_values() {
    assert_eq!(
        parse_key_value("PrivateKey = abc="),
        Some(("privatekey".to_string(), "abc=".to_string()))
    );
    assert_eq!(parse_key_value("Key="), Some(("key".to_string(), "".to_string())));
    assert_eq!(parse_key_value("K = a = b"), Some(("k".to_string(), "a = b".to_string())));
    assert_eq!(
        parse_key_value("K =\u{3000}v\u{a0}"),
        Some(("k".to_string(), "v".to_string()))
    );
    assert_eq!(parse_key_value("= v"), None);
    assert_eq!(parse_key_value("Pri vate = x"), None);
    assert_eq!(parse_key_value("Über = x"), None);
    assert_eq!(parse_key_value("no equals"), None);
}

#[test]
fn sections_read_in_order() {
    let text = "Orphan = 1\n[A]\nx = 1\n# x = 2\n; x = 3\n[B]\ny = 2\n[a]\nz = 3\nx = 4\n   \n";
    let s = parse_sections(text);
    assert_eq!(s.len(), 2);
    let a = s.get("a").unwrap();
    assert_eq!(a.len(), 2);
    assert_eq!(a.get("x").map(|v| v.as_str()), Some("4"));
    assert_eq!(a.get("z").map(|v| v.as_str()), Some("3"));
    assert!(a.get("orphan").is_none());
    let b = s.get("b").unwrap();
    assert_eq!(b.get("y").map(|v| v.as_str()), Some("2"));
    assert!(s.get("A").is_none());
}

#[test]
fn counting_headers() {
    assert_eq!(count_sections("[peer]\n [PEER] \r\n[ peer ]\n[peers]\n", "peer"), 2);
    assert_eq!(count_sections("", "peer"), 0);
    assert_eq!(count_sections("[Interface]", "interface"), 1);
}

#[test]
fn optional_and_required_values() {
    let s = parse_sections("[i]\na = x\nb =\n");
    let t = s.get("i").unwrap();
    assert_eq!(optional(t, "a"), Some("x".to_string()));
    assert_eq!(optional(t, "b"), None);
    assert_eq!(optional(t, "c"), None);
    assert_eq!(required(t, "a"), Ok("x".to_string()));
    assert_eq!(required(t, "b"), Err(WireGuardError::MissingField("b".to_string())));
}

#[test]
fn error_messages() {
    assert_eq!(WireGuardError::MissingPeer.message(), "Missing [Peer] section");
    assert_eq!(
        WireGuardError::UnsupportedPeerCount.message(),
        "Only WireGuard configs with exactly one [Peer] section are supported"
    );
    assert_eq!(WireGuardError::BadEndpoint.message(), "Endpoint must be in host:port format");
}

#[test]
fn padded_numbers_read_back() {
    for n in [0u16, 7, 80, 1420, 65535] {
        assert_eq!(parse_u16(&format!(" {n}\t"), "MTU"), Ok(n));
        assert_eq!(parse_u16(&n.to_string(), "MTU"), Ok(n));
    }
}

#[test]
fn counted_headers_give_sections() {
    let text = "  [INTERFACE]  \n[Peer]\n";
    assert_eq!(count_sections(text, "Interface"), 1);
    let s = parse_sections(text);
    assert!(s.get("interface").is_some());
    assert!(s.get("peer").is_some());
}
