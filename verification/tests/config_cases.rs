use wireguard_import::config::parse_wireguard_config;
use wireguard_import::error::WireGuardError;

const BASE_INTERFACE: &str = "[Interface]\nPrivateKey = k\nAddress = 10.0.0.2/32\n";

fn with_peer(extra_interface: &str, peer: &str) -> String {
    format!("{BASE_INTERFACE}{extra_interface}\n[Peer]\n{peer}")
}

#[test]
fn dns_defaults_when_missing_or_blank() {
    let c = parse_wireguard_config(&with_peer("", "PublicKey = p\nEndpoint = h:1\n")).unwrap();
    assert_eq!(c.dns, vec!["1.1.1.1"]);
    let c = parse_wireguard_config(&with_peer("DNS = , ,", "PublicKey = p\nEndpoint = h:1\n")).unwrap();
    assert_eq!(c.dns, vec!["1.1.1.1"]);
}

#[test]
fn dns_list_is_trimmed_and_empty_entries_dropped() {
    let c = parse_wireguard_config(&with_peer(
        "DNS = 9.9.9.9, , 8.8.4.4 ,",
        "PublicKey = p\nEndpoint = h:1\n",
    ))
    .unwrap();
    assert_eq!(c.dns, vec!["9.9.9.9", "8.8.4.4"]);
}

#[test]
fn optional_peer_fields() {
    let c = parse_wireguard_config(&with_peer(
        "MTU = 1280",
        "PublicKey = p\nPresharedKey = psk\nAllowedIPs = 10.0.0.0/8, 192.168.0.0/16\nEndpoint = [fd00::1]:51820\n",
    ))
    .unwrap();
    assert_eq!(c.mtu, 1280);
    assert_eq!(c.pre_shared_key.as_deref(), Some("psk"));
    assert_eq!(
        c.allowed_ips,
        Some(vec!["10.0.0.0/8".to_string(), "192.168.0.0/16".to_string()])
    );
    assert_eq!(c.server, "fd00::1");
    assert_eq!(c.port, 51820);
    assert_eq!(c.persistent_keepalive, None);
}

#[test]
fn keys_and_sections_ignore_ascii_case_and_comments() {
    let text = "# comment\n; another\n[INTERFACE]\nprivatekey=k\nADDRESS = fd00::2/128, 10.1.2.3/24\n[peer]\nPUBLICKEY = p\nendpoint = example.com:443\n";
    let c = parse_wireguard_config(text).unwrap();
    assert_eq!(c.private_key, "k");
    assert_eq!(c.ip, "10.1.2.3");
    assert_eq!(c.server, "example.com");
    assert_eq!(c.port, 443);
}

#[test]
fn later_value_replaces_earlier_one() {
    let c = parse_wireguard_config(&with_peer(
        "MTU = 1000\nMTU = 1400",
        "PublicKey = p\nEndpoint = h:1\n",
    ))
    .unwrap();
    assert_eq!(c.mtu, 1400);
}

#[test]
fn crlf_text_parses_like_lf_text() {
    let lf = with_peer("DNS = 1.0.0.1", "PublicKey = p\nEndpoint = h:2\nPersistentKeepalive = 25\n");
    let crlf = lf.replace('\n', "\r\n");
    assert_eq!(parse_wireguard_config(&lf).unwrap(), parse_wireguard_config(&crlf).unwrap());
}

#[test]
fn missing_interface_is_refused() {
    let e = parse_wireguard_config("[Peer]\nPublicKey = p\n").unwrap_err();
    assert_eq!(e, WireGuardError::MissingInterface);
    assert_eq!(e.message(), "Missing [Interface] section");
}

#[test]
fn zero_peers_is_refused() {
    let e = parse_wireguard_config(BASE_INTERFACE).unwrap_err();
    assert_eq!(e, WireGuardError::UnsupportedPeerCount);
}

#[test]
fn peer_header_with_inner_spaces_is_not_counted() {
    let e = parse_wireguard_config(&format!("{BASE_INTERFACE}[ Peer ]\nPublicKey = p\nEndpoint = h:1\n"))
        .unwrap_err();
    assert_eq!(e, WireGuardError::UnsupportedPeerCount);
}

#[test]
fn missing_private_key_names_the_key() {
    let e = parse_wireguard_config("[Interface]\nPrivateKey =   \n[Peer]\n").unwrap_err();
    assert_eq!(e, WireGuardError::MissingField("privatekey".to_string()));
    assert_eq!(e.message(), "Missing required WireGuard field `privatekey`");
}

#[test]
fn address_without_ipv4_is_refused() {
    let e = parse_wireguard_config(
        "[Interface]\nPrivateKey = k\nAddress = fd00::2/128, 010.0.0.1/32\n[Peer]\nPublicKey = p\nEndpoint = h:1\n",
    )
    .unwrap_err();
    assert_eq!(e, WireGuardError::NoIpv4Address);
    assert_eq!(e.message(), "Address must contain an IPv4 address");
}

#[test]
fn bracketed_endpoint_without_port_separator_is_refused() {
    let e = parse_wireguard_config(&with_peer("", "PublicKey = p\nEndpoint = [fd00::1]51820\n")).unwrap_err();
    assert_eq!(e, WireGuardError::BadIpv6Endpoint);
    assert_eq!(e.message(), "Endpoint IPv6 address must use [addr]:port format");
}

#[test]
fn bad_mtu_and_keepalive_name_the_field() {
    let e = parse_wireguard_config(&with_peer("MTU = big", "PublicKey = p\nEndpoint = h:1\n")).unwrap_err();
    assert_eq!(e, WireGuardError::InvalidNumber("MTU".to_string()));
    assert_eq!(e.message(), "MTU must be a number between 0 and 65535");
    let e = parse_wireguard_config(&with_peer(
        "",
        "PublicKey = p\nEndpoint = h:1\nPersistentKeepalive = 70000\n",
    ))
    .unwrap_err();
    assert_eq!(e, WireGuardError::InvalidNumber("PersistentKeepalive".to_string()));
}

#[test]
fn bad_endpoint_port_names_the_field() {
    let e = parse_wireguard_config(&with_peer("", "PublicKey = p\nEndpoint = h:port\n")).unwrap_err();
    assert_eq!(e, WireGuardError::InvalidNumber("Endpoint port".to_string()));
    assert_eq!(e.message(), "Endpoint port must be a number between 0 and 65535");
}

#[test]
fn first_error_in_order_wins() {
    let e = parse_wireguard_config(
        "[Interface]\nMTU = x\n[Peer]\nEndpoint = nonsense\n",
    )
    .unwrap_err();
    assert_eq!(e, WireGuardError::MissingField("privatekey".to_string()));
}

#[test]
fn crlf_text_with_stray_carriage_returns_parses_alike() {
    let lf = "[Interface]\r\nPrivateKey = k\r\nAddress = 10.0.0.2/32\r\n[Peer]\nPublicKey = p\r\nEndpoint = h:3\n";
    let crlf = lf.replace('\n', "\r\n");
    assert_eq!(parse_wireguard_config(lf).unwrap(), parse_wireguard_config(&crlf).unwrap());
    let bad = "[Interface]\r\nPrivateKey = k\r\n";
    assert_eq!(
        parse_wireguard_config(bad).unwrap_err(),
        parse_wireguard_config(&bad.replace('\n', "\r\n")).unwrap_err()
    );
}

#[test]
fn key_text_changes_nothing_but_the_keys() {
    let a = with_peer("MTU = 1300", "PublicKey = first\nPresharedKey = s1\nEndpoint = h:1\n")
        .replace("PrivateKey = k", "PrivateKey = secret-one");
    let b = with_peer("MTU = 1300", "PublicKey = second\nPresharedKey = other\nEndpoint = h:1\n")
        .replace("PrivateKey = k", "PrivateKey = secret-two");
    let (ca, cb) = (parse_wireguard_config(&a).unwrap(), parse_wireguard_config(&b).unwrap());
    assert_eq!((ca.ip, ca.server, ca.port, ca.mtu), (cb.ip, cb.server, cb.port, cb.mtu));
    assert_eq!(ca.private_key, "secret-one");
    assert_eq!(cb.private_key, "secret-two");
    let ea = parse_wireguard_config("[Interface]\nPrivateKey = aaa\n[Peer]\nPublicKey = x\n").unwrap_err();
    let eb = parse_wireguard_config("[Interface]\nPrivateKey = bbb\n[Peer]\nPublicKey = y\n").unwrap_err();
    assert_eq!(ea.message(), eb.message());
    assert!(!ea.message().contains("aaa"));
}
