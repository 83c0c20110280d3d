use wireguard_import::clash::clash_config;
use wireguard_import::config::{parse_wireguard_config, WireGuardConfig};
use wireguard_import::error::WireGuardError;

const SAMPLE: &str = r"
[Interface]
PrivateKey = private=
Address = 10.0.0.37/32
DNS = 1.1.1.1

[Peer]
PublicKey = public=
AllowedIPs = 0.0.0.0/0
Endpoint = 91.197.2.188:51820
PersistentKeepalive = 21
";

fn parse_sample_err(input: &str) -> WireGuardError {
    match parse_wireguard_config(input) {
        Ok(config) => panic!("WireGuard sample should fail, parsed instead: {config:?}"),
        Err(err) => err,
    }
}

fn parse_ok(input: &str) -> WireGuardConfig {
    match parse_wireguard_config(input) {
        Ok(config) => config,
        Err(err) => panic!("WireGuard sample should parse: {}", err.message()),
    }
}

#[test]
fn parses_sample_config() {
    let parsed = parse_ok(SAMPLE);
    assert_eq!(parsed.ip, "10.0.0.37");
    assert_eq!(parsed.server, "91.197.2.188");
    assert_eq!(parsed.port, 51820);
    assert_eq!(parsed.mtu, 1420);
    assert_eq!(parsed.persistent_keepalive, Some(21));
    assert_eq!(parsed.dns, vec!["1.1.1.1"]);
}

#[test]
fn parses_crlf_and_spacing() {
    let parsed = parse_ok(&SAMPLE.replace('\n', "\r\n"));
    assert_eq!(parsed.public_key, "public=");
}

#[test]
fn rejects_missing_required_fields_without_key_leak() {
    let err = parse_sample_err("[Interface]\nPrivateKey = secret\n[Peer]\n");
    let msg = err.message();
    assert!(msg.contains("Missing required WireGuard field"));
    assert!(!msg.contains("secret"));
}

#[test]
fn rejects_multi_peer_config() {
    let err = parse_sample_err(&format!("{SAMPLE}\n[Peer]\nPublicKey = another\n"));
    assert!(err.message().contains("exactly one [Peer]"));
}

#[test]
fn rejects_bad_endpoint() {
    let err = parse_sample_err(&SAMPLE.replace("91.197.2.188:51820", "91.197.2.188"));
    assert!(err.message().contains("Endpoint"));
}

/// Every text of the profile that the YAML is written from.
fn profile_texts(p: &wireguard_import::clash::ClashConfig) -> Vec<String> {
    let mut out = vec![
        p.mode.clone(),
        p.log_level.clone(),
        p.dns.listen.clone(),
        p.dns.enhanced_mode.clone(),
        p.dns.fake_ip_range.clone(),
    ];
    out.extend(p.dns.nameserver.iter().cloned());
    out.extend(p.dns.default_nameserver.iter().cloned());
    for proxy in &p.proxies {
        out.extend([
            proxy.name.clone(),
            proxy.proxy_type.clone(),
            proxy.ip.clone(),
            proxy.private_key.clone(),
        ]);
        out.extend(proxy.dns.iter().cloned());
        for peer in &proxy.peers {
            out.extend([peer.server.clone(), peer.public_key.clone()]);
            out.extend(peer.pre_shared_key.iter().cloned());
            out.extend(peer.allowed_ips.iter().cloned());
        }
    }
    out.extend(p.rules.iter().cloned());
    out
}

/// The profile that the YAML is written from holds what the YAML must show:
/// the named proxy with its peer, remote DNS resolution, the rules, and no
/// text of the configuration's own section headers.
#[test]
fn generated_yaml_contains_expected_rules() {
    let parsed = parse_ok(SAMPLE);
    let profile = clash_config(&parsed);
    assert_eq!(profile.proxies.len(), 1);
    assert_eq!(profile.proxies[0].name, "WireGuard_Node");
    assert_eq!(profile.proxies[0].peers.len(), 1);
    assert!(profile.proxies[0].remote_dns_resolve);
    assert!(profile.rules.iter().any(|r| r == "DOMAIN-SUFFIX,ru,DIRECT"));
    assert!(profile.rules.iter().any(|r| r == "MATCH,WireGuard_Node"));
    let texts = profile_texts(&profile);
    assert!(texts.len() >= 20);
    assert!(texts.iter().all(|t| !t.contains("[Interface]") && !t.contains("[Peer]")));
}
