use wireguard_import::clash::clash_config;
use wireguard_import::config::parse_wireguard_config;
use wireguard_import::profile::{
    has_managed_profile, import_result, install_managed_profile, managed_profile_item,
    profile_description, verge_patch_for, vpn_toggle_after_admin_check,
    vpn_toggle_after_service_check, vpn_toggle_start,
    ProfileItem, ProfilesState, VpnToggleError, VpnToggleStep, MANAGED_PROFILE_FILE,
    MANAGED_PROFILE_NAME, MANAGED_PROFILE_UID,
};

const SAMPLE: &str = "[Interface]\nPrivateKey = k\nAddress = 10.0.0.2/32\n[Peer]\nPublicKey = p\nEndpoint = 1.2.3.4:5\n";

fn other(uid: &str) -> ProfileItem {
    ProfileItem {
        uid: Some(uid.to_string()),
        itype: Some("remote".to_string()),
        name: None,
        file: Some(format!("{uid}.yaml")),
        desc: None,
        updated: None,
    }
}

#[test]
fn description_uses_file_name_when_not_blank() {
    assert_eq!(profile_description(Some("wg0.conf")), "Imported from wg0.conf");
    assert_eq!(profile_description(Some(" a ")), "Imported from  a ");
    assert_eq!(profile_description(Some("  ")), "Imported WireGuard config");
    assert_eq!(profile_description(None), "Imported WireGuard config");
}

#[test]
fn managed_item_fields() {
    let it = managed_profile_item(Some("x.conf"), 42);
    assert_eq!(it.uid.as_deref(), Some(MANAGED_PROFILE_UID));
    assert_eq!(it.itype.as_deref(), Some("local"));
    assert_eq!(it.name.as_deref(), Some(MANAGED_PROFILE_NAME));
    assert_eq!(it.file.as_deref(), Some(MANAGED_PROFILE_FILE));
    assert_eq!(it.desc.as_deref(), Some("Imported from x.conf"));
    assert_eq!(it.updated, Some(42));
}

#[test]
fn install_replaces_managed_entries_and_keeps_others() {
    let mut old_managed = other("x");
    old_managed.file = Some(MANAGED_PROFILE_FILE.to_string());
    let mut state = ProfilesState {
        current: Some("a".to_string()),
        items: Some(vec![other("a"), old_managed, other("b"), other(MANAGED_PROFILE_UID)]),
    };
    let item = managed_profile_item(None, 1);
    assert!(install_managed_profile(&mut state, item.clone()));
    let items = state.items.clone().unwrap();
    assert_eq!(items, vec![other("a"), other("b"), item.clone()]);
    assert_eq!(state.current.as_deref(), Some(MANAGED_PROFILE_UID));
    assert!(has_managed_profile(&state));
    // Installing again changes nothing and reports a replacement.
    assert!(install_managed_profile(&mut state, item.clone()));
    assert_eq!(state.items.clone().unwrap(), items);
}

#[test]
fn install_into_empty_list() {
    let mut state = ProfilesState { current: None, items: None };
    assert!(!has_managed_profile(&state));
    let item = managed_profile_item(Some("wg.conf"), 7);
    assert!(!install_managed_profile(&mut state, item.clone()));
    assert_eq!(state.items, Some(vec![item]));
}

#[test]
fn import_result_reports_tunnel() {
    let c = parse_wireguard_config(SAMPLE).unwrap();
    let r = import_result(&c, true);
    assert_eq!(r.profile_uid, MANAGED_PROFILE_UID);
    assert_eq!(r.profile_name, MANAGED_PROFILE_NAME);
    assert_eq!(r.server, "1.2.3.4");
    assert_eq!(r.port, 5);
    assert!(r.replaced_existing);
    assert!(r.warnings.is_empty());
}

#[test]
fn clash_profile_values() {
    let c = parse_wireguard_config(SAMPLE).unwrap();
    let p = clash_config(&c);
    assert_eq!((p.port, p.socks_port, p.allow_lan, p.ipv6), (7890, 7891, false, false));
    assert_eq!(p.mode, "rule");
    assert_eq!(p.log_level, "info");
    assert!(p.dns.enable);
    assert_eq!(p.dns.listen, "0.0.0.0:1053");
    assert_eq!(p.dns.enhanced_mode, "fake-ip");
    assert_eq!(p.dns.fake_ip_range, "198.18.0.1/16");
    assert_eq!(p.dns.nameserver, vec!["8.8.8.8", "1.1.1.1"]);
    assert_eq!(p.dns.default_nameserver, vec!["223.5.5.5", "77.88.8.8"]);
    let proxy = &p.proxies[0];
    assert_eq!(proxy.proxy_type, "wireguard");
    assert_eq!(proxy.ip, "10.0.0.2");
    assert_eq!(proxy.private_key, "k");
    assert_eq!(proxy.mtu, 1420);
    assert!(proxy.udp);
    assert_eq!(proxy.dns, vec!["1.1.1.1"]);
    assert_eq!(proxy.persistent_keepalive, None);
    let peer = &proxy.peers[0];
    assert_eq!(peer.server, "1.2.3.4");
    assert_eq!(peer.port, 5);
    assert_eq!(peer.public_key, "p");
    assert_eq!(peer.pre_shared_key, None);
    assert_eq!(peer.allowed_ips, vec!["0.0.0.0/0"]);
    assert_eq!(
        p.rules,
        vec![
            "DOMAIN-SUFFIX,ru,DIRECT",
            "DOMAIN-SUFFIX,su,DIRECT",
            "DOMAIN-SUFFIX,xn--p1ai,DIRECT",
            "GEOIP,ru,DIRECT",
            "MATCH,WireGuard_Node",
        ]
    );
}

#[test]
fn vpn_toggle_decisions() {
    assert!(matches!(
        vpn_toggle_start(true, false),
        VpnToggleStep::Refuse(VpnToggleError::ProfileMissing)
    ));
    assert!(matches!(vpn_toggle_start(true, true), VpnToggleStep::CheckAdmin));
    match vpn_toggle_start(false, false) {
        VpnToggleStep::Apply(p) => {
            assert_eq!((p.enable_system_proxy, p.enable_tun_mode), (None, Some(false)))
        }
        _ => panic!("expected a patch"),
    }
    assert!(matches!(vpn_toggle_after_admin_check(true, false), VpnToggleStep::CheckService));
    match vpn_toggle_after_admin_check(true, true) {
        VpnToggleStep::Apply(p) => {
            assert_eq!((p.enable_system_proxy, p.enable_tun_mode), (Some(false), Some(true)))
        }
        _ => panic!("expected a patch"),
    }
    assert!(matches!(
        vpn_toggle_after_service_check(true, false),
        Err(VpnToggleError::ServiceUnavailable)
    ));
    let p = vpn_toggle_after_service_check(true, true).unwrap();
    assert_eq!((p.enable_system_proxy, p.enable_tun_mode), (Some(false), Some(true)));
    let p = verge_patch_for(false);
    assert_eq!((p.enable_system_proxy, p.enable_tun_mode), (None, Some(false)));
    assert_eq!(VpnToggleError::ProfileMissing.message(), "Import a WireGuard .conf file first");
    assert!(VpnToggleError::ServiceUnavailable.message().starts_with("TUN mode requires the helper service."));
}
