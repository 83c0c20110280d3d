//! The Clash profile that routes traffic through a WireGuard tunnel: every
//! value that the generated profile holds, derived from a parsed
//! configuration. Writing it out as YAML is left to the caller.
use vstd::prelude::*;

use crate::config::{strings_view, ConfigView, WireGuardConfig};

verus! {

/// The name of the WireGuard proxy in the generated profile.
pub const WIREGUARD_NODE_NAME: &'static str = "WireGuard_Node";

/// The DNS settings of the profile.
pub struct ClashDns {
    pub enable: bool,
    pub listen: String,
    pub enhanced_mode: String,
    pub fake_ip_range: String,
    pub nameserver: Vec<String>,
    pub default_nameserver: Vec<String>,
}

/// The one peer of the WireGuard proxy.
pub struct ClashPeer {
    pub server: String,
    pub port: u16,
    pub public_key: String,
    pub pre_shared_key: Option<String>,
    pub allowed_ips: Vec<String>,
}

/// The WireGuard proxy.
pub struct ClashProxy {
    pub name: String,
    pub proxy_type: String,
    pub ip: String,
    pub private_key: String,
    pub peers: Vec<ClashPeer>,
    pub persistent_keepalive: Option<u16>,
    pub mtu: u16,
    pub udp: bool,
    pub remote_dns_resolve: bool,
    pub dns: Vec<String>,
}

/// A whole Clash profile.
pub struct ClashConfig {
    pub port: u16,
    pub socks_port: u16,
    pub allow_lan: bool,
    pub mode: String,
    pub log_level: String,
    pub ipv6: bool,
    pub dns: ClashDns,
    pub proxies: Vec<ClashProxy>,
    pub rules: Vec<String>,
}

pub struct ClashDnsView {
    pub enable: bool,
    pub listen: Seq<char>,
    pub enhanced_mode: Seq<char>,
    pub fake_ip_range: Seq<char>,
    pub nameserver: Seq<Seq<char>>,
    pub default_nameserver: Seq<Seq<char>>,
}

pub struct ClashPeerView {
    pub server: Seq<char>,
    pub port: u16,
    pub public_key: Seq<char>,
    pub pre_shared_key: Option<Seq<char>>,
    pub allowed_ips: Seq<Seq<char>>,
}

pub struct ClashProxyView {
    pub name: Seq<char>,
    pub proxy_type: Seq<char>,
    pub ip: Seq<char>,
    pub private_key: Seq<char>,
    pub peers: Seq<ClashPeerView>,
    pub persistent_keepalive: Option<u16>,
    pub mtu: u16,
    pub udp: bool,
    pub remote_dns_resolve: bool,
    pub dns: Seq<Seq<char>>,
}

pub struct ClashConfigView {
    pub port: u16,
    pub socks_port: u16,
    pub allow_lan: bool,
    pub mode: Seq<char>,
    pub log_level: Seq<char>,
    pub ipv6: bool,
    pub dns: ClashDnsView,
    pub proxies: Seq<ClashProxyView>,
    pub rules: Seq<Seq<char>>,
}

impl View for ClashDns {
    type V = ClashDnsView;

    open spec fn view(&self) -> ClashDnsView {
        ClashDnsView {
            enable: self.enable,
            listen: self.listen@,
            enhanced_mode: self.enhanced_mode@,
            fake_ip_range: self.fake_ip_range@,
            nameserver: strings_view(self.nameserver@),
            default_nameserver: strings_view(self.default_nameserver@),
        }
    }
}

impl View for ClashPeer {
    type V = ClashPeerView;

    open spec fn view(&self) -> ClashPeerView {
        ClashPeerView {
            server: self.server@,
            port: self.port,
            public_key: self.public_key@,
            pre_shared_key: match self.pre_shared_key {
                Some(k) => Some(k@),
                None => None,
            },
            allowed_ips: strings_view(self.allowed_ips@),
        }
    }
}

impl View for ClashProxy {
    type V = ClashProxyView;

    open spec fn view(&self) -> ClashProxyView {
        ClashProxyView {
            name: self.name@,
            proxy_type: self.proxy_type@,
            ip: self.ip@,
            private_key: self.private_key@,
            peers: self.peers@.map_values(|p: ClashPeer| p@),
            persistent_keepalive: self.persistent_keepalive,
            mtu: self.mtu,
            udp: self.udp,
            remote_dns_resolve: self.remote_dns_resolve,
            dns: strings_view(self.dns@),
        }
    }
}

impl View for ClashConfig {
    type V = ClashConfigView;

    open spec fn view(&self) -> ClashConfigView {
        ClashConfigView {
            port: self.port,
            socks_port: self.socks_port,
            allow_lan: self.allow_lan,
            mode: self.mode@,
            log_level: self.log_level@,
            ipv6: self.ipv6,
            dns: self.dns@,
            proxies: self.proxies@.map_values(|p: ClashProxy| p@),
            rules: strings_view(self.rules@),
        }
    }
}

/// The routing rules: Russian domains and addresses go direct, everything
/// else through the WireGuard proxy.
pub open spec fn clash_rules() -> Seq<Seq<char>> {
    seq![
        "DOMAIN-SUFFIX,ru,DIRECT"@,
        "DOMAIN-SUFFIX,su,DIRECT"@,
        "DOMAIN-SUFFIX,xn--p1ai,DIRECT"@,
        "GEOIP,ru,DIRECT"@,
        "MATCH,WireGuard_Node"@,
    ]
}

/// The allowed IPs used when the peer names none: all IPv4 traffic.
pub open spec fn default_allowed_ips() -> Seq<Seq<char>> {
    seq!["0.0.0.0/0"@]
}

/// The profile's DNS settings.
pub open spec fn clash_dns() -> ClashDnsView {
    ClashDnsView {
        enable: true,
        listen: "0.0.0.0:1053"@,
        enhanced_mode: "fake-ip"@,
        fake_ip_range: "198.18.0.1/16"@,
        nameserver: seq!["8.8.8.8"@, "1.1.1.1"@],
        default_nameserver: seq!["223.5.5.5"@, "77.88.8.8"@],
    }
}

/// The Clash profile for a WireGuard configuration.
pub open spec fn clash_config_of(c: ConfigView) -> ClashConfigView {
    ClashConfigView {
        port: 7890,
        socks_port: 7891,
        allow_lan: false,
        mode: "rule"@,
        log_level: "info"@,
        ipv6: false,
        dns: clash_dns(),
        proxies: seq![
            ClashProxyView {
                name: WIREGUARD_NODE_NAME@,
                proxy_type: "wireguard"@,
                ip: c.ip,
                private_key: c.private_key,
                peers: seq![
                    ClashPeerView {
                        server: c.server,
                        port: c.port,
                        public_key: c.public_key,
                        pre_shared_key: c.pre_shared_key,
                        allowed_ips: match c.allowed_ips {
                            Some(l) => l,
                            None => default_allowed_ips(),
                        },
                    },
                ],
                persistent_keepalive: c.persistent_keepalive,
                mtu: c.mtu,
                udp: true,
                remote_dns_resolve: true,
                dns: c.dns,
            },
        ],
        rules: clash_rules(),
    }
}

/// A copy of a list of strings.
pub fn copy_strings(v: &Vec<String>) -> (r: Vec<String>)
    ensures
        strings_view(r@) == strings_view(v@),
{
    let mut r: Vec<String> = Vec::new();
    let mut i: usize = 0;
    while i < v.len()
        invariant
            i <= v@.len(),
            strings_view(r@) == strings_view(v@).take(i as int),
        decreases v@.len() - i,
    {
        let ghost old_r = r@;
        r.push(v[i].clone());
        assert(strings_view(r@) =~= strings_view(old_r).push(v@[i as int]@));
        i = i + 1;
        assert(strings_view(r@) =~= strings_view(v@).take(i as int));
    }
    assert(strings_view(v@).take(v@.len() as int) =~= strings_view(v@));
    r
}

fn string_pair(a: &str, b: &str) -> (r: Vec<String>)
    ensures
        strings_view(r@) == seq![a@, b@],
{
    let mut r: Vec<String> = Vec::new();
    r.push(a.to_owned());
    r.push(b.to_owned());
    assert(strings_view(r@) =~= seq![a@, b@]);
    r
}

fn rules_list() -> (r: Vec<String>)
    ensures
        strings_view(r@) == clash_rules(),
{
    let mut r: Vec<String> = Vec::new();
    r.push("DOMAIN-SUFFIX,ru,DIRECT".to_owned());
    r.push("DOMAIN-SUFFIX,su,DIRECT".to_owned());
    r.push("DOMAIN-SUFFIX,xn--p1ai,DIRECT".to_owned());
    r.push("GEOIP,ru,DIRECT".to_owned());
    r.push("MATCH,WireGuard_Node".to_owned());
    assert(strings_view(r@) =~= clash_rules());
    r
}

/// The Clash profile that sends traffic through the tunnel of `config`
/// (the values that `generate_clash_yaml` writes out).
pub fn clash_config(config: &WireGuardConfig) -> (r: ClashConfig)
    ensures
        r@ == clash_config_of(config@),
{
    let allowed_ips = match &config.allowed_ips {
        Some(l) => copy_strings(l),
        None => {
            let mut d: Vec<String> = Vec::new();
            d.push("0.0.0.0/0".to_owned());
            assert(strings_view(d@) =~= default_allowed_ips());
            d
        },
    };
    let pre_shared_key = match &config.pre_shared_key {
        Some(k) => Some(k.clone()),
        None => None,
    };
    let peer = ClashPeer {
        server: config.server.clone(),
        port: config.port,
        public_key: config.public_key.clone(),
        pre_shared_key,
        allowed_ips,
    };
    let mut peers: Vec<ClashPeer> = Vec::new();
    peers.push(peer);
    let proxy = ClashProxy {
        name: WIREGUARD_NODE_NAME.to_owned(),
        proxy_type: "wireguard".to_owned(),
        ip: config.ip.clone(),
        private_key: config.private_key.clone(),
        peers,
        persistent_keepalive: config.persistent_keepalive,
        mtu: config.mtu,
        udp: true,
        remote_dns_resolve: true,
        dns: copy_strings(&config.dns),
    };
    let mut proxies: Vec<ClashProxy> = Vec::new();
    proxies.push(proxy);
    let dns = ClashDns {
        enable: true,
        listen: "0.0.0.0:1053".to_owned(),
        enhanced_mode: "fake-ip".to_owned(),
        fake_ip_range: "198.18.0.1/16".to_owned(),
        nameserver: string_pair("8.8.8.8", "1.1.1.1"),
        default_nameserver: string_pair("223.5.5.5", "77.88.8.8"),
    };
    let r = ClashConfig {
        port: 7890,
        socks_port: 7891,
        allow_lan: false,
        mode: "rule".to_owned(),
        log_level: "info".to_owned(),
        ipv6: false,
        dns,
        proxies,
        rules: rules_list(),
    };
    assert(r.proxies@.map_values(|p: ClashProxy| p@) =~= clash_config_of(config@).proxies) by {
        assert(r.proxies@[0].peers@.map_values(|p: ClashPeer| p@) =~= clash_config_of(
            config@,
        ).proxies[0].peers);
    }
    r
}

} // verus!
