//! A WireGuard configuration with one interface and one peer, read from the
//! text of a `.conf` file.
use vstd::prelude::*;

use crate::error::{ErrorView, WireGuardError};
use crate::sections::{
    optional, optional_value, parse_sections, required, required_value, section_count,
    sections_of, count_sections, KeyValues,
};
use crate::text::{chars_of, pieces_view, split_chars, split_on, string_of, trim, trim_chars};
use crate::values::{
    address_ipv4, endpoint_of, number_field, parse_endpoint,
    parse_ipv4_address, parse_u16,
};

verus! {

/// The MTU when the interface gives none.
pub const DEFAULT_MTU: u16 = 1420;

/// The settings of a WireGuard tunnel that the import reads.
#[derive(Debug, Clone, PartialEq, Eq)]
pub struct WireGuardConfig {
    pub private_key: String,
    pub ip: String,
    pub dns: Vec<String>,
    pub public_key: String,
    pub pre_shared_key: Option<String>,
    pub allowed_ips: Option<Vec<String>>,
    pub server: String,
    pub port: u16,
    pub mtu: u16,
    pub persistent_keepalive: Option<u16>,
}

/// The mathematical value of a [`WireGuardConfig`].
pub struct ConfigView {
    pub private_key: Seq<char>,
    pub ip: Seq<char>,
    pub dns: Seq<Seq<char>>,
    pub public_key: Seq<char>,
    pub pre_shared_key: Option<Seq<char>>,
    pub allowed_ips: Option<Seq<Seq<char>>>,
    pub server: Seq<char>,
    pub port: u16,
    pub mtu: u16,
    pub persistent_keepalive: Option<u16>,
}

/// The texts of a list of strings.
pub open spec fn strings_view(v: Seq<String>) -> Seq<Seq<char>> {
    v.map_values(|s: String| s@)
}

impl View for WireGuardConfig {
    type V = ConfigView;

    open spec fn view(&self) -> ConfigView {
        ConfigView {
            private_key: self.private_key@,
            ip: self.ip@,
            dns: strings_view(self.dns@),
            public_key: self.public_key@,
            pre_shared_key: match self.pre_shared_key {
                Some(k) => Some(k@),
                None => None,
            },
            allowed_ips: match self.allowed_ips {
                Some(l) => Some(strings_view(l@)),
                None => None,
            },
            server: self.server@,
            port: self.port,
            mtu: self.mtu,
            persistent_keepalive: self.persistent_keepalive,
        }
    }
}

/// The non-empty texts of `s`, in order.
pub open spec fn keep_nonempty(s: Seq<Seq<char>>) -> Seq<Seq<char>>
    decreases s.len(),
{
    if s.len() == 0 {
        Seq::empty()
    } else {
        let r = keep_nonempty(s.drop_last());
        if s.last().len() > 0 {
            r.push(s.last())
        } else {
            r
        }
    }
}

/// The entries of a comma-separated list, trimmed, empty ones dropped.
pub open spec fn list_items(raw: Seq<char>) -> Seq<Seq<char>> {
    keep_nonempty(split_on(raw, ',').map_values(|e: Seq<char>| trim(e)))
}

/// The DNS servers used when the interface names none.
pub open spec fn default_dns() -> Seq<Seq<char>> {
    seq!["1.1.1.1"@]
}

/// The DNS servers of an interface.
pub open spec fn dns_of(iface: Map<Seq<char>, Seq<char>>) -> Seq<Seq<char>> {
    match optional_value(iface, "dns"@) {
        Some(raw) => if list_items(raw).len() > 0 {
            list_items(raw)
        } else {
            default_dns()
        },
        None => default_dns(),
    }
}

/// The MTU of an interface.
pub open spec fn mtu_of(iface: Map<Seq<char>, Seq<char>>) -> Result<u16, ErrorView> {
    match optional_value(iface, "mtu"@) {
        Some(raw) => number_field(raw, "MTU"@),
        None => Ok(DEFAULT_MTU),
    }
}

/// The persistent keepalive interval of a peer.
pub open spec fn keepalive_of(peer: Map<Seq<char>, Seq<char>>) -> Result<Option<u16>, ErrorView> {
    match optional_value(peer, "persistentkeepalive"@) {
        Some(raw) => match number_field(raw, "PersistentKeepalive"@) {
            Ok(n) => Ok(Some(n)),
            Err(e) => Err(e),
        },
        None => Ok(None),
    }
}

/// The allowed IPs of a peer.
pub open spec fn allowed_ips_of(peer: Map<Seq<char>, Seq<char>>) -> Option<Seq<Seq<char>>> {
    match optional_value(peer, "allowedips"@) {
        Some(raw) => Some(list_items(raw)),
        None => None,
    }
}

/// What the import reads from a configuration text, or the first reason
/// to refuse it, the checks taken in this order: the interface section, the
/// number of peer headers, the peer section, `PrivateKey`, `PublicKey`,
/// `Address` and its IPv4 entry, `Endpoint` and its form, `MTU`,
/// `PersistentKeepalive`.
pub open spec fn config_of(content: Seq<char>) -> Result<ConfigView, ErrorView> {
    let secs = sections_of(content);
    if !secs.contains_key("interface"@) {
        Err(ErrorView::MissingInterface)
    } else if section_count(content, "peer"@) != 1 {
        Err(ErrorView::UnsupportedPeerCount)
    } else if !secs.contains_key("peer"@) {
        Err(ErrorView::MissingPeer)
    } else {
        let iface = secs["interface"@];
        let peer = secs["peer"@];
        match required_value(iface, "privatekey"@) {
            Err(e) => Err(e),
            Ok(private_key) => match required_value(peer, "publickey"@) {
                Err(e) => Err(e),
                Ok(public_key) => match required_value(iface, "address"@) {
                    Err(e) => Err(e),
                    Ok(address) => match address_ipv4(address) {
                        None => Err(ErrorView::NoIpv4Address),
                        Some(ip) => match required_value(peer, "endpoint"@) {
                            Err(e) => Err(e),
                            Ok(endpoint) => match endpoint_of(endpoint) {
                                Err(e) => Err(e),
                                Ok((server, port)) => match mtu_of(iface) {
                                    Err(e) => Err(e),
                                    Ok(mtu) => match keepalive_of(peer) {
                                        Err(e) => Err(e),
                                        Ok(persistent_keepalive) => Ok(
                                            ConfigView {
                                                private_key,
                                                ip,
                                                dns: dns_of(iface),
                                                public_key,
                                                pre_shared_key: optional_value(peer, "presharedkey"@),
                                                allowed_ips: allowed_ips_of(peer),
                                                server,
                                                port,
                                                mtu,
                                                persistent_keepalive,
                                            },
                                        ),
                                    },
                                },
                            },
                        },
                    },
                },
            },
        }
    }
}

/// The view of a parse result.
pub open spec fn config_result_view(r: Result<WireGuardConfig, WireGuardError>) -> Result<
    ConfigView,
    ErrorView,
> {
    match r {
        Ok(c) => Ok(c@),
        Err(e) => Err(e@),
    }
}

/// The entries of a comma-separated list, trimmed, empty ones dropped.
pub fn split_list(raw: &str) -> (r: Vec<String>)
    ensures
        strings_view(r@) == list_items(raw@),
{
    let chars = chars_of(raw);
    let parts = split_chars(chars.as_slice(), ',');
    let ghost trimmed = split_on(raw@, ',').map_values(|e: Seq<char>| trim(e));
    let mut r: Vec<String> = Vec::new();
    let mut i: usize = 0;
    while i < parts.len()
        invariant
            i <= parts@.len(),
            pieces_view(parts@) == split_on(raw@, ','),
            trimmed == split_on(raw@, ',').map_values(|e: Seq<char>| trim(e)),
            strings_view(r@) == keep_nonempty(trimmed.take(i as int)),
        decreases parts@.len() - i,
    {
        let t = trim_chars(parts[i].as_slice());
        proof {
            assert(trimmed.take(i + 1).drop_last() =~= trimmed.take(i as int));
            assert(trimmed.take(i + 1).last() == t@);
        }
        if t.len() > 0 {
            let s = string_of(t.as_slice());
            let ghost old_r = r@;
            r.push(s);
            assert(strings_view(r@) =~= strings_view(old_r).push(t@));
        }
        i = i + 1;
    }
    assert(trimmed.take(parts@.len() as int) =~= trimmed);
    r
}

fn default_dns_list() -> (r: Vec<String>)
    ensures
        strings_view(r@) == default_dns(),
{
    let mut r: Vec<String> = Vec::new();
    r.push("1.1.1.1".to_owned());
    assert(strings_view(r@) =~= default_dns());
    r
}

fn dns_servers(iface: &KeyValues) -> (r: Vec<String>)
    requires
        iface.wf(),
    ensures
        strings_view(r@) == dns_of(iface@),
{
    match optional(iface, "dns") {
        Some(raw) => {
            let l = split_list(raw.as_str());
            if l.len() > 0 {
                l
            } else {
                default_dns_list()
            }
        },
        None => default_dns_list(),
    }
}

fn interface_mtu(iface: &KeyValues) -> (r: Result<u16, WireGuardError>)
    requires
        iface.wf(),
    ensures
        crate::error::number_result_view(r) == mtu_of(iface@),
{
    match optional(iface, "mtu") {
        Some(raw) => parse_u16(raw.as_str(), "MTU"),
        None => Ok(DEFAULT_MTU),
    }
}

fn peer_keepalive(peer: &KeyValues) -> (r: Result<Option<u16>, WireGuardError>)
    requires
        peer.wf(),
    ensures
        match r {
            Ok(k) => keepalive_of(peer@) == Ok::<Option<u16>, ErrorView>(k),
            Err(e) => keepalive_of(peer@) == Err::<Option<u16>, ErrorView>(e@),
        },
{
    match optional(peer, "persistentkeepalive") {
        Some(raw) => match parse_u16(raw.as_str(), "PersistentKeepalive") {
            Ok(n) => Ok(Some(n)),
            Err(e) => Err(e),
        },
        None => Ok(None),
    }
}

fn peer_allowed_ips(peer: &KeyValues) -> (r: Option<Vec<String>>)
    requires
        peer.wf(),
    ensures
        match r {
            Some(l) => allowed_ips_of(peer@) == Some(strings_view(l@)),
            None => allowed_ips_of(peer@) is None,
        },
{
    match optional(peer, "allowedips") {
        Some(raw) => Some(split_list(raw.as_str())),
        None => None,
    }
}

/// Reads a WireGuard configuration text with one `[Interface]` and exactly
/// one `[Peer]` section.
pub fn parse_wireguard_config(content: &str) -> (r: Result<WireGuardConfig, WireGuardError>)
    ensures
        config_result_view(r) == config_of(content@),
{
    let sections = parse_sections(content);
    let interface = match sections.get("interface") {
        Some(t) => t,
        None => return Err(WireGuardError::MissingInterface),
    };
    let peer_sections = count_sections(content, "peer");
    if peer_sections != 1 {
        return Err(WireGuardError::UnsupportedPeerCount);
    }
    let peer = match sections.get("peer") {
        Some(t) => t,
        None => return Err(WireGuardError::MissingPeer),
    };
    let private_key = match required(interface, "privatekey") {
        Ok(v) => v,
        Err(e) => return Err(e),
    };
    let public_key = match required(peer, "publickey") {
        Ok(v) => v,
        Err(e) => return Err(e),
    };
    let address = match required(interface, "address") {
        Ok(v) => v,
        Err(e) => return Err(e),
    };
    let ip = match parse_ipv4_address(address.as_str()) {
        Ok(v) => v,
        Err(e) => return Err(e),
    };
    let endpoint = match required(peer, "endpoint") {
        Ok(v) => v,
        Err(e) => return Err(e),
    };
    let (server, port) = match parse_endpoint(endpoint.as_str()) {
        Ok(v) => v,
        Err(e) => return Err(e),
    };
    let mtu = match interface_mtu(interface) {
        Ok(v) => v,
        Err(e) => return Err(e),
    };
    let dns = dns_servers(interface);
    let persistent_keepalive = match peer_keepalive(peer) {
        Ok(v) => v,
        Err(e) => return Err(e),
    };
    let allowed_ips = peer_allowed_ips(peer);
    let pre_shared_key = optional(peer, "presharedkey");
    let config = WireGuardConfig {
        private_key,
        ip,
        dns,
        public_key,
        pre_shared_key,
        allowed_ips,
        server,
        port,
        mtu,
        persistent_keepalive,
    };
    Ok(config)
}

} // verus!
