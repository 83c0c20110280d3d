//! The typed values of a configuration: numbers, endpoints and addresses.
use vstd::prelude::*;

use crate::error::{ErrorView, WireGuardError};
use crate::text::{
    all_digits, chars_of, decimal_limit, decimal_value, lemma_decimal_value_bound, digits_to_u16, find_char, find_from, find_pair,
    find_pair_from, lemma_find_from, lemma_split_on_nonempty, parse_u16_chars, parse_u16_text,
    pieces_view, rfind_before, split_chars, split_on, string_of, sub_chars, trim, trim_chars,
};

verus! {

// ---------------------------------------------------------------------------
// Numbers
// ---------------------------------------------------------------------------

/// A number field: the trimmed text read as a `u16`, or the error naming
/// the field.
pub open spec fn number_field(value: Seq<char>, field: Seq<char>) -> Result<u16, ErrorView> {
    match parse_u16_text(trim(value)) {
        Some(n) => Ok(n),
        None => Err(ErrorView::InvalidNumber(field)),
    }
}

fn parse_u16_of_chars(value: &[char], field: &str) -> (r: Result<u16, WireGuardError>)
    ensures
        crate::error::number_result_view(r) == number_field(value@, field@),
{
    let t = trim_chars(value);
    match parse_u16_chars(t.as_slice()) {
        Some(n) => Ok(n),
        None => Err(WireGuardError::InvalidNumber(field.to_owned())),
    }
}

/// Reads `value`, trimmed, as a number from 0 to 65535 (an optional `+`,
/// then decimal digits); on failure the error names `field`.
pub fn parse_u16(value: &str, field: &str) -> (r: Result<u16, WireGuardError>)
    ensures
        crate::error::number_result_view(r) == number_field(value@, field@),
{
    let chars = chars_of(value);
    parse_u16_of_chars(chars.as_slice(), field)
}

// ---------------------------------------------------------------------------
// Endpoints
// ---------------------------------------------------------------------------

/// `host:port`, split at the last `:` with both parts non-empty, or
/// `[host]:port`, split at the first `]:`; the port is read as a number.
pub open spec fn endpoint_of(e: Seq<char>) -> Result<(Seq<char>, u16), ErrorView> {
    if e.len() > 0 && e[0] == '[' {
        let rest = e.drop_first();
        match find_pair_from(rest, ']', ':', 0) {
            None => Err(ErrorView::BadIpv6Endpoint),
            Some(i) => match number_field(rest.skip(i + 2), "Endpoint port"@) {
                Ok(port) => Ok((rest.take(i), port)),
                Err(err) => Err(err),
            },
        }
    } else {
        match rfind_before(e, ':', e.len() as int) {
            None => Err(ErrorView::BadEndpoint),
            Some(i) => {
                if i == 0 || i + 1 == e.len() {
                    Err(ErrorView::BadEndpoint)
                } else {
                    match number_field(e.skip(i + 1), "Endpoint port"@) {
                        Ok(port) => Ok((e.take(i), port)),
                        Err(err) => Err(err),
                    }
                }
            },
        }
    }
}

/// The view of a parsed endpoint.
pub open spec fn endpoint_result_view(r: Result<(String, u16), WireGuardError>) -> Result<
    (Seq<char>, u16),
    ErrorView,
> {
    match r {
        Ok((h, p)) => Ok((h@, p)),
        Err(e) => Err(e@),
    }
}

fn endpoint_of_chars(e: &[char]) -> (r: Result<(String, u16), WireGuardError>)
    ensures
        endpoint_result_view(r) == endpoint_of(e@),
{
    let n = e.len();
    if n > 0 && e[0] == '[' {
        let rest = sub_chars(e, 1, n);
        assert(rest@ =~= e@.drop_first());
        match find_pair(rest.as_slice(), ']', ':') {
            None => Err(WireGuardError::BadIpv6Endpoint),
            Some(i) => {
                let host = sub_chars(rest.as_slice(), 0, i);
                let port_part = sub_chars(rest.as_slice(), i + 2, rest.len());
                assert(host@ =~= rest@.take(i as int));
                assert(port_part@ =~= rest@.skip(i + 2));
                let port = parse_u16_of_chars(port_part.as_slice(), "Endpoint port");
                match port {
                    Ok(p) => Ok((string_of(host.as_slice()), p)),
                    Err(err) => Err(err),
                }
            },
        }
    } else {
        match crate::text::rfind_char(e, ':') {
            None => Err(WireGuardError::BadEndpoint),
            Some(i) => {
                if i == 0 || i + 1 == n {
                    Err(WireGuardError::BadEndpoint)
                } else {
                    let host = sub_chars(e, 0, i);
                    let port_part = sub_chars(e, i + 1, n);
                    assert(host@ =~= e@.take(i as int));
                    assert(port_part@ =~= e@.skip(i + 1));
                    let port = parse_u16_of_chars(port_part.as_slice(), "Endpoint port");
                    match port {
                        Ok(p) => Ok((string_of(host.as_slice()), p)),
                        Err(err) => Err(err),
                    }
                }
            },
        }
    }
}

/// Splits a WireGuard endpoint into its host and port.
pub fn parse_endpoint(endpoint: &str) -> (r: Result<(String, u16), WireGuardError>)
    ensures
        endpoint_result_view(r) == endpoint_of(endpoint@),
{
    let chars = chars_of(endpoint);
    endpoint_of_chars(chars.as_slice())
}

// ---------------------------------------------------------------------------
// IPv4 addresses
// ---------------------------------------------------------------------------

/// One decimal part of a dotted IPv4 address as `Ipv4Addr::from_str` accepts
/// it: one to three ASCII digits, no leading zero unless it is `0` itself,
/// value at most 255.
pub open spec fn octet_ok(p: Seq<char>) -> bool {
    &&& 1 <= p.len() <= 3
    &&& all_digits(p)
    &&& (p.len() == 1 || p[0] != '0')
    &&& decimal_value(p) <= 255
}

/// A dotted-decimal IPv4 address (`Ipv4Addr::from_str` succeeds).
pub open spec fn is_ipv4_text(s: Seq<char>) -> bool {
    let parts = split_on(s, '.');
    &&& parts.len() == 4
    &&& forall|i: int| 0 <= i < 4 ==> #[trigger] octet_ok(parts[i])
}

/// The address part of one comma-separated entry of `Address`: the trimmed
/// entry up to its first `/`.
pub open spec fn address_candidate(entry: Seq<char>) -> Seq<char> {
    split_on(trim(entry), '/')[0]
}

/// A candidate that the import takes as its IPv4 address.
pub open spec fn ipv4_candidate_ok(c: Seq<char>) -> bool {
    c.contains('.') && is_ipv4_text(c)
}

/// The first candidate at or after `i` that is an IPv4 address.
pub open spec fn first_ipv4_from(cands: Seq<Seq<char>>, i: int) -> Option<Seq<char>>
    decreases cands.len() - i,
{
    if i < 0 || i >= cands.len() {
        None
    } else if ipv4_candidate_ok(cands[i]) {
        Some(cands[i])
    } else {
        first_ipv4_from(cands, i + 1)
    }
}

/// The IPv4 address that an `Address` value designates: the first of its
/// comma-separated entries (prefix length dropped) that is one.
pub open spec fn address_ipv4(address: Seq<char>) -> Option<Seq<char>> {
    first_ipv4_from(split_on(address, ',').map_values(|e: Seq<char>| address_candidate(e)), 0)
}

fn octet_chars(p: &[char]) -> (r: bool)
    ensures
        r == octet_ok(p@),
{
    let n = p.len();
    if n < 1 || n > 3 {
        return false;
    }
    if n > 1 && p[0] == '0' {
        return false;
    }
    assert(p@.subrange(0, n as int) =~= p@);
    proof {
        if all_digits(p@) {
            lemma_decimal_value_bound(p@);
            reveal_with_fuel(decimal_limit, 4);
        }
    }
    match digits_to_u16(p, 0) {
        None => false,
        Some(v) => v <= 255,
    }
}

/// Whether `v` is a dotted-decimal IPv4 address.
pub fn ipv4_chars(v: &[char]) -> (r: bool)
    ensures
        r == is_ipv4_text(v@),
{
    let parts = split_chars(v, '.');
    if parts.len() != 4 {
        return false;
    }
    let mut i: usize = 0;
    while i < 4
        invariant
            i <= 4,
            parts@.len() == 4,
            pieces_view(parts@) == split_on(v@, '.'),
            forall|j: int| 0 <= j < i ==> #[trigger] octet_ok(split_on(v@, '.')[j]),
        decreases 4 - i,
    {
        assert(parts@[i as int]@ == split_on(v@, '.')[i as int]);
        if !octet_chars(parts[i].as_slice()) {
            return false;
        }
        i = i + 1;
    }
    true
}

/// The first entry of an `Address` value that is an IPv4 address, without
/// its prefix length.
pub fn parse_ipv4_address(address: &str) -> (r: Result<String, WireGuardError>)
    ensures
        r matches Ok(ip) ==> address_ipv4(address@) == Some(ip@),
        r matches Err(e) ==> address_ipv4(address@) is None && e@ == ErrorView::NoIpv4Address,
{
    let chars = chars_of(address);
    let entries = split_chars(chars.as_slice(), ',');
    let ghost cands = split_on(address@, ',').map_values(|e: Seq<char>| address_candidate(e));
    let mut i: usize = 0;
    while i < entries.len()
        invariant
            i <= entries@.len(),
            pieces_view(entries@) == split_on(address@, ','),
            cands == split_on(address@, ',').map_values(|e: Seq<char>| address_candidate(e)),
            address_ipv4(address@) == first_ipv4_from(cands, i as int),
        decreases entries@.len() - i,
    {
        let t = trim_chars(entries[i].as_slice());
        let pieces = split_chars(t.as_slice(), '/');
        proof {
            lemma_split_on_nonempty(t@, '/');
        }
        let cand = &pieces[0];
        assert(cand@ == cands[i as int]);
        let has_dot = match find_char(cand.as_slice(), '.') {
            Some(_) => true,
            None => false,
        };
        proof {
            lemma_find_from(cand@, '.', 0);
            if has_dot {
                let k = find_from(cand@, '.', 0).unwrap();
                assert(cand@[k] == '.');
            }
        }
        if has_dot && ipv4_chars(cand.as_slice()) {
            return Ok(string_of(cand.as_slice()));
        }
        i = i + 1;
    }
    Err(WireGuardError::NoIpv4Address)
}

} // verus!
