//! Properties of the import as a whole, stated over the models that the
//! functions' contracts use, and proved.
use vstd::prelude::*;

use crate::config::{
    config_of, default_dns, keep_nonempty, list_items, };
use crate::error::{error_message, ErrorView};
use crate::clash::clash_config_of;
use crate::config::ConfigView;
use crate::profile::{
    description_of, is_managed, unmanaged, ProfileItemView, MANAGED_PROFILE_FILE,
    MANAGED_PROFILE_NAME, MANAGED_PROFILE_UID,
};
use crate::sections::{
    count_matching, header_text, read_lines, sections_start, required_value,
    key_value, optional_value, section_count, section_header, section_or_empty,
    section_step, sections_of, SectionsModel,
};
use crate::text::{
    all_ascii_alnum, all_ascii_alpha, ascii_lower, ascii_lower_text, find_from, is_ascii_alnum,
    is_ascii_alpha,
    all_digits, decimal_value, digit_value, find_pair_from, is_ascii_digit, is_white_space,
    lemma_find_pair_from, parse_u16_text, join_with, law_split_on_rejoins, law_trim_is_inner_stretch, lemma_decimal_value_nonneg, rfind_before, eq_ignore_ascii_case,
    lemma_split_on_nonempty, lemma_trim_idempotent, lemma_trim_strip_cr, lemma_trim_noop, lemma_trim_padded, trim_end, trim_start, lemma_trim_first, lemma_find_from, lines, split_on, strip_cr, trim,
};
use crate::values::{
    address_candidate, address_ipv4, octet_ok,
endpoint_of, first_ipv4_from, ipv4_candidate_ok, is_ipv4_text, number_field};

verus! {

/// An error whose text is fixed by the format itself: it names a key or a
/// field of the format, never a value found in the input.
pub open spec fn error_names_no_value(e: ErrorView) -> bool {
    match e {
        ErrorView::MissingField(k) => k == "privatekey"@ || k == "publickey"@ || k == "address"@
            || k == "endpoint"@,
        ErrorView::InvalidNumber(f) => f == "MTU"@ || f == "PersistentKeepalive"@ || f
            == "Endpoint port"@,
        _ => true,
    }
}

proof fn lemma_endpoint_errors(e: Seq<char>)
    ensures
        endpoint_of(e) matches Err(err) ==> error_names_no_value(err),
{
}

/// A refused configuration is refused with an error that carries no text
/// of the configuration: the message of a missing key names the key, that
/// of a bad number names the field, so a private key never appears in it.
pub proof fn law_refusal_reveals_no_value(content: Seq<char>)
    ensures
        config_of(content) matches Err(e) ==> error_names_no_value(e),
{
    let secs = sections_of(content);
    if secs.contains_key("interface"@) && secs.contains_key("peer"@) {
        let iface = secs["interface"@];
        let peer = secs["peer"@];
        if let Some(endpoint) = optional_value(peer, "endpoint"@) {
            lemma_endpoint_errors(endpoint);
        }
    }
}

/// A text that has no white space at either end and is not empty.
pub open spec fn is_clean(s: Seq<char>) -> bool {
    s.len() > 0 && trim(s) == s
}

proof fn lemma_optional_clean(m: Map<Seq<char>, Seq<char>>, key: Seq<char>)
    ensures
        optional_value(m, key) matches Some(v) ==> is_clean(v),
{
    if m.contains_key(key) {
        lemma_trim_idempotent(m[key]);
    }
}

proof fn lemma_keep_nonempty(s: Seq<Seq<char>>)
    ensures
        forall|i: int| 0 <= i < keep_nonempty(s).len() ==> #[trigger] keep_nonempty(s)[i].len() > 0
            && exists|j: int| 0 <= j < s.len() && s[j] == keep_nonempty(s)[i],
    decreases s.len(),
{
    if s.len() > 0 {
        lemma_keep_nonempty(s.drop_last());
        let r = keep_nonempty(s.drop_last());
        assert forall|i: int| 0 <= i < keep_nonempty(s).len() implies #[trigger] keep_nonempty(
            s,
        )[i].len() > 0 && exists|j: int| 0 <= j < s.len() && s[j] == keep_nonempty(s)[i] by {
            if i < r.len() {
                let j = choose|j: int| 0 <= j < s.drop_last().len() && s.drop_last()[j] == r[i];
                assert(s[j] == r[i]);
            } else {
                assert(s[s.len() - 1] == keep_nonempty(s)[i]);
            }
        }
    }
}

/// Every entry of a parsed list is clean.
pub proof fn lemma_list_items_clean(raw: Seq<char>)
    ensures
        forall|i: int| 0 <= i < list_items(raw).len() ==> #[trigger] is_clean(list_items(raw)[i]),
{
    let t = split_on(raw, ',').map_values(|e: Seq<char>| trim(e));
    lemma_keep_nonempty(t);
    assert forall|i: int| 0 <= i < list_items(raw).len() implies #[trigger] is_clean(
        list_items(raw)[i],
    ) by {
        let j = choose|j: int| 0 <= j < t.len() && t[j] == keep_nonempty(t)[i];
        lemma_trim_idempotent(split_on(raw, ',')[j]);
    }
}

proof fn lemma_first_ipv4(cands: Seq<Seq<char>>, i: int)
    ensures
        first_ipv4_from(cands, i) matches Some(ip) ==> ipv4_candidate_ok(ip),
    decreases cands.len() - i,
{
    if 0 <= i < cands.len() && !ipv4_candidate_ok(cands[i]) {
        lemma_first_ipv4(cands, i + 1);
    }
}

/// What every accepted configuration satisfies: it has exactly one peer
/// header; its keys are clean; its address is a dotted-decimal IPv4
/// address; it has at least one DNS server (`1.1.1.1` when none is given)
/// and every DNS server and allowed IP is clean; its MTU is 1420 unless
/// the interface sets one.
pub proof fn law_accepted_config_shape(content: Seq<char>)
    ensures
        config_of(content) matches Ok(c) ==> {
            let secs = sections_of(content);
            &&& section_count(content, "peer"@) == 1
            &&& is_clean(c.private_key)
            &&& is_clean(c.public_key)
            &&& is_ipv4_text(c.ip)
            &&& c.dns.len() > 0
            &&& forall|i: int| 0 <= i < c.dns.len() ==> #[trigger] is_clean(c.dns[i])
            &&& c.allowed_ips matches Some(l) ==> forall|i: int|
                0 <= i < l.len() ==> #[trigger] is_clean(l[i])
            &&& optional_value(secs["interface"@], "mtu"@) is None ==> c.mtu == 1420
            &&& c.pre_shared_key matches Some(k) ==> is_clean(k)
        },
{
    let secs = sections_of(content);
    if let Ok(c) = config_of(content) {
        let iface = secs["interface"@];
        let peer = secs["peer"@];
        lemma_optional_clean(iface, "privatekey"@);
        lemma_optional_clean(peer, "publickey"@);
        lemma_optional_clean(peer, "presharedkey"@);
        let address = optional_value(iface, "address"@).unwrap();
        lemma_first_ipv4(
            split_on(address, ',').map_values(|e: Seq<char>| crate::values::address_candidate(e)),
            0,
        );
        if let Some(raw) = optional_value(iface, "dns"@) {
            lemma_list_items_clean(raw);
        }
        assert forall|i: int| 0 <= i < default_dns().len() implies #[trigger] is_clean(
            default_dns()[i],
        ) by {
            reveal_strlit("1.1.1.1");
            assert(default_dns()[i] == "1.1.1.1"@);
            lemma_trim_noop("1.1.1.1"@);
        }
        if let Some(raw) = optional_value(peer, "allowedips"@) {
            lemma_list_items_clean(raw);
        }
    }
}

// ---------------------------------------------------------------------------
// Line endings
// ---------------------------------------------------------------------------

/// `s` with every `\n` written as `\r\n` (Windows line endings).
pub open spec fn crlf(s: Seq<char>) -> Seq<char>
    decreases s.len(),
{
    if s.len() == 0 {
        s
    } else {
        let r = crlf(s.drop_last());
        if s.last() == '\n' {
            r + seq!['\r', '\n']
        } else {
            r.push(s.last())
        }
    }
}

proof fn lemma_crlf_split(s: Seq<char>)
    ensures
        ({
            let p = split_on(s, '\n');
            split_on(crlf(s), '\n') == p.drop_last().map_values(|x: Seq<char>| x.push('\r')).push(
                p.last(),
            )
        }),
        crlf(s).len() >= s.len(),
        s.len() > 0 ==> crlf(s).last() == s.last(),
    decreases s.len(),
{
    lemma_split_on_nonempty(s, '\n');
    if s.len() > 0 {
        let t = s.drop_last();
        let r = crlf(t);
        lemma_crlf_split(t);
        lemma_split_on_nonempty(t, '\n');
        lemma_split_on_nonempty(r, '\n');
        let q = split_on(t, '\n');
        let qc = split_on(r, '\n');
        if s.last() == '\n' {
            let x = r + seq!['\r', '\n'];
            assert(x.drop_last() =~= r.push('\r'));
            assert(r.push('\r').drop_last() =~= r);
            let y = r.push('\r');
            assert(split_on(y, '\n') == qc.update(qc.len() - 1, qc.last().push('\r')));
            lemma_split_on_nonempty(y, '\n');
            assert(split_on(x, '\n') == split_on(y, '\n').push(Seq::empty()));
            let p = split_on(s, '\n');
            assert(p == q.push(Seq::empty()));
            assert(p.drop_last() =~= q);
            assert(split_on(x, '\n') =~= p.drop_last().map_values(|x: Seq<char>| x.push('\r')).push(
                p.last(),
            ));
        } else {
            let x = r.push(s.last());
            assert(x.drop_last() =~= r);
            let p = split_on(s, '\n');
            assert(p == q.update(q.len() - 1, q.last().push(s.last())));
            assert(p.drop_last() =~= q.drop_last());
            assert(split_on(x, '\n') =~= p.drop_last().map_values(|x: Seq<char>| x.push('\r')).push(
                p.last(),
            ));
        }
    }
}

/// Two lists of lines that are equal line by line once each line is trimmed.
pub open spec fn same_when_trimmed(a: Seq<Seq<char>>, b: Seq<Seq<char>>) -> bool {
    &&& a.len() == b.len()
    &&& forall|i: int| 0 <= i < a.len() ==> trim(#[trigger] a[i]) == trim(b[i])
}

proof fn lemma_read_same_when_trimmed(a: Seq<Seq<char>>, b: Seq<Seq<char>>, target: Seq<char>)
    requires
        same_when_trimmed(a, b),
    ensures
        read_lines(a) == read_lines(b),
        count_matching(a, target) == count_matching(b, target),
    decreases a.len(),
{
    if a.len() > 0 {
        let a0 = a.drop_last();
        let b0 = b.drop_last();
        assert(same_when_trimmed(a0, b0)) by {
            assert forall|i: int| 0 <= i < a0.len() implies trim(#[trigger] a0[i]) == trim(b0[i]) by {
                assert(a0[i] == a[i] && b0[i] == b[i]);
            }
        }
        lemma_read_same_when_trimmed(a0, b0, target);
        assert(trim(a.last()) == trim(b.last()));
        let st = read_lines(a0);
        assert(read_lines(a) == section_step(st, a.last()));
        assert(read_lines(b) == section_step(st, b.last()));
        assert(section_step(st, a.last()) == section_step(st, b.last()));
    }
}

/// Windows line endings read the same as Unix ones: writing every `\n` of
/// a configuration text as `\r\n` gives lines that are the same once
/// trimmed (a carriage return is white space), and so the same sections,
/// the same header count and the same result, for every text.
pub proof fn law_crlf_reads_the_same(content: Seq<char>)
    ensures
        same_when_trimmed(lines(crlf(content)), lines(content)),
        config_of(crlf(content)) == config_of(content),
{
    lemma_crlf_split(content);
    lemma_split_on_nonempty(content, '\n');
    let lc = lines(crlf(content));
    let l = lines(content);
    if content.len() > 0 {
        let p = split_on(content, '\n');
        let pc = split_on(crlf(content), '\n');
        assert(pc.drop_last() =~= p.drop_last().map_values(|x: Seq<char>| x.push('\r')));
        assert(pc.last() == p.last());
        assert(lc.len() == l.len());
        assert forall|i: int| 0 <= i < lc.len() implies trim(#[trigger] lc[i]) == trim(l[i]) by {
            if i < p.len() - 1 {
                let x = p[i];
                assert(pc.drop_last()[i] == x.push('\r'));
                assert(x.push('\r').drop_last() =~= x);
                assert(lc[i] == strip_cr(x.push('\r')));
                assert(strip_cr(x.push('\r')) == x);
                assert(l[i] == strip_cr(x));
                lemma_trim_strip_cr(x);
            }
        }
    } else {
        assert(crlf(content) == content);
    }
    lemma_read_same_when_trimmed(lc, l, header_text("peer"@));
    assert(sections_of(crlf(content)) == sections_of(content));
    assert(section_count(crlf(content), "peer"@) == section_count(content, "peer"@));
}

// ---------------------------------------------------------------------------
// Numbers and endpoints
// ---------------------------------------------------------------------------

/// The ASCII digit for `d` (0 to 9).
pub open spec fn digit_char(d: nat) -> char {
    ((d + 48) as u32) as char
}

/// The usual decimal writing of `n`: no sign, no leading zero.
pub open spec fn decimal_text(n: nat) -> Seq<char>
    decreases n,
{
    if n < 10 {
        seq![digit_char(n)]
    } else {
        decimal_text(n / 10).push(digit_char(n % 10))
    }
}

proof fn lemma_decimal_text(n: nat)
    ensures
        decimal_text(n).len() > 0,
        all_digits(decimal_text(n)),
        decimal_value(decimal_text(n)) == n,
        !decimal_text(n).contains(':'),
        !is_white_space(decimal_text(n)[0]),
        !is_white_space(decimal_text(n).last()),
    decreases n,
{
    if n < 10 {
        let t = decimal_text(n);
        assert(t.drop_last() =~= Seq::<char>::empty());
        assert(digit_char(n) as u32 == n + 48);
        assert(decimal_value(t) == decimal_value(Seq::<char>::empty()) * 10 + digit_value(t.last()));
    } else {
        lemma_decimal_text(n / 10);
        let q = decimal_text(n / 10);
        let t = q.push(digit_char(n % 10));
        assert(digit_char(n % 10) as u32 == n % 10 + 48);
        assert(t.drop_last() =~= q);
        assert(n == (n / 10) * 10 + n % 10);
        assert(all_digits(t)) by {
            assert forall|i: int| 0 <= i < t.len() implies #[trigger] is_ascii_digit(t[i]) by {
                if i < q.len() {
                    assert(t[i] == q[i]);
                }
            }
        }
        assert(!t.contains(':')) by {
            if t.contains(':') {
                let k = choose|k: int| 0 <= k < t.len() && t[k] == ':';
                if k < q.len() {
                    assert(q[k] == ':');
                }
            }
        }
        assert(t[0] == q[0]);
    }
}

/// Reading a number gives back the number that was written: for every
/// `u16`, its decimal writing reads as itself, and so does a number field
/// holding it with any white space before and after it.
pub proof fn law_number_round_trip(n: u16, before: Seq<char>, after: Seq<char>, field: Seq<char>)
    requires
        forall|i: int| 0 <= i < before.len() ==> is_white_space(#[trigger] before[i]),
        forall|i: int| 0 <= i < after.len() ==> is_white_space(#[trigger] after[i]),
    ensures
        parse_u16_text(decimal_text(n as nat)) == Some(n),
        number_field(decimal_text(n as nat), field) == Ok::<u16, ErrorView>(n),
        number_field(before + decimal_text(n as nat) + after, field) == Ok::<u16, ErrorView>(n),
{
    let d = decimal_text(n as nat);
    lemma_decimal_text(n as nat);
    lemma_trim_noop(d);
    lemma_trim_padded(before, d, after);
    assert(is_ascii_digit(d[0]));
}

proof fn lemma_rfind_at(s: Seq<char>, c: char, k: int, j: int)
    requires
        0 <= k < j <= s.len(),
        s[k] == c,
        forall|m: int| k < m < j ==> s[m] != c,
    ensures
        rfind_before(s, c, j) == Some(k),
    decreases j,
{
    if j - 1 != k {
        lemma_rfind_at(s, c, k, j - 1);
    }
}

proof fn lemma_find_pair_at(s: Seq<char>, a: char, b: char, k: int, i: int)
    requires
        0 <= i <= k,
        k + 1 < s.len(),
        s[k] == a && s[k + 1] == b,
        forall|m: int| i <= m < k ==> !(#[trigger] s[m] == a && s[m + 1] == b),
    ensures
        find_pair_from(s, a, b, i) == Some(k),
    decreases k - i,
{
    if i < k {
        lemma_find_pair_at(s, a, b, k, i + 1);
    }
}

/// Splitting an endpoint gives back the host and port it was written from:
/// `host:port` for a non-empty host that does not start with `[` (the last
/// `:` separates the port, so the host may hold colons), and
/// `[host]:port` for a host without `]:`.
pub proof fn law_endpoint_round_trip(host: Seq<char>, port: u16)
    ensures
        host.len() > 0 && host[0] != '[' ==> endpoint_of(host + seq![':'] + decimal_text(
            port as nat,
        )) == Ok::<(Seq<char>, u16), ErrorView>((host, port)),
        find_pair_from(host, ']', ':', 0) is None ==> endpoint_of(
            seq!['['] + host + seq![']', ':'] + decimal_text(port as nat),
        ) == Ok::<(Seq<char>, u16), ErrorView>((host, port)),
{
    let d = decimal_text(port as nat);
    law_number_round_trip(port, Seq::empty(), Seq::empty(), "Endpoint port"@);
    lemma_decimal_text(port as nat);
    if host.len() > 0 && host[0] != '[' {
        let e = host + seq![':'] + d;
        let k = host.len() as int;
        assert forall|m: int| k < m < e.len() implies e[m] != ':' by {
            assert(e[m] == d[m - k - 1]);
        }
        lemma_rfind_at(e, ':', k, e.len() as int);
        assert(e.take(k) =~= host);
        assert(e.skip(k + 1) =~= d);
        assert(e[0] == host[0]);
    }
    if find_pair_from(host, ']', ':', 0) is None {
        let e = seq!['['] + host + seq![']', ':'] + d;
        let rest = e.drop_first();
        assert(rest =~= host + seq![']', ':'] + d);
        let k = host.len() as int;
        lemma_find_pair_from(host, ']', ':', 0);
        assert forall|m: int| 0 <= m < k implies !(#[trigger] rest[m] == ']' && rest[m + 1] == ':') by {
            if m + 1 < k {
                lemma_find_pair_none(host, ']', ':', 0, m);
            } else {
                assert(rest[m + 1] == ']');
            }
        }
        lemma_find_pair_at(rest, ']', ':', k, 0);
        assert(rest.take(k) =~= host);
        assert(rest.skip(k + 2) =~= d);
    }
}

proof fn lemma_find_pair_none(s: Seq<char>, a: char, b: char, i: int, m: int)
    requires
        0 <= i <= m,
        m + 1 < s.len(),
        find_pair_from(s, a, b, i) is None,
    ensures
        !(s[m] == a && s[m + 1] == b),
    decreases m - i,
{
    if i < m {
        lemma_find_pair_none(s, a, b, i + 1, m);
    }
}

// ---------------------------------------------------------------------------
// Names and lines of the format
// ---------------------------------------------------------------------------

proof fn lemma_lower_text_idempotent(s: Seq<char>)
    ensures
        ascii_lower_text(ascii_lower_text(s)) == ascii_lower_text(s),
{
    assert(ascii_lower_text(ascii_lower_text(s)) =~= ascii_lower_text(s));
}

/// Section names and keys are stored in ASCII lower case, so that `[Peer]`
/// and `[peer]`, or `PrivateKey` and `privatekey`, name the same thing: a
/// section name is made of ASCII letters, a key is a non-empty run of ASCII
/// letters and digits, and both are their own lower case; a value is
/// trimmed.
pub proof fn law_names_are_case_folded(line: Seq<char>)
    ensures
        section_header(line) matches Some(n) ==> ascii_lower_text(n) == n && all_ascii_alpha(n),
        key_value(line) matches Some(kv) ==> kv.0.len() > 0 && ascii_lower_text(kv.0) == kv.0
            && all_ascii_alnum(kv.0) && trim(kv.1) == kv.1,
{
    if line.len() >= 2 && line[0] == '[' && line.last() == ']' {
        let name = trim(line.subrange(1, line.len() - 1));
        lemma_lower_text_idempotent(name);
        let n = ascii_lower_text(name);
        if all_ascii_alpha(name) {
            assert forall|i: int| 0 <= i < n.len() implies #[trigger] is_ascii_alpha(n[i]) by {
                assert(n[i] == ascii_lower(name[i]));
                assert(is_ascii_alpha(name[i]));
            }
        }
    }
    match find_from(line, '=', 0) {
        None => {},
        Some(p) => {
            let key = trim(line.take(p));
            lemma_lower_text_idempotent(key);
            let k = ascii_lower_text(key);
            if all_ascii_alnum(key) {
                assert forall|i: int| 0 <= i < k.len() implies #[trigger] is_ascii_alnum(k[i]) by {
                    assert(k[i] == ascii_lower(key[i]));
                    assert(is_ascii_alnum(key[i]));
                }
            }
            lemma_trim_idempotent(line.skip(p + 1));
        },
    }
}

/// Blank lines and comment lines (`#` or `;` first) change nothing.
pub proof fn law_comments_are_ignored(st: SectionsModel, raw: Seq<char>)
    requires
        trim(raw).len() == 0 || trim(raw)[0] == '#' || trim(raw)[0] == ';',
    ensures
        section_step(st, raw) == st,
{
}

/// Key/value lines before the first header belong to no section and are
/// ignored.
pub proof fn law_lines_before_any_header_are_ignored(st: SectionsModel, raw: Seq<char>)
    requires
        st.current is None,
        section_header(trim(raw)) is None,
    ensures
        section_step(st, raw) == st,
{
}

/// A header of a section that was already read reopens it: its keys and
/// values are kept, and the lines that follow add to it.
pub proof fn law_reopened_section_keeps_entries(st: SectionsModel, raw: Seq<char>, name: Seq<char>)
    requires
        section_header(trim(raw)) == Some(name),
        st.sections.contains_key(name),
    ensures
        section_step(st, raw).sections == st.sections,
        section_step(st, raw).current == Some(name),
{
    assert(st.sections.insert(name, section_or_empty(st.sections, name)) =~= st.sections);
}

/// A key/value line in a section stores the value under the key, replacing
/// what an earlier line stored there: the later line wins.
pub proof fn law_later_value_wins(st: SectionsModel, raw: Seq<char>, key: Seq<char>, value: Seq<char>)
    requires
        st.current is Some,
        trim(raw).len() > 0 && trim(raw)[0] != '#' && trim(raw)[0] != ';',
        section_header(trim(raw)) is None,
        key_value(trim(raw)) == Some((key, value)),
    ensures
        section_step(st, raw).sections[st.current.unwrap()][key] == value,
        section_step(st, raw).current == st.current,
{
}

// ---------------------------------------------------------------------------
// The generated Clash profile
// ---------------------------------------------------------------------------

/// The generated profile has one proxy with one peer, the tunnel's; its
/// last rule sends all remaining traffic to that proxy by name; the proxy
/// and its peer carry the configuration's address, keys, preshared key,
/// endpoint, keepalive, MTU, DNS servers and allowed IPs, and the peer
/// allows all IPv4 traffic when the configuration names no allowed IPs.
pub proof fn law_profile_routes_through_tunnel(c: ConfigView)
    ensures
        ({
            let p = clash_config_of(c);
            &&& p.proxies.len() == 1
            &&& p.proxies[0].peers.len() == 1
            &&& p.rules.last() == "MATCH,"@ + p.proxies[0].name
            &&& p.proxies[0].peers[0].server == c.server
            &&& p.proxies[0].peers[0].port == c.port
            &&& p.proxies[0].peers[0].public_key == c.public_key
            &&& p.proxies[0].private_key == c.private_key
            &&& c.allowed_ips is None ==> p.proxies[0].peers[0].allowed_ips == seq!["0.0.0.0/0"@]
            &&& c.allowed_ips matches Some(l) ==> p.proxies[0].peers[0].allowed_ips == l
            &&& p.proxies[0].peers[0].pre_shared_key == c.pre_shared_key
            &&& p.proxies[0].persistent_keepalive == c.persistent_keepalive
            &&& p.proxies[0].mtu == c.mtu
            &&& p.proxies[0].dns == c.dns
            &&& p.proxies[0].ip == c.ip
        }),
{
    reveal_strlit("MATCH,");
    reveal_strlit("WireGuard_Node");
    reveal_strlit("MATCH,WireGuard_Node");
    let p = clash_config_of(c);
    assert(p.rules.last() == "MATCH,WireGuard_Node"@);
    assert("MATCH,"@ + "WireGuard_Node"@ =~= "MATCH,WireGuard_Node"@);
}

// ---------------------------------------------------------------------------
// The managed profile in the profile list
// ---------------------------------------------------------------------------

/// How many entries of `items` belong to the managed profile.
pub open spec fn managed_count(items: Seq<ProfileItemView>) -> nat
    decreases items.len(),
{
    if items.len() == 0 {
        0
    } else {
        managed_count(items.drop_last()) + if is_managed(items.last()) {
            1nat
        } else {
            0nat
        }
    }
}

proof fn lemma_unmanaged(items: Seq<ProfileItemView>)
    ensures
        managed_count(unmanaged(items)) == 0,
        unmanaged(unmanaged(items)) == unmanaged(items),
        unmanaged(items).len() <= items.len(),
        unmanaged(items).len() == items.len() <==> managed_count(items) == 0,
    decreases items.len(),
{
    if items.len() > 0 {
        let t = items.drop_last();
        lemma_unmanaged(t);
        let r = unmanaged(t);
        if !is_managed(items.last()) {
            let rp = r.push(items.last());
            assert(rp.drop_last() =~= r);
        }
    }
}

/// Installing the managed profile leaves exactly one managed entry, the new
/// one, last in the list; every other entry stays, in order; installing it
/// again changes nothing and reports that an entry was replaced.
pub proof fn law_install_keeps_one_managed_entry(
    items: Seq<ProfileItemView>,
    item: ProfileItemView,
)
    requires
        is_managed(item),
    ensures
        ({
            let once = unmanaged(items).push(item);
            &&& managed_count(once) == 1
            &&& once.last() == item
            &&& unmanaged(once) == unmanaged(items)
            &&& unmanaged(once).push(item) == once
            &&& unmanaged(once).len() != once.len()
        }),
{
    lemma_unmanaged(items);
    let once = unmanaged(items).push(item);
    assert(once.drop_last() =~= unmanaged(items));
    lemma_unmanaged(once);
}

/// The entry that an import installs belongs to the managed profile.
pub proof fn law_installed_entry_is_managed(item: ProfileItemView, file_name: Option<Seq<char>>, updated: usize)
    requires
        item == (ProfileItemView {
            uid: Some(MANAGED_PROFILE_UID@),
            itype: Some("local"@),
            name: Some(MANAGED_PROFILE_NAME@),
            file: Some(MANAGED_PROFILE_FILE@),
            desc: Some(description_of(file_name)),
            updated: Some(updated),
        }),
    ensures
        is_managed(item),
{
}

// ---------------------------------------------------------------------------
// Counting peer headers
// ---------------------------------------------------------------------------

proof fn lemma_step_keeps_sections(st: SectionsModel, l: Seq<char>, n: Seq<char>)
    requires
        st.sections.contains_key(n),
    ensures
        section_step(st, l).sections.contains_key(n),
{
}

proof fn lemma_lower_is_char(c: char, d: char)
    requires
        ascii_lower(c) == d,
        !('A' <= d && d <= 'Z'),
        !('a' <= d && d <= 'z'),
    ensures
        c == d,
{
}

proof fn lemma_lower_keeps_alpha(c: char, d: char)
    requires
        ascii_lower(c) == ascii_lower(d),
        is_ascii_alpha(d),
    ensures
        is_ascii_alpha(c),
{
}

proof fn lemma_header_opens_section(st: SectionsModel, l: Seq<char>, name: Seq<char>)
    requires
        all_ascii_alpha(name),
        eq_ignore_ascii_case(trim(l), header_text(name)),
    ensures
        section_step(st, l).sections.contains_key(ascii_lower_text(name)),
{
    let t = trim(l);
    let target = header_text(name);
    let n = name.len() as int;
    assert(ascii_lower_text(t).len() == ascii_lower_text(target).len());
    assert(t.len() == n + 2);
    assert(ascii_lower_text(t)[0] == ascii_lower_text(target)[0]);
    assert(target[0] == '[');
    lemma_lower_is_char(t[0], '[');
    assert(ascii_lower_text(t)[n + 1] == ascii_lower_text(target)[n + 1]);
    assert(target[n + 1] == ']');
    lemma_lower_is_char(t[n + 1], ']');
    let inner = t.subrange(1, n + 1);
    assert forall|i: int| 0 <= i < n implies #[trigger] is_ascii_alpha(inner[i]) && ascii_lower(
        inner[i],
    ) == ascii_lower(name[i]) by {
        assert(ascii_lower_text(t)[i + 1] == ascii_lower_text(target)[i + 1]);
        assert(inner[i] == t[i + 1]);
        assert(target[i + 1] == name[i]);
        assert(is_ascii_alpha(name[i]));
        lemma_lower_keeps_alpha(inner[i], name[i]);
    }
    if n > 0 {
        assert(is_ascii_alpha(inner[0]) && is_ascii_alpha(inner[n - 1]));
        assert(inner.last() == inner[n - 1]);
        lemma_trim_noop(inner);
    } else {
        assert(inner =~= Seq::<char>::empty());
        assert(trim_start(inner) == inner);
        assert(trim_end(inner) == inner);
    }
    assert(all_ascii_alpha(inner));
    assert forall|i: int| 0 <= i < n implies ascii_lower_text(inner)[i] == ascii_lower_text(
        name,
    )[i] by {
        assert(is_ascii_alpha(inner[i]));
    }
    assert(ascii_lower_text(inner) =~= ascii_lower_text(name));
    assert(t.last() == t[n + 1]);
    assert(section_header(t) == Some(ascii_lower_text(name)));
}

proof fn lemma_counted_header(ls: Seq<Seq<char>>, name: Seq<char>)
    requires
        all_ascii_alpha(name),
        count_matching(ls, header_text(name)) > 0,
    ensures
        read_lines(ls).sections.contains_key(ascii_lower_text(name)),
    decreases ls.len(),
{
    let t = ls.drop_last();
    let prev = read_lines(t);
    assert(read_lines(ls) == section_step(prev, ls.last()));
    if eq_ignore_ascii_case(trim(ls.last()), header_text(name)) {
        lemma_header_opens_section(prev, ls.last(), name);
    } else {
        lemma_counted_header(t, name);
        lemma_step_keeps_sections(prev, ls.last(), ascii_lower_text(name));
    }
}

/// A text with a header line `[Name]` (any ASCII case, white space around
/// it) for a name of ASCII letters has a section of that name in lower
/// case. So a configuration is never refused for a missing peer section
/// once its number of peer headers was found to be one.
pub proof fn law_counted_header_gives_section(content: Seq<char>, name: Seq<char>)
    requires
        all_ascii_alpha(name),
    ensures
        section_count(content, name) > 0 ==> sections_of(content).contains_key(
            ascii_lower_text(name),
        ),
        config_of(content) != Err::<ConfigView, ErrorView>(ErrorView::MissingPeer),
{
    if section_count(content, name) > 0 {
        lemma_counted_header(lines(content), name);
    }
    reveal_strlit("peer");
    assert(all_ascii_alpha("peer"@));
    assert(ascii_lower_text("peer"@) =~= "peer"@);
    if section_count(content, "peer"@) > 0 {
        lemma_counted_header(lines(content), "peer"@);
    }
}

// ---------------------------------------------------------------------------
// Key text decides nothing but the keys
// ---------------------------------------------------------------------------

/// The keys that hold key material.
pub open spec fn is_key_material(k: Seq<char>) -> bool {
    k == "privatekey"@ || k == "publickey"@ || k == "presharedkey"@
}

/// Two values of key `k` that may stand for each other: equal, or both
/// non-blank values of a key-material key.
pub open spec fn values_agree(k: Seq<char>, a: Seq<char>, b: Seq<char>) -> bool {
    a == b || (is_key_material(k) && trim(a).len() > 0 && trim(b).len() > 0)
}

/// Two tables with the same keys whose values agree.
pub open spec fn tables_agree(t1: Map<Seq<char>, Seq<char>>, t2: Map<Seq<char>, Seq<char>>) -> bool {
    &&& t1.dom() == t2.dom()
    &&& forall|k: Seq<char>| #[trigger] t1.contains_key(k) ==> values_agree(k, t1[k], t2[k])
}

/// Two section maps with the same sections whose tables agree.
pub open spec fn sections_agree(
    m1: Map<Seq<char>, Map<Seq<char>, Seq<char>>>,
    m2: Map<Seq<char>, Map<Seq<char>, Seq<char>>>,
) -> bool {
    &&& m1.dom() == m2.dom()
    &&& forall|s: Seq<char>| #[trigger] m1.contains_key(s) ==> tables_agree(m1[s], m2[s])
}

/// Two reading states that differ at most in key material.
pub open spec fn models_agree(a: SectionsModel, b: SectionsModel) -> bool {
    a.current == b.current && sections_agree(a.sections, b.sections)
}

/// Two lines that set the same key-material key, each to a non-blank value.
pub open spec fn key_text_edit(l1: Seq<char>, l2: Seq<char>) -> bool {
    match (key_value(trim(l1)), key_value(trim(l2))) {
        (Some(a), Some(b)) => a.0 == b.0 && is_key_material(a.0) && a.1.len() > 0 && b.1.len()
            > 0,
        _ => false,
    }
}

/// Two lists of lines that differ only in the values of key-material keys.
pub open spec fn differ_in_key_text(a: Seq<Seq<char>>, b: Seq<Seq<char>>) -> bool {
    &&& a.len() == b.len()
    &&& forall|i: int| 0 <= i < a.len() ==> #[trigger] a[i] == b[i] || key_text_edit(a[i], b[i])
}

proof fn lemma_key_line_starts_alnum(t: Seq<char>)
    requires
        t.len() > 0 ==> !is_white_space(t[0]),
        key_value(t) is Some,
    ensures
        t.len() > 0,
        is_ascii_alnum(t[0]),
{
    lemma_find_from(t, '=', 0);
    let p = find_from(t, '=', 0).unwrap();
    let key = trim(t.take(p));
    if p == 0 {
        assert(t.take(0) =~= Seq::<char>::empty());
        assert(trim_start(t.take(0)) == t.take(0));
        assert(trim_end(t.take(0)) == t.take(0));
    } else {
        assert(t.take(p)[0] == t[0]);
        lemma_trim_first(t.take(p));
        assert(is_ascii_alnum(key[0]));
    }
}

proof fn lemma_key_line_kind(l: Seq<char>, name: Seq<char>)
    requires
        key_value(trim(l)) is Some,
    ensures
        trim(l).len() > 0,
        trim(l)[0] != '#' && trim(l)[0] != ';',
        section_header(trim(l)) is None,
        !eq_ignore_ascii_case(trim(l), header_text(name)),
{
    let t = trim(l);
    lemma_trim_idempotent(l);
    lemma_key_line_starts_alnum(t);
    let h = header_text(name);
    assert(h[0] == '[');
    if eq_ignore_ascii_case(t, h) {
        assert(ascii_lower_text(t)[0] == ascii_lower_text(h)[0]);
        lemma_lower_is_char(t[0], '[');
    }
}

proof fn lemma_table_insert(
    t1: Map<Seq<char>, Seq<char>>,
    t2: Map<Seq<char>, Seq<char>>,
    k: Seq<char>,
    v1: Seq<char>,
    v2: Seq<char>,
)
    requires
        tables_agree(t1, t2),
        values_agree(k, v1, v2),
    ensures
        tables_agree(t1.insert(k, v1), t2.insert(k, v2)),
{
    assert(t1.insert(k, v1).dom() =~= t2.insert(k, v2).dom());
}

proof fn lemma_section_or_empty_agree(
    m1: Map<Seq<char>, Map<Seq<char>, Seq<char>>>,
    m2: Map<Seq<char>, Map<Seq<char>, Seq<char>>>,
    s: Seq<char>,
)
    requires
        sections_agree(m1, m2),
    ensures
        tables_agree(section_or_empty(m1, s), section_or_empty(m2, s)),
{
    if !m1.contains_key(s) {
        assert(!m2.contains_key(s));
        assert(Map::<Seq<char>, Seq<char>>::empty().dom() =~= Map::<Seq<char>, Seq<char>>::empty().dom());
    }
}

proof fn lemma_sections_insert(
    m1: Map<Seq<char>, Map<Seq<char>, Seq<char>>>,
    m2: Map<Seq<char>, Map<Seq<char>, Seq<char>>>,
    s: Seq<char>,
    t1: Map<Seq<char>, Seq<char>>,
    t2: Map<Seq<char>, Seq<char>>,
)
    requires
        sections_agree(m1, m2),
        tables_agree(t1, t2),
    ensures
        sections_agree(m1.insert(s, t1), m2.insert(s, t2)),
{
    assert(m1.insert(s, t1).dom() =~= m2.insert(s, t2).dom());
}

proof fn lemma_step_agree(st1: SectionsModel, st2: SectionsModel, l1: Seq<char>, l2: Seq<char>)
    requires
        models_agree(st1, st2),
        l1 == l2 || key_text_edit(l1, l2),
    ensures
        models_agree(section_step(st1, l1), section_step(st2, l2)),
{
    let m1 = st1.sections;
    let m2 = st2.sections;
    if l1 == l2 {
        let t = trim(l1);
        if t.len() == 0 || t[0] == '#' || t[0] == ';' {
        } else {
            match section_header(t) {
                Some(name) => {
                    lemma_section_or_empty_agree(m1, m2, name);
                    lemma_sections_insert(
                        m1,
                        m2,
                        name,
                        section_or_empty(m1, name),
                        section_or_empty(m2, name),
                    );
                },
                None => {
                    match (st1.current, key_value(t)) {
                        (Some(sec), Some(kv)) => {
                            lemma_section_or_empty_agree(m1, m2, sec);
                            lemma_table_insert(
                                section_or_empty(m1, sec),
                                section_or_empty(m2, sec),
                                kv.0,
                                kv.1,
                                kv.1,
                            );
                            lemma_sections_insert(
                                m1,
                                m2,
                                sec,
                                section_or_empty(m1, sec).insert(kv.0, kv.1),
                                section_or_empty(m2, sec).insert(kv.0, kv.1),
                            );
                        },
                        _ => {},
                    }
                },
            }
        }
    } else {
        let t1 = trim(l1);
        let t2 = trim(l2);
        lemma_key_line_kind(l1, seq![]);
        lemma_key_line_kind(l2, seq![]);
        let a = key_value(t1).unwrap();
        let b = key_value(t2).unwrap();
        law_names_are_case_folded(t1);
        law_names_are_case_folded(t2);
        match st1.current {
            Some(sec) => {
                lemma_section_or_empty_agree(m1, m2, sec);
                lemma_table_insert(section_or_empty(m1, sec), section_or_empty(m2, sec), a.0, a.1, b.1);
                lemma_sections_insert(
                    m1,
                    m2,
                    sec,
                    section_or_empty(m1, sec).insert(a.0, a.1),
                    section_or_empty(m2, sec).insert(b.0, b.1),
                );
            },
            None => {},
        }
    }
}

proof fn lemma_read_agree(a: Seq<Seq<char>>, b: Seq<Seq<char>>, name: Seq<char>)
    requires
        differ_in_key_text(a, b),
    ensures
        models_agree(read_lines(a), read_lines(b)),
        count_matching(a, header_text(name)) == count_matching(b, header_text(name)),
    decreases a.len(),
{
    if a.len() == 0 {
        let st = sections_start();
        assert(st.sections.dom() =~= st.sections.dom());
    } else {
        let a0 = a.drop_last();
        let b0 = b.drop_last();
        assert(differ_in_key_text(a0, b0)) by {
            assert forall|i: int| 0 <= i < a0.len() implies #[trigger] a0[i] == b0[i]
                || key_text_edit(a0[i], b0[i]) by {
                assert(a0[i] == a[i] && b0[i] == b[i]);
            }
        }
        lemma_read_agree(a0, b0, name);
        assert(a[a.len() - 1] == b[b.len() - 1] || key_text_edit(a.last(), b.last()));
        assert(read_lines(a) == section_step(read_lines(a0), a.last()));
        assert(read_lines(b) == section_step(read_lines(b0), b.last()));
        lemma_step_agree(read_lines(a0), read_lines(b0), a.last(), b.last());
        if a.last() != b.last() {
            lemma_key_line_kind(a.last(), name);
            lemma_key_line_kind(b.last(), name);
        }
    }
}

proof fn lemma_optional_agree(t1: Map<Seq<char>, Seq<char>>, t2: Map<Seq<char>, Seq<char>>, k: Seq<char>)
    requires
        tables_agree(t1, t2),
    ensures
        optional_value(t1, k) is Some <==> optional_value(t2, k) is Some,
        !is_key_material(k) ==> optional_value(t1, k) == optional_value(t2, k),
{
    assert(t1.contains_key(k) == t2.contains_key(k));
}

/// Key text decides nothing but the keys: two configuration texts whose
/// lines differ only in the non-blank values of `PrivateKey`,
/// `PublicKey` or `PresharedKey` lines are accepted or refused alike; when
/// refused, with the same error and so the same message; when accepted,
/// with the same address, DNS servers, allowed IPs, endpoint, MTU and
/// keepalive, and a preshared key in both or in neither.
pub proof fn law_key_text_decides_nothing(c1: Seq<char>, c2: Seq<char>)
    requires
        differ_in_key_text(lines(c1), lines(c2)),
    ensures
        config_of(c1) is Ok <==> config_of(c2) is Ok,
        config_of(c1) is Err ==> config_of(c1) == config_of(c2),
        config_of(c1) matches Err(e1) ==> config_of(c2) matches Err(e2) && error_message(e1)
            == error_message(e2),
        config_of(c1) matches Ok(a) ==> config_of(c2) matches Ok(b) && a.ip == b.ip && a.dns
            == b.dns && a.allowed_ips == b.allowed_ips && a.server == b.server && a.port == b.port
            && a.mtu == b.mtu && a.persistent_keepalive == b.persistent_keepalive && (
        a.pre_shared_key is Some <==> b.pre_shared_key is Some),
{
    lemma_read_agree(lines(c1), lines(c2), "peer"@);
    let s1 = sections_of(c1);
    let s2 = sections_of(c2);
    assert(section_count(c1, "peer"@) == section_count(c2, "peer"@));
    reveal_strlit("privatekey");
    reveal_strlit("publickey");
    reveal_strlit("presharedkey");
    reveal_strlit("address");
    reveal_strlit("endpoint");
    reveal_strlit("mtu");
    reveal_strlit("dns");
    reveal_strlit("persistentkeepalive");
    reveal_strlit("allowedips");
    assert(s1.contains_key("interface"@) == s2.contains_key("interface"@));
    assert(s1.contains_key("peer"@) == s2.contains_key("peer"@));
    if s1.contains_key("interface"@) && s1.contains_key("peer"@) {
        let i1 = s1["interface"@];
        let i2 = s2["interface"@];
        let p1 = s1["peer"@];
        let p2 = s2["peer"@];
        assert(tables_agree(i1, i2));
        assert(tables_agree(p1, p2));
        assert("privatekey"@.len() == 10 && "publickey"@.len() == 9 && "presharedkey"@.len() == 12);
        assert("address"@.len() == 7 && "endpoint"@.len() == 8);
        assert(!is_key_material("address"@));
        assert(!is_key_material("endpoint"@));
        assert(!is_key_material("mtu"@));
        assert(!is_key_material("dns"@));
        assert(!is_key_material("persistentkeepalive"@));
        assert("allowedips"@[0] != "privatekey"@[0]);
        assert(!is_key_material("allowedips"@));
        lemma_optional_agree(i1, i2, "privatekey"@);
        lemma_optional_agree(p1, p2, "publickey"@);
        lemma_optional_agree(p1, p2, "presharedkey"@);
        lemma_optional_agree(i1, i2, "address"@);
        lemma_optional_agree(p1, p2, "endpoint"@);
        lemma_optional_agree(i1, i2, "mtu"@);
        lemma_optional_agree(i1, i2, "dns"@);
        lemma_optional_agree(p1, p2, "persistentkeepalive"@);
        lemma_optional_agree(p1, p2, "allowedips"@);
        assert(required_value(i1, "privatekey"@) is Ok <==> required_value(i2, "privatekey"@) is Ok);
        assert(required_value(p1, "publickey"@) is Ok <==> required_value(p2, "publickey"@) is Ok);
    }
}

// ---------------------------------------------------------------------------
// What the readers keep
// ---------------------------------------------------------------------------

proof fn lemma_find_at(s: Seq<char>, c: char, p: int, i: int)
    requires
        0 <= i <= p < s.len(),
        s[p] == c,
        forall|j: int| i <= j < p ==> #[trigger] s[j] != c,
    ensures
        find_from(s, c, i) == Some(p),
    decreases p - i,
{
    if i < p {
        lemma_find_at(s, c, p, i + 1);
    }
}

/// A `Key = Value` line keeps its value as written, case included: for a
/// non-empty key of ASCII letters and digits and a value without white
/// space at its ends (possibly empty, possibly holding `=`), the line
/// `key = value` reads as the lower-case key and exactly that value.
pub proof fn law_key_value_keeps_value(key: Seq<char>, value: Seq<char>)
    requires
        key.len() > 0,
        all_ascii_alnum(key),
        value.len() > 0 ==> !is_white_space(value[0]) && !is_white_space(value.last()),
    ensures
        key_value(key + seq![' ', '=', ' '] + value) == Some((ascii_lower_text(key), value)),
{
    let line = key + seq![' ', '=', ' '] + value;
    let k = key.len() as int;
    assert forall|j: int| 0 <= j < k implies #[trigger] line[j] != '=' by {
        assert(line[j] == key[j]);
        assert(is_ascii_alnum(key[j]));
    }
    assert(line[k + 1] == '=');
    lemma_find_at(line, '=', k + 1, 0);
    assert(line.take(k + 1) =~= key + seq![' '] + Seq::<char>::empty()) by {
        assert(line.take(k + 1) =~= key + seq![' ']);
    }
    assert(is_ascii_alnum(key[0]) && is_ascii_alnum(key[k - 1]));
    assert(key.last() == key[k - 1]);
    lemma_trim_padded(Seq::empty(), key, seq![' ']);
    assert(Seq::<char>::empty() + key + seq![' '] =~= line.take(k + 1));
    let rest = line.skip(k + 2);
    if value.len() > 0 {
        lemma_trim_padded(seq![' '], value, Seq::empty());
        assert(seq![' '] + value + Seq::<char>::empty() =~= rest);
    } else {
        assert(rest =~= seq![' ']);
        assert(trim_start(rest) == trim_start(rest.drop_first()));
        assert(rest.drop_first() =~= Seq::<char>::empty());
        assert(trim_start(Seq::<char>::empty()) == Seq::<char>::empty());
        assert(trim_end(Seq::<char>::empty()) == Seq::<char>::empty());
        assert(value =~= Seq::<char>::empty());
    }
}

/// The non-blank entries of a comma-separated list, trimmed, in order.
pub open spec fn comma_entries(raw: Seq<char>) -> Seq<Seq<char>> {
    split_on(raw, ',').map_values(|e: Seq<char>| trim(e)).filter(|e: Seq<char>| e.len() > 0)
}

proof fn lemma_keep_nonempty_is_filter(s: Seq<Seq<char>>)
    ensures
        keep_nonempty(s) == s.filter(|e: Seq<char>| e.len() > 0),
    decreases s.len(),
{
    reveal(Seq::filter);
    if s.len() > 0 {
        lemma_keep_nonempty_is_filter(s.drop_last());
    }
}

/// The DNS servers of an accepted configuration are the entries of the
/// interface's `DNS` value, split at commas, trimmed, blank ones left out,
/// in order; only when there is no such entry (no `DNS` key, or only blank
/// entries) is the server `1.1.1.1` used.
pub proof fn law_dns_servers(content: Seq<char>)
    ensures
        config_of(content) matches Ok(c) ==> {
            let iface = sections_of(content)["interface"@];
            let entries = if iface.contains_key("dns"@) {
                comma_entries(trim(iface["dns"@]))
            } else {
                Seq::empty()
            };
            c.dns == if entries.len() > 0 {
                entries
            } else {
                seq!["1.1.1.1"@]
            }
        },
{
    if let Ok(c) = config_of(content) {
        let iface = sections_of(content)["interface"@];
        if iface.contains_key("dns"@) {
            let raw = trim(iface["dns"@]);
            let t = split_on(raw, ',').map_values(|e: Seq<char>| trim(e));
            lemma_keep_nonempty_is_filter(t);
            if raw.len() == 0 {
                let e = Seq::<char>::empty();
                assert(split_on(raw, ',') == seq![e]);
                assert(trim_start(e) == e);
                assert(trim_end(e) == e);
                assert(t =~= seq![e]);
                assert(t.drop_last() =~= Seq::<Seq<char>>::empty());
                assert(keep_nonempty(t.drop_last()).len() == 0);
                assert(keep_nonempty(t).len() == 0);
            }
        }
    }
}

// ---------------------------------------------------------------------------
// The managed entries that an install drops
// ---------------------------------------------------------------------------

/// An install drops exactly the entries with the managed uid or the managed
/// file: what stays is every entry whose uid and file are both other than
/// those, in order; and it reports a replacement exactly when some entry
/// had the managed uid or file.
pub proof fn law_install_drops_exactly_managed_entries(items: Seq<ProfileItemView>)
    ensures
        unmanaged(items) == items.filter(
            |it: ProfileItemView|
                it.uid != Some(MANAGED_PROFILE_UID@) && it.file != Some(MANAGED_PROFILE_FILE@),
        ),
        unmanaged(items).len() != items.len() <==> exists|i: int|
            0 <= i < items.len() && ((#[trigger] items[i]).uid == Some(MANAGED_PROFILE_UID@)
                || items[i].file == Some(MANAGED_PROFILE_FILE@)),
    decreases items.len(),
{
    reveal(Seq::filter);
    lemma_unmanaged(items);
    if items.len() > 0 {
        let t = items.drop_last();
        law_install_drops_exactly_managed_entries(t);
        lemma_unmanaged(t);
        if exists|i: int|
            0 <= i < t.len() && ((#[trigger] t[i]).uid == Some(MANAGED_PROFILE_UID@) || t[i].file
                == Some(MANAGED_PROFILE_FILE@)) {
            let i = choose|i: int|
                0 <= i < t.len() && ((#[trigger] t[i]).uid == Some(MANAGED_PROFILE_UID@) || t[i].file
                    == Some(MANAGED_PROFILE_FILE@));
            assert(items[i] == t[i]);
        }
        if exists|i: int|
            0 <= i < items.len() && ((#[trigger] items[i]).uid == Some(MANAGED_PROFILE_UID@)
                || items[i].file == Some(MANAGED_PROFILE_FILE@)) {
            let i = choose|i: int|
                0 <= i < items.len() && ((#[trigger] items[i]).uid == Some(MANAGED_PROFILE_UID@)
                    || items[i].file == Some(MANAGED_PROFILE_FILE@));
            if i < t.len() {
                assert(t[i] == items[i]);
            }
        }
    }
}

// ---------------------------------------------------------------------------
// IPv4 addresses
// ---------------------------------------------------------------------------

proof fn lemma_split_no_sep(x: Seq<char>, sep: char)
    requires
        !x.contains(sep),
    ensures
        split_on(x, sep) == seq![x],
    decreases x.len(),
{
    if x.len() > 0 {
        let t = x.drop_last();
        assert(!t.contains(sep)) by {
            if t.contains(sep) {
                let k = choose|k: int| 0 <= k < t.len() && t[k] == sep;
                assert(x[k] == sep);
            }
        }
        lemma_split_no_sep(t, sep);
        assert(x.last() != sep);
        assert(t.push(x.last()) =~= x);
        assert(split_on(x, sep) =~= seq![x]);
    } else {
        assert(x =~= Seq::<char>::empty());
    }
}

proof fn lemma_split_append(x: Seq<char>, y: Seq<char>, sep: char)
    ensures
        split_on(x + seq![sep] + y, sep) == split_on(x, sep) + split_on(y, sep),
    decreases y.len(),
{
    lemma_split_on_nonempty(x, sep);
    let xs = x + seq![sep];
    assert(xs.drop_last() =~= x);
    if y.len() == 0 {
        assert(xs + y =~= xs);
        assert(split_on(xs, sep) =~= split_on(x, sep) + split_on(y, sep));
    } else {
        let y0 = y.drop_last();
        lemma_split_append(x, y0, sep);
        lemma_split_on_nonempty(y0, sep);
        let z = xs + y;
        assert(z.drop_last() =~= xs + y0);
        assert(z.last() == y.last());
        let a = split_on(x, sep);
        let b0 = split_on(y0, sep);
        if y.last() == sep {
            assert(split_on(z, sep) =~= a + b0.push(Seq::empty()));
        } else {
            assert((a + b0).update((a + b0).len() - 1, (a + b0).last().push(y.last())) =~= a
                + b0.update(b0.len() - 1, b0.last().push(y.last())));
        }
    }
}

proof fn lemma_no_char_concat(x: Seq<char>, y: Seq<char>, c: char)
    requires
        !x.contains(c),
        !y.contains(c),
    ensures
        !(x + y).contains(c),
{
    if (x + y).contains(c) {
        let k = choose|k: int| 0 <= k < (x + y).len() && (x + y)[k] == c;
        if k < x.len() {
            assert(x[k] == c);
        } else {
            assert(y[k - x.len()] == c);
        }
    }
}

proof fn lemma_digits_avoid(s: Seq<char>, c: char)
    requires
        all_digits(s),
        !is_ascii_digit(c),
    ensures
        !s.contains(c),
{
    if s.contains(c) {
        let k = choose|k: int| 0 <= k < s.len() && s[k] == c;
        assert(is_ascii_digit(s[k]));
    }
}

proof fn lemma_decimal_text_octet(n: nat)
    requires
        n <= 255,
    ensures
        octet_ok(decimal_text(n)),
    decreases n,
{
    lemma_decimal_text(n);
    let t = decimal_text(n);
    if n >= 10 {
        lemma_decimal_text(n / 10);
        lemma_decimal_text_first(n);
        if n / 10 >= 10 {
            lemma_decimal_text(n / 100);
            assert(n / 10 / 10 < 10);
            assert(decimal_text(n / 10 / 10).len() == 1);
            assert(decimal_text(n / 10).len() == 2);
        } else {
            assert(decimal_text(n / 10).len() == 1);
        }
    }
}

proof fn lemma_decimal_text_first(n: nat)
    requires
        n > 0,
    ensures
        decimal_text(n)[0] != '0',
    decreases n,
{
    lemma_decimal_text(n);
    if n >= 10 {
        lemma_decimal_text(n / 10);
        lemma_decimal_text_first(n / 10);
        assert(decimal_text(n)[0] == decimal_text(n / 10)[0]);
    } else {
        assert(digit_char(n) as u32 == n + 48);
    }
}

/// The dotted-decimal writing of four bytes, without leading zeros.
pub open spec fn dotted_quad(a: u8, b: u8, c: u8, d: u8) -> Seq<char> {
    decimal_text(a as nat) + seq!['.'] + decimal_text(b as nat) + seq!['.'] + decimal_text(
        c as nat,
    ) + seq!['.'] + decimal_text(d as nat)
}

/// Every IPv4 address `a.b.c.d`, each part from 0 to 255 written without
/// leading zeros, is accepted as an IPv4 address, and an `Address` value
/// holding it, bare or with a `/prefix`, yields exactly it.
pub proof fn law_ipv4_addresses_accepted(a: u8, b: u8, c: u8, d: u8, prefix: nat)
    ensures
        is_ipv4_text(dotted_quad(a, b, c, d)),
        address_ipv4(dotted_quad(a, b, c, d)) == Some(dotted_quad(a, b, c, d)),
        address_candidate(dotted_quad(a, b, c, d)) == dotted_quad(a, b, c, d),
        ipv4_candidate_ok(dotted_quad(a, b, c, d)),
        !dotted_quad(a, b, c, d).contains(','),
        address_ipv4(dotted_quad(a, b, c, d) + seq!['/'] + decimal_text(prefix)) == Some(
            dotted_quad(a, b, c, d),
        ),
{
    let ta = decimal_text(a as nat);
    let tb = decimal_text(b as nat);
    let tc = decimal_text(c as nat);
    let td = decimal_text(d as nat);
    let tp = decimal_text(prefix);
    lemma_decimal_text(a as nat);
    lemma_decimal_text(b as nat);
    lemma_decimal_text(c as nat);
    lemma_decimal_text(d as nat);
    lemma_decimal_text(prefix);
    lemma_decimal_text_octet(a as nat);
    lemma_decimal_text_octet(b as nat);
    lemma_decimal_text_octet(c as nat);
    lemma_decimal_text_octet(d as nat);
    // No part holds a separator.
    lemma_digits_avoid(ta, '.');
    lemma_digits_avoid(tb, '.');
    lemma_digits_avoid(tc, '.');
    lemma_digits_avoid(td, '.');
    let x1 = ta + seq!['.'] + tb;
    let x2 = x1 + seq!['.'] + tc;
    let q = x2 + seq!['.'] + td;
    assert(q == dotted_quad(a, b, c, d));
    lemma_split_no_sep(ta, '.');
    lemma_split_no_sep(tb, '.');
    lemma_split_no_sep(tc, '.');
    lemma_split_no_sep(td, '.');
    lemma_split_append(ta, tb, '.');
    lemma_split_append(x1, tc, '.');
    lemma_split_append(x2, td, '.');
    let parts = split_on(q, '.');
    assert(parts =~= seq![ta, tb, tc, td]);
    assert forall|i: int| 0 <= i < 4 implies #[trigger] octet_ok(parts[i]) by {
        assert(parts[i] == seq![ta, tb, tc, td][i]);
    }
    assert(is_ipv4_text(q));
    // The address has neither commas nor slashes, and no white space at its ends.
    assert(!seq!['.'].contains(',') && !seq!['.'].contains('/'));
    assert(!seq!['/'].contains(','));
    lemma_digits_avoid(ta, ',');
    lemma_digits_avoid(tb, ',');
    lemma_digits_avoid(tc, ',');
    lemma_digits_avoid(td, ',');
    lemma_digits_avoid(tp, ',');
    lemma_digits_avoid(ta, '/');
    lemma_digits_avoid(tb, '/');
    lemma_digits_avoid(tc, '/');
    lemma_digits_avoid(td, '/');
    lemma_no_char_concat(ta, seq!['.'], ',');
    lemma_no_char_concat(ta + seq!['.'], tb, ',');
    lemma_no_char_concat(x1, seq!['.'], ',');
    lemma_no_char_concat(x1 + seq!['.'], tc, ',');
    lemma_no_char_concat(x2, seq!['.'], ',');
    lemma_no_char_concat(x2 + seq!['.'], td, ',');
    lemma_no_char_concat(ta, seq!['.'], '/');
    lemma_no_char_concat(ta + seq!['.'], tb, '/');
    lemma_no_char_concat(x1, seq!['.'], '/');
    lemma_no_char_concat(x1 + seq!['.'], tc, '/');
    lemma_no_char_concat(x2, seq!['.'], '/');
    lemma_no_char_concat(x2 + seq!['.'], td, '/');
    assert(q[ta.len() as int] == '.');
    assert(q.contains('.'));
    assert(q[0] == ta[0]);
    assert(q.last() == td.last());
    lemma_trim_noop(q);
    lemma_split_no_sep(q, ',');
    lemma_split_no_sep(q, '/');
    assert(split_on(q, ',').map_values(|e: Seq<char>| address_candidate(e)) =~= seq![q]);
    assert(address_candidate(q) == split_on(q, '/')[0]);
    // With a prefix length.
    let e = q + seq!['/'] + tp;
    lemma_no_char_concat(q, seq!['/'], ',');
    lemma_no_char_concat(q + seq!['/'], tp, ',');
    assert(e[0] == q[0]);
    assert(e.last() == tp.last());
    lemma_trim_noop(e);
    lemma_split_no_sep(e, ',');
    lemma_digits_avoid(tp, '/');
    lemma_split_no_sep(tp, '/');
    lemma_split_append(q, tp, '/');
    assert(split_on(e, '/')[0] == q);
    assert(split_on(e, ',').map_values(|x: Seq<char>| address_candidate(x)) =~= seq![q]);
}

// ---------------------------------------------------------------------------
// Signs, ranges and headers
// ---------------------------------------------------------------------------

/// A number may carry a `+` sign; a `-` sign, or a value above 65535, is
/// refused.
pub proof fn law_u16_sign_and_range(n: nat)
    ensures
        n <= 0xffff ==> parse_u16_text(seq!['+'] + decimal_text(n)) == Some(n as u16),
        n <= 0xffff ==> parse_u16_text(decimal_text(n)) == Some(n as u16),
        n > 0xffff ==> parse_u16_text(decimal_text(n)) is None,
        parse_u16_text(seq!['-'] + decimal_text(n)) is None,
{
    lemma_decimal_text(n);
    let d = decimal_text(n);
    assert(is_ascii_digit(d[0]));
    assert((seq!['+'] + d).drop_first() =~= d);
    assert((seq!['-'] + d)[0] == '-');
    assert(!is_ascii_digit((seq!['-'] + d)[0]));
}

/// A header `[Name]` for a name of ASCII letters, with or without white
/// space inside the brackets, names the section `name` in lower case; and a
/// line read as a header starts with `[` and ends with `]`.
pub proof fn law_section_header_names_section(name: Seq<char>, line: Seq<char>)
    requires
        all_ascii_alpha(name),
    ensures
        section_header(header_text(name)) == Some(ascii_lower_text(name)),
        section_header(seq!['[', ' '] + name + seq![' ', ']']) == Some(ascii_lower_text(name)),
        section_header(line) is Some ==> line.len() >= 2 && line[0] == '[' && line.last() == ']',
{
    let h = header_text(name);
    let n = name.len() as int;
    assert(h.subrange(1, h.len() - 1) =~= name);
    let sp = seq!['[', ' '] + name + seq![' ', ']'];
    assert(sp.subrange(1, sp.len() - 1) =~= seq![' '] + name + seq![' ']);
    if n > 0 {
        assert(is_ascii_alpha(name[0]) && is_ascii_alpha(name[n - 1]));
        assert(name.last() == name[n - 1]);
        lemma_trim_noop(name);
        lemma_trim_padded(seq![' '], name, seq![' ']);
    } else {
        let e = Seq::<char>::empty();
        assert(name =~= e);
        assert(trim_start(e) == e && trim_end(e) == e);
        let w = seq![' '] + name + seq![' '];
        assert(w =~= seq![' ', ' ']);
        assert(w.drop_first() =~= seq![' ']);
        assert(seq![' '].drop_first() =~= e);
        assert(seq![' '][0] == ' ');
        assert(trim_start(seq![' ']) == trim_start(e));
        assert(w[0] == ' ');
        assert(trim_start(w) == trim_start(seq![' ']));
        assert(trim_start(w) == e);
    }
    assert(h.last() == ']');
    assert(sp.last() == ']');
}

/// What an accepted configuration takes from its sections: the keys as
/// trimmed, the preshared key when it is not blank, the endpoint's host and
/// port, the keepalive and MTU as numbers (MTU 1420 when absent), and the
/// allowed IPs as the non-blank comma-separated entries.
pub proof fn law_accepted_config_fields(content: Seq<char>)
    ensures
        config_of(content) matches Ok(c) ==> {
            let iface = sections_of(content)["interface"@];
            let peer = sections_of(content)["peer"@];
            &&& iface.contains_key("privatekey"@) && c.private_key == trim(iface["privatekey"@])
            &&& peer.contains_key("publickey"@) && c.public_key == trim(peer["publickey"@])
            &&& c.pre_shared_key == (if peer.contains_key("presharedkey"@) && trim(
                peer["presharedkey"@],
            ).len() > 0 {
                Some(trim(peer["presharedkey"@]))
            } else {
                None
            })
            &&& peer.contains_key("endpoint"@) && endpoint_of(trim(peer["endpoint"@])) == Ok::<
                (Seq<char>, u16),
                ErrorView,
            >((c.server, c.port))
            &&& (if iface.contains_key("mtu"@) && trim(iface["mtu"@]).len() > 0 {
                parse_u16_text(trim(trim(iface["mtu"@]))) == Some(c.mtu)
            } else {
                c.mtu == 1420
            })
            &&& (if peer.contains_key("persistentkeepalive"@) && trim(
                peer["persistentkeepalive"@],
            ).len() > 0 {
                parse_u16_text(trim(trim(peer["persistentkeepalive"@]))) == Some(
                    c.persistent_keepalive.unwrap(),
                ) && c.persistent_keepalive is Some
            } else {
                c.persistent_keepalive is None
            })
            &&& (if peer.contains_key("allowedips"@) && trim(peer["allowedips"@]).len() > 0 {
                c.allowed_ips == Some(comma_entries(trim(peer["allowedips"@])))
            } else {
                c.allowed_ips is None
            })
        },
{
    if let Ok(c) = config_of(content) {
        let peer = sections_of(content)["peer"@];
        if peer.contains_key("allowedips"@) && trim(peer["allowedips"@]).len() > 0 {
            lemma_keep_nonempty_is_filter(
                split_on(trim(peer["allowedips"@]), ',').map_values(|e: Seq<char>| trim(e)),
            );
        }
    }
}

// ---------------------------------------------------------------------------
// Only dotted quads are IPv4 addresses; the first one is taken
// ---------------------------------------------------------------------------

proof fn lemma_split_avoids(s: Seq<char>, sep: char, c: char)
    requires
        !s.contains(c),
    ensures
        forall|i: int| 0 <= i < split_on(s, sep).len() ==> !(#[trigger] split_on(s, sep)[i]).contains(c),
    decreases s.len(),
{
    if s.len() > 0 {
        let t = s.drop_last();
        assert(!t.contains(c)) by {
            if t.contains(c) {
                let k = choose|k: int| 0 <= k < t.len() && t[k] == c;
                assert(s[k] == c);
            }
        }
        lemma_split_avoids(t, sep, c);
        lemma_split_on_nonempty(t, sep);
        let q = split_on(t, sep);
        if s.last() != sep {
            let last = q.last().push(s.last());
            assert(!last.contains(c)) by {
                if last.contains(c) {
                    let k = choose|k: int| 0 <= k < last.len() && last[k] == c;
                    if k < q.last().len() {
                        assert(q[q.len() - 1][k] == c);
                    } else {
                        assert(s[s.len() - 1] == c);
                    }
                }
            }
        }
    }
}

proof fn lemma_leading_digit_positive(p: Seq<char>)
    requires
        p.len() >= 1,
        all_digits(p),
        p[0] != '0',
    ensures
        decimal_value(p) >= 1,
    decreases p.len(),
{
    let q = p.drop_last();
    assert(is_ascii_digit(p[p.len() - 1]));
    if q.len() >= 1 {
        assert(all_digits(q)) by {
            assert forall|i: int| 0 <= i < q.len() implies #[trigger] is_ascii_digit(q[i]) by {
                assert(q[i] == p[i]);
            }
        }
        assert(q[0] == p[0]);
        lemma_leading_digit_positive(q);
    } else {
        assert(q =~= Seq::<char>::empty());
        assert(is_ascii_digit(p[0]));
    }
}

proof fn lemma_canonical_digits(p: Seq<char>)
    requires
        p.len() >= 1,
        all_digits(p),
        p.len() == 1 || p[0] != '0',
    ensures
        decimal_text(decimal_value(p) as nat) == p,
    decreases p.len(),
{
    lemma_decimal_value_nonneg(p);
    let q = p.drop_last();
    let c = p.last();
    assert(is_ascii_digit(p[p.len() - 1]));
    let d = digit_value(c);
    assert(0 <= d < 10);
    if q.len() == 0 {
        assert(q =~= Seq::<char>::empty());
        assert(decimal_value(p) == d);
        assert(digit_char(d as nat) == c);
        assert(decimal_text(d as nat) =~= p);
    } else {
        assert(all_digits(q)) by {
            assert forall|i: int| 0 <= i < q.len() implies #[trigger] is_ascii_digit(q[i]) by {
                assert(q[i] == p[i]);
            }
        }
        assert(q[0] == p[0]);
        lemma_canonical_digits(q);
        lemma_leading_digit_positive(q);
        lemma_decimal_value_nonneg(q);
        let m = decimal_value(q);
        let n = decimal_value(p);
        assert(n == m * 10 + d);
        assert(n >= 10);
        assert(n / 10 == m && n % 10 == d) by (nonlinear_arith)
            requires
                n == m * 10 + d,
                0 <= d < 10,
                m >= 1,
        ;
        assert(digit_char(d as nat) == c);
        assert(decimal_text(n as nat) =~= q.push(c));
        assert(q.push(c) =~= p);
    }
}

/// Only dotted quads are IPv4 addresses: a text accepted as one is the
/// dotted-decimal writing, without leading zeros, of four bytes.
pub proof fn law_ipv4_text_is_dotted_quad(s: Seq<char>)
    ensures
        is_ipv4_text(s) ==> exists|a: u8, b: u8, c: u8, d: u8|
            #![trigger dotted_quad(a, b, c, d)]
            s == dotted_quad(a, b, c, d),
{
    if is_ipv4_text(s) {
        let parts = split_on(s, '.');
        law_split_on_rejoins(s, '.');
        assert(octet_ok(parts[0]) && octet_ok(parts[1]) && octet_ok(parts[2]) && octet_ok(
            parts[3],
        ));
        lemma_canonical_digits(parts[0]);
        lemma_canonical_digits(parts[1]);
        lemma_canonical_digits(parts[2]);
        lemma_canonical_digits(parts[3]);
        let a = decimal_value(parts[0]) as u8;
        let b = decimal_value(parts[1]) as u8;
        let c = decimal_value(parts[2]) as u8;
        let d = decimal_value(parts[3]) as u8;
        lemma_decimal_value_nonneg(parts[0]);
        lemma_decimal_value_nonneg(parts[1]);
        lemma_decimal_value_nonneg(parts[2]);
        lemma_decimal_value_nonneg(parts[3]);
        let p3 = parts.drop_last();
        let p2 = p3.drop_last();
        let p1 = p2.drop_last();
        assert(p1 =~= seq![parts[0]]);
        assert(join_with(p1, '.') == parts[0]);
        assert(join_with(p2, '.') == join_with(p1, '.') + seq!['.'] + parts[1]);
        assert(join_with(p3, '.') == join_with(p2, '.') + seq!['.'] + parts[2]);
        assert(join_with(parts, '.') == join_with(p3, '.') + seq!['.'] + parts[3]);
        assert(s == dotted_quad(a, b, c, d));
    }
}

/// The first IPv4 address of an `Address` value is the one taken: entries
/// after it do not matter, and entries before it that hold no `.` (such
/// as IPv6 addresses) are passed over.
pub proof fn law_first_ipv4_address_is_taken(
    a: u8,
    b: u8,
    c: u8,
    d: u8,
    before: Seq<char>,
    after: Seq<char>,
)
    ensures
        address_ipv4(dotted_quad(a, b, c, d) + seq![','] + after) == Some(dotted_quad(a, b, c, d)),
        !before.contains(',') && !before.contains('.') ==> address_ipv4(
            before + seq![','] + dotted_quad(a, b, c, d),
        ) == Some(dotted_quad(a, b, c, d)),
{
    let q = dotted_quad(a, b, c, d);
    law_ipv4_addresses_accepted(a, b, c, d, 0);
    lemma_split_on_nonempty(after, ',');
    lemma_split_no_sep(q, ',');
    lemma_split_append(q, after, ',');
    let cands = split_on(q + seq![','] + after, ',').map_values(|e: Seq<char>| address_candidate(e));
    assert(cands[0] == address_candidate(q));
    if !before.contains(',') && !before.contains('.') {
        lemma_split_no_sep(before, ',');
        lemma_split_append(before, q, ',');
        let cands2 = split_on(before + seq![','] + q, ',').map_values(
            |e: Seq<char>| address_candidate(e),
        );
        assert(cands2.len() == 2);
        assert(cands2[1] == address_candidate(q));
        // The entry before holds no `.`, nor does its candidate.
        let t = trim(before);
        law_trim_is_inner_stretch(before);
        let (i, j) = choose|i: int, j: int|
            #![trigger before.subrange(i, j)]
            0 <= i <= j <= before.len() && trim(before) == before.subrange(i, j) && (forall|k: int|
                0 <= k < i ==> is_white_space(#[trigger] before[k])) && (forall|k: int|
                j <= k < before.len() ==> is_white_space(#[trigger] before[k]));
        assert(!t.contains('.')) by {
            if t.contains('.') {
                let k = choose|k: int| 0 <= k < t.len() && t[k] == '.';
                assert(before[i + k] == '.');
            }
        }
        lemma_split_avoids(t, '/', '.');
        lemma_split_on_nonempty(t, '/');
        assert(!address_candidate(before).contains('.'));
        assert(!ipv4_candidate_ok(cands2[0]));
        assert(first_ipv4_from(cands2, 0) == first_ipv4_from(cands2, 1));
    }
}

} // verus!
