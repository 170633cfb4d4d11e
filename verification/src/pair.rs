//! The host-and-port pair: parsing `host:port` text, socket literals first
//! and validated domain names as the fallback, and formatting back to text.

use vstd::prelude::*;

use crate::text::{
    check_domain, dec_text, domain_ok, first_bad_index, format_dec, is_digit_char, is_domain_char,
    lemma_dec_text_props, lemma_first_bad_index, lemma_rfind_char, lemma_rfind_char_is,
    lemma_split_single, parse_port, rfind_char, rfind_char_str, spec_parse_port, split_on,
    PortParseError,
};
use crate::ipv4::{lemma_v4_text_parses, spec_parse_v4, v4_text, Ipv4Address};
use crate::ipv6::Ipv6Address;
use crate::addr::{
    format_ip, ip_text, parse_ip, parse_socket, spec_parse_ip, spec_parse_socket, IpAddress,
};

verus! {

/// A host: a parsed IP address, or a domain name kept as text.
#[derive(Clone, Debug, Hash, Eq)]
pub enum Host {
    IpAddr(IpAddress),
    DnsName(String),
}

/// A host paired with a 16-bit port (0 permitted, meaning "unspecified").
#[derive(Clone, Debug, Hash, Eq)]
pub struct HostPortPair {
    pub host: Host,
    pub port: u16,
}

/// Why `host:port` text was rejected: no colon anywhere, a disallowed
/// character in the domain segment (with its offset), or a bad port segment.
#[derive(Clone, Copy, Debug, PartialEq, Eq, Structural)]
pub enum HostPortPairError {
    NoPort,
    InvalidCharacterInDomain(usize, char),
    ParsePort(PortParseError),
}

/// The abstract outcome of parsing `host:port` text.
pub ghost enum ParseOutcome {
    IpPair(IpAddress, u16),
    NamePair(Seq<char>, u16),
    Rejected(HostPortPairError),
}

/// The `host:port` grammar. A whole-string socket literal wins; otherwise
/// the text splits at its last colon (none: `NoPort`), the tail must be a
/// port numeral, and the head must stay within the domain alphabet.
pub open spec fn spec_parse_pair(s: Seq<char>) -> ParseOutcome {
    match spec_parse_socket(s) {
        Some((ip, p)) => ParseOutcome::IpPair(ip, p),
        None => {
            let k = rfind_char(s, ':');
            if k < 0 {
                ParseOutcome::Rejected(HostPortPairError::NoPort)
            } else {
                let head = s.take(k);
                let tail = s.skip(k + 1);
                match spec_parse_port(tail) {
                    Err(e) => ParseOutcome::Rejected(HostPortPairError::ParsePort(e)),
                    Ok(p) => {
                        let b = first_bad_index(head);
                        if b >= 0 {
                            ParseOutcome::Rejected(
                                HostPortPairError::InvalidCharacterInDomain(
                                    b as usize,
                                    head[b],
                                ),
                            )
                        } else {
                            ParseOutcome::NamePair(head, p)
                        }
                    },
                }
            }
        },
    }
}

/// What two hosts being equal means: same variant, same address or same
/// name text.
pub open spec fn host_eq(a: &Host, b: &Host) -> bool {
    match (a, b) {
        (Host::IpAddr(x), Host::IpAddr(y)) => x == y,
        (Host::DnsName(m), Host::DnsName(n)) => m@ == n@,
        _ => false,
    }
}

impl PartialEq for Host {
    fn eq(&self, other: &Host) -> (r: bool) {
        match (self, other) {
            (Host::IpAddr(x), Host::IpAddr(y)) => *x == *y,
            (Host::DnsName(m), Host::DnsName(n)) => m.eq(n),
            _ => false,
        }
    }
}

impl vstd::std_specs::cmp::PartialEqSpecImpl for Host {
    open spec fn obeys_eq_spec() -> bool {
        true
    }

    open spec fn eq_spec(&self, other: &Host) -> bool {
        host_eq(self, other)
    }
}

impl PartialEq for HostPortPair {
    fn eq(&self, other: &HostPortPair) -> (r: bool) {
        self.host == other.host && self.port == other.port
    }
}

impl vstd::std_specs::cmp::PartialEqSpecImpl for HostPortPair {
    open spec fn obeys_eq_spec() -> bool {
        true
    }

    open spec fn eq_spec(&self, other: &HostPortPair) -> bool {
        host_eq(&self.host, &other.host) && self.port == other.port
    }
}

impl From<IpAddress> for Host {
    fn from(ip: IpAddress) -> (r: Host) {
        Host::IpAddr(ip)
    }
}

impl vstd::std_specs::convert::FromSpecImpl<IpAddress> for Host {
    open spec fn obeys_from_spec() -> bool {
        true
    }

    open spec fn from_spec(ip: IpAddress) -> Host {
        Host::IpAddr(ip)
    }
}

impl From<Ipv4Address> for Host {
    fn from(x: Ipv4Address) -> (r: Host) {
        Host::IpAddr(IpAddress::V4(x))
    }
}

impl vstd::std_specs::convert::FromSpecImpl<Ipv4Address> for Host {
    open spec fn obeys_from_spec() -> bool {
        true
    }

    open spec fn from_spec(x: Ipv4Address) -> Host {
        Host::IpAddr(IpAddress::V4(x))
    }
}

impl From<Ipv6Address> for Host {
    fn from(x: Ipv6Address) -> (r: Host) {
        Host::IpAddr(IpAddress::V6(x))
    }
}

impl vstd::std_specs::convert::FromSpecImpl<Ipv6Address> for Host {
    open spec fn obeys_from_spec() -> bool {
        true
    }

    open spec fn from_spec(x: Ipv6Address) -> Host {
        Host::IpAddr(IpAddress::V6(x))
    }
}

impl From<(Host, u16)> for HostPortPair {
    fn from(pair: (Host, u16)) -> (r: HostPortPair) {
        HostPortPair { host: pair.0, port: pair.1 }
    }
}

impl vstd::std_specs::convert::FromSpecImpl<(Host, u16)> for HostPortPair {
    open spec fn obeys_from_spec() -> bool {
        true
    }

    open spec fn from_spec(pair: (Host, u16)) -> HostPortPair {
        HostPortPair { host: pair.0, port: pair.1 }
    }
}

/// The text of a host: the address's standard form, or the name verbatim.
pub open spec fn host_text(h: Host) -> Seq<char> {
    match h {
        Host::IpAddr(ip) => ip_text(ip),
        Host::DnsName(n) => n@,
    }
}

/// The `host:port` text of a pair.
pub open spec fn pair_text(q: HostPortPair) -> Seq<char> {
    host_text(q.host) + seq![':'] + dec_text(q.port as int)
}

impl Host {
    /// Whether this host is a parsed IP address.
    pub fn is_ip_address(&self) -> (r: bool)
        ensures
            r == (self is IpAddr),
    {
        match self {
            Host::IpAddr(_) => true,
            Host::DnsName(_) => false,
        }
    }

    /// Whether this host is a domain name.
    pub fn is_dns_name(&self) -> (r: bool)
        ensures
            r == (self is DnsName),
    {
        match self {
            Host::IpAddr(_) => false,
            Host::DnsName(_) => true,
        }
    }

    /// The lenient conversion from text: an IP literal becomes the address
    /// variant; any other text is kept, unvalidated, as a name.
    pub fn from_text(s: &str) -> (r: Host)
        ensures
            match spec_parse_ip(s@) {
                Some(ip) => r == Host::IpAddr(ip),
                None => r matches Host::DnsName(n) && n@ == s@,
            },
    {
        match parse_ip(s) {
            Some(ip) => Host::IpAddr(ip),
            None => Host::DnsName(String::from_str(s)),
        }
    }

    /// The host's text.
    pub fn to_text(&self) -> (r: String)
        ensures
            r@ == host_text(*self),
    {
        match self {
            Host::IpAddr(ip) => format_ip(ip),
            Host::DnsName(n) => n.clone(),
        }
    }
}

impl HostPortPair {
    /// The pair of the given host and port.
    pub fn new(host: Host, port: u16) -> (r: HostPortPair)
        ensures
            r == (HostPortPair { host, port }),
    {
        HostPortPair { host, port }
    }

    /// The host.
    pub fn host(&self) -> (r: &Host)
        ensures
            *r == self.host,
    {
        &self.host
    }

    /// The port.
    pub fn port(&self) -> (r: u16)
        ensures
            r == self.port,
    {
        self.port
    }

    /// Mutable access to the host; the port is untouched.
    pub fn host_mut(&mut self) -> (r: &mut Host)
        ensures
            *r == old(self).host,
            final(self).host == *final(r),
            final(self).port == old(self).port,
    {
        &mut self.host
    }

    /// Mutable access to the port; the host is untouched.
    pub fn port_mut(&mut self) -> (r: &mut u16)
        ensures
            *r == old(self).port,
            final(self).port == *final(r),
            final(self).host == old(self).host,
    {
        &mut self.port
    }

    /// Parse `host:port` text, trying the whole string as a socket literal
    /// first and falling back to a validated domain name and port.
    pub fn parse(s: &str) -> (r: Result<HostPortPair, HostPortPairError>)
        ensures
            match spec_parse_pair(s@) {
                ParseOutcome::IpPair(ip, p) => r matches Ok(q) && q.host == Host::IpAddr(ip)
                    && q.port == p,
                ParseOutcome::NamePair(nm, p) => r matches Ok(q) && q.host matches Host::DnsName(t)
                    && t@ == nm && q.port == p,
                ParseOutcome::Rejected(e) => r == Err::<HostPortPair, HostPortPairError>(e),
            },
    {
        match parse_socket(s) {
            Some((ip, p)) => Ok(HostPortPair { host: Host::IpAddr(ip), port: p }),
            None => {
                let n = s.unicode_len();
                match rfind_char_str(s, ':') {
                    None => Err(HostPortPairError::NoPort),
                    Some(k) => {
                        proof {
                            lemma_rfind_char(s@, ':');
                        }
                        let head = s.substring_char(0, k);
                        let tail = s.substring_char(k + 1, n);
                        assert(head@ == s@.take(k as int));
                        assert(tail@ == s@.skip(k + 1));
                        match parse_port(tail) {
                            Err(e) => Err(HostPortPairError::ParsePort(e)),
                            Ok(p) => match check_domain(head) {
                                Some((i, c)) => Err(
                                    HostPortPairError::InvalidCharacterInDomain(i, c),
                                ),
                                None => Ok(
                                    HostPortPair {
                                        host: Host::DnsName(String::from_str(head)),
                                        port: p,
                                    },
                                ),
                            },
                        }
                    },
                }
            },
        }
    }

    /// The pair's `host:port` text.
    pub fn to_text(&self) -> (r: String)
        ensures
            r@ == pair_text(*self),
    {
        proof {
            reveal_strlit(":");
        }
        let mut r = self.host.to_text();
        r.append(":");
        let t = format_dec(self.port);
        r.append(t.as_str());
        r
    }
}

// ---------------------------------------------------------------------------
// Laws
// ---------------------------------------------------------------------------

/// The separator of `h + ":" + dec_text(p)` is the last colon, the head is
/// `h`, the tail parses as the port `p`, and the text is no bracketed
/// socket literal. The groundwork under the parsing laws below.
proof fn lemma_fallback_split(h: Seq<char>, p: u16)
    requires
        h.len() >= 1 ==> h[0] != '[',
    ensures
        ({
            let t = h + seq![':'] + dec_text(p as int);
            &&& rfind_char(t, ':') == h.len()
            &&& t.take(h.len() as int) == h
            &&& t.skip(h.len() as int + 1) == dec_text(p as int)
            &&& spec_parse_port(t.skip(h.len() as int + 1)) == Ok::<u16, PortParseError>(p)
            &&& t.len() >= 1
            &&& t[0] != '['
        }),
{
    let dt = dec_text(p as int);
    let t = h + seq![':'] + dt;
    lemma_dec_text_props(p as int);
    assert(t[h.len() as int] == ':');
    assert forall|j: int| h.len() < j < t.len() implies t[j] != ':' by {
        assert(t[j] == dt[j - h.len() - 1]);
        assert(is_digit_char(dt[j - h.len() - 1]));
    }
    lemma_rfind_char_is(t, ':', h.len() as int);
    assert(t.take(h.len() as int) =~= h);
    assert(t.skip(h.len() as int + 1) =~= dt);
    assert(spec_parse_port(dt) == Ok::<u16, PortParseError>(p));
    if h.len() == 0 {
        assert(t[0] == ':');
    } else {
        assert(t[0] == h[0]);
    }
}

/// For every domain `d` within the allowed alphabet that is no IPv4
/// literal, and every port `p`, the text `d:p` (with `p` written
/// canonically) parses to the name pair of exactly `d` and `p`.
pub proof fn lemma_parse_name_pair(d: Seq<char>, p: u16)
    requires
        domain_ok(d),
        spec_parse_v4(d) is None,
    ensures
        spec_parse_pair(d + seq![':'] + dec_text(p as int)) == ParseOutcome::NamePair(d, p),
{
    let t = d + seq![':'] + dec_text(p as int);
    if d.len() >= 1 {
        assert(is_domain_char(d[0]));
    }
    lemma_fallback_split(d, p);
    assert(spec_parse_socket(t) is None);
    lemma_first_bad_index(d);
    if first_bad_index(d) >= 0 {
        assert(!is_domain_char(d[first_bad_index(d)]));
    }
}

/// For every IPv4 address `x` and port `p`, the text `a.b.c.d:p` parses to
/// the address pair of exactly `x` and `p`: address-literal detection takes
/// priority over the domain alphabet, which also admits digits and dots.
pub proof fn lemma_parse_v4_pair(x: Ipv4Address, p: u16)
    ensures
        spec_parse_pair(v4_text(x) + seq![':'] + dec_text(p as int)) == ParseOutcome::IpPair(
            IpAddress::V4(x),
            p,
        ),
{
    let h = v4_text(x);
    let t = h + seq![':'] + dec_text(p as int);
    lemma_v4_text_parses(x);
    assert(is_digit_char(h[0]));
    lemma_fallback_split(h, p);
    assert(spec_parse_v4(t.take(h.len() as int)) == Some(x));
}

/// Text without any colon is rejected with `NoPort`, whatever else it
/// holds; `NoPort` arises exactly then.
pub proof fn lemma_no_colon_rejected(s: Seq<char>)
    requires
        forall|i: int| 0 <= i < s.len() ==> #[trigger] s[i] != ':',
    ensures
        spec_parse_pair(s) == ParseOutcome::Rejected(HostPortPairError::NoPort),
{
    lemma_rfind_char(s, ':');
    if rfind_char(s, ':') >= 0 {
        assert(s[rfind_char(s, ':')] == ':');
    }
    if s.len() >= 1 && s[0] == '[' {
        let j = crate::text::find_char(s, ']');
        if 1 <= j && j + 2 <= s.len() && s[j + 1] == ':' {
            assert(false);
        }
    }
}

/// A head with a character outside the domain alphabet is rejected as an
/// invalid domain, reporting the first offender and its offset, whatever
/// valid port follows.
pub proof fn lemma_domain_rejects(h: Seq<char>, p: u16)
    requires
        !domain_ok(h),
        h.len() >= 1 && h[0] != '[',
        spec_parse_v4(h) is None,
    ensures
        ({
            let b = first_bad_index(h);
            &&& 0 <= b < h.len()
            &&& !is_domain_char(h[b])
            &&& forall|i: int| 0 <= i < b ==> is_domain_char(#[trigger] h[i])
            &&& spec_parse_pair(h + seq![':'] + dec_text(p as int)) == ParseOutcome::Rejected(
                HostPortPairError::InvalidCharacterInDomain(b as usize, h[b]),
            )
        }),
{
    let t = h + seq![':'] + dec_text(p as int);
    lemma_fallback_split(h, p);
    assert(spec_parse_socket(t) is None);
    lemma_first_bad_index(h);
    if first_bad_index(h) == -1 {
        assert(domain_ok(h));
    }
}

/// A name pair the parser itself produced meets the round-trip premises —
/// its name is within the domain alphabet and is no IPv4 literal — so its
/// own `name:port` text parses back to the same name and port.
pub proof fn lemma_parsed_name_round_trips(s: Seq<char>, n: Seq<char>, p: u16)
    requires
        spec_parse_pair(s) == ParseOutcome::NamePair(n, p),
    ensures
        domain_ok(n),
        spec_parse_v4(n) is None,
        spec_parse_pair(n + seq![':'] + dec_text(p as int)) == ParseOutcome::NamePair(n, p),
{
    let k = rfind_char(s, ':');
    lemma_rfind_char(s, ':');
    let head = s.take(k);
    lemma_first_bad_index(head);
    if first_bad_index(head) != -1 {
        assert(!is_domain_char(head[first_bad_index(head)]));
    }
    assert(head == n);
    assert(domain_ok(n));
    if s.len() >= 1 && s[0] == '[' {
        if k == 0 {
            assert(n =~= Seq::<char>::empty());
            lemma_split_single(n, '.');
            assert(split_on(n, '.').len() == 1);
        } else {
            assert(head[0] == s[0]);
            assert(is_domain_char(head[0]));
            assert(false);
        }
    } else {
        if spec_parse_v4(head) is Some {
            assert(spec_parse_socket(s) is Some);
            assert(false);
        }
    }
    lemma_parse_name_pair(n, p);
}

/// Round trip: a pair whose host is an IPv4 address, or a domain within the
/// alphabet that is no IPv4 literal, parses back from its own text to the
/// same host and port. Pairs with an IPv6 host are excluded: their text
/// carries no brackets, so it does not re-parse as a socket literal.
pub proof fn lemma_round_trip(q: HostPortPair)
    requires
        match q.host {
            Host::IpAddr(ip) => ip is V4,
            Host::DnsName(n) => domain_ok(n@) && spec_parse_v4(n@) is None,
        },
    ensures
        spec_parse_pair(pair_text(q)) == (match q.host {
            Host::IpAddr(ip) => ParseOutcome::IpPair(ip, q.port),
            Host::DnsName(n) => ParseOutcome::NamePair(n@, q.port),
        }),
{
    match q.host {
        Host::IpAddr(ip) => {
            match ip {
                IpAddress::V4(x) => {
                    lemma_parse_v4_pair(x, q.port);
                },
                IpAddress::V6(_) => {
                    assert(false);
                },
            }
        },
        Host::DnsName(n) => {
            lemma_parse_name_pair(n@, q.port);
        },
    }
}


} // verus!
