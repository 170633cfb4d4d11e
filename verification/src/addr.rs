//! Either kind of IP address, parsing of bare IP literals (IPv4 first, IPv6
//! second), and parsing of whole socket-address literals: `a.b.c.d:port` or
//! `[v6]:port`.

use vstd::prelude::*;

use crate::text::{
    find_char, find_char_str, lemma_find_char, rfind_char, rfind_char_str, lemma_rfind_char,
    spec_parse_port, parse_port, PortParseError,
};
use crate::ipv4::{format_v4, parse_v4, spec_parse_v4, v4_text, Ipv4Address};
use crate::ipv6::{format_v6, parse_v6, spec_parse_v6, v6_text, Ipv6Address};

verus! {

/// An IP address of either family.
#[derive(Clone, Copy, Debug, PartialEq, Eq, Hash, Structural)]
pub enum IpAddress {
    V4(Ipv4Address),
    V6(Ipv6Address),
}

/// The IP-literal grammar: IPv4 text, or else IPv6 text.
pub open spec fn spec_parse_ip(s: Seq<char>) -> Option<IpAddress> {
    match spec_parse_v4(s) {
        Some(x) => Some(IpAddress::V4(x)),
        None => match spec_parse_v6(s) {
            Some(x) => Some(IpAddress::V6(x)),
            None => None,
        },
    }
}

/// The text of an address: dotted decimal, or canonical IPv6 form.
pub open spec fn ip_text(ip: IpAddress) -> Seq<char> {
    match ip {
        IpAddress::V4(x) => v4_text(x),
        IpAddress::V6(x) => v6_text(x),
    }
}

/// Parse a bare IP literal.
pub fn parse_ip(s: &str) -> (r: Option<IpAddress>)
    ensures
        r == spec_parse_ip(s@),
{
    match parse_v4(s) {
        Some(x) => Some(IpAddress::V4(x)),
        None => match parse_v6(s) {
            Some(x) => Some(IpAddress::V6(x)),
            None => None,
        },
    }
}

/// Format an address as its standard text.
pub fn format_ip(ip: &IpAddress) -> (r: String)
    ensures
        r@ == ip_text(*ip),
{
    match ip {
        IpAddress::V4(x) => format_v4(x),
        IpAddress::V6(x) => format_v6(x),
    }
}

/// The socket-literal grammar. A text starting with `[` must be
/// `[v6]:port`, with the first `]` closing the host; any other text splits
/// at its last colon into IPv4 text and a port numeral.
pub open spec fn spec_parse_socket(s: Seq<char>) -> Option<(IpAddress, u16)> {
    if s.len() >= 1 && s[0] == '[' {
        let j = find_char(s, ']');
        if 1 <= j && j + 2 <= s.len() && s[j + 1] == ':' {
            let inner = s.subrange(1, j);
            let tail = s.skip(j + 2);
            match spec_parse_v6(inner) {
                Some(a) => match spec_parse_port(tail) {
                    Ok(p) => Some((IpAddress::V6(a), p)),
                    Err(_) => None,
                },
                None => None,
            }
        } else {
            None
        }
    } else {
        let k = rfind_char(s, ':');
        if k >= 0 {
            match spec_parse_v4(s.take(k)) {
                Some(a) => match spec_parse_port(s.skip(k + 1)) {
                    Ok(p) => Some((IpAddress::V4(a), p)),
                    Err(_) => None,
                },
                None => None,
            }
        } else {
            None
        }
    }
}

/// Parse a whole socket-address literal.
pub fn parse_socket(s: &str) -> (r: Option<(IpAddress, u16)>)
    ensures
        r == spec_parse_socket(s@),
{
    let n = s.unicode_len();
    if n >= 1 && s.get_char(0) == '[' {
        match find_char_str(s, ']') {
            Some(j) => {
                proof {
                    lemma_find_char(s@, ']');
                    assert(s@[j as int] == ']');
                    assert(j != 0);
                }
                if j < n - 1 && s.get_char(j + 1) == ':' {
                    assert(j + 2 <= s@.len());
                    let inner = s.substring_char(1, j);
                    let tail = s.substring_char(j + 2, n);
                    assert(inner@ == s@.subrange(1, j as int));
                    assert(tail@ == s@.skip(j + 2));
                    match parse_v6(inner) {
                        Some(a) => match parse_port(tail) {
                            Ok(p) => Some((IpAddress::V6(a), p)),
                            Err(_) => None,
                        },
                        None => None,
                    }
                } else {
                    None
                }
            },
            None => None,
        }
    } else {
        match rfind_char_str(s, ':') {
            Some(k) => {
                proof {
                    lemma_rfind_char(s@, ':');
                }
                let head = s.substring_char(0, k);
                let tail = s.substring_char(k + 1, n);
                assert(head@ == s@.take(k as int));
                assert(tail@ == s@.skip(k + 1));
                match parse_v4(head) {
                    Some(a) => match parse_port(tail) {
                        Ok(p) => Some((IpAddress::V4(a), p)),
                        Err(_) => None,
                    },
                    None => None,
                }
            },
            None => None,
        }
    }
}

} // verus!
