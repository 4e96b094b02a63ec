//! IP addresses, socket addresses and their texts.

use vstd::prelude::*;

use crate::text::{
    bounded_number, chars_of, decimal, decimal_text, find_char, free_of, join, lemma_decimal_digits,
    lemma_decimal_injective, lemma_join_split, lemma_position, parse_number, part_of, position,
    text_of,
};

verus! {

/// An IPv4 address, with the first octet in the highest bits.
#[derive(Clone, Copy, PartialEq, Eq, Debug, Hash, Structural)]
pub struct Ipv4Addr {
    pub bits: u32,
}

/// An IPv6 address, with the first segment in the highest bits.
#[derive(Clone, Copy, PartialEq, Eq, Debug, Hash, Structural)]
pub struct Ipv6Addr {
    pub bits: u128,
}

/// An address of either kind.
#[derive(Clone, Copy, PartialEq, Eq, Debug, Hash, Structural)]
pub enum IpAddr {
    V4(Ipv4Addr),
    V6(Ipv6Addr),
}

/// An address together with a port.
#[derive(Clone, Copy, PartialEq, Eq, Debug, Hash, Structural)]
pub struct SocketAddr {
    pub ip: IpAddr,
    pub port: u16,
}

/// One octet of an IPv4 address, counted from the front.
pub open spec fn octet(ip: Ipv4Addr, i: int) -> nat {
    if i == 0 {
        (ip.bits / 16777216) as nat
    } else if i == 1 {
        ((ip.bits / 65536) % 256) as nat
    } else if i == 2 {
        ((ip.bits / 256) % 256) as nat
    } else {
        (ip.bits % 256) as nat
    }
}

/// The dotted decimal text of an IPv4 address.
pub open spec fn ipv4_text(ip: Ipv4Addr) -> Seq<char> {
    join(Seq::new(4, |i: int| decimal(octet(ip, i))), seq!['.'])
}

/// The IPv4 address that a text stands for: the one whose dotted decimal text it is.
pub open spec fn ipv4_from_text(s: Seq<char>) -> Option<Ipv4Addr> {
    if exists|ip: Ipv4Addr| s == ipv4_text(ip) {
        Some(choose|ip: Ipv4Addr| s == ipv4_text(ip))
    } else {
        None
    }
}

/// The IPv6 address that a text stands for, if any.
pub uninterp spec fn ipv6_from_text(s: Seq<char>) -> Option<u128>;

/// The text that stands for an IPv6 address.
pub uninterp spec fn ipv6_text(bits: u128) -> Seq<char>;

/// The address that a text stands for.
pub open spec fn ip_from_text(s: Seq<char>) -> Option<IpAddr> {
    match ipv4_from_text(s) {
        Some(ip) => Some(IpAddr::V4(ip)),
        None => match ipv6_from_text(s) {
            Some(bits) => Some(IpAddr::V6(Ipv6Addr { bits })),
            None => None,
        },
    }
}

/// The text of an address of either kind.
pub open spec fn ip_text(ip: IpAddr) -> Seq<char> {
    match ip {
        IpAddr::V4(ip) => ipv4_text(ip),
        IpAddr::V6(ip) => ipv6_text(ip.bits),
    }
}

/// An IPv4 address is read back from its own text.
pub proof fn law_ipv4_text_reads_back(ip: Ipv4Addr)
    ensures
        ipv4_from_text(ipv4_text(ip)) == Some(ip),
{
    let other = choose|o: Ipv4Addr| ipv4_text(ip) == ipv4_text(o);
    assert(ipv4_text(ip) == ipv4_text(other));
    let p = Seq::new(4, |i: int| decimal(octet(ip, i)));
    let q = Seq::new(4, |i: int| decimal(octet(other, i)));
    assert forall|i: int| 0 <= i < 4 implies free_of(#[trigger] p[i], '.') by {
        lemma_decimal_digits(octet(ip, i));
    }
    assert forall|i: int| 0 <= i < 4 implies free_of(#[trigger] q[i], '.') by {
        lemma_decimal_digits(octet(other, i));
    }
    lemma_join_split(p, '.');
    lemma_join_split(q, '.');
    assert(p == q);
    assert forall|i: int| 0 <= i < 4 implies octet(ip, i) == #[trigger] octet(other, i) by {
        assert(p[i] == q[i]);
        lemma_decimal_injective(octet(ip, i), octet(other, i));
    }
    assert(octet(ip, 0) == octet(other, 0));
    assert(octet(ip, 1) == octet(other, 1));
    assert(octet(ip, 2) == octet(other, 2));
    assert(octet(ip, 3) == octet(other, 3));
}

/// Reads an IPv4 address. The call of `hickory_server::proto::rr::rdata::A::from_str`, which
/// hands on to the standard library, accepts dotted decimal notation with four octets and
/// without leading zeros, and nothing else: the very texts that addresses are written as.
#[verifier::external_body]
pub(crate) fn parse_ipv4(s: &str) -> (r: Option<Ipv4Addr>)
    ensures
        r == ipv4_from_text(s@),
{
    let a = s.parse::<hickory_server::proto::rr::rdata::A>().ok()?;
    Some(Ipv4Addr { bits: u32::from_be_bytes(a.octets()) })
}

/// Reads an IPv6 address with `hickory_server::proto::rr::rdata::AAAA::from_str`. The result is
/// named: it depends on the text alone.
#[verifier::external_body]
pub(crate) fn parse_ipv6(s: &str) -> (r: Option<Ipv6Addr>)
    ensures
        r == match ipv6_from_text(s@) {
            Some(bits) => Some(Ipv6Addr { bits }),
            None => None,
        },
{
    let a = s.parse::<hickory_server::proto::rr::rdata::AAAA>().ok()?;
    Some(Ipv6Addr { bits: u128::from_be_bytes(a.octets()) })
}

/// Writes an IPv6 address with the `Display` of `hickory_server::proto::rr::rdata::AAAA`. The
/// result is named: it depends on the address alone.
#[verifier::external_body]
pub(crate) fn format_ipv6(ip: Ipv6Addr) -> (r: String)
    ensures
        r@ == ipv6_text(ip.bits),
{
    hickory_server::proto::rr::rdata::AAAA(ip.bits.into()).to_string()
}

impl Ipv4Addr {
    /// The address with the given octets.
    pub fn new(a: u8, b: u8, c: u8, d: u8) -> (r: Ipv4Addr)
        ensures
            r.bits == a * 16777216 + b * 65536 + c * 256 + d,
    {
        let bits: u32 = (a as u32) * 16777216 + (b as u32) * 65536 + (c as u32) * 256 + (d as u32);
        Ipv4Addr { bits }
    }

    /// Reads an address in dotted decimal notation.
    pub fn from_text(s: &str) -> (r: Option<Ipv4Addr>)
        ensures
            r == ipv4_from_text(s@),
    {
        parse_ipv4(s)
    }

    /// The dotted decimal text of the address.
    pub fn text(&self) -> (r: String)
        ensures
            r@ == ipv4_text(*self),
    {
        let mut s = decimal_text((self.bits / 16777216) as u64);
        s.push('.');
        s.append(decimal_text(((self.bits / 65536) % 256) as u64).as_str());
        s.push('.');
        s.append(decimal_text(((self.bits / 256) % 256) as u64).as_str());
        s.push('.');
        s.append(decimal_text((self.bits % 256) as u64).as_str());
        proof {
            let p = Seq::new(4, |i: int| decimal(octet(*self, i)));
            let dot = seq!['.'];
            let p3 = p.drop_last();
            let p2 = p3.drop_last();
            let p1 = p2.drop_last();
            assert(join(p1, dot) == p[0]);
            assert(join(p2, dot) == p[0] + dot + p[1]);
            assert(join(p3, dot) == p[0] + dot + p[1] + dot + p[2]);
            assert(join(p, dot) == p[0] + dot + p[1] + dot + p[2] + dot + p[3]);
            assert(s@ =~= p[0] + dot + p[1] + dot + p[2] + dot + p[3]);
        }
        s
    }
}

impl Ipv6Addr {
    /// Reads an address.
    pub fn from_text(s: &str) -> (r: Option<Ipv6Addr>)
        ensures
            r == match ipv6_from_text(s@) {
                Some(bits) => Some(Ipv6Addr { bits }),
                None => None,
            },
    {
        parse_ipv6(s)
    }

    /// The text of the address.
    pub fn text(&self) -> (r: String)
        ensures
            r@ == ipv6_text(self.bits),
    {
        format_ipv6(*self)
    }
}

impl IpAddr {
    /// Reads an address of either kind.
    pub fn from_text(s: &str) -> (r: Option<IpAddr>)
        ensures
            r == ip_from_text(s@),
    {
        match parse_ipv4(s) {
            Some(ip) => Some(IpAddr::V4(ip)),
            None => match parse_ipv6(s) {
                Some(ip) => Some(IpAddr::V6(ip)),
                None => None,
            },
        }
    }

    /// The text of the address.
    pub fn text(&self) -> (r: String)
        ensures
            r@ == ip_text(*self),
    {
        match self {
            IpAddr::V4(ip) => ip.text(),
            IpAddr::V6(ip) => ip.text(),
        }
    }
}


/// The address in a bracketed socket address: an IPv6 address with an optional numeric zone.
pub open spec fn scoped_ipv6(s: Seq<char>) -> Option<u128> {
    let k = position(s, '%');
    if k == s.len() || bounded_number(s.skip(k + 1), u32::MAX as nat) is Some {
        ipv6_from_text(s.take(k))
    } else {
        None
    }
}

/// A socket address of an IPv4 address: `address:port`.
pub open spec fn socket_v4(s: Seq<char>) -> Option<SocketAddr> {
    let k = position(s, ':');
    if k == s.len() {
        None
    } else {
        match (ipv4_from_text(s.take(k)), bounded_number(s.skip(k + 1), u16::MAX as nat)) {
            (Some(ip), Some(port)) => Some(SocketAddr { ip: IpAddr::V4(ip), port: port as u16 }),
            _ => None,
        }
    }
}

/// A socket address of an IPv6 address: `[address]:port`.
pub open spec fn socket_v6(s: Seq<char>) -> Option<SocketAddr> {
    let k = position(s, ']');
    if s.len() == 0 || s[0] != '[' || k + 1 >= s.len() || s[k + 1] != ':' {
        None
    } else {
        match (scoped_ipv6(s.subrange(1, k)), bounded_number(s.skip(k + 2), u16::MAX as nat)) {
            (Some(bits), Some(port)) => Some(
                SocketAddr { ip: IpAddr::V6(Ipv6Addr { bits }), port: port as u16 },
            ),
            _ => None,
        }
    }
}

/// The socket address that a text stands for.
pub open spec fn socket_from_text(s: Seq<char>) -> Option<SocketAddr> {
    match socket_v4(s) {
        Some(addr) => Some(addr),
        None => socket_v6(s),
    }
}

impl SocketAddr {
    /// Reads a socket address: `address:port`, with an IPv6 address in brackets.
    pub fn from_text(s: &str) -> (r: Option<SocketAddr>)
        ensures
            r == socket_from_text(s@),
    {
        let v = chars_of(s);
        let n = v.len();
        let k = find_char(&v, ':');
        if k < n {
            let host = part_of(&v, 0, k);
            let rest = part_of(&v, k + 1, n);
            assert(host@ =~= s@.take(k as int));
            assert(rest@ =~= s@.skip(k + 1));
            if let Some(ip) = parse_ipv4(text_of(&host).as_str()) {
                if let Some(port) = parse_number(&rest, 65535) {
                    return Some(SocketAddr { ip: IpAddr::V4(ip), port: port as u16 });
                }
            }
        }
        if n == 0 || v[0] != '[' {
            return None;
        }
        let k = find_char(&v, ']');
        if k >= n || k + 1 >= n || v[k + 1] != ':' {
            return None;
        }
        proof {
            lemma_position(s@, ']');
        }
        let inner = part_of(&v, 1, k);
        let rest = part_of(&v, k + 2, n);
        assert(rest@ =~= s@.skip(k + 2));
        let z = find_char(&inner, '%');
        if z < inner.len() {
            let zone = part_of(&inner, z + 1, inner.len());
            assert(zone@ =~= inner@.skip(z + 1));
            if parse_number(&zone, 4294967295).is_none() {
                return None;
            }
        }
        let address = part_of(&inner, 0, z);
        assert(address@ =~= inner@.take(z as int));
        match parse_ipv6(text_of(&address).as_str()) {
            Some(ip) => match parse_number(&rest, 65535) {
                Some(port) => Some(SocketAddr { ip: IpAddr::V6(ip), port: port as u16 }),
                None => None,
            },
            None => None,
        }
    }
}

} // verus!
