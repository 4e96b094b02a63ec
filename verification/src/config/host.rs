//! Hosts and addresses that are configured by name or by number.

use vstd::prelude::*;
use crate::dns::rr::{RData, RDataView};
use crate::ip::{IpAddr, Ipv4Addr, Ipv6Addr, SocketAddr};
use crate::name::{
    ascii_name_text, host_from_text, host_parsed, plain, plain_text, well_formed, Fqdn, HostError,
};
use crate::text::{
    bounded_number, chars_of, decimal, decimal_text, free_of, parse_number, part_of, text_of,
};

verus! {

/// A host, by its name or by its address.
#[derive(Debug)]
pub enum Host {
    Name(String),
    Ipv4(Ipv4Addr),
    Ipv6(Ipv6Addr),
}

/// A host, by the characters of its name.
#[verifier::ext_equal]
pub enum HostView {
    Name(Seq<char>),
    Ipv4(Ipv4Addr),
    Ipv6(Ipv6Addr),
}

impl View for Host {
    type V = HostView;

    open spec fn view(&self) -> HostView {
        match *self {
            Host::Name(name) => HostView::Name(name@),
            Host::Ipv4(ip) => HostView::Ipv4(ip),
            Host::Ipv6(ip) => HostView::Ipv6(ip),
        }
    }
}

/// The host that a text stands for.
pub open spec fn host_of(s: Seq<char>) -> HostView {
    match crate::ip::ip_from_text(s) {
        Some(ip) => ip_host(ip),
        None => HostView::Name(s),
    }
}

/// The host with an address.
pub open spec fn ip_host(ip: IpAddr) -> HostView {
    match ip {
        IpAddr::V4(ip) => HostView::Ipv4(ip),
        IpAddr::V6(ip) => HostView::Ipv6(ip),
    }
}

/// A host as it is written.
pub open spec fn host_text(host: HostView) -> Seq<char> {
    match host {
        HostView::Name(name) => name,
        HostView::Ipv4(ip) => crate::ip::ipv4_text(ip),
        HostView::Ipv6(ip) => crate::ip::ipv6_text(ip.bits),
    }
}

/// Whether a host can be put in a record: where it is known by its name, the name is valid.
pub open spec fn has_rdata(host: HostView) -> bool {
    host matches HostView::Name(name) ==> host_from_text(name) is Some
}

impl Host {
    /// The data of a record that leads to the host.
    pub fn rdata(&self) -> (r: RData)
        requires
            has_rdata(self@),
        ensures
            r@ == match self@ {
                HostView::Name(name) => RDataView::Cname(host_from_text(name)->0),
                HostView::Ipv4(ip) => RDataView::A(ip),
                HostView::Ipv6(ip) => RDataView::Aaaa(ip),
            },
    {
        match self {
            Host::Name(name) => RData::Cname(Fqdn::from_host_text(name.as_str()).unwrap()),
            Host::Ipv4(ip) => RData::A(*ip),
            Host::Ipv6(ip) => RData::Aaaa(*ip),
        }
    }

    /// The data of a record that leads to the host, unless its name is not valid.
    pub fn try_rdata(&self) -> (r: Option<RData>)
        ensures
            r is Some <==> has_rdata(self@),
            r matches Some(data) ==> data@ == match self@ {
                HostView::Name(name) => RDataView::Cname(host_from_text(name)->0),
                HostView::Ipv4(ip) => RDataView::A(ip),
                HostView::Ipv6(ip) => RDataView::Aaaa(ip),
            },
    {
        if let Host::Name(name) = self {
            if Fqdn::from_host_text(name.as_str()).is_none() {
                return None;
            }
        }
        Some(self.rdata())
    }

    /// The host that a text stands for: an address where it is one, a name otherwise.
    pub fn from_text(host: &str) -> (r: Host)
        ensures
            r@ == host_of(host@),
    {
        match IpAddr::from_text(host) {
            Some(ip) => Host::from_ip(ip),
            None => Host::Name(host.to_owned()),
        }
    }

    /// The host with an address.
    pub fn from_ip(ip: IpAddr) -> (r: Host)
        ensures
            r@ == ip_host(ip),
    {
        match ip {
            IpAddr::V4(ip) => Host::Ipv4(ip),
            IpAddr::V6(ip) => Host::Ipv6(ip),
        }
    }

    /// The host with a name.
    pub fn from_name(name: &Fqdn) -> (r: Host)
        ensures
            r@ == HostView::Name(ascii_name_text(name@)),
    {
        Host::Name(name.ascii_text())
    }

    /// The written host.
    pub fn text(&self) -> (r: String)
        ensures
            r@ == host_text(self@),
    {
        match self {
            Host::Name(name) => name.clone(),
            Host::Ipv4(ip) => ip.text(),
            Host::Ipv6(ip) => ip.text(),
        }
    }
}

impl Host {
    /// Whether this is the same host as another.
    pub fn same(&self, other: &Host) -> (r: bool)
        ensures
            r == (self@ == other@),
    {
        match (self, other) {
            (Host::Name(a), Host::Name(b)) => *a == *b,
            (Host::Ipv4(a), Host::Ipv4(b)) => *a == *b,
            (Host::Ipv6(a), Host::Ipv6(b)) => *a == *b,
            _ => false,
        }
    }
}

impl Clone for Host {
    fn clone(&self) -> (r: Self)
        ensures
            r@ == self@,
    {
        match self {
            Host::Name(name) => Host::Name(name.clone()),
            Host::Ipv4(ip) => Host::Ipv4(*ip),
            Host::Ipv6(ip) => Host::Ipv6(*ip),
        }
    }
}

/// The address of a server, with the port where one was given.
#[derive(Debug)]
pub struct Address {
    pub host: Host,
    pub port: Option<u16>,
}

/// The address of a server, by the characters of its name.
#[verifier::ext_equal]
pub struct AddressView {
    pub host: HostView,
    pub port: Option<u16>,
}

impl View for Address {
    type V = AddressView;

    open spec fn view(&self) -> AddressView {
        AddressView { host: self.host@, port: self.port }
    }
}

/// A host and a port as they are written.
pub open spec fn host_port(host: HostView, port: u16) -> Seq<char> {
    host_text(host) + seq![':'] + decimal(port as nat)
}

/// The last place of a character in a text.
pub open spec fn last_place(s: Seq<char>, c: char) -> Option<int>
    decreases s.len(),
{
    if s.len() == 0 {
        None
    } else if s.last() == c {
        Some(s.len() - 1)
    } else {
        last_place(s.drop_last(), c)
    }
}

/// The port that a text stands for: a number in 16 bits, which may have a plus sign before it.
pub open spec fn port_of(s: Seq<char>) -> Option<nat> {
    if s.len() > 0 && s[0] == '+' {
        bounded_number(s.drop_first(), 65535)
    } else {
        bounded_number(s, 65535)
    }
}

/// The address that a text stands for: an IP address with or without a port, else what precedes
/// the last colon where a port follows it, else the whole text as a host.
pub open spec fn address_of(s: Seq<char>) -> AddressView {
    match crate::ip::socket_from_text(s) {
        Some(addr) => AddressView { host: ip_host(addr.ip), port: Some(addr.port) },
        None => match crate::ip::ip_from_text(s) {
            Some(ip) => AddressView { host: ip_host(ip), port: None },
            None => match last_place(s, ':') {
                Some(k) => match port_of(s.skip(k + 1)) {
                    Some(port) => AddressView {
                        host: host_of(s.take(k)),
                        port: Some(port as u16),
                    },
                    None => AddressView { host: host_of(s), port: None },
                },
                None => AddressView { host: host_of(s), port: None },
            },
        },
    }
}

/// The last place of a character in a text.
fn rfind(s: &Vec<char>, c: char) -> (r: Option<usize>)
    ensures
        match r {
            Some(k) => last_place(s@, c) == Some(k as int) && k < s.len(),
            None => last_place(s@, c) is None,
        },
{
    let mut n: usize = s.len();
    assert(s@.take(n as int) =~= s@);
    while n > 0
        invariant
            n <= s.len(),
            last_place(s@, c) == last_place(s@.take(n as int), c),
        decreases n,
    {
        assert(s@.take(n as int).drop_last() =~= s@.take(n - 1));
        assert(s@.take(n as int).last() == s@[n - 1]);
        if s[n - 1] == c {
            return Some(n - 1);
        }
        n -= 1;
    }
    None
}

/// Reads a port.
fn parse_port(s: &Vec<char>) -> (r: Option<u16>)
    ensures
        match r {
            Some(port) => port_of(s@) == Some(port as nat),
            None => port_of(s@) is None,
        },
{
    let digits = if s.len() > 0 && s[0] == '+' {
        part_of(s.as_slice(), 1, s.len())
    } else {
        part_of(s.as_slice(), 0, s.len())
    };
    assert(digits@ =~= if s@.len() > 0 && s@[0] == '+' {
        s@.drop_first()
    } else {
        s@
    });
    match parse_number(digits.as_slice(), 65535) {
        Some(n) => Some(n as u16),
        None => None,
    }
}

impl Address {
    /// The port, or a default where none was given.
    pub open spec fn port_or(self, default_port: u16) -> u16 {
        match self.port {
            Some(port) => port,
            None => default_port,
        }
    }

    /// The written address, with a default for the port.
    pub fn address(&self, default_port: u16) -> (r: String)
        ensures
            r@ == host_port(self@.host, self.port_or(default_port)),
    {
        let port: u16 = match self.port {
            Some(port) => port,
            None => default_port,
        };
        let mut s = self.host.text();
        s.push(':');
        s.append(decimal_text(port as u64).as_str());
        assert(s@ =~= host_port(self@.host, port));
        s
    }

    /// The socket address, with a default for the port. Only a host that is known by its address
    /// has one, and an IPv6 address only in brackets.
    pub fn to_socket_address(&self, default_port: u16) -> (r: Option<SocketAddr>)
        ensures
            r == crate::ip::socket_from_text(host_port(self@.host, self.port_or(default_port))),
    {
        SocketAddr::from_text(self.address(default_port).as_str())
    }

    /// The written address.
    pub fn text(&self) -> (r: String)
        ensures
            r@ == match self.port {
                Some(port) => host_port(self@.host, port),
                None => host_text(self@.host),
            },
    {
        match self.port {
            Some(port) => self.address(port),
            None => self.host.text(),
        }
    }

    /// Reads an address.
    pub fn from_text(host: &str) -> (r: Address)
        ensures
            r@ == address_of(host@),
    {
        if let Some(addr) = SocketAddr::from_text(host) {
            return Address { host: Host::from_ip(addr.ip), port: Some(addr.port) };
        }
        if let Some(ip) = IpAddr::from_text(host) {
            return Address { host: Host::from_ip(ip), port: None };
        }
        let chars = chars_of(host);
        if let Some(k) = rfind(&chars, ':') {
            let rest = part_of(chars.as_slice(), k + 1, chars.len());
            assert(rest@ =~= host@.skip(k + 1));
            if let Some(port) = parse_port(&rest) {
                let front = part_of(chars.as_slice(), 0, k);
                assert(front@ =~= host@.take(k as int));
                let name = text_of(front.as_slice());
                return Address { host: Host::from_text(name.as_str()), port: Some(port) };
            }
        }
        Address { host: Host::from_text(host), port: None }
    }

    /// The address of a host without a port.
    pub fn from_host(host: Host) -> (r: Address)
        ensures
            r@ == (AddressView { host: host@, port: None }),
    {
        Address { host, port: None }
    }
}

impl Address {
    /// Whether this is the same address as another.
    pub fn same(&self, other: &Address) -> (r: bool)
        ensures
            r == (self@ == other@),
    {
        self.host.same(&other.host) && self.port == other.port
    }
}

impl Clone for Address {
    fn clone(&self) -> (r: Self)
        ensures
            r@ == self@,
    {
        Address { host: self.host.clone(), port: self.port }
    }
}

/// Reads a name that is configured, and tells what is wrong where there is none. A dot at the end
/// may be left out.
pub fn deserialize_fqdn(value: &str) -> (r: Result<Fqdn, HostError>)
    ensures
        match host_parsed(value@) {
            Ok(labels) => r is Ok && r->Ok_0@ == labels,
            Err(message) => r is Err && r->Err_0.message@ == message,
        },
        forall|labels: Seq<Seq<u8>>|
            plain(labels) && well_formed(labels) && (value@ == #[trigger] plain_text(labels)
                || value@ == plain_text(labels).push('.')) ==> host_from_text(value@) == Some(
                labels,
            ),
{
    Fqdn::parse_host_text(value)
}

/// The last place of a character before a text that does not hold it.
proof fn lemma_last_place(a: Seq<char>, b: Seq<char>, c: char)
    requires
        free_of(b, c),
    ensures
        last_place(a + seq![c] + b, c) == Some(a.len() as int),
        last_place(b, c) is None,
    decreases b.len(),
{
    let all = a + seq![c] + b;
    if b.len() > 0 {
        let front = b.drop_last();
        assert(all.drop_last() =~= a + seq![c] + front);
        assert(all.last() == b.last());
        assert(b[b.len() - 1] == b.last());
        assert forall|i: int| 0 <= i < front.len() implies front[i] != c by {
            assert(b[i] == front[i]);
        }
        lemma_last_place(a, front, c);
    } else {
        assert(all.last() == c);
    }
}

/// The address that a text stands for, where it is no IP address: the host before the last colon and
/// the port after it, where there is a colon and a port; else the whole text is the host.
pub proof fn law_addresses_are_read(host: Seq<char>, port: Seq<char>)
    requires
        free_of(port, ':'),
    ensures
        ({
            let s = host + seq![':'] + port;
            crate::ip::socket_from_text(s) is None && crate::ip::ip_from_text(s) is None ==> match
                port_of(port) {
                Some(n) => address_of(s) == (AddressView { host: host_of(host), port: Some(n as u16) }),
                None => address_of(s) == (AddressView { host: HostView::Name(s), port: None }),
            }
        }),
        crate::ip::ip_from_text(port) is None && crate::ip::socket_from_text(port) is None
            ==> address_of(port) == (AddressView { host: HostView::Name(port), port: None }),
{
    let s = host + seq![':'] + port;
    lemma_last_place(host, port, ':');
    assert(s.take(host.len() as int) =~= host);
    assert(s.skip(host.len() as int + 1) =~= port);
}

/// An IP address is read as it is, with the port where it has one.
pub proof fn law_ip_addresses_are_read(s: Seq<char>)
    ensures
        crate::ip::socket_from_text(s) matches Some(addr) ==> address_of(s).port == Some(addr.port)
            && match addr.ip {
            IpAddr::V4(ip) => address_of(s).host == HostView::Ipv4(ip),
            IpAddr::V6(ip) => address_of(s).host == HostView::Ipv6(ip),
        },
        crate::ip::socket_from_text(s) is None ==> (crate::ip::ip_from_text(s) matches Some(ip)
            ==> address_of(s).port is None && match ip {
            IpAddr::V4(ip) => address_of(s).host == HostView::Ipv4(ip),
            IpAddr::V6(ip) => address_of(s).host == HostView::Ipv6(ip),
        }),
{
}

} // verus!
