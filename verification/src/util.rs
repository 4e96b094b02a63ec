//! Addresses of servers.

use vstd::prelude::*;
use crate::ip::{IpAddr, SocketAddr};
use crate::text::{decimal, decimal_text};

verus! {

/// The address of a server, with the port where one was given.
#[derive(Clone, Copy, PartialEq, Eq, Debug, Hash, Structural)]
pub struct Address {
    pub host: IpAddr,
    pub port: Option<u16>,
}

/// The address that a text stands for: an IP address, with or without a port.
pub open spec fn address_from_text(s: Seq<char>) -> Option<Address> {
    match crate::ip::socket_from_text(s) {
        Some(addr) => Some(Address { host: addr.ip, port: Some(addr.port) }),
        None => match crate::ip::ip_from_text(s) {
            Some(ip) => Some(Address { host: ip, port: None }),
            None => None,
        },
    }
}

/// An address with a port as it is written.
pub open spec fn host_port_text(host: IpAddr, port: u16) -> Seq<char> {
    crate::ip::ip_text(host) + seq![':'] + decimal(port as nat)
}

impl Address {
    /// The port, or a default where none was given.
    pub open spec fn port_or(self, default_port: u16) -> u16 {
        match self.port {
            Some(port) => port,
            None => default_port,
        }
    }

    /// The written address, with a default for the port.
    pub fn address(&self, default_port: u16) -> (r: String)
        ensures
            r@ == host_port_text(self.host, self.port_or(default_port)),
    {
        let port: u16 = match self.port {
            Some(port) => port,
            None => default_port,
        };
        let mut s = self.host.text();
        s.push(':');
        s.append(decimal_text(port as u64).as_str());
        assert(s@ =~= host_port_text(self.host, port));
        s
    }

    /// The socket address, with a default for the port.
    pub fn to_socket_address(&self, default_port: u16) -> (r: SocketAddr)
        ensures
            r == (SocketAddr { ip: self.host, port: self.port_or(default_port) }),
    {
        let port: u16 = match self.port {
            Some(port) => port,
            None => default_port,
        };
        SocketAddr { ip: self.host, port }
    }

    /// The written address.
    pub fn text(&self) -> (r: String)
        ensures
            r@ == match self.port {
                Some(port) => host_port_text(self.host, port),
                None => crate::ip::ip_text(self.host),
            },
    {
        match self.port {
            Some(port) => self.address(port),
            None => self.host.text(),
        }
    }

    /// Reads an address.
    pub fn from_text(host: &str) -> (r: Option<Address>)
        ensures
            r == address_from_text(host@),
    {
        match SocketAddr::from_text(host) {
            Some(addr) => Some(Address { host: addr.ip, port: Some(addr.port) }),
            None => match IpAddr::from_text(host) {
                Some(ip) => Some(Address { host: ip, port: None }),
                None => None,
            },
        }
    }
}

} // verus!
