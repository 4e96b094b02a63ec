//! The server that a zone forwards queries to.

use vstd::prelude::*;
use crate::config::host::{host_port, Address, AddressView};
use crate::dns::rr::{Record, Soa};
use crate::ip::SocketAddr;

verus! {

/// What an upstream replied.
#[derive(Debug)]
pub struct UpstreamResponse {
    pub authoritative: bool,
    pub recursion_available: bool,
    pub answers: Vec<Record>,
    pub additionals: Vec<Record>,
    pub name_servers: Vec<Record>,
    pub soa: Option<Soa>,
}

/// A server that queries are forwarded to, with the name of the zone that does so.
#[derive(Debug)]
pub struct Upstream {
    pub name: String,
    pub config: Address,
}

/// An upstream, by the characters of its names.
#[verifier::ext_equal]
pub struct UpstreamView {
    pub name: Seq<char>,
    pub config: AddressView,
}

impl View for Upstream {
    type V = UpstreamView;

    open spec fn view(&self) -> UpstreamView {
        UpstreamView { name: self.name@, config: self.config@ }
    }
}

impl Upstream {
    /// An upstream with an address.
    pub fn new(name: &str, config: &Address) -> (r: Upstream)
        ensures
            r@ == (UpstreamView { name: name@, config: config@ }),
    {
        Upstream { name: name.to_owned(), config: config.clone() }
    }

    /// The address to send queries to, on port 53 unless another is configured. There is none
    /// where the host is not known by an address that can be used.
    pub fn lookup(&self) -> (r: Option<SocketAddr>)
        ensures
            r == crate::ip::socket_from_text(
                host_port(self@.config.host, self.config.port_or(53)),
            ),
    {
        self.config.to_socket_address(53)
    }
}

impl Clone for Upstream {
    fn clone(&self) -> (r: Self)
        ensures
            r@ == self@,
    {
        Upstream { name: self.name.clone(), config: self.config.clone() }
    }
}

} // verus!
