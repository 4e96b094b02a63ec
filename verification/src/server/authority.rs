//! A zone with authority for the names that it has, which forwards the rest.

use vstd::prelude::*;
use crate::dns::rr;
use crate::dns::rr::{views, RData, RDataView, SoaView};
use crate::name::Fqdn;
use crate::server::sets::{set_views, upsert, upserted};
use crate::server::zone::{make_soa, zone_fits, zone_soa};

verus! {

/// A zone, with its records in sets.
#[derive(Debug)]
pub struct SemiAuthoritativeAuthority {
    origin: Fqdn,
    serial: u32,
    sets: Vec<Vec<rr::Record>>,
}

/// A zone, by the labels of its names.
#[verifier::ext_equal]
pub struct AuthorityView {
    pub origin: Seq<Seq<u8>>,
    pub serial: u32,
    pub sets: Seq<Seq<rr::RecordView>>,
}

impl View for SemiAuthoritativeAuthority {
    type V = AuthorityView;

    closed spec fn view(&self) -> AuthorityView {
        AuthorityView {
            origin: self.origin@,
            serial: self.serial,
            sets: set_views(self.sets@),
        }
    }
}

impl SemiAuthoritativeAuthority {
    /// A new zone: it holds its start of authority.
    pub fn new(origin: Fqdn) -> (r: SemiAuthoritativeAuthority)
        requires
            zone_fits(origin@),
        ensures
            r@ == (AuthorityView {
                origin: origin@,
                serial: 1,
                sets: seq![
                    seq![
                        rr::record_of(
                            origin@,
                            300,
                            RDataView::Soa(
                                SoaView { expire: 300, minimum: 300, ..zone_soa(origin@) },
                            ),
                        ),
                    ],
                ],
            }),
    {
        let soa = make_soa(&origin, 300, 300);
        let record = rr::Record::from_rdata(origin.clone(), 300, RData::Soa(soa));
        let ghost view = record@;
        let set = vec![record];
        assert(views(set@) =~= seq![view]);
        let zone = SemiAuthoritativeAuthority { origin, serial: 1, sets: vec![set] };
        assert(zone@.sets =~= seq![seq![view]]);
        zone
    }

    /// Adds a record. The serial number goes up with each.
    pub fn insert(&mut self, record: rr::Record)
        requires
            old(self)@.serial < u32::MAX,
        ensures
            final(self)@ == (AuthorityView {
                origin: old(self)@.origin,
                serial: (old(self)@.serial + 1) as u32,
                sets: upserted(old(self)@.sets, record@),
            }),
    {
        self.serial += 1;
        upsert(&mut self.sets, record);
    }

    /// The name of the zone.
    pub fn origin(&self) -> (r: &Fqdn)
        ensures
            r@ == self@.origin,
    {
        &self.origin
    }

    /// The records of the zone, in sets.
    pub fn sets(&self) -> (r: &Vec<Vec<rr::Record>>)
        ensures
            set_views(r@) == self@.sets,
    {
        &self.sets
    }

    /// The serial number of the zone.
    pub fn serial(&self) -> (r: u32)
        ensures
            r == self@.serial,
    {
        self.serial
    }
}

} // verus!
