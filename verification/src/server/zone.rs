//! A zone: the records that are served for it, and where the rest is forwarded to.

use vstd::prelude::*;
use crate::config::zones::{hostmaster_label, ns_label};
use crate::dns::record::ttl_or;
use crate::dns::rr;
use crate::dns::rr::{views, RData, RDataView, Soa, SoaView};
use crate::name::{ascii_bytes, name_len, Fqdn};
use crate::record::{Record, RecordView};
use crate::server::sets::{copy_sets, in_sets, set_views, split_sets, upsert, upserted};
use crate::upstream::{Upstream, UpstreamResponse, UpstreamView};

verus! {

/// A zone, with its records in sets.
#[derive(Debug)]
pub struct Zone {
    origin: Fqdn,
    upstream: Option<Upstream>,
    default_ttl: u32,
    serial: u32,
    sets: Vec<Vec<rr::Record>>,
}

/// A zone, by the labels of its names.
#[verifier::ext_equal]
pub struct ZoneView {
    pub origin: Seq<Seq<u8>>,
    pub upstream: Option<UpstreamView>,
    pub default_ttl: u32,
    pub serial: u32,
    pub sets: Seq<Seq<rr::RecordView>>,
}

/// The upstream that there may be.
pub open spec fn upstream_view(upstream: Option<Upstream>) -> Option<UpstreamView> {
    match upstream {
        Some(upstream) => Some(upstream@),
        None => None,
    }
}

impl View for Zone {
    type V = ZoneView;

    closed spec fn view(&self) -> ZoneView {
        ZoneView {
            origin: self.origin@,
            upstream: upstream_view(self.upstream),
            default_ttl: self.default_ttl,
            serial: self.serial,
            sets: set_views(self.sets@),
        }
    }
}

/// The start of authority of a new zone.
pub open spec fn zone_soa(origin: Seq<Seq<u8>>) -> SoaView {
    SoaView {
        mname: ns_label() + origin,
        rname: hostmaster_label() + origin,
        serial: 1,
        refresh: 300,
        retry: 300,
        expire: 1800,
        minimum: 60,
    }
}

/// Whether the names that a zone needs below its own fit in a name.
pub open spec fn zone_fits(origin: Seq<Seq<u8>>) -> bool {
    name_len(origin) + 11 <= 255
}

/// A new zone: it holds its start of authority.
pub open spec fn new_zone(origin: Seq<Seq<u8>>, upstream: Option<UpstreamView>) -> ZoneView {
    ZoneView {
        origin,
        upstream,
        default_ttl: 300,
        serial: 2,
        sets: seq![seq![rr::record_of(origin, 300, RDataView::Soa(zone_soa(origin)))]],
    }
}

/// A zone with a record added, and the next serial number.
pub open spec fn zone_with(zone: ZoneView, record: RecordView) -> ZoneView {
    ZoneView {
        serial: (zone.serial + 1) as u32,
        sets: upserted(
            zone.sets,
            rr::record_of(record.name, ttl_or(record.ttl, zone.default_ttl), record.data),
        ),
        ..zone
    }
}

/// The start of authority below a name, with the times that are given.
pub(crate) fn make_soa(origin: &Fqdn, expire: i32, minimum: u32) -> (r: Soa)
    requires
        zone_fits(origin@),
    ensures
        r@ == (SoaView { expire, minimum, ..zone_soa(origin@) }),
{
    proof {
        crate::config::zones::lemma_zone_labels();
    }
    let mname = origin.child("ns").unwrap();
    let rname = origin.child("hostmaster").unwrap();
    Soa { mname, rname, serial: 1, refresh: 300, retry: 300, expire, minimum }
}

impl Zone {
    /// A new zone.
    pub fn new(origin: Fqdn, upstream: Option<Upstream>) -> (r: Zone)
        requires
            zone_fits(origin@),
        ensures
            r@ == new_zone(origin@, upstream_view(upstream)),
    {
        let soa = make_soa(&origin, 1800, 60);
        let name = origin.clone();
        let mut zone = Zone {
            origin,
            upstream,
            default_ttl: 300,
            serial: 1,
            sets: Vec::new(),
        };
        assert(zone@.sets =~= Seq::empty());
        zone.insert(Record::new(name, RData::Soa(soa)));
        assert(zone@ =~= new_zone(origin@, upstream_view(upstream)));
        zone
    }

    /// Adds a record.
    pub fn insert(&mut self, record: Record)
        requires
            old(self)@.serial < u32::MAX,
        ensures
            final(self)@ == zone_with(old(self)@, record@),
    {
        let ghost start = self@;
        let ttl: u32 = match record.ttl {
            Some(ttl) => ttl,
            None => self.default_ttl,
        };
        let rr = rr::Record::from_rdata(record.name, ttl, record.data);
        self.serial += 1;
        upsert(&mut self.sets, rr);
        assert(self@ =~= zone_with(start, record@));
    }

    /// The name of the zone.
    pub fn origin(&self) -> (r: &Fqdn)
        ensures
            r@ == self@.origin,
    {
        &self.origin
    }

    /// Where queries are forwarded to for names that the zone has no records for.
    pub fn upstream(&self) -> (r: &Option<Upstream>)
        ensures
            upstream_view(*r) == self@.upstream,
    {
        &self.upstream
    }

    /// The records of the zone, in sets.
    pub fn sets(&self) -> (r: &Vec<Vec<rr::Record>>)
        ensures
            set_views(r@) == self@.sets,
    {
        &self.sets
    }

    /// The serial number of the zone.
    pub fn serial(&self) -> (r: u32)
        ensures
            r == self@.serial,
    {
        self.serial
    }
}

impl Clone for Zone {
    fn clone(&self) -> (r: Self)
        ensures
            r@ == self@,
    {
        let upstream = match &self.upstream {
            Some(upstream) => Some(upstream.clone()),
            None => None,
        };
        Zone {
            origin: self.origin.clone(),
            upstream,
            default_ttl: self.default_ttl,
            serial: self.serial,
            sets: copy_sets(&self.sets),
        }
    }
}

/// Puts records in the sets that they belong to. There is nothing for no records.
pub fn records_to_set(records: Vec<rr::Record>) -> (r: Option<Vec<Vec<rr::Record>>>)
    ensures
        match r {
            Some(sets) => records@.len() > 0 && set_views(sets@) == in_sets(views(records@)),
            None => records@.len() == 0,
        },
{
    if records.len() == 0 {
        None
    } else {
        Some(split_sets(records))
    }
}

/// The sets of the answers and of the additional records of a reply. There is nothing where no
/// answer came.
pub fn lookup_from_response(response: UpstreamResponse) -> (r: Option<
    (Vec<Vec<rr::Record>>, Option<Vec<Vec<rr::Record>>>),
>)
    ensures
        match r {
            Some((answers, additionals)) => {
                &&& response.answers@.len() > 0
                &&& set_views(answers@) == in_sets(views(response.answers@))
                &&& match additionals {
                    Some(sets) => response.additionals@.len() > 0 && set_views(sets@) == in_sets(
                        views(response.additionals@),
                    ),
                    None => response.additionals@.len() == 0,
                }
            },
            None => response.answers@.len() == 0,
        },
{
    match records_to_set(response.answers) {
        Some(answers) => Some((answers, records_to_set(response.additionals))),
        None => None,
    }
}

/// What a zone's own records gave for a query.
#[derive(Clone, Copy, PartialEq, Eq, Debug, Hash, Structural)]
pub enum Outcome {
    Found,
    NxDomain,
    Failed,
}

/// Whether a query goes on to the upstream: only where the zone has no such name.
pub fn forwards(outcome: Outcome) -> (r: bool)
    ensures
        r == (outcome == Outcome::NxDomain),
{
    match outcome {
        Outcome::NxDomain => true,
        _ => false,
    }
}

/// A new zone holds its start of authority and nothing else. Its records last five minutes where they
/// do not say otherwise.
pub proof fn law_new_zones_hold_their_authority(
    origin: Seq<Seq<u8>>,
    upstream: Option<UpstreamView>,
)
    ensures
        ({
            let zone = new_zone(origin, upstream);
            &&& zone.origin == origin
            &&& zone.upstream == upstream
            &&& zone.default_ttl == 5 * 60
            &&& zone.serial == 2
            &&& zone.sets.len() == 1
            &&& zone.sets[0].len() == 1
            &&& zone.sets[0][0] == (rr::RecordView {
                name: origin,
                record_type: rr::RecordType::Soa,
                class: rr::DnsClass::In,
                ttl: 300,
                data: Some(
                    RDataView::Soa(
                        SoaView {
                            mname: seq![ascii_bytes(seq!['n', 's'])] + origin,
                            rname: seq![
                                ascii_bytes(
                                    seq!['h', 'o', 's', 't', 'm', 'a', 's', 't', 'e', 'r'],
                                ),
                            ] + origin,
                            serial: 1,
                            refresh: 300,
                            retry: 300,
                            expire: 1800,
                            minimum: 60,
                        },
                    ),
                ),
            })
        }),
{
    assert(ascii_bytes(seq!['n', 's']) =~= ns_label()[0]);
    assert(seq![ascii_bytes(seq!['n', 's'])] =~= ns_label());
    let keeper = seq!['h', 'o', 's', 't', 'm', 'a', 's', 't', 'e', 'r'];
    assert(ascii_bytes(keeper) =~= hostmaster_label()[0]);
    assert(seq![ascii_bytes(keeper)] =~= hostmaster_label());
}

/// A zone takes a record whole, with the lifetime of the zone where the record has none, and then has
/// the next serial number. Nothing else of the zone changes.
pub proof fn law_zones_count_their_records(zone: ZoneView, record: RecordView)
    requires
        zone.serial < u32::MAX,
    ensures
        ({
            let after = zone_with(zone, record);
            &&& after.serial == zone.serial + 1
            &&& after.origin == zone.origin
            &&& after.upstream == zone.upstream
            &&& after.default_ttl == zone.default_ttl
            &&& exists|sent: rr::RecordView|
                after.sets == #[trigger] upserted(zone.sets, sent) && sent.name == record.name
                    && sent.class == rr::DnsClass::In && sent.data == Some(record.data) && sent.ttl
                    == match record.ttl {
                    Some(ttl) => ttl,
                    None => zone.default_ttl,
                } && (record.data is A ==> sent.record_type == rr::RecordType::A) && (
                record.data is Aaaa ==> sent.record_type == rr::RecordType::Aaaa) && (
                record.data is Cname ==> sent.record_type == rr::RecordType::Cname)
        }),
{
    let sent = rr::record_of(record.name, ttl_or(record.ttl, zone.default_ttl), record.data);
    assert(zone_with(zone, record).sets == upserted(zone.sets, sent));
}

} // verus!
