//! The records that are served, and sets of them.

use vstd::prelude::*;
use crate::config::zones::ZoneConfig;
use crate::dns::rr;
use crate::dns::rr::{RDataView, RecordType};
use crate::ip::{IpAddr, Ipv4Addr, Ipv6Addr};
use crate::name::{fold, Fqdn, NameError};

verus! {

/// The data of a record.
#[derive(Debug)]
pub enum RData {
    A(Ipv4Addr),
    Aaaa(Ipv6Addr),
    Cname(Fqdn),
    Aname(Fqdn),
    Ptr(Fqdn),
}

impl View for RData {
    type V = RDataView;

    open spec fn view(&self) -> RDataView {
        match *self {
            RData::A(ip) => RDataView::A(ip),
            RData::Aaaa(ip) => RDataView::Aaaa(ip),
            RData::Cname(name) => RDataView::Cname(name@),
            RData::Aname(name) => RDataView::Aname(name@),
            RData::Ptr(name) => RDataView::Ptr(name@),
        }
    }
}

/// Whether data answers a query for a type. An alias answers every query, and a local alias
/// those for its own type and for addresses.
pub open spec fn answers(data: RDataView, query_type: RecordType) -> bool {
    match data {
        RDataView::Cname(_) => true,
        RDataView::Aname(_) => query_type == RecordType::A || query_type == RecordType::Aaaa
            || query_type == RecordType::Aname,
        _ => query_type == rr::type_of(data),
    }
}

/// The data for an IP address.
pub open spec fn ip_data(ip: IpAddr) -> RDataView {
    match ip {
        IpAddr::V4(ip) => RDataView::A(ip),
        IpAddr::V6(ip) => RDataView::Aaaa(ip),
    }
}

/// Data with its name in lower case.
pub open spec fn fold_data(data: RDataView) -> RDataView {
    match data {
        RDataView::Cname(name) => RDataView::Cname(fold(name)),
        RDataView::Aname(name) => RDataView::Aname(fold(name)),
        RDataView::Ptr(name) => RDataView::Ptr(fold(name)),
        _ => data,
    }
}

impl RData {
    /// Whether the data answers a query for a type.
    pub fn matches(&self, record_type: RecordType) -> (r: bool)
        ensures
            r == answers(self@, record_type),
    {
        match self {
            RData::Cname(_) => true,
            RData::Aname(_) => record_type == RecordType::A || record_type == RecordType::Aaaa
                || record_type == RecordType::Aname,
            RData::A(_) => record_type == RecordType::A,
            RData::Aaaa(_) => record_type == RecordType::Aaaa,
            RData::Ptr(_) => record_type == RecordType::Ptr,
        }
    }

    /// The type of the records that hold the data.
    pub fn record_type(&self) -> (r: RecordType)
        ensures
            r == rr::type_of(self@),
    {
        match self {
            RData::A(_) => RecordType::A,
            RData::Aaaa(_) => RecordType::Aaaa,
            RData::Cname(_) => RecordType::Cname,
            RData::Aname(_) => RecordType::Aname,
            RData::Ptr(_) => RecordType::Ptr,
        }
    }

    /// The data as it is sent.
    pub fn to_rr(&self) -> (r: rr::RData)
        ensures
            r@ == self@,
    {
        match self {
            RData::A(ip) => rr::RData::A(*ip),
            RData::Aaaa(ip) => rr::RData::Aaaa(*ip),
            RData::Cname(name) => rr::RData::Cname(name.clone()),
            RData::Aname(name) => rr::RData::Aname(name.clone()),
            RData::Ptr(name) => rr::RData::Ptr(name.clone()),
        }
    }

    /// The data for an IP address.
    pub fn from_ip(ip: IpAddr) -> (r: RData)
        ensures
            r@ == ip_data(ip),
    {
        match ip {
            IpAddr::V4(ip) => RData::A(ip),
            IpAddr::V6(ip) => RData::Aaaa(ip),
        }
    }

    /// Reads data: an IP address where the text is one, a local alias otherwise.
    pub fn from_text(s: &str) -> (r: Result<RData, NameError>)
        ensures
            match crate::ip::ip_from_text(s@) {
                Some(ip) => r is Ok && r->Ok_0@ == ip_data(ip),
                None => match crate::name::name_from_text(s@) {
                    Some(name) => r is Ok && r->Ok_0@ == RDataView::Aname(name),
                    None => r == Err::<RData, NameError>(NameError::Invalid),
                },
            },
    {
        match IpAddr::from_text(s) {
            Some(ip) => Ok(RData::from_ip(ip)),
            None => match Fqdn::from_text(s) {
                Ok(name) => Ok(RData::Aname(name)),
                Err(e) => Err(e),
            },
        }
    }

    /// Whether this is the same data as other data. The case of names does not matter.
    pub fn same(&self, other: &RData) -> (r: bool)
        ensures
            r == (fold_data(self@) == fold_data(other@)),
    {
        match (self, other) {
            (RData::A(a), RData::A(b)) => *a == *b,
            (RData::Aaaa(a), RData::Aaaa(b)) => *a == *b,
            (RData::Cname(a), RData::Cname(b)) => a.same(b),
            (RData::Aname(a), RData::Aname(b)) => a.same(b),
            (RData::Ptr(a), RData::Ptr(b)) => a.same(b),
            _ => false,
        }
    }
}

impl Clone for RData {
    fn clone(&self) -> (r: Self)
        ensures
            r@ == self@,
    {
        match self {
            RData::A(ip) => RData::A(*ip),
            RData::Aaaa(ip) => RData::Aaaa(*ip),
            RData::Cname(name) => RData::Cname(name.clone()),
            RData::Aname(name) => RData::Aname(name.clone()),
            RData::Ptr(name) => RData::Ptr(name.clone()),
        }
    }
}

/// A record. One without a lifetime takes that of its zone.
#[derive(Debug)]
pub struct Record {
    pub name: Fqdn,
    pub ttl: Option<u32>,
    pub rdata: RData,
}

/// A record, by the labels of its names.
#[verifier::ext_equal]
pub struct RecordView {
    pub name: Seq<Seq<u8>>,
    pub ttl: Option<u32>,
    pub rdata: RDataView,
}

impl View for Record {
    type V = RecordView;

    open spec fn view(&self) -> RecordView {
        RecordView { name: self.name@, ttl: self.ttl, rdata: self.rdata@ }
    }
}

/// A record with its names in lower case. Two records are the same record when this is equal for
/// both.
pub open spec fn fold_record(record: RecordView) -> RecordView {
    RecordView {
        name: fold(record.name),
        ttl: record.ttl,
        rdata: fold_data(record.rdata),
    }
}

/// Two records are the same record exactly when they have the same name, the same lifetime and the
/// same data, but for the case of names.
pub proof fn law_same_records(a: RecordView, b: RecordView)
    ensures
        fold_record(a) == fold_record(b) <==> fold(a.name) == fold(b.name) && a.ttl == b.ttl
            && match (a.rdata, b.rdata) {
            (RDataView::Cname(x), RDataView::Cname(y)) => fold(x) == fold(y),
            (RDataView::Aname(x), RDataView::Aname(y)) => fold(x) == fold(y),
            (RDataView::Ptr(x), RDataView::Ptr(y)) => fold(x) == fold(y),
            _ => a.rdata == b.rdata,
        },
{
    if fold_record(a) == fold_record(b) {
        assert(fold_record(a).name == fold_record(b).name);
        assert(fold_record(a).ttl == fold_record(b).ttl);
        assert(fold_record(a).rdata == fold_record(b).rdata);
    }
}

/// The lifetime of a record, where that of its zone is known.
pub open spec fn ttl_or(ttl: Option<u32>, default_ttl: u32) -> u32 {
    match ttl {
        Some(ttl) => ttl,
        None => default_ttl,
    }
}

/// A record as it is sent.
pub open spec fn raw_record(record: RecordView, default_ttl: u32) -> rr::RecordView {
    rr::record_of(record.name, ttl_or(record.ttl, default_ttl), record.rdata)
}

/// A record is sent under its name, in the internet class, with its data; its lifetime is its own, or
/// that of its zone where it has none.
pub proof fn law_records_are_sent_whole(record: RecordView, default_ttl: u32)
    ensures
        ({
            let sent = raw_record(record, default_ttl);
            &&& sent.name == record.name
            &&& sent.class == rr::DnsClass::In
            &&& sent.data == Some(record.rdata)
            &&& record.ttl matches Some(ttl) ==> sent.ttl == ttl
            &&& record.ttl is None ==> sent.ttl == default_ttl
            &&& match record.rdata {
                RDataView::A(_) => sent.record_type == rr::RecordType::A,
                RDataView::Aaaa(_) => sent.record_type == rr::RecordType::Aaaa,
                RDataView::Cname(_) => sent.record_type == rr::RecordType::Cname,
                RDataView::Aname(_) => sent.record_type == rr::RecordType::Aname,
                RDataView::Ptr(_) => sent.record_type == rr::RecordType::Ptr,
                RDataView::Ns(_) => sent.record_type == rr::RecordType::Ns,
                RDataView::Soa(_) => sent.record_type == rr::RecordType::Soa,
                RDataView::Other(code, _) => sent.record_type == rr::RecordType::Other(code),
            }
        }),
{
}

/// Whether a record would be an alias for itself.
pub open spec fn own_alias(name: Seq<Seq<u8>>, rdata: RDataView) -> bool {
    rdata matches RDataView::Cname(alias) && fold(name) == fold(alias)
}

impl Record {
    /// A record that takes its lifetime from its zone.
    pub fn new(name: Fqdn, rdata: RData) -> (r: Record)
        requires
            !own_alias(name@, rdata@),
        ensures
            r@ == (RecordView { name: name@, ttl: None, rdata: rdata@ }),
    {
        Record { name, ttl: None, rdata }
    }

    /// The name of the record.
    pub fn name(&self) -> (r: &Fqdn)
        ensures
            r@ == self@.name,
    {
        &self.name
    }

    /// The data of the record.
    pub fn rdata(&self) -> (r: &RData)
        ensures
            r@ == self@.rdata,
    {
        &self.rdata
    }

    /// The record as it is sent.
    pub fn raw(&self, config: &ZoneConfig) -> (r: rr::Record)
        ensures
            r@ == raw_record(self@, config.ttl),
    {
        let ttl: u32 = match self.ttl {
            Some(ttl) => ttl,
            None => config.ttl,
        };
        rr::Record::from_rdata(self.name.clone(), ttl, self.rdata.to_rr())
    }

    /// Whether this is the same record as another. The case of names does not matter.
    pub fn same(&self, other: &Record) -> (r: bool)
        ensures
            r == (fold_record(self@) == fold_record(other@)),
    {
        self.name.same(&other.name) && self.ttl == other.ttl && self.rdata.same(&other.rdata)
    }
}

impl Clone for Record {
    fn clone(&self) -> (r: Self)
        ensures
            r@ == self@,
    {
        Record { name: self.name.clone(), ttl: self.ttl, rdata: self.rdata.clone() }
    }
}

/// The records of a list.
pub open spec fn record_views(records: Seq<Record>) -> Seq<RecordView> {
    Seq::new(records.len(), |i: int| records[i]@)
}

} // verus!
