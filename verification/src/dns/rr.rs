//! Resource records as they are sent in DNS messages.

use vstd::prelude::*;
use crate::ip::{Ipv4Addr, Ipv6Addr};
use crate::name::{fold, Fqdn};

verus! {

/// The type of a record.
#[derive(Clone, Copy, PartialEq, Eq, Debug, Hash, Structural)]
pub enum RecordType {
    A,
    Aaaa,
    Cname,
    Aname,
    Ptr,
    Ns,
    Soa,
    Other(u16),
}

/// The class of a record.
#[derive(Clone, Copy, PartialEq, Eq, Debug, Hash, Structural)]
pub enum DnsClass {
    In,
    Other(u16),
}

/// The outcome of a query.
#[derive(Clone, Copy, PartialEq, Eq, Debug, Hash, Structural)]
pub enum ResponseCode {
    NoError,
    FormErr,
    ServFail,
    NXDomain,
    NotImp,
    Refused,
    BadVers,
    Other(u16),
}

/// The start of authority of a zone.
#[derive(Debug)]
pub struct Soa {
    pub mname: Fqdn,
    pub rname: Fqdn,
    pub serial: u32,
    pub refresh: i32,
    pub retry: i32,
    pub expire: i32,
    pub minimum: u32,
}

/// The data of a record.
#[derive(Debug)]
pub enum RData {
    A(Ipv4Addr),
    Aaaa(Ipv6Addr),
    Cname(Fqdn),
    Aname(Fqdn),
    Ptr(Fqdn),
    Ns(Fqdn),
    Soa(Soa),
    Other(u16, Vec<u8>),
}

/// A record. Some messages carry records without data.
#[derive(Debug)]
pub struct Record {
    pub name: Fqdn,
    pub record_type: RecordType,
    pub class: DnsClass,
    pub ttl: u32,
    pub data: Option<RData>,
}

/// A start of authority, by the labels of its names.
#[verifier::ext_equal]
pub struct SoaView {
    pub mname: Seq<Seq<u8>>,
    pub rname: Seq<Seq<u8>>,
    pub serial: u32,
    pub refresh: i32,
    pub retry: i32,
    pub expire: i32,
    pub minimum: u32,
}

/// The data of a record, by the labels of its names.
#[verifier::ext_equal]
pub enum RDataView {
    A(Ipv4Addr),
    Aaaa(Ipv6Addr),
    Cname(Seq<Seq<u8>>),
    Aname(Seq<Seq<u8>>),
    Ptr(Seq<Seq<u8>>),
    Ns(Seq<Seq<u8>>),
    Soa(SoaView),
    Other(u16, Seq<u8>),
}

/// A record, by the labels of its names.
#[verifier::ext_equal]
pub struct RecordView {
    pub name: Seq<Seq<u8>>,
    pub record_type: RecordType,
    pub class: DnsClass,
    pub ttl: u32,
    pub data: Option<RDataView>,
}

/// The type of the records that hold some data.
pub open spec fn type_of(data: RDataView) -> RecordType {
    match data {
        RDataView::A(_) => RecordType::A,
        RDataView::Aaaa(_) => RecordType::Aaaa,
        RDataView::Cname(_) => RecordType::Cname,
        RDataView::Aname(_) => RecordType::Aname,
        RDataView::Ptr(_) => RecordType::Ptr,
        RDataView::Ns(_) => RecordType::Ns,
        RDataView::Soa(_) => RecordType::Soa,
        RDataView::Other(code, _) => RecordType::Other(code),
    }
}

/// Data with its names in lower case. Two data are the same when this is equal for both.
pub open spec fn fold_rdata(data: RDataView) -> RDataView {
    match data {
        RDataView::Cname(name) => RDataView::Cname(fold(name)),
        RDataView::Aname(name) => RDataView::Aname(fold(name)),
        RDataView::Ptr(name) => RDataView::Ptr(fold(name)),
        RDataView::Ns(name) => RDataView::Ns(fold(name)),
        RDataView::Soa(soa) => RDataView::Soa(
            SoaView { mname: fold(soa.mname), rname: fold(soa.rname), ..soa },
        ),
        _ => data,
    }
}

/// The record of the internet class that holds some data.
pub open spec fn record_of(name: Seq<Seq<u8>>, ttl: u32, data: RDataView) -> RecordView {
    RecordView {
        name,
        record_type: type_of(data),
        class: DnsClass::In,
        ttl,
        data: Some(data),
    }
}

/// The records of a list.
pub open spec fn views(records: Seq<Record>) -> Seq<RecordView> {
    Seq::new(records.len(), |i: int| records[i]@)
}

impl View for Soa {
    type V = SoaView;

    open spec fn view(&self) -> SoaView {
        SoaView {
            mname: self.mname@,
            rname: self.rname@,
            serial: self.serial,
            refresh: self.refresh,
            retry: self.retry,
            expire: self.expire,
            minimum: self.minimum,
        }
    }
}

impl View for RData {
    type V = RDataView;

    open spec fn view(&self) -> RDataView {
        match *self {
            RData::A(ip) => RDataView::A(ip),
            RData::Aaaa(ip) => RDataView::Aaaa(ip),
            RData::Cname(name) => RDataView::Cname(name@),
            RData::Aname(name) => RDataView::Aname(name@),
            RData::Ptr(name) => RDataView::Ptr(name@),
            RData::Ns(name) => RDataView::Ns(name@),
            RData::Soa(soa) => RDataView::Soa(soa@),
            RData::Other(code, data) => RDataView::Other(code, data@),
        }
    }
}

impl View for Record {
    type V = RecordView;

    open spec fn view(&self) -> RecordView {
        RecordView {
            name: self.name@,
            record_type: self.record_type,
            class: self.class,
            ttl: self.ttl,
            data: match self.data {
                Some(data) => Some(data@),
                None => None,
            },
        }
    }
}

impl RData {
    /// The type of the records that hold the data.
    pub fn record_type(&self) -> (r: RecordType)
        ensures
            r == type_of(self@),
    {
        match self {
            RData::A(_) => RecordType::A,
            RData::Aaaa(_) => RecordType::Aaaa,
            RData::Cname(_) => RecordType::Cname,
            RData::Aname(_) => RecordType::Aname,
            RData::Ptr(_) => RecordType::Ptr,
            RData::Ns(_) => RecordType::Ns,
            RData::Soa(_) => RecordType::Soa,
            RData::Other(code, _) => RecordType::Other(*code),
        }
    }

    /// Whether this is the same data as other data. The case of names does not matter.
    pub fn same(&self, other: &RData) -> (r: bool)
        ensures
            r == (fold_rdata(self@) == fold_rdata(other@)),
    {
        match (self, other) {
            (RData::A(a), RData::A(b)) => *a == *b,
            (RData::Aaaa(a), RData::Aaaa(b)) => *a == *b,
            (RData::Cname(a), RData::Cname(b)) => a.same(b),
            (RData::Aname(a), RData::Aname(b)) => a.same(b),
            (RData::Ptr(a), RData::Ptr(b)) => a.same(b),
            (RData::Ns(a), RData::Ns(b)) => a.same(b),
            (RData::Soa(a), RData::Soa(b)) => a.mname.same(&b.mname) && a.rname.same(&b.rname)
                && a.serial == b.serial && a.refresh == b.refresh && a.retry == b.retry && a.expire
                == b.expire && a.minimum == b.minimum,
            (RData::Other(a, x), RData::Other(b, y)) => *a == *b && same_bytes(x, y),
            _ => false,
        }
    }
}

/// Whether two lists of bytes are equal.
fn same_bytes(a: &Vec<u8>, b: &Vec<u8>) -> (r: bool)
    ensures
        r == (a@ == b@),
{
    if a.len() != b.len() {
        return false;
    }
    let mut i: usize = 0;
    while i < a.len()
        invariant
            i <= a.len(),
            a.len() == b.len(),
            forall|j: int| 0 <= j < i ==> #[trigger] a@[j] == b@[j],
        decreases a.len() - i,
    {
        if a[i] != b[i] {
            return false;
        }
        i += 1;
    }
    assert(a@ =~= b@);
    true
}

impl Record {
    /// A record of the internet class.
    pub fn from_rdata(name: Fqdn, ttl: u32, data: RData) -> (r: Record)
        ensures
            r@ == record_of(name@, ttl, data@),
    {
        Record {
            name,
            record_type: data.record_type(),
            class: DnsClass::In,
            ttl,
            data: Some(data),
        }
    }
}

impl Clone for Soa {
    fn clone(&self) -> (r: Self)
        ensures
            r@ == self@,
    {
        Soa {
            mname: self.mname.clone(),
            rname: self.rname.clone(),
            serial: self.serial,
            refresh: self.refresh,
            retry: self.retry,
            expire: self.expire,
            minimum: self.minimum,
        }
    }
}

impl Clone for RData {
    fn clone(&self) -> (r: Self)
        ensures
            r@ == self@,
    {
        match self {
            RData::A(ip) => RData::A(*ip),
            RData::Aaaa(ip) => RData::Aaaa(*ip),
            RData::Cname(name) => RData::Cname(name.clone()),
            RData::Aname(name) => RData::Aname(name.clone()),
            RData::Ptr(name) => RData::Ptr(name.clone()),
            RData::Ns(name) => RData::Ns(name.clone()),
            RData::Soa(soa) => RData::Soa(soa.clone()),
            RData::Other(code, data) => {
                let copy = data.clone();
                assert(copy@ =~= data@);
                RData::Other(*code, copy)
            },
        }
    }
}

impl Clone for Record {
    fn clone(&self) -> (r: Self)
        ensures
            r@ == self@,
    {
        Record {
            name: self.name.clone(),
            record_type: self.record_type,
            class: self.class,
            ttl: self.ttl,
            data: match &self.data {
                Some(data) => Some(data.clone()),
                None => None,
            },
        }
    }
}

/// A copy of records.
pub fn copy_records(records: &Vec<Record>) -> (r: Vec<Record>)
    ensures
        views(r@) == views(records@),
{
    let mut out: Vec<Record> = Vec::new();
    let mut i: usize = 0;
    while i < records.len()
        invariant
            i <= records.len(),
            views(out@) == views(records@).take(i as int),
        decreases records.len() - i,
    {
        let ghost before = views(out@);
        let record = records[i].clone();
        out.push(record);
        i += 1;
        assert(views(out@) =~= before.push(records@[i - 1]@));
        assert(views(out@) =~= views(records@).take(i as int));
    }
    assert(views(records@).take(i as int) =~= views(records@));
    out
}

/// Two data are the same exactly when they are equal but for the case of the names that they hold.
pub proof fn law_same_data(a: RDataView, b: RDataView)
    ensures
        fold_rdata(a) == fold_rdata(b) <==> match (a, b) {
            (RDataView::Cname(x), RDataView::Cname(y)) => fold(x) == fold(y),
            (RDataView::Aname(x), RDataView::Aname(y)) => fold(x) == fold(y),
            (RDataView::Ptr(x), RDataView::Ptr(y)) => fold(x) == fold(y),
            (RDataView::Ns(x), RDataView::Ns(y)) => fold(x) == fold(y),
            (RDataView::Soa(x), RDataView::Soa(y)) => {
                &&& fold(x.mname) == fold(y.mname)
                &&& fold(x.rname) == fold(y.rname)
                &&& x.serial == y.serial
                &&& x.refresh == y.refresh
                &&& x.retry == y.retry
                &&& x.expire == y.expire
                &&& x.minimum == y.minimum
            },
            _ => a == b,
        },
{
}

} // verus!
