//! Records that are shared between sources, and following them from host to host.

use vstd::prelude::*;
use vstd::seq_lib::*;
use vstd::set_lib::*;
use crate::config::host::{Host, HostView};
use crate::dns::record::{fold_data, own_alias};
use crate::dns::rr::{RData, RDataView};
use crate::ip::IpAddr;
use crate::name::{ascii_name_text, fold, host_from_text, Fqdn};

verus! {

/// A record. One without a lifetime takes that of its zone.
#[derive(Debug)]
pub struct Record {
    pub name: Fqdn,
    pub ttl: Option<u32>,
    pub data: RData,
}

/// A record, by the labels of its names.
#[verifier::ext_equal]
pub struct RecordView {
    pub name: Seq<Seq<u8>>,
    pub ttl: Option<u32>,
    pub data: RDataView,
}

impl View for Record {
    type V = RecordView;

    open spec fn view(&self) -> RecordView {
        RecordView { name: self.name@, ttl: self.ttl, data: self.data@ }
    }
}

/// A record with its names in lower case. Two records are the same record when this is equal for
/// both.
pub open spec fn folded(record: RecordView) -> RecordView {
    RecordView { name: fold(record.name), ttl: record.ttl, data: fold_data(record.data) }
}

/// Whether data is of a kind that sets of records take: an address or an alias.
pub open spec fn settable(data: RDataView) -> bool {
    data is A || data is Aaaa || data is Cname
}

/// The data that a text stands for: an address where it is one, an alias otherwise.
pub open spec fn data_of_text(s: Seq<char>) -> RDataView {
    match crate::ip::ip_from_text(s) {
        Some(IpAddr::V4(ip)) => RDataView::A(ip),
        Some(IpAddr::V6(ip)) => RDataView::Aaaa(ip),
        None => RDataView::Cname(host_from_text(s)->0),
    }
}

/// The name that a text stands for.
pub fn fqdn(name: &str) -> (r: Fqdn)
    requires
        host_from_text(name@) is Some,
    ensures
        Some(r@) == host_from_text(name@),
{
    Fqdn::from_host_text(name).unwrap()
}

/// The name that a text stands for, if it is valid.
pub fn try_fqdn(name: &str) -> (r: Option<Fqdn>)
    ensures
        match r {
            Some(fqdn) => host_from_text(name@) == Some(fqdn@),
            None => host_from_text(name@) is None,
        },
{
    if Fqdn::from_host_text(name).is_some() {
        Some(fqdn(name))
    } else {
        None
    }
}

/// The data that a text stands for.
pub fn rdata(name: &str) -> (r: RData)
    requires
        crate::ip::ip_from_text(name@) is Some || host_from_text(name@) is Some,
    ensures
        r@ == data_of_text(name@),
{
    match IpAddr::from_text(name) {
        Some(IpAddr::V4(ip)) => RData::A(ip),
        Some(IpAddr::V6(ip)) => RData::Aaaa(ip),
        None => RData::Cname(fqdn(name)),
    }
}

/// The data that a text stands for, if it is an address or a valid name.
pub fn try_rdata(name: &str) -> (r: Option<RData>)
    ensures
        r is Some <==> crate::ip::ip_from_text(name@) is Some || host_from_text(name@) is Some,
        r matches Some(data) ==> data@ == data_of_text(name@),
{
    if IpAddr::from_text(name).is_some() || Fqdn::from_host_text(name).is_some() {
        Some(rdata(name))
    } else {
        None
    }
}

impl Record {
    /// A record that takes its lifetime from its zone.
    pub fn new(name: Fqdn, data: RData) -> (r: Record)
        requires
            !own_alias(name@, data@),
        ensures
            r@ == (RecordView { name: name@, ttl: None, data: data@ }),
    {
        Record { name, data, ttl: None }
    }

    /// Whether this is the same record as another, of those that sets take.
    pub fn same(&self, other: &Record) -> (r: bool)
        requires
            settable(self@.data),
            settable(other@.data),
        ensures
            r == (folded(self@) == folded(other@)),
    {
        let same_data = match (&self.data, &other.data) {
            (RData::A(a), RData::A(b)) => *a == *b,
            (RData::Aaaa(a), RData::Aaaa(b)) => *a == *b,
            (RData::Cname(a), RData::Cname(b)) => a.same(b),
            _ => false,
        };
        self.name.same(&other.name) && self.ttl == other.ttl && same_data
    }
}

impl Clone for Record {
    fn clone(&self) -> (r: Self)
        ensures
            r@ == self@,
    {
        Record { name: self.name.clone(), ttl: self.ttl, data: self.data.clone() }
    }
}

/// The records of a list.
pub open spec fn record_views(records: Seq<Record>) -> Seq<RecordView> {
    Seq::new(records.len(), |i: int| records[i]@)
}

/// Whether sets take all records of a list.
pub open spec fn all_settable(records: Seq<RecordView>) -> bool {
    forall|i: int| 0 <= i < records.len() ==> settable((#[trigger] records[i]).data)
}

/// Whether a record is among records.
pub open spec fn among(records: Seq<RecordView>, record: RecordView) -> bool {
    exists|i: int| 0 <= i < records.len() && folded(#[trigger] records[i]) == folded(record)
}

/// Whether all records of a list are among others.
pub open spec fn all_among(records: Seq<RecordView>, others: Seq<RecordView>) -> bool {
    forall|i: int| 0 <= i < records.len() ==> among(others, #[trigger] records[i])
}

/// Whether two lists hold the same records, whatever their order.
pub open spec fn same_records(a: Seq<RecordView>, b: Seq<RecordView>) -> bool {
    all_among(a, b) && all_among(b, a)
}

/// Records with more of them added, each unless it is there.
pub open spec fn added(records: Seq<RecordView>, more: Seq<RecordView>) -> Seq<RecordView>
    decreases more.len(),
{
    if more.len() == 0 {
        records
    } else {
        let before = added(records, more.drop_last());
        if among(before, more.last()) {
            before
        } else {
            before.push(more.last())
        }
    }
}

/// The place of the first record under a name, or the number of records.
pub open spec fn first_under(records: Seq<RecordView>, name: Seq<Seq<u8>>) -> int
    decreases records.len(),
{
    if records.len() == 0 {
        0
    } else {
        let place = first_under(records.drop_last(), name);
        if place < records.len() - 1 {
            place
        } else if fold(records.last().name) == fold(name) {
            records.len() - 1
        } else {
            records.len() as int
        }
    }
}

/// The host that data leads to.
pub open spec fn data_host(data: RDataView) -> Option<HostView> {
    match data {
        RDataView::A(ip) => Some(HostView::Ipv4(ip)),
        RDataView::Aaaa(ip) => Some(HostView::Ipv6(ip)),
        RDataView::Cname(name) => Some(HostView::Name(ascii_name_text(name))),
        _ => None,
    }
}

/// The host that the first record under a name leads to.
pub open spec fn led_host(records: Seq<RecordView>, name: Seq<Seq<u8>>) -> Option<HostView> {
    let place = first_under(records, name);
    if place < records.len() {
        data_host(records[place].data)
    } else {
        None
    }
}

/// The host that records lead to from a host, by so many of them at most. There is none where they
/// lead further, or to a name that is not valid.
pub open spec fn host_within(records: Seq<RecordView>, host: HostView, depth: nat) -> Option<
    HostView,
>
    decreases depth,
{
    match host {
        HostView::Name(text) => match host_from_text(text) {
            Some(name) => match led_host(records, name) {
                Some(next) => if depth == 0 {
                    None
                } else {
                    host_within(records, next, (depth - 1) as nat)
                },
                None => Some(host),
            },
            None => None,
        },
        _ => Some(host),
    }
}

/// The host that records lead to from a host. There is none where they lead round in a circle, or
/// to a name that is not valid.
pub open spec fn resolved_host(records: Seq<RecordView>, host: HostView) -> Option<HostView> {
    host_within(records, host, records.len())
}

/// The place of the record that leads on from a host.
spec fn hop(records: Seq<RecordView>, host: HostView) -> int {
    first_under(records, host_from_text(host->Name_0)->0)
}

/// The host after so many records that lead on from a host.
spec fn after_hops(records: Seq<RecordView>, host: HostView, count: nat) -> HostView
    decreases count,
{
    if count == 0 {
        host
    } else {
        data_host(
            records[hop(records, after_hops(records, host, (count - 1) as nat))].data,
        )->0
    }
}

/// Whether a host is a valid name that some record leads on from.
spec fn leads_on(records: Seq<RecordView>, host: HostView) -> bool {
    host matches HostView::Name(text) && (host_from_text(text) matches Some(name) && led_host(
        records,
        name,
    ) is Some)
}

/// The place of the first record under a name is a place.
proof fn lemma_first_under(records: Seq<RecordView>, name: Seq<Seq<u8>>)
    ensures
        0 <= first_under(records, name) <= records.len(),
    decreases records.len(),
{
    if records.len() > 0 {
        lemma_first_under(records.drop_last(), name);
    }
}

/// What is found from the host that so many records lead to.
proof fn lemma_from_hops(records: Seq<RecordView>, host: HostView, count: nat, depth: nat)
    requires
        count <= depth,
        forall|k: nat| k < count ==> leads_on(records, #[trigger] after_hops(records, host, k)),
    ensures
        host_within(records, host, depth) == host_within(
            records,
            after_hops(records, host, count),
            (depth - count) as nat,
        ),
    decreases count,
{
    if count > 0 {
        lemma_from_hops(records, host, (count - 1) as nat, depth);
        assert(leads_on(records, after_hops(records, host, (count - 1) as nat)));
    }
}

/// Where nothing is found though every name is valid, records lead on for as long as the depth.
proof fn lemma_lost_leads_on(records: Seq<RecordView>, host: HostView, depth: nat, deeper: nat)
    requires
        host_within(records, host, depth) is None,
        host_within(records, host, deeper) is Some,
    ensures
        depth < deeper,
        forall|k: nat| k <= depth ==> leads_on(records, #[trigger] after_hops(records, host, k)),
    decreases depth,
{
    if let HostView::Name(text) = host {
        assert(host_from_text(text) is Some);
        let name = host_from_text(text)->0;
        assert(led_host(records, name) is Some);
        assert(leads_on(records, host));
        let next = led_host(records, name)->0;
        if depth > 0 {
            lemma_lost_leads_on(records, next, (depth - 1) as nat, (deeper - 1) as nat);
        }
        assert forall|k: nat| k <= depth implies leads_on(
            records,
            #[trigger] after_hops(records, host, k),
        ) by {
            if k > 0 {
                lemma_hops_shift(records, host, (k - 1) as nat);
                assert(after_hops(records, host, k) == after_hops(records, next, (k - 1) as nat));
            }
        }
    }
}

/// One record and then more are as many and one more.
proof fn lemma_hops_shift(records: Seq<RecordView>, host: HostView, count: nat)
    ensures
        after_hops(records, host, count + 1) == after_hops(
            records,
            data_host(records[hop(records, host)].data)->0,
            count,
        ),
    decreases count,
{
    if count > 0 {
        lemma_hops_shift(records, host, (count - 1) as nat);
    } else {
        assert(after_hops(records, host, 0) == host);
    }
}

/// The host that records lead to is found wherever they do not lead round in a circle: what any
/// depth finds is found.
pub proof fn law_only_circles_have_no_host(records: Seq<RecordView>, host: HostView, depth: nat)
    requires
        host_within(records, host, depth) is Some,
    ensures
        resolved_host(records, host) == host_within(records, host, depth),
{
    let n = records.len();
    if host_within(records, host, n) is None {
        lemma_lost_leads_on(records, host, n, depth);
        let places = Seq::new(n + 1, |k: int| hop(records, after_hops(records, host, k as nat)));
        assert forall|k: int| 0 <= k < places.len() implies 0 <= #[trigger] places[k] < n by {
            let at = after_hops(records, host, k as nat);
            assert(leads_on(records, at));
            lemma_first_under(records, host_from_text(at->Name_0)->0);
        }
        lemma_places_repeat(places, n);
        let (i, j) = choose|i: int, j: int|
            0 <= i < j < places.len() && #[trigger] places[i] == #[trigger] places[j];
        let a = after_hops(records, host, (i + 1) as nat);
        assert(a == after_hops(records, host, (j + 1) as nat));
        lemma_circle(records, host, (i + 1) as nat, (j + 1) as nat, depth);
    } else {
        lemma_host_deeper(records, host, n, depth);
        lemma_host_deeper(records, host, depth, n);
    }
}

/// More depth does not change what is found.
proof fn lemma_host_deeper(records: Seq<RecordView>, host: HostView, a: nat, b: nat)
    requires
        host_within(records, host, a) is Some,
    ensures
        a <= b ==> host_within(records, host, b) == host_within(records, host, a),
    decreases a,
{
    if let HostView::Name(text) = host {
        let name = host_from_text(text)->0;
        if let Some(next) = led_host(records, name) {
            if a <= b && a > 0 {
                lemma_host_deeper(records, next, (a - 1) as nat, (b - 1) as nat);
            }
        }
    }
}

/// More places than there are records hold one of them twice.
proof fn lemma_places_repeat(s: Seq<int>, n: nat)
    requires
        s.len() > n,
        forall|i: int| 0 <= i < s.len() ==> 0 <= #[trigger] s[i] < n,
    ensures
        exists|i: int, j: int| 0 <= i < j < s.len() && #[trigger] s[i] == #[trigger] s[j],
{
    if forall|i: int, j: int| 0 <= i < j < s.len() ==> #[trigger] s[i] != #[trigger] s[j] {
        assert(s.no_duplicates());
        s.unique_seq_to_set();
        let range = set_int_range(0, n as int);
        lemma_int_range(0, n as int);
        assert(s.to_set().subset_of(range)) by {
            assert forall|x: int| s.to_set().contains(x) implies range.contains(x) by {
                assert(s.contains(x));
            }
        }
        lemma_len_subset(s.to_set(), range);
    }
}

/// A host that records lead back to leads on for ever, so nothing is found from it.
proof fn lemma_circle(
    records: Seq<RecordView>,
    host: HostView,
    i: nat,
    j: nat,
    depth: nat,
)
    requires
        i < j,
        after_hops(records, host, i) == after_hops(records, host, j),
        forall|k: nat| k < j ==> leads_on(records, #[trigger] after_hops(records, host, k)),
    ensures
        host_within(records, host, depth) is None,
    decreases depth,
{
    if depth < j {
        lemma_from_hops(records, host, depth, depth);
        assert(leads_on(records, after_hops(records, host, depth)));
    } else {
        // Leaving out one round finds the same with less depth.
        lemma_from_hops(records, host, j, depth);
        lemma_from_hops(records, host, i, (depth - (j - i)) as nat);
        lemma_circle(records, host, i, j, (depth - (j - i)) as nat);
    }
}

/// A set of records that sources share.
#[derive(Debug)]
pub struct SharedRecordSet {
    records: Vec<Record>,
}

impl View for SharedRecordSet {
    type V = Seq<RecordView>;

    closed spec fn view(&self) -> Seq<RecordView> {
        record_views(self.records@)
    }
}

/// Adds records, each unless it is there.
fn add_all(records: &mut Vec<Record>, more: &Vec<Record>)
    requires
        all_settable(record_views(old(records)@)),
        all_settable(record_views(more@)),
    ensures
        record_views(final(records)@) == added(record_views(old(records)@), record_views(more@)),
        all_settable(record_views(final(records)@)),
{
    let ghost start = record_views(records@);
    let ghost all = record_views(more@);
    let mut i: usize = 0;
    assert(all.take(0) =~= Seq::empty());
    while i < more.len()
        invariant
            i <= more.len(),
            all == record_views(more@),
            all_settable(all),
            all_settable(record_views(records@)),
            record_views(records@) == added(start, all.take(i as int)),
        decreases more.len() - i,
    {
        let ghost before = record_views(records@);
        assert(all.take(i + 1).drop_last() =~= all.take(i as int));
        assert(all.take(i + 1).last() == all[i as int]);
        let mut present = false;
        let mut k: usize = 0;
        while k < records.len()
            invariant
                k <= records.len(),
                i < more.len(),
                before == record_views(records@),
                all == record_views(more@),
                all_settable(all),
                all_settable(before),
                present ==> among(before, all[i as int]),
                !present ==> forall|j: int|
                    0 <= j < k ==> folded(#[trigger] before[j]) != folded(all[i as int]),
            decreases records.len() - k,
        {
            assert(settable(before[k as int].data) && settable(all[i as int].data));
            if records[k].same(&more[i]) {
                assert(folded(before[k as int]) == folded(all[i as int]));
                present = true;
            }
            k += 1;
        }
        if !present {
            let record = more[i].clone();
            records.push(record);
            assert(record_views(records@) =~= before.push(all[i as int]));
        }
        i += 1;
    }
    assert(all.take(i as int) =~= all);
}

impl SharedRecordSet {
    #[verifier::type_invariant]
    closed spec fn inv(self) -> bool {
        all_settable(record_views(self.records@))
    }

    /// A set of records.
    pub fn new(records: &Vec<Record>) -> (r: SharedRecordSet)
        requires
            all_settable(record_views(records@)),
        ensures
            r@ == added(Seq::empty(), record_views(records@)),
    {
        let mut set: Vec<Record> = Vec::new();
        assert(record_views(set@) =~= Seq::empty());
        add_all(&mut set, records);
        SharedRecordSet { records: set }
    }

    /// Adds records.
    pub fn add_records(&mut self, new_records: &Vec<Record>)
        requires
            all_settable(record_views(new_records@)),
        ensures
            final(self)@ == added(old(self)@, record_views(new_records@)),
    {
        proof {
            use_type_invariant(&*self);
        }
        let mut this = SharedRecordSet { records: Vec::new() };
        core::mem::swap(self, &mut this);
        let SharedRecordSet { mut records } = this;
        add_all(&mut records, new_records);
        *self = SharedRecordSet { records };
    }

    /// Puts records in place of those that were there.
    pub fn replace_records(&mut self, new_records: &Vec<Record>)
        requires
            all_settable(record_views(new_records@)),
        ensures
            final(self)@ == added(Seq::empty(), record_views(new_records@)),
    {
        let mut set: Vec<Record> = Vec::new();
        assert(record_views(set@) =~= Seq::empty());
        add_all(&mut set, new_records);
        self.records = set;
    }

    /// Whether the records of this set are all in another.
    fn within(&self, other: &SharedRecordSet) -> (r: bool)
        ensures
            r == all_among(self@, other@),
    {
        proof {
            use_type_invariant(self);
            use_type_invariant(other);
        }
        let ghost all = record_views(self.records@);
        let ghost others = record_views(other.records@);
        let mut i: usize = 0;
        while i < self.records.len()
            invariant
                i <= self.records.len(),
                all == record_views(self.records@),
                others == record_views(other.records@),
                all_settable(all),
                all_settable(others),
                forall|j: int| 0 <= j < i ==> among(others, #[trigger] all[j]),
            decreases self.records.len() - i,
        {
            let mut k: usize = 0;
            let mut present = false;
            while k < other.records.len()
                invariant
                    k <= other.records.len(),
                    i < self.records.len(),
                    all == record_views(self.records@),
                    others == record_views(other.records@),
                    all_settable(all),
                    all_settable(others),
                    present ==> among(others, all[i as int]),
                    !present ==> forall|j: int|
                        0 <= j < k ==> folded(#[trigger] others[j]) != folded(all[i as int]),
                decreases other.records.len() - k,
            {
                assert(settable(others[k as int].data) && settable(all[i as int].data));
                if other.records[k].same(&self.records[i]) {
                    assert(folded(others[k as int]) == folded(all[i as int]));
                    present = true;
                }
                k += 1;
            }
            if !present {
                assert(!among(others, all[i as int]));
                return false;
            }
            i += 1;
        }
        true
    }

    /// Whether this set holds the same records as another.
    pub fn same(&self, other: &SharedRecordSet) -> (r: bool)
        ensures
            r == same_records(self@, other@),
    {
        self.within(other) && other.within(self)
    }

    /// The host that the first record under a name leads to.
    fn lead(&self, name: &Fqdn) -> (r: Option<Host>)
        ensures
            match r {
                Some(host) => led_host(self@, name@) == Some(host@),
                None => led_host(self@, name@) is None,
            },
    {
        let ghost all = record_views(self.records@);
        let mut i: usize = 0;
        let mut place: usize = 0;
        assert(all.take(0) =~= Seq::empty());
        while i < self.records.len()
            invariant
                i <= self.records.len(),
                all == record_views(self.records@),
                place <= i,
                place == first_under(all.take(i as int), name@),
            decreases self.records.len() - i,
        {
            assert(all.take(i + 1).drop_last() =~= all.take(i as int));
            assert(all.take(i + 1).last() == all[i as int]);
            if place == i && !self.records[i].name.same(name) {
                place = i + 1;
            }
            i += 1;
        }
        assert(all.take(i as int) =~= all);
        if place < self.records.len() {
            match &self.records[place].data {
                RData::A(ip) => Some(Host::Ipv4(*ip)),
                RData::Aaaa(ip) => Some(Host::Ipv6(*ip)),
                RData::Cname(name) => Some(Host::from_name(name)),
                _ => None,
            }
        } else {
            None
        }
    }

    /// Follows the records from a host.
    fn follow(&self, address: &Host) -> (r: Option<Host>)
        ensures
            match r {
                Some(host) => resolved_host(self@, address@) == Some(host@),
                None => resolved_host(self@, address@) is None,
            },
    {
        let mut host = address.clone();
        let mut depth: usize = self.records.len();
        loop
            invariant
                resolved_host(self@, address@) == host_within(self@, host@, depth as nat),
            decreases depth,
        {
            let next = match &host {
                Host::Name(text) => match Fqdn::from_host_text(text.as_str()) {
                    Some(name) => self.lead(&name),
                    None => {
                        return None;
                    },
                },
                _ => None,
            };
            match next {
                Some(next) => {
                    if depth == 0 {
                        return None;
                    }
                    host = next;
                    depth -= 1;
                },
                None => {
                    return Some(host);
                },
            }
        }
    }

    /// The host that the records lead to from a host.
    pub fn resolve(&self, address: &Host) -> (r: Host)
        requires
            resolved_host(self@, address@) is Some,
        ensures
            Some(r@) == resolved_host(self@, address@),
    {
        self.follow(address).unwrap()
    }

    /// The host that the records lead to from a host, unless they lead round in a circle or to a
    /// name that is not valid.
    pub fn try_resolve(&self, address: &Host) -> (r: Option<Host>)
        ensures
            match r {
                Some(host) => resolved_host(self@, address@) == Some(host@),
                None => resolved_host(self@, address@) is None,
            },
    {
        if self.follow(address).is_some() {
            Some(self.resolve(address))
        } else {
            None
        }
    }
}

/// Two records are the same record exactly when they have the same name, the same lifetime and the
/// same data, but for the case of names.
pub proof fn law_same_records(a: RecordView, b: RecordView)
    ensures
        folded(a) == folded(b) <==> fold(a.name) == fold(b.name) && a.ttl == b.ttl && match (
            a.data,
            b.data,
        ) {
            (RDataView::Cname(x), RDataView::Cname(y)) => fold(x) == fold(y),
            (RDataView::Aname(x), RDataView::Aname(y)) => fold(x) == fold(y),
            (RDataView::Ptr(x), RDataView::Ptr(y)) => fold(x) == fold(y),
            _ => a.data == b.data,
        },
{
    if folded(a) == folded(b) {
        assert(folded(a).name == folded(b).name);
        assert(folded(a).ttl == folded(b).ttl);
        assert(folded(a).data == folded(b).data);
    }
}

/// After records were added, a record is there exactly when it was there before or is one of those
/// added, and none is there twice where none was.
pub proof fn law_all_records_are_added(
    records: Seq<RecordView>,
    more: Seq<RecordView>,
    record: RecordView,
)
    ensures
        among(added(records, more), record) <==> among(records, record) || among(more, record),
        (forall|i: int, j: int|
            0 <= i < j < records.len() ==> folded(#[trigger] records[i]) != folded(
                #[trigger] records[j],
            )) ==> forall|i: int, j: int|
            0 <= i < j < added(records, more).len() ==> folded(#[trigger] added(records, more)[i])
                != folded(#[trigger] added(records, more)[j]),
    decreases more.len(),
{
    if more.len() > 0 {
        let front = more.drop_last();
        let last = more.last();
        let before = added(records, front);
        let after = added(records, more);
        law_all_records_are_added(records, front, record);
        lemma_among_last(more, record);
        if !among(before, last) {
            assert(after.drop_last() =~= before);
            lemma_among_last(after, record);
            if forall|i: int, j: int|
                0 <= i < j < before.len() ==> folded(#[trigger] before[i]) != folded(
                    #[trigger] before[j],
                ) {
                assert forall|i: int, j: int| 0 <= i < j < after.len() implies folded(
                    #[trigger] after[i],
                ) != folded(#[trigger] after[j]) by {
                    assert(after[i] == before[i]);
                    if j < before.len() {
                        assert(after[j] == before[j]);
                    }
                }
            }
        } else if folded(last) == folded(record) {
            let i = choose|i: int|
                0 <= i < before.len() && folded(#[trigger] before[i]) == folded(last);
            assert(folded(before[i]) == folded(record));
        }
    }
}

/// One of some records is the last, or one before it.
proof fn lemma_among_last(records: Seq<RecordView>, record: RecordView)
    requires
        records.len() > 0,
    ensures
        among(records, record) <==> among(records.drop_last(), record) || folded(records.last())
            == folded(record),
{
    let front = records.drop_last();
    assert(records[records.len() - 1] == records.last());
    if among(records, record) {
        let i = choose|i: int|
            0 <= i < records.len() && folded(#[trigger] records[i]) == folded(record);
        if i < front.len() {
            assert(front[i] == records[i]);
        }
    }
    if among(front, record) {
        let i = choose|i: int|
            0 <= i < front.len() && folded(#[trigger] front[i]) == folded(record);
        assert(records[i] == front[i]);
    }
}

/// Whether a record is the first under a name.
pub open spec fn is_first(records: Seq<RecordView>, e: int, name: Seq<Seq<u8>>) -> bool {
    &&& 0 <= e < records.len()
    &&& fold(records[e].name) == fold(name)
    &&& forall|j: int| 0 <= j < e ==> fold((#[trigger] records[j]).name) != fold(name)
}

/// Whether the first record under the name that a host has leads to another host: to its address, or
/// to the name that it is an alias of.
pub open spec fn leads_from(records: Seq<RecordView>, host: HostView, next: HostView) -> bool {
    exists|e: int|
        #[trigger] is_first(records, e, host_from_text(host->Name_0)->0) && match records[e].data {
            RDataView::A(ip) => next == HostView::Ipv4(ip),
            RDataView::Aaaa(ip) => next == HostView::Ipv6(ip),
            RDataView::Cname(name) => next == HostView::Name(ascii_name_text(name)),
            _ => false,
        }
}

/// Whether a list of hosts leads from its first to its last: each but the last has a valid name whose
/// first record leads to the next, and the last is an address, or has a valid name that leads nowhere.
pub open spec fn is_host_route(records: Seq<RecordView>, hosts: Seq<HostView>) -> bool {
    &&& hosts.len() > 0
    &&& forall|k: int|
        0 <= k < hosts.len() && #[trigger] hosts[k] is Name ==> host_from_text(
            hosts[k]->Name_0,
        ) is Some
    &&& forall|k: int|
        0 <= k < hosts.len() - 1 ==> #[trigger] hosts[k] is Name && leads_from(
            records,
            hosts[k],
            hosts[k + 1],
        )
    &&& hosts.last() is Name ==> forall|next: HostView|
        !#[trigger] leads_from(records, hosts.last(), next)
}

/// The place of the first record under a name.
proof fn lemma_is_first(records: Seq<RecordView>, name: Seq<Seq<u8>>)
    ensures
        0 <= first_under(records, name) <= records.len(),
        first_under(records, name) < records.len() ==> is_first(
            records,
            first_under(records, name),
            name,
        ),
        forall|e: int| #[trigger] is_first(records, e, name) ==> e == first_under(records, name),
    decreases records.len(),
{
    if records.len() > 0 {
        let front = records.drop_last();
        lemma_is_first(front, name);
        let at = first_under(records, name);
        let n = records.len() - 1;
        assert(records[n] == records.last());
        assert forall|e: int| 0 <= e < n implies (is_first(records, e, name) <==> is_first(
            front,
            e,
            name,
        )) by {
            assert forall|j: int| 0 <= j < n implies #[trigger] front[j] == records[j] by {}
            assert forall|j: int| 0 <= j < n implies #[trigger] records[j] == front[j] by {}
        }
        assert forall|e: int| #[trigger] is_first(records, e, name) implies e == at by {
            if e < n {
                assert(is_first(front, e, name));
            } else if first_under(front, name) < n {
                assert(is_first(front, first_under(front, name), name));
                assert(records[first_under(front, name)] == front[first_under(front, name)]);
            }
        }
        if first_under(front, name) < n {
            assert(is_first(records, at, name));
        } else if at < records.len() {
            assert forall|j: int| 0 <= j < n implies fold((#[trigger] records[j]).name) != fold(
                name,
            ) by {
                if exists|i: int| 0 <= i < n && fold((#[trigger] front[i]).name) == fold(name) {
                    lemma_some_is_first(front, name);
                }
                assert(front[j] == records[j]);
            }
        }
    }
}

/// Some record is the first under a name where one is under it.
proof fn lemma_some_is_first(records: Seq<RecordView>, name: Seq<Seq<u8>>)
    requires
        exists|i: int| 0 <= i < records.len() && fold((#[trigger] records[i]).name) == fold(name),
    ensures
        exists|e: int| #[trigger] is_first(records, e, name),
    decreases records.len(),
{
    let i = choose|i: int|
        0 <= i < records.len() && fold((#[trigger] records[i]).name) == fold(name);
    let front = records.drop_last();
    if exists|j: int| 0 <= j < front.len() && fold((#[trigger] front[j]).name) == fold(name) {
        lemma_some_is_first(front, name);
        let e = choose|e: int| #[trigger] is_first(front, e, name);
        assert(records[e] == front[e]);
        assert forall|j: int| 0 <= j < e implies fold((#[trigger] records[j]).name) != fold(
            name,
        ) by {
            assert(front[j] == records[j]);
        }
        assert(is_first(records, e, name));
    } else {
        assert forall|j: int| 0 <= j < i implies fold((#[trigger] records[j]).name) != fold(
            name,
        ) by {
            assert(front[j] == records[j]);
        }
        assert(is_first(records, i, name));
    }
}

/// The host that the first record under a name leads to.
proof fn lemma_leads_from(records: Seq<RecordView>, host: HostView)
    requires
        host is Name,
        host_from_text(host->Name_0) is Some,
    ensures
        match led_host(records, host_from_text(host->Name_0)->0) {
            Some(next) => leads_from(records, host, next) && forall|other: HostView|
                #[trigger] leads_from(records, host, other) ==> other == next,
            None => forall|other: HostView| !#[trigger] leads_from(records, host, other),
        },
{
    let name = host_from_text(host->Name_0)->0;
    lemma_is_first(records, name);
}

/// What is found by a depth is where a list of hosts leads to.
proof fn lemma_host_route(records: Seq<RecordView>, host: HostView, depth: nat) -> (hosts: Seq<
    HostView,
>)
    requires
        host_within(records, host, depth) is Some,
    ensures
        is_host_route(records, hosts),
        hosts[0] == host,
        hosts.last() == host_within(records, host, depth)->0,
    decreases depth,
{
    if host is Name {
        let name = host_from_text(host->Name_0)->0;
        lemma_leads_from(records, host);
        match led_host(records, name) {
            Some(next) => {
                let rest = lemma_host_route(records, next, (depth - 1) as nat);
                let hosts = seq![host] + rest;
                assert forall|k: int| 0 <= k < hosts.len() && #[trigger] hosts[k] is Name implies
                    host_from_text(hosts[k]->Name_0) is Some by {
                    if k > 0 {
                        assert(hosts[k] == rest[k - 1]);
                    }
                }
                assert forall|k: int| 0 <= k < hosts.len() - 1 implies #[trigger] hosts[k] is Name
                    && leads_from(records, hosts[k], hosts[k + 1]) by {
                    if k > 0 {
                        assert(hosts[k] == rest[k - 1]);
                        assert(hosts[k + 1] == rest[k]);
                    }
                }
                assert(hosts.last() == rest.last());
                hosts
            },
            None => seq![host],
        }
    } else {
        seq![host]
    }
}

/// Where a list of hosts leads is found by its length.
proof fn lemma_route_is_found(records: Seq<RecordView>, hosts: Seq<HostView>)
    requires
        is_host_route(records, hosts),
    ensures
        host_within(records, hosts[0], (hosts.len() - 1) as nat) == Some(hosts.last()),
    decreases hosts.len(),
{
    let host = hosts[0];
    if host is Name {
        lemma_leads_from(records, host);
        if hosts.len() > 1 {
            let rest = hosts.drop_first();
            assert(leads_from(records, hosts[0], hosts[1]));
            assert forall|k: int| 0 <= k < rest.len() && #[trigger] rest[k] is Name implies
                host_from_text(rest[k]->Name_0) is Some by {
                assert(rest[k] == hosts[k + 1]);
            }
            assert forall|k: int| 0 <= k < rest.len() - 1 implies #[trigger] rest[k] is Name
                && leads_from(records, rest[k], rest[k + 1]) by {
                assert(rest[k] == hosts[k + 1]);
                assert(rest[k + 1] == hosts[k + 2]);
            }
            assert(rest.last() == hosts.last());
            lemma_route_is_found(records, rest);
        } else {
            assert(hosts.last() == host);
        }
    } else if hosts.len() > 1 {
        assert(hosts[0] is Name);
    }
}

/// A host leads to another exactly when some list of hosts does, each by the first record under its
/// name; it leads nowhere where the names lead round in a circle, or to one that is not valid.
pub proof fn law_hosts_are_followed(records: Seq<RecordView>, host: HostView, last: HostView)
    ensures
        resolved_host(records, host) == Some(last) <==> exists|hosts: Seq<HostView>| #[trigger]
            is_host_route(records, hosts) && hosts[0] == host && hosts.last() == last,
{
    if resolved_host(records, host) == Some(last) {
        let hosts = lemma_host_route(records, host, records.len());
        assert(is_host_route(records, hosts));
    }
    if exists|hosts: Seq<HostView>| #[trigger]
        is_host_route(records, hosts) && hosts[0] == host && hosts.last() == last {
        let hosts = choose|hosts: Seq<HostView>| #[trigger]
            is_host_route(records, hosts) && hosts[0] == host && hosts.last() == last;
        lemma_route_is_found(records, hosts);
        law_only_circles_have_no_host(records, host, (hosts.len() - 1) as nat);
    }
}

} // verus!
