//! Sets of records, with the names that addresses lead back to.

use vstd::prelude::*;
use crate::dns::record::{fold_data, fold_record, record_views, RData, Record, RecordView};
use crate::dns::rr::{DnsClass, RDataView, RecordType};
use crate::ip::IpAddr;
use crate::name::{arpa_address, fold, reverse_labels, Fqdn};

verus! {

/// A set of records: the records in the order in which they came, and for each address the record
/// that leads back to a name.
#[verifier::ext_equal]
pub struct RecordSetView {
    pub records: Seq<RecordView>,
    pub reverse: Map<IpAddr, RecordView>,
}

/// Whether a record is among records.
pub open spec fn holds(records: Seq<RecordView>, record: RecordView) -> bool {
    exists|i: int|
        0 <= i < records.len() && fold_record(#[trigger] records[i]) == fold_record(record)
}

/// The address that data holds.
pub open spec fn data_ip(data: RDataView) -> Option<IpAddr> {
    match data {
        RDataView::A(ip) => Some(IpAddr::V4(ip)),
        RDataView::Aaaa(ip) => Some(IpAddr::V6(ip)),
        _ => None,
    }
}

/// The record that leads from an address back to the name of a record.
pub open spec fn pointer(ip: IpAddr, record: RecordView) -> RecordView {
    RecordView {
        name: reverse_labels(ip),
        ttl: record.ttl,
        rdata: RDataView::Ptr(record.name),
    }
}

/// The empty set.
pub open spec fn no_records() -> RecordSetView {
    RecordSetView { records: Seq::empty(), reverse: Map::empty() }
}

/// A set with a record added. A record that is there already changes nothing; the address of a
/// new one leads back to its name.
pub open spec fn with_record(set: RecordSetView, record: RecordView) -> RecordSetView {
    if holds(set.records, record) {
        set
    } else {
        RecordSetView {
            records: set.records.push(record),
            reverse: match data_ip(record.rdata) {
                Some(ip) => set.reverse.insert(ip, pointer(ip, record)),
                None => set.reverse,
            },
        }
    }
}

/// A set with records added one after the other.
pub open spec fn with_records(set: RecordSetView, records: Seq<RecordView>) -> RecordSetView
    decreases records.len(),
{
    if records.len() == 0 {
        set
    } else {
        with_record(with_records(set, records.drop_last()), records.last())
    }
}

/// A set with the records of other sets added one after the other.
pub open spec fn with_sets(set: RecordSetView, sets: Seq<RecordSetView>) -> RecordSetView
    decreases sets.len(),
{
    if sets.len() == 0 {
        set
    } else {
        with_records(with_sets(set, sets.drop_last()), sets.last().records)
    }
}

/// The records under a name.
pub open spec fn under(records: Seq<RecordView>, name: Seq<Seq<u8>>) -> Seq<RecordView>
    decreases records.len(),
{
    if records.len() == 0 {
        Seq::empty()
    } else {
        let found = under(records.drop_last(), name);
        if fold(records.last().name) == fold(name) {
            found.push(records.last())
        } else {
            found
        }
    }
}

/// What a set knows of the name of a query: for a reverse lookup the record that leads back from
/// the address, else all records under the name, whatever their type.
pub open spec fn found(
    set: RecordSetView,
    name: Seq<Seq<u8>>,
    class: DnsClass,
    query_type: RecordType,
) -> Seq<RecordView> {
    if class != DnsClass::In {
        Seq::empty()
    } else if query_type == RecordType::Ptr {
        match arpa_address(name) {
            Some(ip) => if set.reverse.dom().contains(ip) {
                seq![set.reverse[ip]]
            } else {
                Seq::empty()
            },
            None => Seq::empty(),
        }
    } else {
        under(set.records, name)
    }
}

/// What holds of every set: no record is there twice, and each address that leads back to a name
/// is held by a record under that name.
pub open spec fn set_wf(set: RecordSetView) -> bool {
    &&& forall|i: int, j: int|
        0 <= i < j < set.records.len() ==> fold_record(#[trigger] set.records[i]) != fold_record(
            #[trigger] set.records[j],
        )
    &&& forall|ip: IpAddr| #[trigger]
        set.reverse.dom().contains(ip) ==> exists|i: int|
            0 <= i < set.records.len() && data_ip((#[trigger] set.records[i]).rdata) == Some(ip)
                && set.reverse[ip] == pointer(ip, set.records[i])
    &&& forall|i: int|
        0 <= i < set.records.len() && data_ip((#[trigger] set.records[i]).rdata) is Some
            ==> set.reverse.dom().contains(data_ip(set.records[i].rdata)->0)
}

/// Adding a record keeps what holds of every set.
pub proof fn law_insert_keeps_sets_sound(set: RecordSetView, record: RecordView)
    requires
        set_wf(set),
    ensures
        set_wf(with_record(set, record)),
{
    let after = with_record(set, record);
    if !holds(set.records, record) {
        let n = set.records.len();
        assert(after.records[n as int] == record);
        assert forall|i: int, j: int| 0 <= i < j < after.records.len() implies fold_record(
            #[trigger] after.records[i],
        ) != fold_record(#[trigger] after.records[j]) by {
            assert(after.records[i] == set.records[i]);
            if j < n {
                assert(after.records[j] == set.records[j]);
            }
        }
        assert forall|ip: IpAddr| #[trigger] after.reverse.dom().contains(ip) implies exists|i: int|
            0 <= i < after.records.len() && data_ip((#[trigger] after.records[i]).rdata) == Some(ip)
                && after.reverse[ip] == pointer(ip, after.records[i]) by {
            if data_ip(record.rdata) == Some(ip) {
                assert(data_ip(after.records[n as int].rdata) == Some(ip));
            } else {
                assert(set.reverse.dom().contains(ip));
                let i = choose|i: int|
                    0 <= i < set.records.len() && data_ip((#[trigger] set.records[i]).rdata)
                        == Some(ip) && set.reverse[ip] == pointer(ip, set.records[i]);
                assert(after.records[i] == set.records[i]);
            }
        }
        assert forall|i: int|
            0 <= i < after.records.len() && data_ip(
                (#[trigger] after.records[i]).rdata,
            ) is Some implies after.reverse.dom().contains(data_ip(after.records[i].rdata)->0) by {
            if i < n {
                assert(after.records[i] == set.records[i]);
            }
        }
    }
}

/// A record that was added is there, and no other came or went.
pub proof fn law_insert_adds_the_record(set: RecordSetView, record: RecordView, other: RecordView)
    ensures
        holds(with_record(set, record).records, other) <==> holds(set.records, other)
            || fold_record(other) == fold_record(record),
{
    let after = with_record(set, record).records;
    if holds(set.records, record) {
        if fold_record(other) == fold_record(record) {
            let i = choose|i: int|
                0 <= i < set.records.len() && fold_record(#[trigger] set.records[i]) == fold_record(
                    record,
                );
            assert(fold_record(set.records[i]) == fold_record(other));
        }
    } else {
        let n = set.records.len() as int;
        assert(after[n] == record);
        if holds(set.records, other) {
            let i = choose|i: int|
                0 <= i < set.records.len() && fold_record(#[trigger] set.records[i]) == fold_record(
                    other,
                );
            assert(after[i] == set.records[i]);
        }
        if holds(after, other) {
            let i = choose|i: int|
                0 <= i < after.len() && fold_record(#[trigger] after[i]) == fold_record(other);
            if i < n {
                assert(after[i] == set.records[i]);
            }
        }
    }
}

/// Adding a record twice is adding it once.
pub proof fn law_insert_twice(set: RecordSetView, record: RecordView)
    ensures
        with_record(with_record(set, record), record) == with_record(set, record),
{
    law_insert_adds_the_record(set, record, record);
}

/// After records were added, a record is there when it was there before or is among those added.
pub proof fn law_append_is_union(
    set: RecordSetView,
    records: Seq<RecordView>,
    other: RecordView,
)
    ensures
        holds(with_records(set, records).records, other) <==> holds(set.records, other) || holds(
            records,
            other,
        ),
    decreases records.len(),
{
    if records.len() > 0 {
        let rest = records.drop_last();
        law_append_is_union(set, rest, other);
        law_insert_adds_the_record(with_records(set, rest), records.last(), other);
        if holds(records, other) {
            let i = choose|i: int|
                0 <= i < records.len() && fold_record(#[trigger] records[i]) == fold_record(other);
            if i < rest.len() {
                assert(rest[i] == records[i]);
            }
        }
        if holds(rest, other) {
            let i = choose|i: int|
                0 <= i < rest.len() && fold_record(#[trigger] rest[i]) == fold_record(other);
            assert(records[i] == rest[i]);
        }
        assert(records[records.len() - 1] == records.last());
    }
}

/// Adding records keeps what holds of every set.
pub proof fn law_append_keeps_sets_sound(set: RecordSetView, records: Seq<RecordView>)
    requires
        set_wf(set),
    ensures
        set_wf(with_records(set, records)),
    decreases records.len(),
{
    if records.len() > 0 {
        law_append_keeps_sets_sound(set, records.drop_last());
        law_insert_keeps_sets_sound(
            with_records(set, records.drop_last()),
            records.last(),
        );
    }
}

/// The records that are found under a name are those of the set that have it.
pub proof fn law_lookup_finds_all_records(
    records: Seq<RecordView>,
    name: Seq<Seq<u8>>,
    record: RecordView,
)
    ensures
        under(records, name).contains(record) <==> records.contains(record) && fold(record.name)
            == fold(name),
    decreases records.len(),
{
    let all = under(records, name);
    if records.len() > 0 {
        let rest = records.drop_last();
        let part = under(rest, name);
        law_lookup_finds_all_records(rest, name, record);
        if records.contains(record) {
            let i = choose|i: int| 0 <= i < records.len() && records[i] == record;
            if i < rest.len() {
                assert(rest[i] == record);
            }
        }
        if rest.contains(record) {
            let i = choose|i: int| 0 <= i < rest.len() && rest[i] == record;
            assert(records[i] == record);
        }
        assert(records[records.len() - 1] == records.last());
        if all.contains(record) {
            let i = choose|i: int| 0 <= i < all.len() && all[i] == record;
            if i < part.len() {
                assert(part[i] == record);
            }
        }
        if part.contains(record) {
            let i = choose|i: int| 0 <= i < part.len() && part[i] == record;
            assert(all[i] == record);
        }
        if fold(records.last().name) == fold(name) {
            assert(all[part.len() as int] == records.last());
        }
    }
}

/// A record that was new when it was added is found under its name.
pub proof fn law_new_record_is_found(
    set: RecordSetView,
    record: RecordView,
    name: Seq<Seq<u8>>,
    query_type: RecordType,
)
    requires
        !holds(set.records, record),
        fold(record.name) == fold(name),
        query_type != RecordType::Ptr,
    ensures
        found(with_record(set, record), name, DnsClass::In, query_type) == found(
            set,
            name,
            DnsClass::In,
            query_type,
        ).push(record),
{
    let after = with_record(set, record).records;
    assert(after.drop_last() =~= set.records);
}

/// The address of a record that was new when it was added leads back to its name.
pub proof fn law_new_address_leads_back(
    set: RecordSetView,
    record: RecordView,
    ip: IpAddr,
    name: Seq<Seq<u8>>,
)
    requires
        !holds(set.records, record),
        data_ip(record.rdata) == Some(ip),
        arpa_address(name) == Some(ip),
    ensures
        found(with_record(set, record), name, DnsClass::In, RecordType::Ptr) == seq![
            pointer(ip, record),
        ],
{
}

/// Whether two sets hold the same records and lead the same addresses back to the same names.
pub open spec fn same_sets(a: RecordSetView, b: RecordSetView) -> bool {
    &&& forall|i: int| 0 <= i < a.records.len() ==> holds(b.records, #[trigger] a.records[i])
    &&& forall|i: int| 0 <= i < b.records.len() ==> holds(a.records, #[trigger] b.records[i])
    &&& a.reverse.dom() == b.reverse.dom()
    &&& forall|ip: IpAddr| #[trigger]
        a.reverse.dom().contains(ip) ==> fold_record(a.reverse[ip]) == fold_record(b.reverse[ip])
}

/// A record that is among records is among those that hold all of them.
proof fn lemma_holds_within(a: Seq<RecordView>, b: Seq<RecordView>, record: RecordView)
    requires
        forall|i: int| 0 <= i < a.len() ==> holds(b, #[trigger] a[i]),
        holds(a, record),
    ensures
        holds(b, record),
{
    let i = choose|i: int| 0 <= i < a.len() && fold_record(#[trigger] a[i]) == fold_record(record);
    assert(holds(b, a[i]));
    let j = choose|j: int| 0 <= j < b.len() && fold_record(#[trigger] b[j]) == fold_record(a[i]);
    assert(fold_record(b[j]) == fold_record(record));
}

/// Sets that are the same hold the same records.
pub proof fn law_same_sets_hold_the_same(a: RecordSetView, b: RecordSetView, record: RecordView)
    requires
        same_sets(a, b),
    ensures
        holds(a.records, record) <==> holds(b.records, record),
{
    if holds(a.records, record) {
        lemma_holds_within(a.records, b.records, record);
    }
    if holds(b.records, record) {
        lemma_holds_within(b.records, a.records, record);
    }
}

/// Whether a record holds an address.
pub open spec fn has_address(record: RecordView, ip: IpAddr) -> bool {
    match ip {
        IpAddr::V4(v4) => record.rdata == RDataView::A(v4),
        IpAddr::V6(v6) => record.rdata == RDataView::Aaaa(v6),
    }
}

/// Whether a record stands in a list before the place that it has there.
pub open spec fn repeats(records: Seq<RecordView>, at: int) -> bool {
    exists|k: int| 0 <= k < at && fold_record(#[trigger] records[k]) == fold_record(records[at])
}

/// An address leads back to the name of the record that was the last new one to hold it.
proof fn lemma_leads_back(records: Seq<RecordView>, ip: IpAddr, at: int)
    requires
        0 <= at < records.len(),
        has_address(records[at], ip),
        !repeats(records, at),
        forall|j: int|
            at < j < records.len() && has_address(#[trigger] records[j], ip) ==> repeats(records, j),
    ensures
        with_records(no_records(), records).reverse.dom().contains(ip),
        with_records(no_records(), records).reverse[ip] == pointer(ip, records[at]),
    decreases records.len(),
{
    let front = records.drop_last();
    let n = records.len() - 1;
    law_append_is_union(no_records(), front, records.last());
    let before = with_records(no_records(), front);
    assert(holds(front, records.last()) <==> repeats(records, n)) by {
        if holds(front, records.last()) {
            let k = choose|k: int|
                0 <= k < front.len() && fold_record(#[trigger] front[k]) == fold_record(
                    records.last(),
                );
            assert(records[k] == front[k]);
        }
        if repeats(records, n) {
            let k = choose|k: int|
                0 <= k < n && fold_record(#[trigger] records[k]) == fold_record(records[n]);
            assert(front[k] == records[k]);
        }
    }
    if at < n {
        assert forall|j: int| 0 <= j < n && repeats(records, j) implies repeats(front, j) by {
            let k = choose|k: int|
                0 <= k < j && fold_record(#[trigger] records[k]) == fold_record(records[j]);
            assert(front[k] == records[k]);
        }
        assert forall|j: int| at < j < front.len() && has_address(#[trigger] front[j], ip) implies
            repeats(front, j) by {
            assert(front[j] == records[j]);
        }
        if repeats(front, at) {
            let k = choose|k: int|
                0 <= k < at && fold_record(#[trigger] front[k]) == fold_record(front[at]);
            assert(records[k] == front[k]);
        }
        lemma_leads_back(front, ip, at);
        assert(records[n] == records.last());
    }
}

/// Where records came one after the other, an address leads back to the name of the last new record
/// that holds it.
pub proof fn law_addresses_lead_back(
    records: Seq<RecordView>,
    ip: IpAddr,
    at: int,
    name: Seq<Seq<u8>>,
)
    requires
        0 <= at < records.len(),
        has_address(records[at], ip),
        !repeats(records, at),
        forall|j: int|
            at < j < records.len() && has_address(#[trigger] records[j], ip) ==> repeats(records, j),
        arpa_address(name) == Some(ip),
    ensures
        found(with_records(no_records(), records), name, DnsClass::In, RecordType::Ptr) == seq![
            RecordView {
                name: reverse_labels(ip),
                ttl: records[at].ttl,
                rdata: RDataView::Ptr(records[at].name),
            },
        ],
{
    lemma_leads_back(records, ip, at);
}

/// An address that no record holds leads back to no name, and a name that stands for no address has
/// none either.
pub proof fn law_unknown_addresses_lead_nowhere(set: RecordSetView, name: Seq<Seq<u8>>)
    requires
        set_wf(set),
        arpa_address(name) matches Some(ip) ==> forall|i: int|
            0 <= i < set.records.len() ==> !has_address(#[trigger] set.records[i], ip),
    ensures
        found(set, name, DnsClass::In, RecordType::Ptr).len() == 0,
{
    if let Some(ip) = arpa_address(name) {
        if set.reverse.dom().contains(ip) {
            let i = choose|i: int|
                0 <= i < set.records.len() && data_ip((#[trigger] set.records[i]).rdata) == Some(ip)
                    && set.reverse[ip] == pointer(ip, set.records[i]);
            assert(!has_address(set.records[i], ip));
        }
    }
}

/// The place of an address in a list.
pub open spec fn entry_of(reverse: Seq<(IpAddr, Record)>, ip: IpAddr) -> int {
    choose|i: int| 0 <= i < reverse.len() && (#[trigger] reverse[i]).0 == ip
}

/// Whether a list has an entry for an address.
pub open spec fn has_entry(reverse: Seq<(IpAddr, Record)>, ip: IpAddr) -> bool {
    exists|i: int| 0 <= i < reverse.len() && (#[trigger] reverse[i]).0 == ip
}

/// Whether a list has one entry at most for each address.
pub open spec fn entries_unique(reverse: Seq<(IpAddr, Record)>) -> bool {
    forall|i: int, j: int|
        0 <= i < j < reverse.len() ==> (#[trigger] reverse[i]).0 != (#[trigger] reverse[j]).0
}

/// The records of a list by their addresses.
pub open spec fn entries(reverse: Seq<(IpAddr, Record)>) -> Map<IpAddr, RecordView> {
    Map::new(
        |ip: IpAddr| has_entry(reverse, ip),
        |ip: IpAddr| reverse[entry_of(reverse, ip)].1@,
    )
}

/// The one entry for an address.
proof fn lemma_entry(reverse: Seq<(IpAddr, Record)>, i: int)
    requires
        entries_unique(reverse),
        0 <= i < reverse.len(),
    ensures
        has_entry(reverse, reverse[i].0),
        entry_of(reverse, reverse[i].0) == i,
        entries(reverse).dom().contains(reverse[i].0),
        entries(reverse)[reverse[i].0] == reverse[i].1@,
{
    let ip = reverse[i].0;
    assert(has_entry(reverse, ip));
    let j = entry_of(reverse, ip);
    assert(0 <= j < reverse.len() && reverse[j].0 == ip);
    if j < i {
        assert(reverse[j].0 != reverse[i].0);
    } else if i < j {
        assert(reverse[i].0 != reverse[j].0);
    }
}

/// Two lists with the same entries but for one address have the same map but for it.
proof fn lemma_entries_insert(
    before: Seq<(IpAddr, Record)>,
    after: Seq<(IpAddr, Record)>,
    k: int,
)
    requires
        entries_unique(before),
        entries_unique(after),
        0 <= k < after.len(),
        k == before.len() && after.len() == k + 1 || k < before.len() && after.len()
            == before.len() && before[k].0 == after[k].0,
        forall|i: int| 0 <= i < before.len() && i != k ==> after[i] == before[i],
    ensures
        entries(after) == entries(before).insert(after[k].0, after[k].1@),
{
    let ip = after[k].0;
    lemma_entry(after, k);
    assert forall|a: IpAddr| entries(after).dom().contains(a) <==> entries(before).insert(
        ip,
        after[k].1@,
    ).dom().contains(a) by {
        if has_entry(before, a) {
            let i = entry_of(before, a);
            assert(before[i].0 == a);
            assert(after[i].0 == a);
        }
        if has_entry(after, a) {
            let i = entry_of(after, a);
            assert(after[i].0 == a);
            if i != k {
                assert(before[i].0 == a);
            }
        }
    }
    assert forall|a: IpAddr| #[trigger] entries(after).dom().contains(a) implies entries(after)[a]
        == entries(before).insert(ip, after[k].1@)[a] by {
        if a != ip {
            let i = entry_of(after, a);
            assert(after[i].0 == a);
            assert(before[i].0 == a);
            lemma_entry(before, i);
            lemma_entry(after, i);
        }
    }
    assert(entries(after) =~= entries(before).insert(ip, after[k].1@));
}

/// A set of records.
#[derive(Debug)]
pub struct RecordSet {
    records: Vec<Record>,
    reverse: Vec<(IpAddr, Record)>,
}

impl View for RecordSet {
    type V = RecordSetView;

    closed spec fn view(&self) -> RecordSetView {
        RecordSetView { records: record_views(self.records@), reverse: entries(self.reverse@) }
    }
}

/// Puts a record under an address in place of the one that was there.
fn put_entry(reverse: &mut Vec<(IpAddr, Record)>, ip: IpAddr, record: Record)
    requires
        entries_unique(old(reverse)@),
    ensures
        entries_unique(final(reverse)@),
        entries(final(reverse)@) == entries(old(reverse)@).insert(ip, record@),
{
    let ghost before = reverse@;
    let mut i: usize = 0;
    while i < reverse.len() && reverse[i].0 != ip
        invariant
            i <= reverse.len(),
            reverse@ == before,
            forall|j: int| 0 <= j < i ==> (#[trigger] before[j]).0 != ip,
        decreases reverse.len() - i,
    {
        i += 1;
    }
    if i < reverse.len() {
        reverse.set(i, (ip, record));
    } else {
        reverse.push((ip, record));
    }
    proof {
        let after = reverse@;
        assert forall|j: int, k: int| 0 <= j < k < after.len() implies (#[trigger] after[j]).0 != (
        #[trigger] after[k]).0 by {
            if j != i && k != i {
                assert(after[j] == before[j] && after[k] == before[k]);
            } else if j == i {
                assert(before[j].0 == after[j].0 && after[k] == before[k]);
            } else {
                assert(after[j] == before[j]);
                if i < before.len() {
                    assert(before[k].0 == after[k].0);
                }
            }
        }
        lemma_entries_insert(before, after, i as int);
    }
}

impl RecordSet {
    #[verifier::type_invariant]
    closed spec fn inv(self) -> bool {
        &&& entries_unique(self.reverse@)
        &&& set_wf(self@)
    }

    /// The empty set.
    pub fn new() -> (r: RecordSet)
        ensures
            r@ == no_records(),
            set_wf(r@),
    {
        let records: Vec<Record> = Vec::new();
        let reverse: Vec<(IpAddr, Record)> = Vec::new();
        proof {
            assert(record_views(records@) =~= Seq::empty());
            assert(entries(reverse@) =~= Map::empty());
        }
        RecordSet { records, reverse }
    }

    /// Whether a record is in the set.
    fn has(&self, record: &Record) -> (r: bool)
        ensures
            r == holds(self@.records, record@),
    {
        let mut i: usize = 0;
        while i < self.records.len()
            invariant
                i <= self.records.len(),
                forall|j: int|
                    0 <= j < i ==> fold_record(#[trigger] self@.records[j]) != fold_record(record@),
            decreases self.records.len() - i,
        {
            if self.records[i].same(record) {
                assert(fold_record(self@.records[i as int]) == fold_record(record@));
                return true;
            }
            i += 1;
        }
        false
    }

    /// Adds a record.
    pub fn insert(&mut self, record: Record)
        ensures
            final(self)@ == with_record(old(self)@, record@),
            set_wf(final(self)@),
    {
        proof {
            use_type_invariant(&*self);
        }
        let ghost start = self@;
        if self.has(&record) {
            return;
        }
        let ip: Option<IpAddr> = match &record.rdata {
            RData::A(ip) => Some(IpAddr::V4(*ip)),
            RData::Aaaa(ip) => Some(IpAddr::V6(*ip)),
            _ => None,
        };
        let mut this = RecordSet::new();
        core::mem::swap(self, &mut this);
        let RecordSet { mut records, mut reverse } = this;
        if let Some(ip) = ip {
            let pointer = Record {
                name: Fqdn::reverse(&ip),
                ttl: record.ttl,
                rdata: RData::Ptr(record.name.clone()),
            };
            put_entry(&mut reverse, ip, pointer);
        }
        records.push(record);
        proof {
            assert(record_views(records@) =~= start.records.push(record@));
            law_insert_keeps_sets_sound(start, record@);
        }
        *self = RecordSet { records, reverse };
    }

    /// Adds the records of another set.
    pub fn append(&mut self, records: RecordSet)
        ensures
            final(self)@ == with_records(old(self)@, records@.records),
            set_wf(final(self)@),
    {
        self.append_from(&records)
    }

    /// Adds copies of the records of another set.
    pub fn append_from(&mut self, records: &RecordSet)
        ensures
            final(self)@ == with_records(old(self)@, records@.records),
            set_wf(final(self)@),
    {
        proof {
            use_type_invariant(&*self);
        }
        let ghost start = self@;
        let ghost all = records@.records;
        let mut i: usize = 0;
        assert(all.take(0) =~= Seq::empty());
        while i < records.records.len()
            invariant
                i <= records.records.len(),
                all == record_views(records.records@),
                self@ == with_records(start, all.take(i as int)),
                set_wf(self@),
            decreases records.records.len() - i,
        {
            assert(all.take(i + 1).drop_last() =~= all.take(i as int));
            assert(all.take(i + 1).last() == records.records@[i as int]@);
            let record = records.records[i].clone();
            self.insert(record);
            i += 1;
        }
        assert(all.take(i as int) =~= all);
    }

    /// The set of some records.
    pub fn from_records(records: &Vec<Record>) -> (r: RecordSet)
        ensures
            r@ == with_records(no_records(), record_views(records@)),
            set_wf(r@),
    {
        let mut set = RecordSet::new();
        let ghost all = record_views(records@);
        let mut i: usize = 0;
        proof {
            assert(all.take(0) =~= Seq::empty());
            use_type_invariant(&set);
        }
        while i < records.len()
            invariant
                i <= records.len(),
                all == record_views(records@),
                set@ == with_records(no_records(), all.take(i as int)),
                set_wf(set@),
            decreases records.len() - i,
        {
            assert(all.take(i + 1).drop_last() =~= all.take(i as int));
            assert(all.take(i + 1).last() == records@[i as int]@);
            let record = records[i].clone();
            set.insert(record);
            i += 1;
        }
        assert(all.take(i as int) =~= all);
        set
    }

    /// The records of the set.
    pub fn records(&self) -> (r: &Vec<Record>)
        ensures
            record_views(r@) == self@.records,
            set_wf(self@),
    {
        proof {
            use_type_invariant(self);
        }
        &self.records
    }

    /// The number of records.
    pub fn len(&self) -> (r: usize)
        ensures
            r == self@.records.len(),
    {
        self.records.len()
    }

    /// Whether there is no record.
    pub fn is_empty(&self) -> (r: bool)
        ensures
            r == (self@.records.len() == 0),
    {
        self.records.len() == 0
    }

    /// Whether there is a record under a name with some data.
    pub fn contains(&self, name: &Fqdn, rdata: &RData) -> (r: bool)
        ensures
            r <==> exists|i: int|
                0 <= i < self@.records.len() && fold((#[trigger] self@.records[i]).name) == fold(
                    name@,
                ) && fold_data(self@.records[i].rdata) == fold_data(rdata@),
    {
        let mut i: usize = 0;
        while i < self.records.len()
            invariant
                i <= self.records.len(),
                forall|j: int|
                    0 <= j < i ==> !(fold((#[trigger] self@.records[j]).name) == fold(name@)
                        && fold_data(self@.records[j].rdata) == fold_data(rdata@)),
            decreases self.records.len() - i,
        {
            if self.records[i].name.same(name) && self.records[i].rdata.same(rdata) {
                assert(fold(self@.records[i as int].name) == fold(name@));
                return true;
            }
            i += 1;
        }
        false
    }

    /// Whether there is a record under a name.
    pub fn has_name(&self, name: &Fqdn) -> (r: bool)
        ensures
            r <==> exists|i: int|
                0 <= i < self@.records.len() && fold((#[trigger] self@.records[i]).name) == fold(
                    name@,
                ),
    {
        let mut i: usize = 0;
        while i < self.records.len()
            invariant
                i <= self.records.len(),
                forall|j: int|
                    0 <= j < i ==> fold((#[trigger] self@.records[j]).name) != fold(name@),
            decreases self.records.len() - i,
        {
            if self.records[i].name.same(name) {
                assert(fold(self@.records[i as int].name) == fold(name@));
                return true;
            }
            i += 1;
        }
        false
    }

    /// The place of an address among those that lead back to a name, or their number.
    fn entry(&self, ip: &IpAddr) -> (r: usize)
        ensures
            r <= self.reverse.len(),
            r < self.reverse.len() <==> self@.reverse.dom().contains(*ip),
            r < self.reverse.len() ==> self.reverse@[r as int].1@ == self@.reverse[*ip],
    {
        proof {
            use_type_invariant(self);
        }
        let mut i: usize = 0;
        while i < self.reverse.len()
            invariant
                i <= self.reverse.len(),
                entries_unique(self.reverse@),
                forall|j: int| 0 <= j < i ==> (#[trigger] self.reverse@[j]).0 != *ip,
            decreases self.reverse.len() - i,
        {
            if self.reverse[i].0 == *ip {
                proof {
                    lemma_entry(self.reverse@, i as int);
                }
                return i;
            }
            i += 1;
        }
        i
    }

    /// Whether an address leads back to a name.
    pub fn contains_reverse(&self, ip: &IpAddr, name: &Fqdn) -> (r: bool)
        ensures
            r <==> self@.reverse.dom().contains(*ip) && (
            self@.reverse[*ip].rdata matches RDataView::Ptr(target) && fold(target) == fold(name@)),
    {
        let i: usize = self.entry(ip);
        if i < self.reverse.len() {
            match &self.reverse[i].1.rdata {
                RData::Ptr(target) => target.same(name),
                _ => false,
            }
        } else {
            false
        }
    }

    /// The records under a name.
    fn records_under(&self, name: &Fqdn) -> (r: Vec<Record>)
        ensures
            record_views(r@) == under(self@.records, name@),
    {
        let mut out: Vec<Record> = Vec::new();
        let mut i: usize = 0;
        let ghost all = record_views(self.records@);
        assert(all.take(0) =~= Seq::empty());
        assert(record_views(out@) =~= Seq::empty());
        while i < self.records.len()
            invariant
                i <= self.records.len(),
                all == record_views(self.records@),
                record_views(out@) == under(all.take(i as int), name@),
            decreases self.records.len() - i,
        {
            assert(all.take(i + 1).drop_last() =~= all.take(i as int));
            assert(all.take(i + 1).last() == self.records@[i as int]@);
            if self.records[i].name.same(name) {
                let ghost before = record_views(out@);
                let record = self.records[i].clone();
                out.push(record);
                assert(record_views(out@) =~= before.push(self.records@[i as int]@));
            }
            i += 1;
        }
        assert(all.take(i as int) =~= all);
        out
    }

    /// What the set knows of the name of a query.
    pub fn lookup(&self, name: &Fqdn, dns_class: DnsClass, query_type: RecordType) -> (r: Vec<
        Record,
    >)
        ensures
            record_views(r@) == found(self@, name@, dns_class, query_type),
            set_wf(self@),
            query_type == RecordType::Ptr && dns_class == DnsClass::In ==> forall|ip: IpAddr|
                fold(name@) == fold(#[trigger] reverse_labels(ip)) ==> arpa_address(name@) == Some(
                    ip,
                ),
    {
        proof {
            use_type_invariant(self);
        }
        let mut out: Vec<Record> = Vec::new();
        if dns_class != DnsClass::In {
            assert(record_views(out@) =~= Seq::empty());
            return out;
        }
        if query_type == RecordType::Ptr {
            if let Some(ip) = name.arpa() {
                let i: usize = self.entry(&ip);
                if i < self.reverse.len() {
                    let record = self.reverse[i].1.clone();
                    out.push(record);
                }
            }
            assert(record_views(out@) =~= found(self@, name@, dns_class, query_type));
            return out;
        }
        self.records_under(name)
    }

    /// Whether each record of this set is in another.
    fn within(&self, other: &RecordSet) -> (r: bool)
        ensures
            r <==> forall|i: int|
                0 <= i < self@.records.len() ==> holds(
                    other@.records,
                    #[trigger] self@.records[i],
                ),
    {
        let mut i: usize = 0;
        while i < self.records.len()
            invariant
                i <= self.records.len(),
                forall|j: int| 0 <= j < i ==> holds(other@.records, #[trigger] self@.records[j]),
            decreases self.records.len() - i,
        {
            if !other.has(&self.records[i]) {
                assert(!holds(other@.records, self@.records[i as int]));
                return false;
            }
            i += 1;
        }
        true
    }

    /// Whether each address that leads back to a name does so in another set.
    fn leads_within(&self, other: &RecordSet) -> (r: bool)
        ensures
            r <==> forall|ip: IpAddr| #[trigger]
                self@.reverse.dom().contains(ip) ==> other@.reverse.dom().contains(ip)
                    && fold_record(self@.reverse[ip]) == fold_record(other@.reverse[ip]),
    {
        proof {
            use_type_invariant(self);
        }
        let mut i: usize = 0;
        while i < self.reverse.len()
            invariant
                i <= self.reverse.len(),
                entries_unique(self.reverse@),
                forall|j: int|
                    0 <= j < i ==> other@.reverse.dom().contains((#[trigger] self.reverse@[j]).0)
                        && fold_record(self.reverse@[j].1@) == fold_record(
                        other@.reverse[self.reverse@[j].0],
                    ),
            decreases self.reverse.len() - i,
        {
            proof {
                lemma_entry(self.reverse@, i as int);
            }
            let k: usize = other.entry(&self.reverse[i].0);
            if k >= other.reverse.len() || !self.reverse[i].1.same(&other.reverse[k].1) {
                let ghost ip = self.reverse@[i as int].0;
                assert(self@.reverse.dom().contains(ip));
                return false;
            }
            i += 1;
        }
        proof {
            assert forall|ip: IpAddr| #[trigger]
                self@.reverse.dom().contains(ip) implies other@.reverse.dom().contains(ip)
                && fold_record(self@.reverse[ip]) == fold_record(other@.reverse[ip]) by {
                let j = entry_of(self.reverse@, ip);
                assert(self.reverse@[j].0 == ip);
                lemma_entry(self.reverse@, j);
            }
        }
        true
    }
}

impl PartialEq for RecordSet {
    fn eq(&self, other: &Self) -> (r: bool) {
        let r = self.within(other) && other.within(self) && self.leads_within(other)
            && other.leads_within(self);
        proof {
            if r {
                assert(self@.reverse.dom() =~= other@.reverse.dom());
            }
        }
        r
    }
}

impl vstd::std_specs::cmp::PartialEqSpecImpl for RecordSet {
    open spec fn obeys_eq_spec() -> bool {
        true
    }

    open spec fn eq_spec(&self, other: &Self) -> bool {
        same_sets(self@, other@)
    }
}

impl Eq for RecordSet {

}

impl Clone for RecordSet {
    fn clone(&self) -> (r: Self)
        ensures
            r@ == self@,
    {
        proof {
            use_type_invariant(self);
        }
        let mut records: Vec<Record> = Vec::new();
        let mut i: usize = 0;
        while i < self.records.len()
            invariant
                i <= self.records.len(),
                record_views(records@) == record_views(self.records@).take(i as int),
            decreases self.records.len() - i,
        {
            let ghost before = record_views(records@);
            let record = self.records[i].clone();
            records.push(record);
            i += 1;
            assert(record_views(records@) =~= before.push(self.records@[i - 1]@));
            assert(record_views(records@) =~= record_views(self.records@).take(i as int));
        }
        assert(record_views(records@) =~= record_views(self.records@));
        let mut reverse: Vec<(IpAddr, Record)> = Vec::new();
        let mut k: usize = 0;
        while k < self.reverse.len()
            invariant
                k <= self.reverse.len(),
                reverse.len() == k,
                forall|j: int|
                    0 <= j < k ==> (#[trigger] reverse@[j]).0 == self.reverse@[j].0
                        && reverse@[j].1@ == self.reverse@[j].1@,
            decreases self.reverse.len() - k,
        {
            let entry = (self.reverse[k].0, self.reverse[k].1.clone());
            reverse.push(entry);
            k += 1;
        }
        proof {
            lemma_same_entries(self.reverse@, reverse@);
        }
        RecordSet { records, reverse }
    }
}

/// Lists with the same addresses and records have the same map.
proof fn lemma_same_entries(a: Seq<(IpAddr, Record)>, b: Seq<(IpAddr, Record)>)
    requires
        entries_unique(a),
        a.len() == b.len(),
        forall|j: int|
            0 <= j < a.len() ==> (#[trigger] b[j]).0 == a[j].0 && b[j].1@ == a[j].1@,
    ensures
        entries_unique(b),
        entries(a) == entries(b),
{
    assert(entries_unique(b));
    assert forall|ip: IpAddr| entries(a).dom().contains(ip) <==> entries(b).dom().contains(ip) by {
        if has_entry(a, ip) {
            let i = entry_of(a, ip);
            assert(b[i].0 == ip);
        }
        if has_entry(b, ip) {
            let i = entry_of(b, ip);
            assert(b[i].0 == ip && a[i].0 == ip);
        }
    }
    assert forall|ip: IpAddr| #[trigger] entries(a).dom().contains(ip) implies entries(a)[ip]
        == entries(b)[ip] by {
        let i = entry_of(a, ip);
        assert(a[i].0 == ip && b[i].0 == ip);
        lemma_entry(a, i);
        lemma_entry(b, i);
    }
    assert(entries(a) =~= entries(b));
}

} // verus!
