//! Names from a file.

use vstd::prelude::*;
use crate::dns::record::{
    fold_data, fold_record, ip_data, own_alias, record_views, RData, Record, RecordView,
};
use crate::dns::rr::RDataView;
use crate::dns::set::{holds, law_append_is_union, no_records, with_records, RecordSet};
use crate::ip::IpAddr;
use crate::name::{fold, name_from_text, Fqdn};

verus! {

/// The file that a source reads.
pub type FileConfig = String;

/// What a file says of a name: data in full, or a text.
#[derive(Debug)]
pub enum RDataItem {
    RData(RData),
    Str(String),
}

/// What a file says of a name, by the characters of its texts.
#[verifier::ext_equal]
pub enum ItemView {
    RData(RDataView),
    Str(Seq<char>),
}

impl View for RDataItem {
    type V = ItemView;

    open spec fn view(&self) -> ItemView {
        match *self {
            RDataItem::RData(rdata) => ItemView::RData(rdata@),
            RDataItem::Str(s) => ItemView::Str(s@),
        }
    }
}

/// What a file says of names: of each one thing or several.
pub type ZoneFile = Vec<(Fqdn, Vec<RDataItem>)>;

/// The items of a list.
pub open spec fn item_views(items: Seq<RDataItem>) -> Seq<ItemView> {
    Seq::new(items.len(), |i: int| items[i]@)
}

/// What a file says of names, by their labels.
pub open spec fn zone_views(zone_data: Seq<(Fqdn, Vec<RDataItem>)>) -> Seq<
    (Seq<Seq<u8>>, Seq<ItemView>),
> {
    Seq::new(zone_data.len(), |i: int| (zone_data[i].0@, item_views(zone_data[i].1@)))
}

/// The data that an item stands for. A text that is no address is that of a local alias.
pub open spec fn item_data(item: ItemView) -> Option<RDataView> {
    match item {
        ItemView::RData(rdata) => Some(rdata),
        ItemView::Str(s) => match crate::ip::ip_from_text(s) {
            Some(ip) => Some(ip_data(ip)),
            None => match name_from_text(s) {
                Some(name) => Some(RDataView::Aname(name)),
                None => None,
            },
        },
    }
}

/// The records for the items of a name. Items that cannot be read are passed over.
pub open spec fn item_records(name: Seq<Seq<u8>>, items: Seq<ItemView>) -> Seq<RecordView>
    decreases items.len(),
{
    if items.len() == 0 {
        Seq::empty()
    } else {
        let rest = item_records(name, items.drop_last());
        match item_data(items.last()) {
            Some(rdata) => rest.push(RecordView { name, ttl: None, rdata }),
            None => rest,
        }
    }
}

/// The records for a file.
pub open spec fn file_records(zone_data: Seq<(Seq<Seq<u8>>, Seq<ItemView>)>) -> Seq<RecordView>
    decreases zone_data.len(),
{
    if zone_data.len() == 0 {
        Seq::empty()
    } else {
        file_records(zone_data.drop_last()) + item_records(
            zone_data.last().0,
            zone_data.last().1,
        )
    }
}

/// Whether an item, under a name, gives a record: its data in full, or a text that is an address or
/// else the name of another host.
pub open spec fn item_gives(name: Seq<Seq<u8>>, item: ItemView, record: RecordView) -> bool {
    &&& fold(record.name) == fold(name)
    &&& record.ttl is None
    &&& match item {
        ItemView::RData(rdata) => fold_data(record.rdata) == fold_data(rdata),
        ItemView::Str(s) => match crate::ip::ip_from_text(s) {
            Some(IpAddr::V4(ip)) => record.rdata == RDataView::A(ip),
            Some(IpAddr::V6(ip)) => record.rdata == RDataView::Aaaa(ip),
            None => name_from_text(s) matches Some(other) && (
            record.rdata matches RDataView::Aname(alias) && fold(alias) == fold(other)),
        },
    }
}

/// Whether some item of some name, wherever they stand, gives a record.
pub open spec fn file_gives(
    zone_data: Seq<(Seq<Seq<u8>>, Seq<ItemView>)>,
    record: RecordView,
) -> bool {
    exists|i: int, k: int|
        0 <= i < zone_data.len() && 0 <= k < zone_data[i].1.len() && item_gives(
            zone_data[i].0,
            #[trigger] zone_data[i].1[k],
            record,
        )
}

/// Whether a record is held by one of two lists is whether both together hold it.
proof fn lemma_holds_both(a: Seq<RecordView>, b: Seq<RecordView>, record: RecordView)
    ensures
        holds(a + b, record) <==> holds(a, record) || holds(b, record),
{
    let all = a + b;
    if holds(all, record) {
        let i = choose|i: int|
            0 <= i < all.len() && fold_record(#[trigger] all[i]) == fold_record(record);
        if i < a.len() {
            assert(a[i] == all[i]);
        } else {
            assert(b[i - a.len()] == all[i]);
        }
    }
    if holds(a, record) {
        let i = choose|i: int|
            0 <= i < a.len() && fold_record(#[trigger] a[i]) == fold_record(record);
        assert(all[i] == a[i]);
    }
    if holds(b, record) {
        let i = choose|i: int|
            0 <= i < b.len() && fold_record(#[trigger] b[i]) == fold_record(record);
        assert(all[a.len() + i] == b[i]);
    }
}

/// The records for the items of a name are those that the items give.
proof fn lemma_items(name: Seq<Seq<u8>>, items: Seq<ItemView>, record: RecordView)
    ensures
        holds(item_records(name, items), record) <==> exists|k: int|
            0 <= k < items.len() && item_gives(name, #[trigger] items[k], record),
    decreases items.len(),
{
    if items.len() > 0 {
        let front = items.drop_last();
        let rest = item_records(name, front);
        lemma_items(name, front, record);
        assert(items[items.len() - 1] == items.last());
        if exists|k: int| 0 <= k < items.len() && item_gives(name, #[trigger] items[k], record) {
            let k = choose|k: int|
                0 <= k < items.len() && item_gives(name, #[trigger] items[k], record);
            if k < front.len() {
                assert(front[k] == items[k]);
            }
        }
        if exists|k: int| 0 <= k < front.len() && item_gives(name, #[trigger] front[k], record) {
            let k = choose|k: int|
                0 <= k < front.len() && item_gives(name, #[trigger] front[k], record);
            assert(items[k] == front[k]);
        }
        if let Some(rdata) = item_data(items.last()) {
            let given = RecordView { name, ttl: None, rdata };
            lemma_holds_both(rest, seq![given], record);
            assert(item_records(name, items) =~= rest + seq![given]);
            assert(holds(seq![given], record) <==> fold_record(given) == fold_record(record)) by {
                assert(seq![given][0] == given);
            }
            if fold_record(given) == fold_record(record) {
                assert(fold_record(given).name == fold_record(record).name);
                assert(fold_record(given).ttl == fold_record(record).ttl);
                assert(fold_record(given).rdata == fold_record(record).rdata);
            }
        }
    }
}

/// The records for a file are those that its items give.
proof fn lemma_file(zone_data: Seq<(Seq<Seq<u8>>, Seq<ItemView>)>, record: RecordView)
    ensures
        holds(file_records(zone_data), record) <==> file_gives(zone_data, record),
    decreases zone_data.len(),
{
    if zone_data.len() > 0 {
        let front = zone_data.drop_last();
        let (name, items) = zone_data.last();
        let n = zone_data.len() - 1;
        lemma_file(front, record);
        lemma_items(name, items, record);
        lemma_holds_both(file_records(front), item_records(name, items), record);
        assert(zone_data[n] == zone_data.last());
        if file_gives(zone_data, record) {
            let (i, k) = choose|i: int, k: int|
                0 <= i < zone_data.len() && 0 <= k < zone_data[i].1.len() && item_gives(
                    zone_data[i].0,
                    #[trigger] zone_data[i].1[k],
                    record,
                );
            if i < front.len() {
                assert(front[i].1[k] == zone_data[i].1[k]);
            } else {
                assert(items[k] == zone_data[i].1[k]);
            }
        }
        if file_gives(front, record) {
            let (i, k) = choose|i: int, k: int|
                0 <= i < front.len() && 0 <= k < front[i].1.len() && item_gives(
                    front[i].0,
                    #[trigger] front[i].1[k],
                    record,
                );
            assert(zone_data[i].1[k] == front[i].1[k]);
        }
        if exists|k: int| 0 <= k < items.len() && item_gives(name, #[trigger] items[k], record) {
            let k = choose|k: int|
                0 <= k < items.len() && item_gives(name, #[trigger] items[k], record);
            assert(zone_data[n].1[k] == items[k]);
        }
    }
}

/// A record is held by what is read from a file exactly when some item of some name in it, wherever
/// they stand, gives the record.
pub proof fn law_every_item_is_read(
    zone_data: Seq<(Seq<Seq<u8>>, Seq<ItemView>)>,
    record: RecordView,
)
    ensures
        holds(with_records(no_records(), file_records(zone_data)).records, record) <==> exists|
            i: int,
            k: int,
        |
            0 <= i < zone_data.len() && 0 <= k < zone_data[i].1.len() && item_gives(
                zone_data[i].0,
                #[trigger] zone_data[i].1[k],
                record,
            ),
{
    law_append_is_union(no_records(), file_records(zone_data), record);
    lemma_file(zone_data, record);
}

/// Whether a file makes no name an alias for itself.
pub open spec fn no_own_aliases(zone_data: Seq<(Seq<Seq<u8>>, Seq<ItemView>)>) -> bool {
    forall|i: int, k: int|
        0 <= i < zone_data.len() && 0 <= k < zone_data[i].1.len() ==> !(
        #[trigger] zone_data[i].1[k] matches ItemView::RData(rdata) && own_alias(
            zone_data[i].0,
            rdata,
        ))
}

/// The data that an item stands for.
fn read_item(item: &RDataItem) -> (r: Option<RData>)
    ensures
        match r {
            Some(rdata) => item_data(item@) == Some(rdata@),
            None => item_data(item@) is None,
        },
{
    match item {
        RDataItem::RData(rdata) => Some(rdata.clone()),
        RDataItem::Str(s) => match RData::from_text(s.as_str()) {
            Ok(rdata) => Some(rdata),
            Err(_) => None,
        },
    }
}

/// Adds the records for the items of a name.
fn add_items(name: &Fqdn, items: &Vec<RDataItem>, records: &mut Vec<Record>)
    requires
        forall|k: int|
            0 <= k < items@.len() ==> !((#[trigger] item_views(items@)[k]) matches ItemView::RData(
                rdata,
            ) && own_alias(name@, rdata)),
    ensures
        record_views(final(records)@) == record_views(old(records)@) + item_records(
            name@,
            item_views(items@),
        ),
{
    let ghost start = record_views(records@);
    let ghost all = item_views(items@);
    let mut i: usize = 0;
    assert(all.take(0) =~= Seq::empty());
    assert(record_views(records@) =~= start + Seq::empty());
    while i < items.len()
        invariant
            i <= items.len(),
            all == item_views(items@),
            forall|k: int|
                0 <= k < items@.len() ==> !((#[trigger] all[k]) matches ItemView::RData(rdata)
                    && own_alias(name@, rdata)),
            record_views(records@) == start + item_records(name@, all.take(i as int)),
        decreases items.len() - i,
    {
        assert(all.take(i + 1).drop_last() =~= all.take(i as int));
        assert(all.take(i + 1).last() == all[i as int]);
        if let Some(rdata) = read_item(&items[i]) {
            let ghost before = record_views(records@);
            let record = Record::new(name.clone(), rdata);
            records.push(record);
            assert(record_views(records@) =~= before.push(record@));
        }
        i += 1;
        assert(record_views(records@) =~= start + item_records(name@, all.take(i as int)));
    }
    assert(all.take(i as int) =~= all);
}

/// Whether a file makes no name an alias for itself.
pub fn check_file(zone_data: &ZoneFile) -> (r: bool)
    ensures
        r == no_own_aliases(zone_views(zone_data@)),
{
    let ghost all = zone_views(zone_data@);
    let mut i: usize = 0;
    while i < zone_data.len()
        invariant
            i <= zone_data.len(),
            all == zone_views(zone_data@),
            forall|j: int, k: int|
                0 <= j < i && 0 <= k < all[j].1.len() ==> !(
                #[trigger] all[j].1[k] matches ItemView::RData(rdata) && own_alias(
                    all[j].0,
                    rdata,
                )),
        decreases zone_data.len() - i,
    {
        let ghost items = all[i as int].1;
        let mut m: usize = 0;
        while m < zone_data[i].1.len()
            invariant
                i < zone_data.len(),
                m <= zone_data@[i as int].1.len(),
                all == zone_views(zone_data@),
                items == all[i as int].1,
                forall|k: int|
                    0 <= k < m ==> !(#[trigger] items[k] matches ItemView::RData(rdata)
                        && own_alias(all[i as int].0, rdata)),
            decreases zone_data@[i as int].1.len() - m,
        {
            if let RDataItem::RData(RData::Cname(alias)) = &zone_data[i].1[m] {
                if zone_data[i].0.same(alias) {
                    assert(all[i as int].1[m as int] matches ItemView::RData(rdata) && own_alias(
                        all[i as int].0,
                        rdata,
                    ));
                    return false;
                }
            }
            m += 1;
        }
        i += 1;
    }
    true
}

/// The records for a file.
pub fn parse_file(zone_data: &ZoneFile) -> (r: RecordSet)
    requires
        no_own_aliases(zone_views(zone_data@)),
    ensures
        r@ == with_records(no_records(), file_records(zone_views(zone_data@))),
        forall|record: RecordView| #[trigger]
            holds(r@.records, record) <==> file_gives(zone_views(zone_data@), record),
{
    let mut records: Vec<Record> = Vec::new();
    let ghost all = zone_views(zone_data@);
    let mut i: usize = 0;
    assert(all.take(0) =~= Seq::empty());
    assert(record_views(records@) =~= Seq::empty());
    while i < zone_data.len()
        invariant
            i <= zone_data.len(),
            all == zone_views(zone_data@),
            no_own_aliases(all),
            record_views(records@) == file_records(all.take(i as int)),
        decreases zone_data.len() - i,
    {
        assert(all.take(i + 1).drop_last() =~= all.take(i as int));
        assert(all.take(i + 1).last() == all[i as int]);
        let ghost items = item_views(zone_data@[i as int].1@);
        assert forall|k: int| 0 <= k < items.len() implies !((
        #[trigger] items[k]) matches ItemView::RData(rdata) && own_alias(
            zone_data@[i as int].0@,
            rdata,
        )) by {
            assert(all[i as int].1[k] == items[k]);
        }
        add_items(&zone_data[i].0, &zone_data[i].1, &mut records);
        i += 1;
    }
    assert(all.take(i as int) =~= all);
    proof {
        assert forall|record: RecordView| #[trigger]
            holds(with_records(no_records(), file_records(all)).records, record) <==> file_gives(
                all,
                record,
            ) by {
            law_every_item_is_read(all, record);
        }
    }
    RecordSet::from_records(&records)
}

} // verus!
