//! Records in sets: those of one name and type belong together.

use vstd::prelude::*;
use crate::dns::rr;
use crate::dns::rr::{fold_rdata, views, DnsClass, RData, RDataView, RecordType};
use crate::name::fold;

verus! {

/// Whether two records belong to one set: they have the same name and type.
pub open spec fn one_set(a: rr::RecordView, b: rr::RecordView) -> bool {
    fold(a.name) == fold(b.name) && a.record_type == b.record_type
}

/// The sets of a list.
pub open spec fn set_views(sets: Seq<Vec<rr::Record>>) -> Seq<Seq<rr::RecordView>> {
    Seq::new(sets.len(), |i: int| views(sets[i]@))
}

/// Whether records hold the same data. The case of names does not matter.
pub open spec fn same_data(a: rr::RecordView, b: rr::RecordView) -> bool {
    match (a.data, b.data) {
        (Some(a), Some(b)) => fold_rdata(a) == fold_rdata(b),
        (None, None) => true,
        _ => false,
    }
}

/// The place of the first record with the data of another, or the number of records.
pub open spec fn data_place(set: Seq<rr::RecordView>, record: rr::RecordView) -> int
    decreases set.len(),
{
    if set.len() == 0 {
        0
    } else {
        let place = data_place(set.drop_last(), record);
        if place < set.len() - 1 {
            place
        } else if same_data(set.last(), record) {
            set.len() - 1
        } else {
            set.len() as int
        }
    }
}

/// Whether a record has a start of authority with a higher serial number than that of another.
pub open spec fn newer_soa(old: rr::RecordView, new: rr::RecordView) -> bool {
    match (old.data, new.data) {
        (Some(RDataView::Soa(old)), Some(RDataView::Soa(new))) => old.serial < new.serial,
        _ => false,
    }
}

/// A set with a record of its name and type added. There is one start of authority, that with the
/// highest serial number, and one alias, the last. No data is there twice: a record that differs in
/// its class alone takes the place of the one before.
pub open spec fn merged(set: Seq<rr::RecordView>, record: rr::RecordView) -> Seq<rr::RecordView> {
    let place = data_place(set, record);
    if record.record_type == RecordType::Soa {
        if set.len() == 0 || newer_soa(set[0], record) {
            seq![record]
        } else {
            set
        }
    } else if record.record_type == RecordType::Cname || record.record_type == RecordType::Aname {
        seq![record]
    } else if place >= set.len() {
        set.push(record)
    } else if set[place].class == record.class {
        set
    } else {
        set.update(place, record)
    }
}

/// Whether a record belongs to a set.
pub open spec fn belongs(set: Seq<rr::RecordView>, record: rr::RecordView) -> bool {
    set.len() > 0 && one_set(set[0], record)
}

/// The place of the first set that a record belongs to, or the number of sets.
pub open spec fn set_place(sets: Seq<Seq<rr::RecordView>>, record: rr::RecordView) -> int
    decreases sets.len(),
{
    if sets.len() == 0 {
        0
    } else {
        let place = set_place(sets.drop_last(), record);
        if place < sets.len() - 1 {
            place
        } else if belongs(sets.last(), record) {
            sets.len() - 1
        } else {
            sets.len() as int
        }
    }
}

/// Sets with a record merged into the one that it belongs to, or in a new one.
pub open spec fn sorted_in(sets: Seq<Seq<rr::RecordView>>, record: rr::RecordView) -> Seq<
    Seq<rr::RecordView>,
> {
    let place = set_place(sets, record);
    if place < sets.len() {
        sets.update(place, merged(sets[place], record))
    } else {
        sets.push(seq![record])
    }
}

/// Records in the sets that they belong to.
pub open spec fn in_sets(records: Seq<rr::RecordView>) -> Seq<Seq<rr::RecordView>>
    decreases records.len(),
{
    if records.len() == 0 {
        Seq::empty()
    } else {
        sorted_in(in_sets(records.drop_last()), records.last())
    }
}

/// Whether a record cannot stand beside a set under the same name: an alias stands alone. The last
/// of all type numbers is not looked at.
pub open spec fn stands_alone(set: Seq<rr::RecordView>, record: rr::RecordView) -> bool {
    &&& set.len() > 0
    &&& fold(set[0].name) == fold(record.name)
    &&& set[0].record_type != RecordType::Other(65535)
    &&& (set[0].record_type == RecordType::Cname) != (record.record_type == RecordType::Cname)
}

/// Sets of a zone with a record added. A record of another class than the internet's is left out,
/// and so is one that cannot stand beside those that are there.
pub open spec fn upserted(sets: Seq<Seq<rr::RecordView>>, record: rr::RecordView) -> Seq<
    Seq<rr::RecordView>,
> {
    if record.class != DnsClass::In || exists|i: int|
        0 <= i < sets.len() && #[trigger] stands_alone(sets[i], record) {
        sets
    } else {
        sorted_in(sets, record)
    }
}

/// The place of a record is a place.
proof fn lemma_data_place(set: Seq<rr::RecordView>, record: rr::RecordView)
    ensures
        0 <= data_place(set, record) <= set.len(),
        data_place(set, record) < set.len() ==> same_data(set[data_place(set, record)], record),
        forall|j: int|
            0 <= j < data_place(set, record) ==> !same_data(#[trigger] set[j], record),
    decreases set.len(),
{
    if set.len() > 0 {
        let front = set.drop_last();
        lemma_data_place(front, record);
        assert forall|j: int| 0 <= j < data_place(set, record) implies !same_data(
            #[trigger] set[j],
            record,
        ) by {
            if j < front.len() {
                assert(front[j] == set[j]);
            }
        }
    }
}

/// The place of a set is a place.
proof fn lemma_set_place(sets: Seq<Seq<rr::RecordView>>, record: rr::RecordView)
    ensures
        0 <= set_place(sets, record) <= sets.len(),
        set_place(sets, record) < sets.len() ==> belongs(
            sets[set_place(sets, record)],
            record,
        ),
        forall|j: int| 0 <= j < set_place(sets, record) ==> !belongs(#[trigger] sets[j], record),
    decreases sets.len(),
{
    if sets.len() > 0 {
        let front = sets.drop_last();
        lemma_set_place(front, record);
        assert forall|j: int| 0 <= j < set_place(sets, record) implies !belongs(
            #[trigger] sets[j],
            record,
        ) by {
            if j < front.len() {
                assert(front[j] == sets[j]);
            }
        }
    }
}

/// What holds of sets: each is of one name and type, and no two are of the same. No set is empty,
/// and none holds data twice.
pub open spec fn apart(sets: Seq<Seq<rr::RecordView>>) -> bool {
    &&& forall|i: int| 0 <= i < sets.len() ==> (#[trigger] sets[i]).len() > 0
    &&& forall|i: int, k: int|
        0 <= i < sets.len() && 0 <= k < sets[i].len() ==> one_set(
            sets[i][0],
            #[trigger] sets[i][k],
        )
    &&& forall|i: int, j: int|
        0 <= i < j < sets.len() ==> !one_set((#[trigger] sets[i])[0], (#[trigger] sets[j])[0])
    &&& forall|i: int| 0 <= i < sets.len() ==> data_apart(#[trigger] sets[i])
}

/// Whether no data is in a set twice.
pub open spec fn data_apart(set: Seq<rr::RecordView>) -> bool {
    forall|k: int, m: int|
        0 <= k < m < set.len() ==> !same_data(#[trigger] set[k], #[trigger] set[m])
}

/// Merging a record into the set that it belongs to keeps that set one of a name and type, and
/// holds no data twice.
proof fn lemma_merged(set: Seq<rr::RecordView>, record: rr::RecordView)
    requires
        belongs(set, record),
        forall|k: int| 0 <= k < set.len() ==> one_set(set[0], #[trigger] set[k]),
        data_apart(set),
    ensures
        merged(set, record).len() > 0,
        one_set(set[0], merged(set, record)[0]),
        forall|k: int|
            0 <= k < merged(set, record).len() ==> one_set(
                merged(set, record)[0],
                #[trigger] merged(set, record)[k],
            ),
        data_apart(merged(set, record)),
{
    lemma_data_place(set, record);
    let place = data_place(set, record);
    let after = merged(set, record);
    assert forall|k: int| 0 <= k < after.len() implies one_set(after[0], #[trigger] after[k]) by {
        assert(after[k] == record || 0 <= k < set.len() && after[k] == set[k]);
        assert(after[0] == record || after[0] == set[0]);
    }
    assert forall|k: int, m: int| 0 <= k < m < after.len() implies !same_data(
        #[trigger] after[k],
        #[trigger] after[m],
    ) by {
        if place < set.len() {
            assert(k == place || after[k] == set[k]);
            assert(m == place || after[m] == set[m]);
            assert(same_data(set[place], record));
            if k != place {
                assert(!same_data(set[k], set[m]));
            } else {
                assert(!same_data(set[place], set[m]));
            }
        } else if m < set.len() {
            assert(after[k] == set[k] && after[m] == set[m]);
        }
    }
}

/// Sorting a record in keeps what holds of sets.
pub proof fn law_sorting_in_keeps_sets_apart(sets: Seq<Seq<rr::RecordView>>, record: rr::RecordView)
    requires
        apart(sets),
    ensures
        apart(sorted_in(sets, record)),
{
    let after = sorted_in(sets, record);
    let place = set_place(sets, record);
    lemma_set_place(sets, record);
    if place < sets.len() {
        assert forall|k: int| 0 <= k < sets[place].len() implies one_set(
            sets[place][0],
            #[trigger] sets[place][k],
        ) by {}
        lemma_merged(sets[place], record);
    }
    assert forall|i: int| 0 <= i < after.len() implies (#[trigger] after[i]).len() > 0
        && data_apart(after[i]) by {
        if i != place {
            assert(after[i] == sets[i]);
        }
    }
    assert forall|i: int, k: int| 0 <= i < after.len() && 0 <= k < after[i].len() implies one_set(
        after[i][0],
        #[trigger] after[i][k],
    ) by {
        if i != place {
            assert(after[i] == sets[i]);
        }
    }
    assert forall|i: int, j: int| 0 <= i < j < after.len() implies !one_set(
        (#[trigger] after[i])[0],
        (#[trigger] after[j])[0],
    ) by {
        if i != place {
            assert(after[i] == sets[i]);
        }
        if j != place {
            assert(after[j] == sets[j]);
        }
        if place < sets.len() {
            assert(!one_set(sets[i][0], sets[j][0]));
        }
    }
}

/// Records are put in sets such that each set is of one name and type, no two sets are of the same,
/// and no data is in a set twice.
pub proof fn law_sets_are_apart(records: Seq<rr::RecordView>)
    ensures
        apart(in_sets(records)),
    decreases records.len(),
{
    if records.len() > 0 {
        law_sets_are_apart(records.drop_last());
        law_sorting_in_keeps_sets_apart(in_sets(records.drop_last()), records.last());
    }
}

/// Adding a record to a zone keeps what holds of its sets.
pub proof fn law_zones_keep_sets_apart(sets: Seq<Seq<rr::RecordView>>, record: rr::RecordView)
    requires
        apart(sets),
    ensures
        apart(upserted(sets, record)),
{
    law_sorting_in_keeps_sets_apart(sets, record);
}

/// A record that comes again changes nothing.
pub proof fn law_records_come_once(sets: Seq<Seq<rr::RecordView>>, record: rr::RecordView)
    ensures
        sorted_in(sorted_in(sets, record), record) == sorted_in(sets, record),
{
    let once = sorted_in(sets, record);
    let place = set_place(sets, record);
    lemma_set_place(sets, record);
    lemma_set_place(once, record);
    let again = set_place(once, record);
    if place < sets.len() {
        let set = sets[place];
        let after = merged(set, record);
        let at = data_place(set, record);
        let then = data_place(after, record);
        lemma_data_place(set, record);
        lemma_data_place(after, record);
        assert(belongs(once[place], record));
        let single = record.record_type == RecordType::Soa || record.record_type
            == RecordType::Cname || record.record_type == RecordType::Aname;
        if !single {
            assert(same_data(after[at], record));
            assert(then == at) by {
                if then < at {
                    assert(after[then] == set[then]);
                }
            }
        }
        assert(merged(after, record) =~= after);
    } else {
        let alone = seq![record];
        lemma_data_place(alone, record);
        assert(same_data(alone[0], record));
        assert(once[place] == alone);
        assert(merged(alone, record) =~= alone);
        assert(belongs(once[place], record));
    }
    assert(again == place) by {
        if again < place {
            assert(once[again] == sets[again]);
        }
    }
    assert(merged(once[place], record) =~= once[place]);
    assert(sorted_in(once, record) =~= once);
}

/// Whether records hold the same data.
fn holds_same(a: &rr::Record, b: &rr::Record) -> (r: bool)
    ensures
        r == same_data(a@, b@),
{
    match (&a.data, &b.data) {
        (Some(a), Some(b)) => a.same(b),
        (None, None) => true,
        _ => false,
    }
}

/// Whether a record has a start of authority with a higher serial number than that of another.
fn has_newer_soa(old: &rr::Record, new: &rr::Record) -> (r: bool)
    ensures
        r == newer_soa(old@, new@),
{
    match (&old.data, &new.data) {
        (Some(RData::Soa(old)), Some(RData::Soa(new))) => old.serial < new.serial,
        _ => false,
    }
}

/// Adds a record to a set of its name and type.
fn merge(set: &mut Vec<rr::Record>, record: rr::Record)
    ensures
        views(final(set)@) == merged(views(old(set)@), record@),
{
    let ghost start = views(set@);
    if record.record_type == RecordType::Soa {
        if set.len() == 0 || has_newer_soa(&set[0], &record) {
            *set = vec![record];
            assert(views(set@) =~= seq![record@]);
        }
        return;
    }
    if record.record_type == RecordType::Cname || record.record_type == RecordType::Aname {
        *set = vec![record];
        assert(views(set@) =~= seq![record@]);
        return;
    }
    let mut place: usize = 0;
    let mut k: usize = 0;
    assert(start.take(0) =~= Seq::empty());
    while k < set.len()
        invariant
            k <= set.len(),
            start == views(set@),
            place <= k,
            place == data_place(start.take(k as int), record@),
        decreases set.len() - k,
    {
        assert(start.take(k + 1).drop_last() =~= start.take(k as int));
        assert(start.take(k + 1).last() == start[k as int]);
        if place == k && !holds_same(&set[k], &record) {
            place = k + 1;
        }
        k += 1;
    }
    assert(start.take(k as int) =~= start);
    if place >= set.len() {
        set.push(record);
        assert(views(set@) =~= start.push(record@));
    } else if set[place].class != record.class {
        set.set(place, record);
        assert(views(set@) =~= start.update(place as int, record@));
    }
}

/// Puts a record in the set that it belongs to.
pub(crate) fn sort_in(sets: &mut Vec<Vec<rr::Record>>, record: rr::Record)
    ensures
        set_views(final(sets)@) == sorted_in(set_views(old(sets)@), record@),
{
    let ghost start = set_views(sets@);
    let ghost view = record@;
    let mut place: usize = 0;
    let mut k: usize = 0;
    assert(start.take(0) =~= Seq::empty());
    while k < sets.len()
        invariant
            k <= sets.len(),
            start == set_views(sets@),
            place <= k,
            place == set_place(start.take(k as int), record@),
        decreases sets.len() - k,
    {
        assert(start.take(k + 1).drop_last() =~= start.take(k as int));
        assert(start.take(k + 1).last() == start[k as int]);
        assert(start[k as int].len() == sets@[k as int].len());
        let here = sets[k].len() > 0 && sets[k][0].name.same(&record.name)
            && sets[k][0].record_type == record.record_type;
        if place == k && !here {
            place = k + 1;
        }
        k += 1;
    }
    assert(start.take(k as int) =~= start);
    if place < sets.len() {
        let mut set = rr::copy_records(&sets[place]);
        merge(&mut set, record);
        let ghost after = views(set@);
        sets.set(place, set);
        assert(set_views(sets@) =~= start.update(place as int, after));
    } else {
        let set = vec![record];
        assert(views(set@) =~= seq![view]);
        sets.push(set);
        assert(set_views(sets@) =~= start.push(seq![view]));
    }
}

/// Adds a record to the sets of a zone.
pub(crate) fn upsert(sets: &mut Vec<Vec<rr::Record>>, record: rr::Record)
    ensures
        set_views(final(sets)@) == upserted(set_views(old(sets)@), record@),
{
    let ghost start = set_views(sets@);
    if record.class != DnsClass::In {
        return;
    }
    let alias = record.record_type == RecordType::Cname;
    let mut k: usize = 0;
    while k < sets.len()
        invariant
            k <= sets.len(),
            start == set_views(sets@),
            alias == (record.record_type == RecordType::Cname),
            forall|j: int| 0 <= j < k ==> !stands_alone(#[trigger] start[j], record@),
        decreases sets.len() - k,
    {
        assert(start[k as int].len() == sets@[k as int].len());
        if sets[k].len() > 0 && sets[k][0].name.same(&record.name) && sets[k][0].record_type
            != RecordType::Other(65535) && (sets[k][0].record_type == RecordType::Cname) != alias {
            assert(stands_alone(start[k as int], record@));
            return;
        }
        k += 1;
    }
    sort_in(sets, record);
}

/// Puts records in the sets that they belong to.
pub(crate) fn split_sets(records: Vec<rr::Record>) -> (r: Vec<Vec<rr::Record>>)
    ensures
        set_views(r@) == in_sets(views(records@)),
{
    let mut sets: Vec<Vec<rr::Record>> = Vec::new();
    let ghost all = views(records@);
    let mut i: usize = 0;
    assert(all.take(0) =~= Seq::empty());
    assert(set_views(sets@) =~= Seq::empty());
    while i < records.len()
        invariant
            i <= records.len(),
            all == views(records@),
            set_views(sets@) == in_sets(all.take(i as int)),
        decreases records.len() - i,
    {
        assert(all.take(i + 1).drop_last() =~= all.take(i as int));
        assert(all.take(i + 1).last() == all[i as int]);
        sort_in(&mut sets, records[i].clone());
        i += 1;
    }
    assert(all.take(i as int) =~= all);
    sets
}

/// A copy of sets.
pub(crate) fn copy_sets(sets: &Vec<Vec<rr::Record>>) -> (r: Vec<Vec<rr::Record>>)
    ensures
        set_views(r@) == set_views(sets@),
{
    let mut out: Vec<Vec<rr::Record>> = Vec::new();
    let ghost all = set_views(sets@);
    let mut i: usize = 0;
    while i < sets.len()
        invariant
            i <= sets.len(),
            all == set_views(sets@),
            set_views(out@) == all.take(i as int),
        decreases sets.len() - i,
    {
        let ghost before = set_views(out@);
        let set = rr::copy_records(&sets[i]);
        out.push(set);
        i += 1;
        assert(set_views(out@) =~= before.push(all[i - 1]));
        assert(set_views(out@) =~= all.take(i as int));
    }
    assert(all.take(i as int) =~= all);
    out
}

/// Whether sets hold the data of a record under its name and type.
pub open spec fn held(sets: Seq<Seq<rr::RecordView>>, record: rr::RecordView) -> bool {
    exists|i: int, k: int|
        0 <= i < sets.len() && 0 <= k < sets[i].len() && one_set(#[trigger] sets[i][k], record)
            && same_data(sets[i][k], record)
}

/// Whether sets hold a start of authority for the name of a record that is not older than it.
pub open spec fn holds_as_new(sets: Seq<Seq<rr::RecordView>>, record: rr::RecordView) -> bool {
    exists|i: int|
        0 <= i < sets.len() && one_set((#[trigger] sets[i])[0], record) && !newer_soa(
            sets[i][0],
            record,
        )
}

/// A record of the same set with the same data is held where the other is.
proof fn lemma_held_at(
    sets: Seq<Seq<rr::RecordView>>,
    i: int,
    k: int,
    record: rr::RecordView,
)
    requires
        0 <= i < sets.len(),
        0 <= k < sets[i].len(),
        one_set(sets[i][k], record),
        same_data(sets[i][k], record),
    ensures
        held(sets, record),
{
}

/// A record that is sorted in is held from then on, and all that was held stays. An alias takes the
/// place of one that was there, and a start of authority that of an older one.
pub proof fn law_sorted_records_are_held(
    sets: Seq<Seq<rr::RecordView>>,
    record: rr::RecordView,
    other: rr::RecordView,
)
    requires
        apart(sets),
    ensures
        ({
            let after = held(sorted_in(sets, record), other);
            let before = held(sets, other);
            let new = one_set(record, other) && same_data(record, other);
            if !one_set(record, other) {
                after <==> before
            } else if record.record_type == RecordType::Soa {
                after <==> if holds_as_new(sets, record) {
                    before
                } else {
                    new
                }
            } else if record.record_type == RecordType::Cname || record.record_type
                == RecordType::Aname {
                after <==> new
            } else {
                after <==> before || new
            }
        }),
{
    let all = sorted_in(sets, record);
    let place = set_place(sets, record);
    lemma_set_place(sets, record);
    assert forall|i: int| 0 <= i < sets.len() && one_set((#[trigger] sets[i])[0], record) implies i
        == place by {
        assert(belongs(sets[i], record));
        if place < i {
            assert(!one_set(sets[place][0], sets[i][0]));
        }
    }
    assert forall|i: int| 0 <= i < all.len() && i != place implies #[trigger] all[i] == sets[i] by {}
    let here = all[place];
    if place < sets.len() {
        assert(here == merged(sets[place], record));
        lemma_data_place(sets[place], record);
    } else {
        assert(here == seq![record]);
    }
    if held(all, other) {
        let (i, k) = choose|i: int, k: int|
            0 <= i < all.len() && 0 <= k < all[i].len() && one_set(#[trigger] all[i][k], other)
                && same_data(all[i][k], other);
        if i != place {
            assert(all[i][k] == sets[i][k]);
            lemma_held_at(sets, i, k, other);
            assert(one_set(sets[i][0], sets[i][k]));
            if one_set(record, other) {
                assert(one_set(sets[i][0], record));
            }
        } else if here[k] != record {
            assert(place < sets.len());
            assert(sets[place][k] == here[k]);
            lemma_held_at(sets, place, k, other);
        }
    }
    if held(sets, other) {
        let (i, k) = choose|i: int, k: int|
            0 <= i < sets.len() && 0 <= k < sets[i].len() && one_set(#[trigger] sets[i][k], other)
                && same_data(sets[i][k], other);
        assert(one_set(sets[i][0], sets[i][k]));
        if i != place {
            assert(all[i][k] == sets[i][k]);
            lemma_held_at(all, i, k, other);
        } else {
            assert(one_set(sets[i][0], record));
            assert(one_set(record, other));
            if record.record_type != RecordType::Soa && record.record_type != RecordType::Cname
                && record.record_type != RecordType::Aname {
                if here[k] == sets[i][k] {
                    lemma_held_at(all, place, k, other);
                } else {
                    assert(here[k] == record);
                    assert(same_data(sets[i][k], record));
                    lemma_held_at(all, place, k, other);
                }
            }
            if record.record_type == RecordType::Soa && holds_as_new(sets, record) {
                assert(here == sets[place]);
                lemma_held_at(all, place, k, other);
            }
        }
    }
    if one_set(record, other) && same_data(record, other) {
        if place >= sets.len() {
            assert(here[0] == record);
            lemma_held_at(all, place, 0, other);
        } else if record.record_type == RecordType::Soa {
            if newer_soa(sets[place][0], record) {
                assert(here[0] == record);
                lemma_held_at(all, place, 0, other);
            }
        } else if record.record_type == RecordType::Cname || record.record_type
            == RecordType::Aname {
            assert(here[0] == record);
            lemma_held_at(all, place, 0, other);
        } else {
            let at = data_place(sets[place], record);
            if at < sets[place].len() {
                assert(one_set(sets[place][0], sets[place][at]));
                if here[at] != record {
                    assert(here[at] == sets[place][at]);
                }
            } else {
                assert(here[at] == record);
            }
            lemma_held_at(all, place, at, other);
        }
    }
    if holds_as_new(sets, record) {
        let i = choose|i: int|
            0 <= i < sets.len() && one_set((#[trigger] sets[i])[0], record) && !newer_soa(
                sets[i][0],
                record,
            );
        assert(i == place);
    } else if place < sets.len() {
        assert(one_set(sets[place][0], record));
    }
}

/// Whether records hold the data of a record under its name and type.
pub open spec fn given(records: Seq<rr::RecordView>, record: rr::RecordView) -> bool {
    exists|j: int|
        0 <= j < records.len() && one_set(#[trigger] records[j], record) && same_data(
            records[j],
            record,
        )
}

/// Sets hold all records that were put in them, and no others, where they are no aliases and no starts
/// of authority.
pub proof fn law_all_records_are_in_sets(records: Seq<rr::RecordView>, record: rr::RecordView)
    requires
        record.record_type != RecordType::Soa,
        record.record_type != RecordType::Cname,
        record.record_type != RecordType::Aname,
    ensures
        held(in_sets(records), record) <==> given(records, record),
    decreases records.len(),
{
    if records.len() > 0 {
        let front = records.drop_last();
        law_all_records_are_in_sets(front, record);
        law_sets_are_apart(front);
        law_sorted_records_are_held(in_sets(front), records.last(), record);
        assert(records[records.len() - 1] == records.last());
        if given(records, record) {
            let j = choose|j: int|
                0 <= j < records.len() && one_set(#[trigger] records[j], record) && same_data(
                    records[j],
                    record,
                );
            if j < front.len() {
                assert(front[j] == records[j]);
            }
        }
        if given(front, record) {
            let j = choose|j: int|
                0 <= j < front.len() && one_set(#[trigger] front[j], record) && same_data(
                    front[j],
                    record,
                );
            assert(records[j] == front[j]);
        }
    }
}

/// Of the aliases of a name that were put in sets, the last is held, and no other.
pub proof fn law_last_alias_is_in_sets(
    records: Seq<rr::RecordView>,
    at: int,
    record: rr::RecordView,
)
    requires
        0 <= at < records.len(),
        records[at].record_type == RecordType::Cname || records[at].record_type
            == RecordType::Aname,
        forall|j: int| at < j < records.len() ==> !one_set(#[trigger] records[j], records[at]),
        one_set(records[at], record),
    ensures
        held(in_sets(records), record) <==> same_data(records[at], record),
    decreases records.len(),
{
    let front = records.drop_last();
    law_sets_are_apart(front);
    law_sorted_records_are_held(in_sets(front), records.last(), record);
    if at < front.len() {
        assert(front[at] == records[at]);
        assert forall|j: int| at < j < front.len() implies !one_set(
            #[trigger] front[j],
            front[at],
        ) by {
            assert(front[j] == records[j]);
        }
        law_last_alias_is_in_sets(front, at, record);
        assert(!one_set(records[records.len() - 1], records[at]));
    }
}

/// Of the starts of authority of a name that were put in sets, none has a higher serial number than the
/// one that is held.
pub proof fn law_highest_serial_is_in_sets(records: Seq<rr::RecordView>, i: int, j: int)
    requires
        0 <= i < in_sets(records).len(),
        in_sets(records)[i][0].record_type == RecordType::Soa,
        0 <= j < records.len(),
        one_set(in_sets(records)[i][0], records[j]),
    ensures
        !newer_soa(in_sets(records)[i][0], records[j]),
    decreases records.len(),
{
    let front = records.drop_last();
    let sets = in_sets(front);
    let all = in_sets(records);
    let record = records.last();
    let place = set_place(sets, record);
    law_sets_are_apart(front);
    lemma_set_place(sets, record);
    if i < sets.len() {
        if j < front.len() {
            assert(front[j] == records[j]);
        }
        if i == place {
            assert(all[i] == merged(sets[i], record));
            assert forall|k: int| 0 <= k < sets[i].len() implies one_set(
                sets[i][0],
                #[trigger] sets[i][k],
            ) by {}
            lemma_merged(sets[i], record);
            if j < front.len() {
                law_highest_serial_is_in_sets(front, i, j);
            }
        } else {
            assert(all[i] == sets[i]);
            if j < front.len() {
                law_highest_serial_is_in_sets(front, i, j);
            } else {
                assert(belongs(sets[i], record));
                if place < i {
                    assert(!one_set(sets[place][0], sets[i][0]));
                }
            }
        }
    } else {
        assert(all[i] == seq![record]);
        if j < front.len() {
            assert(front[j] == records[j]);
            lemma_given_is_in_a_set(front, j);
            let k = choose|k: int| 0 <= k < sets.len() && belongs(#[trigger] sets[k], front[j]);
            assert(belongs(sets[k], record));
        }
    }
}

/// There is a set for each record that was put in sets.
proof fn lemma_given_is_in_a_set(records: Seq<rr::RecordView>, j: int)
    requires
        0 <= j < records.len(),
    ensures
        exists|k: int|
            0 <= k < in_sets(records).len() && belongs(#[trigger] in_sets(records)[k], records[j]),
    decreases records.len(),
{
    let front = records.drop_last();
    let sets = in_sets(front);
    let all = in_sets(records);
    let record = records.last();
    let place = set_place(sets, record);
    law_sets_are_apart(front);
    law_sets_are_apart(records);
    lemma_set_place(sets, record);
    assert(all[place].len() > 0);
    if place < sets.len() {
        assert(one_set(sets[place][0], record));
        lemma_merged(sets[place], record);
    }
    if j < front.len() {
        lemma_given_is_in_a_set(front, j);
        let k = choose|k: int| 0 <= k < sets.len() && belongs(#[trigger] sets[k], front[j]);
        assert(front[j] == records[j]);
        assert(belongs(all[k], records[j]));
    } else {
        assert(belongs(all[place], records[j]));
    }
}

/// A zone takes a record of the internet class, unless it stands under a name that has an alias, or is
/// an alias under a name that has another record; then nothing changes.
pub proof fn law_zones_take_records(
    sets: Seq<Seq<rr::RecordView>>,
    record: rr::RecordView,
    other: rr::RecordView,
)
    requires
        apart(sets),
        forall|i: int|
            0 <= i < sets.len() ==> (#[trigger] sets[i])[0].record_type != RecordType::Other(65535),
    ensures
        ({
            let beside = exists|i: int|
                0 <= i < sets.len() && fold((#[trigger] sets[i])[0].name) == fold(record.name) && (
                sets[i][0].record_type == RecordType::Cname <==> record.record_type
                    != RecordType::Cname);
            let single = record.record_type == RecordType::Soa || record.record_type
                == RecordType::Cname || record.record_type == RecordType::Aname;
            &&& record.class != DnsClass::In || beside ==> upserted(sets, record) == sets
            &&& record.class == DnsClass::In && !beside && !single ==> (held(
                upserted(sets, record),
                other,
            ) <==> held(sets, other) || one_set(record, other) && same_data(record, other))
            &&& record.class == DnsClass::In && !beside ==> upserted(sets, record) == sorted_in(
                sets,
                record,
            )
        }),
{
    law_sorted_records_are_held(sets, record, other);
    if exists|i: int|
        0 <= i < sets.len() && fold((#[trigger] sets[i])[0].name) == fold(record.name) && (
        sets[i][0].record_type == RecordType::Cname <==> record.record_type != RecordType::Cname) {
        let i = choose|i: int|
            0 <= i < sets.len() && fold((#[trigger] sets[i])[0].name) == fold(record.name) && (
            sets[i][0].record_type == RecordType::Cname <==> record.record_type
                != RecordType::Cname);
        assert(stands_alone(sets[i], record));
    }
}

} // verus!
