//! The records of all sources, of this server and of others, and what is served from them.

use vstd::prelude::*;
use crate::dns::record::RecordView;
use crate::dns::set::{holds, law_append_is_union, no_records, with_sets, RecordSet, RecordSetView};
use crate::pairs::{
    drop_key, filtered, has_key, lemma_contains, lemma_drop_key, lemma_filtered, lemma_filtered_unique,
    lemma_place, lemma_place_is, lemma_put, place, put, unique_keys, value_of,
};
use crate::sources::id::{SourceId, SourceType};
use crate::time::{before, now, on_clock, Timestamp};

verus! {

/// The records of the sources of a server.
pub type ServerRecords = Vec<(SourceId, RecordSet)>;

/// The records of sources, by their kinds and names.
pub open spec fn source_views(records: Seq<(SourceId, RecordSet)>) -> Seq<
    ((SourceType, Seq<char>), RecordSetView),
> {
    Seq::new(records.len(), |i: int| (records[i].0@, records[i].1@))
}

/// The records of another server: when they were taken there, until when they hold, and the
/// records themselves.
#[derive(Debug)]
pub struct RemoteServerRecords {
    pub timestamp: Timestamp,
    pub expiry: Timestamp,
    pub records: ServerRecords,
}

/// The records of another server, by the labels of their names.
#[verifier::ext_equal]
pub struct RemoteView {
    pub timestamp: Timestamp,
    pub expiry: Timestamp,
    pub records: Seq<((SourceType, Seq<char>), RecordSetView)>,
}

impl View for RemoteServerRecords {
    type V = RemoteView;

    open spec fn view(&self) -> RemoteView {
        RemoteView {
            timestamp: self.timestamp,
            expiry: self.expiry,
            records: source_views(self.records@),
        }
    }
}

/// The records of other servers, by their identifiers.
pub open spec fn remote_views(remotes: Seq<(u128, RemoteServerRecords)>) -> Seq<(u128, RemoteView)> {
    Seq::new(remotes.len(), |i: int| (remotes[i].0, remotes[i].1@))
}

/// The records of the sources of this server and of other servers.
#[derive(Debug)]
pub struct RecordStoreData {
    pub local: ServerRecords,
    pub remote: Vec<(u128, RemoteServerRecords)>,
}

/// The records of all servers, by the labels of their names.
#[verifier::ext_equal]
pub struct StoreView {
    pub local: Seq<((SourceType, Seq<char>), RecordSetView)>,
    pub remote: Seq<(u128, RemoteView)>,
}

impl View for RecordStoreData {
    type V = StoreView;

    open spec fn view(&self) -> StoreView {
        StoreView { local: source_views(self.local@), remote: remote_views(self.remote@) }
    }
}

/// The sets of records of sources.
pub open spec fn sets_of(records: Seq<((SourceType, Seq<char>), RecordSetView)>) -> Seq<
    RecordSetView,
> {
    Seq::new(records.len(), |i: int| records[i].1)
}

/// A set with the records of other servers added one after the other.
pub open spec fn with_remotes(set: RecordSetView, remotes: Seq<(u128, RemoteView)>) -> RecordSetView
    decreases remotes.len(),
{
    if remotes.len() == 0 {
        set
    } else {
        with_sets(
            with_remotes(set, remotes.drop_last()),
            sets_of(remotes.last().1.records),
        )
    }
}

/// What is served: the records of the sources of this server, then those of other servers.
pub open spec fn served(store: StoreView) -> RecordSetView {
    with_remotes(with_sets(no_records(), sets_of(store.local)), store.remote)
}

/// The records of other servers that still hold at some time.
pub open spec fn unexpired(remotes: Seq<(u128, RemoteView)>, time: Timestamp) -> Seq<
    (u128, RemoteView),
> {
    filtered(remotes, |entry: (u128, RemoteView)| before(time, entry.1.expiry))
}

/// Two reports of the records of one server made into one. What was taken later counts, and of
/// two reports of what was taken at one time, the longer that one holds.
pub open spec fn newer(old: RemoteView, new: RemoteView) -> RemoteView {
    if before(old.timestamp, new.timestamp) {
        new
    } else if old.timestamp == new.timestamp && before(old.expiry, new.expiry) {
        RemoteView { expiry: new.expiry, ..old }
    } else {
        old
    }
}

/// The records of other servers with a report on one of them taken in.
pub open spec fn reported(
    remotes: Seq<(u128, RemoteView)>,
    server_id: u128,
    report: RemoteView,
) -> Seq<(u128, RemoteView)> {
    if has_key(remotes, server_id) {
        put(remotes, server_id, newer(value_of(remotes, server_id), report))
    } else {
        put(remotes, server_id, report)
    }
}

/// The records of other servers with reports taken in one after the other.
pub open spec fn all_reported(
    remotes: Seq<(u128, RemoteView)>,
    reports: Seq<(u128, RemoteView)>,
) -> Seq<(u128, RemoteView)>
    decreases reports.len(),
{
    if reports.len() == 0 {
        remotes
    } else {
        reported(
            all_reported(remotes, reports.drop_last()),
            reports.last().0,
            reports.last().1,
        )
    }
}

/// The records of the sources that are kept.
pub open spec fn kept(
    records: Seq<((SourceType, Seq<char>), RecordSetView)>,
    keep: Seq<(SourceType, Seq<char>)>,
) -> Seq<((SourceType, Seq<char>), RecordSetView)> {
    filtered(
        records,
        |entry: ((SourceType, Seq<char>), RecordSetView)| keep.contains(entry.0),
    )
}

/// The sources of a list.
pub open spec fn id_views(ids: Seq<SourceId>) -> Seq<(SourceType, Seq<char>)> {
    Seq::new(ids.len(), |i: int| ids[i]@)
}

/// A report is never replaced by an older one, and what holds of others is unchanged.
pub proof fn law_reports_do_not_go_back(
    remotes: Seq<(u128, RemoteView)>,
    server_id: u128,
    report: RemoteView,
    other: u128,
)
    ensures
        has_key(reported(remotes, server_id, report), other) <==> other == server_id || has_key(
            remotes,
            other,
        ),
        other != server_id && has_key(remotes, other) ==> value_of(
            reported(remotes, server_id, report),
            other,
        ) == value_of(remotes, other),
        has_key(remotes, server_id) ==> !before(
            value_of(reported(remotes, server_id, report), server_id).timestamp,
            value_of(remotes, server_id).timestamp,
        ),
        !before(
            value_of(reported(remotes, server_id, report), server_id).timestamp,
            report.timestamp,
        ),
{
    let value = if has_key(remotes, server_id) {
        newer(value_of(remotes, server_id), report)
    } else {
        report
    };
    lemma_put(remotes, server_id, value, other);
    lemma_put(remotes, server_id, value, server_id);
}

/// Of two reports on one server it does not matter which comes first, where they were not taken at
/// the same time.
pub proof fn law_order_of_reports_does_not_matter(a: RemoteView, b: RemoteView)
    requires
        a.timestamp != b.timestamp,
    ensures
        newer(a, b) == newer(b, a),
{
}

/// Taking a report in twice is taking it in once.
pub proof fn law_report_twice(remotes: Seq<(u128, RemoteView)>, server_id: u128, report: RemoteView)
    ensures
        reported(reported(remotes, server_id, report), server_id, report) == reported(
            remotes,
            server_id,
            report,
        ),
{
    let once = reported(remotes, server_id, report);
    let value = if has_key(remotes, server_id) {
        newer(value_of(remotes, server_id), report)
    } else {
        report
    };
    lemma_put(remotes, server_id, value, server_id);
    assert(has_key(once, server_id));
    assert(value_of(once, server_id) == value);
    assert(newer(value, report) == value);
    lemma_place(once, server_id);
    assert(once[place(once, server_id)] == (server_id, value));
    assert(put(once, server_id, value) =~= once);
}

/// Exactly the records of other servers that hold beyond a time are left at it.
pub proof fn law_only_unexpired_records_are_left(
    remotes: Seq<(u128, RemoteView)>,
    time: Timestamp,
    entry: (u128, RemoteView),
)
    ensures
        unexpired(remotes, time).contains(entry) <==> remotes.contains(entry) && before(
            time,
            entry.1.expiry,
        ),
{
    lemma_filtered(
        remotes,
        |entry: (u128, RemoteView)| before(time, entry.1.expiry),
        entry,
    );
}

/// Exactly the records of the sources that are kept are left.
pub proof fn law_only_kept_sources_are_left(
    records: Seq<((SourceType, Seq<char>), RecordSetView)>,
    keep: Seq<(SourceType, Seq<char>)>,
    entry: ((SourceType, Seq<char>), RecordSetView),
)
    ensures
        kept(records, keep).contains(entry) <==> records.contains(entry) && keep.contains(entry.0),
{
    lemma_filtered(
        records,
        |entry: ((SourceType, Seq<char>), RecordSetView)| keep.contains(entry.0),
        entry,
    );
}

/// The place of a source among the records of sources, or their number.
fn find_source(records: &Vec<(SourceId, RecordSet)>, source_id: &SourceId) -> (r: usize)
    ensures
        r == place(source_views(records@), source_id@),
        r <= records.len(),
{
    let ghost all = source_views(records@);
    let mut i: usize = 0;
    while i < records.len() && !records[i].0.same(source_id)
        invariant
            i <= records.len(),
            all == source_views(records@),
            forall|j: int| 0 <= j < i ==> (#[trigger] all[j]).0 != source_id@,
        decreases records.len() - i,
    {
        assert(all[i as int].0 != source_id@);
        i += 1;
    }
    proof {
        if i < records.len() {
            assert(all[i as int].0 == source_id@);
        }
        lemma_place_is(all, source_id@, i as int);
    }
    i
}

/// The place of a server among the records of other servers, or their number.
fn find_server(remotes: &Vec<(u128, RemoteServerRecords)>, server_id: u128) -> (r: usize)
    ensures
        r == place(remote_views(remotes@), server_id),
        r <= remotes.len(),
{
    let ghost all = remote_views(remotes@);
    let mut i: usize = 0;
    while i < remotes.len() && remotes[i].0 != server_id
        invariant
            i <= remotes.len(),
            all == remote_views(remotes@),
            forall|j: int| 0 <= j < i ==> (#[trigger] all[j]).0 != server_id,
        decreases remotes.len() - i,
    {
        assert(all[i as int].0 != server_id);
        i += 1;
    }
    proof {
        if i < remotes.len() {
            assert(all[i as int].0 == server_id);
        }
        lemma_place_is(all, server_id, i as int);
    }
    i
}

/// A copy of the records of sources.
fn copy_sources(records: &Vec<(SourceId, RecordSet)>) -> (r: Vec<(SourceId, RecordSet)>)
    ensures
        source_views(r@) == source_views(records@),
{
    let mut out: Vec<(SourceId, RecordSet)> = Vec::new();
    let mut i: usize = 0;
    while i < records.len()
        invariant
            i <= records.len(),
            source_views(out@) == source_views(records@).take(i as int),
        decreases records.len() - i,
    {
        let ghost start = source_views(out@);
        let entry = (records[i].0.clone(), records[i].1.clone());
        out.push(entry);
        i += 1;
        assert(source_views(out@) =~= start.push(source_views(records@)[i - 1]));
        assert(source_views(out@) =~= source_views(records@).take(i as int));
    }
    assert(source_views(records@).take(i as int) =~= source_views(records@));
    out
}

impl Clone for RemoteServerRecords {
    fn clone(&self) -> (r: Self)
        ensures
            r@ == self@,
    {
        RemoteServerRecords {
            timestamp: self.timestamp,
            expiry: self.expiry,
            records: copy_sources(&self.records),
        }
    }
}

/// Adds the records of sources to a set.
fn merge_sources(set: &mut RecordSet, records: &Vec<(SourceId, RecordSet)>)
    ensures
        final(set)@ == with_sets(old(set)@, sets_of(source_views(records@))),
{
    let ghost start = set@;
    let ghost all = sets_of(source_views(records@));
    let mut i: usize = 0;
    assert(all.take(0) =~= Seq::empty());
    while i < records.len()
        invariant
            i <= records.len(),
            all == sets_of(source_views(records@)),
            set@ == with_sets(start, all.take(i as int)),
        decreases records.len() - i,
    {
        assert(all.take(i + 1).drop_last() =~= all.take(i as int));
        assert(all.take(i + 1).last() == records@[i as int].1@);
        set.append_from(&records[i].1);
        i += 1;
    }
    assert(all.take(i as int) =~= all);
}

impl RecordStoreData {
    /// No records.
    pub fn new() -> (r: RecordStoreData)
        ensures
            r@ == (StoreView { local: Seq::empty(), remote: Seq::empty() }),
    {
        let data = RecordStoreData { local: Vec::new(), remote: Vec::new() };
        assert(source_views(data.local@) =~= Seq::empty());
        assert(remote_views(data.remote@) =~= Seq::empty());
        data
    }

    /// Drops the records of other servers that no longer hold at some time.
    pub fn expire_at(&mut self, time: Timestamp)
        ensures
            final(self)@ == (StoreView {
                remote: unexpired(old(self)@.remote, time),
                ..old(self)@
            }),
    {
        let mut left: Vec<(u128, RemoteServerRecords)> = Vec::new();
        let ghost all = remote_views(self.remote@);
        let mut i: usize = 0;
        assert(all.take(0) =~= Seq::empty());
        assert(remote_views(left@) =~= Seq::empty());
        while i < self.remote.len()
            invariant
                i <= self.remote.len(),
                all == remote_views(self.remote@),
                self@ == old(self)@,
                remote_views(left@) == unexpired(all.take(i as int), time),
            decreases self.remote.len() - i,
        {
            assert(all.take(i + 1).drop_last() =~= all.take(i as int));
            assert(all.take(i + 1).last() == all[i as int]);
            if time.is_before(&self.remote[i].1.expiry) {
                let ghost start = remote_views(left@);
                let entry = (self.remote[i].0, self.remote[i].1.clone());
                left.push(entry);
                assert(remote_views(left@) =~= start.push(all[i as int]));
            }
            i += 1;
        }
        assert(all.take(i as int) =~= all);
        self.remote = left;
    }

    /// Drops the records of other servers that no longer hold now.
    pub fn expire_remotes(&mut self)
        ensures
            exists|time: Timestamp|
                final(self)@ == (StoreView {
                    remote: #[trigger] unexpired(old(self)@.remote, time),
                    ..old(self)@
                }) && on_clock(time),
    {
        let time = now();
        self.expire_at(time);
        assert(self@ == (StoreView { remote: unexpired(old(self)@.remote, time), ..old(self)@ }));
    }

    /// Takes in a report on another server.
    fn add_remote(&mut self, server_id: u128, rsr: RemoteServerRecords)
        ensures
            final(self)@ == (StoreView {
                remote: reported(old(self)@.remote, server_id, rsr@),
                ..old(self)@
            }),
    {
        let ghost all = remote_views(self.remote@);
        let ghost report = rsr@;
        let k: usize = find_server(&self.remote, server_id);
        proof {
            lemma_place(all, server_id);
        }
        if k < self.remote.len() {
            assert(all[k as int].0 == server_id);
            let old_time = self.remote[k].1.timestamp;
            let old_expiry = self.remote[k].1.expiry;
            if old_time.is_before(&rsr.timestamp) {
                self.remote.set(k, (server_id, rsr));
            } else if old_time == rsr.timestamp && old_expiry.is_before(&rsr.expiry) {
                let mut existing = self.remote[k].1.clone();
                existing.expiry = rsr.expiry;
                self.remote.set(k, (server_id, existing));
            }
        } else {
            self.remote.push((server_id, rsr));
        }
        assert(remote_views(self.remote@) =~= reported(all, server_id, report));
    }

    /// Takes in reports on other servers.
    pub fn add_remote_records(&mut self, remotes: &Vec<(u128, RemoteServerRecords)>)
        ensures
            final(self)@ == (StoreView {
                remote: all_reported(old(self)@.remote, remote_views(remotes@)),
                ..old(self)@
            }),
    {
        let ghost start = self@;
        let ghost all = remote_views(remotes@);
        let mut i: usize = 0;
        assert(all.take(0) =~= Seq::empty());
        while i < remotes.len()
            invariant
                i <= remotes.len(),
                all == remote_views(remotes@),
                self@ == (StoreView {
                    remote: all_reported(start.remote, all.take(i as int)),
                    ..start
                }),
            decreases remotes.len() - i,
        {
            assert(all.take(i + 1).drop_last() =~= all.take(i as int));
            assert(all.take(i + 1).last() == all[i as int]);
            let rsr = remotes[i].1.clone();
            self.add_remote(remotes[i].0, rsr);
            i += 1;
        }
        assert(all.take(i as int) =~= all);
    }

    /// What is served from the records.
    pub fn resolve_records(&self) -> (r: RecordSet)
        ensures
            r@ == served(self@),
    {
        let mut set = RecordSet::new();
        merge_sources(&mut set, &self.local);
        let ghost start = set@;
        let ghost all = remote_views(self.remote@);
        let mut i: usize = 0;
        assert(all.take(0) =~= Seq::empty());
        while i < self.remote.len()
            invariant
                i <= self.remote.len(),
                all == remote_views(self.remote@),
                set@ == with_remotes(start, all.take(i as int)),
            decreases self.remote.len() - i,
        {
            assert(all.take(i + 1).drop_last() =~= all.take(i as int));
            assert(all.take(i + 1).last() == all[i as int]);
            merge_sources(&mut set, &self.remote[i].1.records);
            i += 1;
        }
        assert(all.take(i as int) =~= all);
        set
    }

    /// Puts the records of a source in place of those that it had.
    pub fn put_source(&mut self, source_id: &SourceId, records: RecordSet)
        ensures
            final(self)@ == (StoreView {
                local: put(old(self)@.local, source_id@, records@),
                ..old(self)@
            }),
    {
        let ghost all = source_views(self.local@);
        let k: usize = find_source(&self.local, source_id);
        proof {
            lemma_place(all, source_id@);
        }
        let entry = (source_id.clone(), records);
        if k < self.local.len() {
            self.local.set(k, entry);
        } else {
            self.local.push(entry);
        }
        assert(source_views(self.local@) =~= put(all, source_id@, records@));
    }

    /// Drops the records of a source.
    pub fn drop_source(&mut self, source_id: &SourceId)
        ensures
            final(self)@ == (StoreView {
                local: drop_key(old(self)@.local, source_id@),
                ..old(self)@
            }),
    {
        let mut left: Vec<(SourceId, RecordSet)> = Vec::new();
        let ghost all = source_views(self.local@);
        let mut i: usize = 0;
        assert(all.take(0) =~= Seq::empty());
        assert(source_views(left@) =~= Seq::empty());
        while i < self.local.len()
            invariant
                i <= self.local.len(),
                all == source_views(self.local@),
                self@ == old(self)@,
                source_views(left@) == drop_key(all.take(i as int), source_id@),
            decreases self.local.len() - i,
        {
            assert(all.take(i + 1).drop_last() =~= all.take(i as int));
            assert(all.take(i + 1).last() == all[i as int]);
            if !self.local[i].0.same(source_id) {
                let ghost start = source_views(left@);
                let entry = (self.local[i].0.clone(), self.local[i].1.clone());
                left.push(entry);
                assert(source_views(left@) =~= start.push(all[i as int]));
            }
            i += 1;
        }
        assert(all.take(i as int) =~= all);
        self.local = left;
    }

    /// Drops the records of the sources that are not kept.
    pub fn keep_sources(&mut self, keep: &Vec<SourceId>)
        ensures
            final(self)@ == (StoreView {
                local: kept(old(self)@.local, id_views(keep@)),
                ..old(self)@
            }),
    {
        let mut left: Vec<(SourceId, RecordSet)> = Vec::new();
        let ghost all = source_views(self.local@);
        let mut i: usize = 0;
        assert(all.take(0) =~= Seq::empty());
        assert(source_views(left@) =~= Seq::empty());
        while i < self.local.len()
            invariant
                i <= self.local.len(),
                all == source_views(self.local@),
                self@ == old(self)@,
                source_views(left@) == kept(all.take(i as int), id_views(keep@)),
            decreases self.local.len() - i,
        {
            assert(all.take(i + 1).drop_last() =~= all.take(i as int));
            assert(all.take(i + 1).last() == all[i as int]);
            if contains_id(keep, &self.local[i].0) {
                let ghost start = source_views(left@);
                let entry = (self.local[i].0.clone(), self.local[i].1.clone());
                left.push(entry);
                assert(source_views(left@) =~= start.push(all[i as int]));
            }
            i += 1;
        }
        assert(all.take(i as int) =~= all);
        self.local = left;
    }
}

/// Whether a source is among sources.
pub fn contains_id(ids: &Vec<SourceId>, source_id: &SourceId) -> (r: bool)
    ensures
        r == id_views(ids@).contains(source_id@),
{
    let ghost all = id_views(ids@);
    let mut i: usize = 0;
    while i < ids.len()
        invariant
            i <= ids.len(),
            all == id_views(ids@),
            forall|j: int| 0 <= j < i ==> #[trigger] all[j] != source_id@,
        decreases ids.len() - i,
    {
        if ids[i].same(source_id) {
            assert(all[i as int] == source_id@);
            return true;
        }
        assert(all[i as int] != source_id@);
        i += 1;
    }
    false
}

impl Clone for RecordStoreData {
    fn clone(&self) -> (r: Self)
        ensures
            r@ == self@,
    {
        let mut remote: Vec<(u128, RemoteServerRecords)> = Vec::new();
        let ghost all = remote_views(self.remote@);
        let mut i: usize = 0;
        while i < self.remote.len()
            invariant
                i <= self.remote.len(),
                all == remote_views(self.remote@),
                remote_views(remote@) == all.take(i as int),
            decreases self.remote.len() - i,
        {
            let ghost start = remote_views(remote@);
            let entry = (self.remote[i].0, self.remote[i].1.clone());
            remote.push(entry);
            i += 1;
            assert(remote_views(remote@) =~= start.push(all[i - 1]));
            assert(remote_views(remote@) =~= all.take(i as int));
        }
        assert(all.take(i as int) =~= all);
        RecordStoreData { local: copy_sources(&self.local), remote }
    }
}

/// Whether no source and no server stands twice.
pub open spec fn store_wf(store: StoreView) -> bool {
    unique_keys(store.local) && unique_keys(store.remote)
}

/// Reports leave no server twice.
proof fn lemma_reported_unique(
    remotes: Seq<(u128, RemoteView)>,
    reports: Seq<(u128, RemoteView)>,
)
    requires
        unique_keys(remotes),
    ensures
        unique_keys(all_reported(remotes, reports)),
    decreases reports.len(),
{
    if reports.len() > 0 {
        lemma_reported_unique(remotes, reports.drop_last());
        let so_far = all_reported(remotes, reports.drop_last());
        let (server_id, report) = reports.last();
        let value = if has_key(so_far, server_id) {
            newer(value_of(so_far, server_id), report)
        } else {
            report
        };
        lemma_put(so_far, server_id, value, server_id);
    }
}

/// A store after the records of other servers that no longer hold at some time were dropped.
pub open spec fn expired(store: StoreView, time: Timestamp) -> StoreView {
    StoreView { remote: unexpired(store.remote, time), ..store }
}

/// The records of all sources, with what is served from them.
#[derive(Debug)]
pub struct RecordStore {
    store_data: RecordStoreData,
    records: RecordSet,
}

impl View for RecordStore {
    type V = StoreView;

    closed spec fn view(&self) -> StoreView {
        self.store_data@
    }
}

impl RecordStore {
    /// What is served.
    pub closed spec fn published(self) -> RecordSetView {
        self.records@
    }

    #[verifier::type_invariant]
    closed spec fn inv(self) -> bool {
        store_wf(self.store_data@) && self.records@ == served(self.store_data@)
    }

    /// No records.
    pub fn new() -> (r: RecordStore)
        ensures
            r@ == (StoreView { local: Seq::empty(), remote: Seq::empty() }),
            r.published() == no_records(),
    {
        let store_data = RecordStoreData::new();
        let records = store_data.resolve_records();
        assert(sets_of(store_data@.local) =~= Seq::empty());
        RecordStore { store_data, records }
    }

    /// What is served: exactly the records of all sources that are in the store.
    pub fn records(&self) -> (r: &RecordSet)
        ensures
            r@ == self.published(),
            r@ == served(self@),
            store_wf(self@),
    {
        proof {
            use_type_invariant(self);
        }
        &self.records
    }

    /// The records that hold at some time.
    pub fn store_data_at(&self, time: Timestamp) -> (r: RecordStoreData)
        ensures
            r@ == expired(self@, time),
    {
        let mut store_data = self.store_data.clone();
        store_data.expire_at(time);
        store_data
    }

    /// The records that hold now.
    pub fn store_data(&self) -> (r: RecordStoreData)
        ensures
            exists|time: Timestamp| r@ == #[trigger] expired(self@, time) && on_clock(time),
    {
        let time = now();
        self.store_data_at(time)
    }

    /// Puts other records in the store, without those that no longer hold at some time.
    fn replace(&mut self, store_data: RecordStoreData, time: Timestamp)
        requires
            store_wf(store_data@),
        ensures
            final(self)@ == expired(store_data@, time),
            final(self).published() == served(expired(store_data@, time)),
    {
        let mut store_data = store_data;
        let ghost start = store_data@;
        store_data.expire_at(time);
        let records = store_data.resolve_records();
        proof {
            lemma_filtered_unique(
                start.remote,
                |entry: (u128, RemoteView)| before(time, entry.1.expiry),
            );
        }
        *self = RecordStore { store_data, records };
    }

    /// Takes in reports on other servers at some time.
    pub fn add_remote_records_at(
        &mut self,
        remotes: &Vec<(u128, RemoteServerRecords)>,
        time: Timestamp,
    )
        ensures
            final(self)@ == expired(
                StoreView {
                    remote: all_reported(old(self)@.remote, remote_views(remotes@)),
                    ..old(self)@
                },
                time,
            ),
            final(self).published() == served(final(self)@),
    {
        proof {
            use_type_invariant(&*self);
            lemma_reported_unique(self@.remote, remote_views(remotes@));
        }
        let mut store_data = self.store_data.clone();
        store_data.add_remote_records(remotes);
        self.replace(store_data, time);
    }

    /// Puts the records of a source in place of those that it had, at some time.
    pub fn add_source_records_at(
        &mut self,
        source_id: &SourceId,
        new_records: RecordSet,
        time: Timestamp,
    )
        ensures
            final(self)@ == expired(
                StoreView {
                    local: put(old(self)@.local, source_id@, new_records@),
                    ..old(self)@
                },
                time,
            ),
            final(self).published() == served(final(self)@),
    {
        proof {
            use_type_invariant(&*self);
            lemma_put(self@.local, source_id@, new_records@, source_id@);
        }
        let mut store_data = self.store_data.clone();
        store_data.put_source(source_id, new_records);
        self.replace(store_data, time);
    }

    /// Drops the records of a source at some time.
    pub fn clear_source_records_at(&mut self, source_id: &SourceId, time: Timestamp)
        ensures
            final(self)@ == expired(
                StoreView { local: drop_key(old(self)@.local, source_id@), ..old(self)@ },
                time,
            ),
            final(self).published() == served(final(self)@),
    {
        proof {
            use_type_invariant(&*self);
            lemma_filtered_unique(
                self@.local,
                |pair: ((SourceType, Seq<char>), RecordSetView)| pair.0 != source_id@,
            );
        }
        let mut store_data = self.store_data.clone();
        store_data.drop_source(source_id);
        self.replace(store_data, time);
    }

    /// Drops the records of the sources that are not kept, at some time.
    pub fn prune_sources_at(&mut self, keep: &Vec<SourceId>, time: Timestamp)
        ensures
            final(self)@ == expired(
                StoreView { local: kept(old(self)@.local, id_views(keep@)), ..old(self)@ },
                time,
            ),
            final(self).published() == served(final(self)@),
    {
        proof {
            use_type_invariant(&*self);
            lemma_filtered_unique(
                self@.local,
                |entry: ((SourceType, Seq<char>), RecordSetView)| id_views(keep@).contains(entry.0),
            );
        }
        let mut store_data = self.store_data.clone();
        store_data.keep_sources(keep);
        self.replace(store_data, time);
    }

    /// Takes in reports on other servers now.
    pub fn add_remote_records(&mut self, remotes: &Vec<(u128, RemoteServerRecords)>)
        ensures
            exists|time: Timestamp|
                final(self)@ == #[trigger] expired(
                    StoreView {
                        local: old(self)@.local,
                        remote: all_reported(old(self)@.remote, remote_views(remotes@)),
                    },
                    time,
                ) && on_clock(time),
            final(self).published() == served(final(self)@),
    {
        let time = now();
        self.add_remote_records_at(remotes, time);
    }

    /// Puts the records of a source in place of those that it had.
    pub fn add_source_records(&mut self, source_id: &SourceId, new_records: RecordSet)
        ensures
            exists|time: Timestamp|
                final(self)@ == #[trigger] expired(
                    StoreView {
                        local: put(old(self)@.local, source_id@, new_records@),
                        remote: old(self)@.remote,
                    },
                    time,
                ) && on_clock(time),
            final(self).published() == served(final(self)@),
    {
        let time = now();
        self.add_source_records_at(source_id, new_records, time);
    }

    /// Drops the records of a source.
    pub fn clear_source_records(&mut self, source_id: &SourceId)
        ensures
            exists|time: Timestamp|
                final(self)@ == #[trigger] expired(
                    StoreView {
                        local: drop_key(old(self)@.local, source_id@),
                        remote: old(self)@.remote,
                    },
                    time,
                ) && on_clock(time),
            final(self).published() == served(final(self)@),
    {
        let time = now();
        self.clear_source_records_at(source_id, time);
    }

    /// Drops the records of the sources that are not kept.
    pub fn prune_sources(&mut self, keep: &Vec<SourceId>)
        ensures
            exists|time: Timestamp|
                final(self)@ == #[trigger] expired(
                    StoreView {
                        local: kept(old(self)@.local, id_views(keep@)),
                        remote: old(self)@.remote,
                    },
                    time,
                ) && on_clock(time),
            final(self).published() == served(final(self)@),
    {
        let time = now();
        self.prune_sources_at(keep, time);
    }
}

/// Whether a record is among the records of some source.
pub open spec fn sourced_from(
    records: Seq<((SourceType, Seq<char>), RecordSetView)>,
    record: RecordView,
) -> bool {
    exists|i: int| 0 <= i < records.len() && holds((#[trigger] records[i]).1.records, record)
}

/// After sets were added, a record is there when it was there before or is in one of them.
proof fn lemma_sets_union(
    set: RecordSetView,
    records: Seq<((SourceType, Seq<char>), RecordSetView)>,
    record: RecordView,
)
    ensures
        holds(with_sets(set, sets_of(records)).records, record) <==> holds(set.records, record)
            || sourced_from(records, record),
    decreases records.len(),
{
    if records.len() > 0 {
        let front = records.drop_last();
        assert(sets_of(records).drop_last() =~= sets_of(front));
        assert(sets_of(records).last() == records.last().1);
        lemma_sets_union(set, front, record);
        law_append_is_union(
            with_sets(set, sets_of(front)),
            records.last().1.records,
            record,
        );
        if sourced_from(records, record) {
            let i = choose|i: int|
                0 <= i < records.len() && holds((#[trigger] records[i]).1.records, record);
            if i < front.len() {
                assert(holds(front[i].1.records, record));
            }
        }
        if sourced_from(front, record) {
            let i = choose|i: int|
                0 <= i < front.len() && holds((#[trigger] front[i]).1.records, record);
            assert(holds(records[i].1.records, record));
        }
        assert(records[records.len() - 1] == records.last());
    }
}

/// After the records of other servers were added, a record is there when it was there before or is
/// among those of one of them.
proof fn lemma_remotes_union(
    set: RecordSetView,
    remotes: Seq<(u128, RemoteView)>,
    record: RecordView,
)
    ensures
        holds(with_remotes(set, remotes).records, record) <==> holds(set.records, record) || (
        exists|i: int|
            0 <= i < remotes.len() && sourced_from((#[trigger] remotes[i]).1.records, record)),
    decreases remotes.len(),
{
    if remotes.len() > 0 {
        let front = remotes.drop_last();
        lemma_remotes_union(set, front, record);
        lemma_sets_union(with_remotes(set, front), remotes.last().1.records, record);
        if exists|i: int|
            0 <= i < remotes.len() && sourced_from((#[trigger] remotes[i]).1.records, record) {
            let i = choose|i: int|
                0 <= i < remotes.len() && sourced_from((#[trigger] remotes[i]).1.records, record);
            if i < front.len() {
                assert(sourced_from(front[i].1.records, record));
            }
        }
        if exists|i: int|
            0 <= i < front.len() && sourced_from((#[trigger] front[i]).1.records, record) {
            let i = choose|i: int|
                0 <= i < front.len() && sourced_from((#[trigger] front[i]).1.records, record);
            assert(sourced_from(remotes[i].1.records, record));
        }
        assert(remotes[remotes.len() - 1] == remotes.last());
    }
}

/// A record is served exactly when some source of this server has it, or some source of another
/// server whose records are in the store.
pub proof fn law_served_are_the_records_of_all_sources(store: StoreView, record: RecordView)
    ensures
        holds(served(store).records, record) <==> sourced_from(store.local, record) || (exists|
            i: int,
        |
            0 <= i < store.remote.len() && sourced_from(
                (#[trigger] store.remote[i]).1.records,
                record,
            )),
{
    lemma_sets_union(no_records(), store.local, record);
    lemma_remotes_union(with_sets(no_records(), sets_of(store.local)), store.remote, record);
}

/// Putting the records of one source changes those of no other.
pub proof fn law_sources_are_independent(
    local: Seq<((SourceType, Seq<char>), RecordSetView)>,
    source: (SourceType, Seq<char>),
    records: RecordSetView,
    other: (SourceType, Seq<char>),
)
    ensures
        has_key(put(local, source, records), source),
        value_of(put(local, source, records), source) == records,
        other != source ==> (has_key(put(local, source, records), other) <==> has_key(
            local,
            other,
        )),
        other != source && has_key(local, other) ==> value_of(put(local, source, records), other)
            == value_of(local, other),
{
    lemma_put(local, source, records, other);
    lemma_put(local, source, records, source);
}

/// What a server is known by after reports: the value that it had, or that of the report on it, or
/// the newer of both.
proof fn lemma_all_reported(
    remotes: Seq<(u128, RemoteView)>,
    reports: Seq<(u128, RemoteView)>,
    server_id: u128,
)
    requires
        unique_keys(reports),
    ensures
        has_key(all_reported(remotes, reports), server_id) <==> has_key(remotes, server_id)
            || has_key(reports, server_id),
        has_key(remotes, server_id) && !has_key(reports, server_id) ==> value_of(
            all_reported(remotes, reports),
            server_id,
        ) == value_of(remotes, server_id),
        !has_key(remotes, server_id) && has_key(reports, server_id) ==> value_of(
            all_reported(remotes, reports),
            server_id,
        ) == value_of(reports, server_id),
        has_key(remotes, server_id) && has_key(reports, server_id) ==> value_of(
            all_reported(remotes, reports),
            server_id,
        ) == newer(value_of(remotes, server_id), value_of(reports, server_id)),
    decreases reports.len(),
{
    if reports.len() > 0 {
        let front = reports.drop_last();
        let (id, report) = reports.last();
        assert(unique_keys(front)) by {
            assert forall|i: int, j: int| 0 <= i < j < front.len() implies (
            #[trigger] front[i]).0 != (#[trigger] front[j]).0 by {
                assert(front[i] == reports[i] && front[j] == reports[j]);
            }
        }
        lemma_all_reported(remotes, front, server_id);
        lemma_all_reported(remotes, front, id);
        let so_far = all_reported(remotes, front);
        let value = if has_key(so_far, id) {
            newer(value_of(so_far, id), report)
        } else {
            report
        };
        lemma_put(so_far, id, value, server_id);
        lemma_place(front, server_id);
        lemma_place(reports, server_id);
        assert(!has_key(front, id)) by {
            lemma_place(front, id);
            if has_key(front, id) {
                let k = place(front, id);
                assert(reports[k] == front[k]);
                assert(reports[k].0 != reports[reports.len() - 1].0);
            }
        }
        if has_key(front, server_id) {
            let k = place(front, server_id);
            assert(reports[k] == front[k]);
        }
    }
}

/// A report that is newer than what is known of its server, or the first on it, counts: it is what
/// is known of the server afterwards, with all its records.
pub proof fn law_newest_report_counts(
    remotes: Seq<(u128, RemoteView)>,
    reports: Seq<(u128, RemoteView)>,
    at: int,
)
    requires
        unique_keys(remotes),
        unique_keys(reports),
        0 <= at < reports.len(),
        forall|i: int|
            0 <= i < remotes.len() && (#[trigger] remotes[i]).0 == reports[at].0 ==> before(
                remotes[i].1.timestamp,
                reports[at].1.timestamp,
            ),
    ensures
        all_reported(remotes, reports).contains(reports[at]),
{
    let (id, report) = reports[at];
    assert(reports.contains((id, report)));
    lemma_contains(reports, id, report);
    lemma_all_reported(remotes, reports, id);
    lemma_reported_unique(remotes, reports);
    lemma_contains(all_reported(remotes, reports), id, report);
    lemma_place(remotes, id);
    if has_key(remotes, id) {
        assert(remotes[place(remotes, id)].0 == id);
    }
}

/// What is known of a server stays where no report on it is as new.
pub proof fn law_known_report_stays(
    remotes: Seq<(u128, RemoteView)>,
    reports: Seq<(u128, RemoteView)>,
    at: int,
)
    requires
        unique_keys(remotes),
        unique_keys(reports),
        0 <= at < remotes.len(),
        forall|i: int|
            0 <= i < reports.len() && (#[trigger] reports[i]).0 == remotes[at].0 ==> before(
                reports[i].1.timestamp,
                remotes[at].1.timestamp,
            ),
    ensures
        all_reported(remotes, reports).contains(remotes[at]),
{
    let (id, known) = remotes[at];
    assert(remotes.contains((id, known)));
    lemma_contains(remotes, id, known);
    lemma_all_reported(remotes, reports, id);
    lemma_reported_unique(remotes, reports);
    lemma_contains(all_reported(remotes, reports), id, known);
    lemma_place(reports, id);
    if has_key(reports, id) {
        assert(reports[place(reports, id)].0 == id);
    }
}

/// Nothing is known of servers but what was known or was reported: the records and the time at which
/// they were taken are those of one or the other.
pub proof fn law_reports_are_not_made_up(
    remotes: Seq<(u128, RemoteView)>,
    reports: Seq<(u128, RemoteView)>,
    entry: (u128, RemoteView),
)
    requires
        unique_keys(remotes),
        unique_keys(reports),
        all_reported(remotes, reports).contains(entry),
    ensures
        (exists|i: int|
            0 <= i < remotes.len() && (#[trigger] remotes[i]).0 == entry.0 && remotes[i].1.records
                == entry.1.records && remotes[i].1.timestamp == entry.1.timestamp) || (exists|
            i: int,
        |
            0 <= i < reports.len() && (#[trigger] reports[i]).0 == entry.0 && reports[i].1.records
                == entry.1.records && reports[i].1.timestamp == entry.1.timestamp),
        (exists|i: int|
            0 <= i < remotes.len() && (#[trigger] remotes[i]).0 == entry.0 && remotes[i].1.expiry
                == entry.1.expiry) || (exists|i: int|
            0 <= i < reports.len() && (#[trigger] reports[i]).0 == entry.0 && reports[i].1.expiry
                == entry.1.expiry),
{
    let id = entry.0;
    lemma_reported_unique(remotes, reports);
    lemma_contains(all_reported(remotes, reports), id, entry.1);
    lemma_all_reported(remotes, reports, id);
    lemma_place(remotes, id);
    lemma_place(reports, id);
    if has_key(remotes, id) {
        assert(remotes[place(remotes, id)].0 == id);
    }
    if has_key(reports, id) {
        assert(reports[place(reports, id)].0 == id);
    }
}

/// Whether a record is among those of another server that hold beyond some time.
pub open spec fn told_beyond(
    remotes: Seq<(u128, RemoteView)>,
    time: Timestamp,
    record: RecordView,
) -> bool {
    exists|i: int|
        0 <= i < remotes.len() && before(time, (#[trigger] remotes[i]).1.expiry) && sourced_from(
            remotes[i].1.records,
            record,
        )
}

/// A record is served at some time exactly when a source of this server has it, or a source of
/// another server whose records hold beyond that time.
pub proof fn law_served_at_a_time(store: StoreView, time: Timestamp, record: RecordView)
    ensures
        holds(served(expired(store, time)).records, record) <==> sourced_from(store.local, record)
            || told_beyond(store.remote, time, record),
{
    let left = unexpired(store.remote, time);
    law_served_are_the_records_of_all_sources(expired(store, time), record);
    if exists|i: int| 0 <= i < left.len() && sourced_from((#[trigger] left[i]).1.records, record) {
        let i = choose|i: int|
            0 <= i < left.len() && sourced_from((#[trigger] left[i]).1.records, record);
        law_only_unexpired_records_are_left(store.remote, time, left[i]);
        assert(left.contains(left[i]));
        let k = choose|k: int| 0 <= k < store.remote.len() && store.remote[k] == left[i];
        assert(before(time, store.remote[k].1.expiry));
    }
    if told_beyond(store.remote, time, record) {
        let k = choose|k: int|
            0 <= k < store.remote.len() && before(time, (#[trigger] store.remote[k]).1.expiry)
                && sourced_from(store.remote[k].1.records, record);
        law_only_unexpired_records_are_left(store.remote, time, store.remote[k]);
        assert(store.remote.contains(store.remote[k]));
        let i = choose|i: int| 0 <= i < left.len() && left[i] == store.remote[k];
        assert(sourced_from(left[i].1.records, record));
    }
}

/// Whether a record is among those of a source other than one.
pub open spec fn from_other_source(
    local: Seq<((SourceType, Seq<char>), RecordSetView)>,
    source: (SourceType, Seq<char>),
    record: RecordView,
) -> bool {
    exists|i: int|
        0 <= i < local.len() && (#[trigger] local[i]).0 != source && holds(
            local[i].1.records,
            record,
        )
}

/// When a source gives records, exactly these are served at that time: the records that it gives,
/// those of the other sources, and those of other servers that still hold. What it gave before is
/// served no more.
pub proof fn law_source_gives_its_records(
    store: StoreView,
    source: (SourceType, Seq<char>),
    records: RecordSetView,
    time: Timestamp,
    record: RecordView,
)
    requires
        unique_keys(store.local),
    ensures
        holds(
            served(
                expired(StoreView { local: put(store.local, source, records), ..store }, time),
            ).records,
            record,
        ) <==> holds(records.records, record) || from_other_source(store.local, source, record)
            || told_beyond(store.remote, time, record),
{
    let after = put(store.local, source, records);
    law_served_at_a_time(StoreView { local: after, ..store }, time, record);
    lemma_place(store.local, source);
    let k = place(store.local, source);
    assert(after[k] == (source, records));
    if sourced_from(after, record) {
        let i = choose|i: int| 0 <= i < after.len() && holds((#[trigger] after[i]).1.records, record);
        if i != k {
            assert(after[i] == store.local[i]);
            if k < store.local.len() {
                assert(store.local[i].0 != store.local[k].0);
            }
            assert(store.local[i].0 != source && holds(store.local[i].1.records, record));
        }
    }
    if holds(records.records, record) {
        assert(holds(after[k].1.records, record));
    }
    if from_other_source(store.local, source, record) {
        let i = choose|i: int|
            0 <= i < store.local.len() && (#[trigger] store.local[i]).0 != source && holds(
                store.local[i].1.records,
                record,
            );
        assert(after[i] == store.local[i]);
        assert(holds(after[i].1.records, record));
    }
}

/// When the records of a source are dropped, exactly those of the other sources are served, and
/// those of other servers that still hold.
pub proof fn law_dropped_source_is_not_served(
    store: StoreView,
    source: (SourceType, Seq<char>),
    time: Timestamp,
    record: RecordView,
)
    ensures
        holds(
            served(
                expired(StoreView { local: drop_key(store.local, source), ..store }, time),
            ).records,
            record,
        ) <==> from_other_source(store.local, source, record) || told_beyond(
            store.remote,
            time,
            record,
        ),
{
    let after = drop_key(store.local, source);
    law_served_at_a_time(StoreView { local: after, ..store }, time, record);
    if sourced_from(after, record) {
        let i = choose|i: int| 0 <= i < after.len() && holds((#[trigger] after[i]).1.records, record);
        lemma_drop_key(store.local, source, after[i]);
        assert(after.contains(after[i]));
        let k = choose|k: int| 0 <= k < store.local.len() && store.local[k] == after[i];
        assert(store.local[k].0 != source && holds(store.local[k].1.records, record));
    }
    if from_other_source(store.local, source, record) {
        let k = choose|k: int|
            0 <= k < store.local.len() && (#[trigger] store.local[k]).0 != source && holds(
                store.local[k].1.records,
                record,
            );
        lemma_drop_key(store.local, source, store.local[k]);
        assert(store.local.contains(store.local[k]));
        let i = choose|i: int| 0 <= i < after.len() && after[i] == store.local[k];
        assert(holds(after[i].1.records, record));
    }
}

/// When sources are pruned, exactly the records of those that are kept are served, and those of
/// other servers that still hold.
pub proof fn law_kept_sources_are_served(
    store: StoreView,
    keep: Seq<(SourceType, Seq<char>)>,
    time: Timestamp,
    record: RecordView,
)
    ensures
        holds(
            served(expired(StoreView { local: kept(store.local, keep), ..store }, time)).records,
            record,
        ) <==> (exists|i: int|
            0 <= i < store.local.len() && keep.contains((#[trigger] store.local[i]).0) && holds(
                store.local[i].1.records,
                record,
            )) || told_beyond(store.remote, time, record),
{
    let after = kept(store.local, keep);
    law_served_at_a_time(StoreView { local: after, ..store }, time, record);
    if sourced_from(after, record) {
        let i = choose|i: int| 0 <= i < after.len() && holds((#[trigger] after[i]).1.records, record);
        law_only_kept_sources_are_left(store.local, keep, after[i]);
        assert(after.contains(after[i]));
        let k = choose|k: int| 0 <= k < store.local.len() && store.local[k] == after[i];
        assert(keep.contains(store.local[k].0) && holds(store.local[k].1.records, record));
    }
    if exists|i: int|
        0 <= i < store.local.len() && keep.contains((#[trigger] store.local[i]).0) && holds(
            store.local[i].1.records,
            record,
        ) {
        let k = choose|i: int|
            0 <= i < store.local.len() && keep.contains((#[trigger] store.local[i]).0) && holds(
                store.local[i].1.records,
                record,
            );
        law_only_kept_sources_are_left(store.local, keep, store.local[k]);
        assert(store.local.contains(store.local[k]));
        let i = choose|i: int| 0 <= i < after.len() && after[i] == store.local[k];
        assert(holds(after[i].1.records, record));
    }
}

} // verus!
