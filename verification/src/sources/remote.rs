//! Names from other servers of this kind.

use vstd::prelude::*;
use crate::api::ApiRecords;
use crate::dns::record::RecordView;
use crate::dns::set::holds;
use crate::dns::store::{
    all_reported, expired, from_other_source, law_dropped_source_is_not_served,
    law_newest_report_counts, law_reports_are_not_made_up, law_served_at_a_time, remote_views,
    served, sourced_from, told_beyond, RecordStore, RecordStoreData, RemoteServerRecords, RemoteView,
    StoreView,
};
use crate::pairs::{drop_key, lemma_contains, lemma_place_is, lemma_put, put, unique_keys};
use crate::run_loop::{Backoff, LoopResult};
use crate::sources::id::{SourceId, SourceType};
use crate::time::{before, instant, instant_after, now, on_clock, plus_millis, Timestamp};

verus! {

/// How long to wait between two looks at the records, in milliseconds, unless configured.
pub const POLL_INTERVAL_MS: u64 = 15000;

/// Another server.
#[derive(Debug)]
pub struct RemoteConfig {
    pub url: String,
    pub interval_ms: Option<u64>,
}

impl RemoteConfig {
    /// How long to wait between two looks at the records, in milliseconds.
    pub open spec fn millis(self) -> u64 {
        match self.interval_ms {
            Some(millis) => millis,
            None => POLL_INTERVAL_MS,
        }
    }

    /// How long to wait between two looks at the records, in milliseconds.
    pub fn interval(&self) -> (r: u64)
        ensures
            r == self.millis(),
    {
        match self.interval_ms {
            Some(millis) => millis,
            None => POLL_INTERVAL_MS,
        }
    }
}

/// A report that holds no longer than to some time.
pub open spec fn capped(report: RemoteView, limit: Timestamp) -> RemoteView {
    RemoteView {
        expiry: if before(limit, report.expiry) {
            limit
        } else {
            report.expiry
        },
        ..report
    }
}

/// Reports that hold no longer than to some time.
pub open spec fn all_capped(reports: Seq<(u128, RemoteView)>, limit: Timestamp) -> Seq<
    (u128, RemoteView),
> {
    Seq::new(reports.len(), |i: int| (reports[i].0, capped(reports[i].1, limit)))
}

/// The reports that are taken in from what another server tells at some time: those on the servers
/// that it knows of, none of which holds beyond the limit, and one on itself.
pub open spec fn taken_reports(
    server_id: u128,
    store: StoreView,
    timestamp: Timestamp,
    limit: Timestamp,
) -> Seq<(u128, RemoteView)> {
    put(
        all_capped(store.remote, limit),
        server_id,
        RemoteView { timestamp, expiry: limit, records: store.local },
    )
}

/// No report that is taken in holds longer than it did, nor beyond the limit.
pub proof fn law_reports_do_not_live_longer(report: RemoteView, limit: Timestamp)
    ensures
        !before(report.expiry, capped(report, limit).expiry),
        !before(limit, capped(report, limit).expiry),
        capped(report, limit).timestamp == report.timestamp,
        capped(report, limit).records == report.records,
{
}

/// The reports that are taken in from what another server tells.
pub fn take_reports(
    api_records: ApiRecords,
    timestamp: Timestamp,
    limit: Timestamp,
) -> (r: Vec<(u128, RemoteServerRecords)>)
    ensures
        remote_views(r@) == taken_reports(
            api_records.server_id,
            api_records.store@,
            timestamp,
            limit,
        ),
{
    let server_id: u128 = api_records.server_id;
    let RecordStoreData { local, mut remote } = api_records.store;
    let ghost all = remote_views(remote@);
    let ghost goal = all_capped(all, limit);
    let mut i: usize = 0;
    while i < remote.len()
        invariant
            i <= remote.len(),
            remote.len() == all.len(),
            goal == all_capped(all, limit),
            forall|j: int| 0 <= j < i ==> #[trigger] remote_views(remote@)[j] == goal[j],
            forall|j: int| i <= j < all.len() ==> #[trigger] remote_views(remote@)[j] == all[j],
        decreases remote.len() - i,
    {
        assert(remote_views(remote@)[i as int] == all[i as int]);
        let ghost so_far = remote_views(remote@);
        if limit.is_before(&remote[i].1.expiry) {
            let mut rsr = remote[i].1.clone();
            rsr.expiry = limit;
            let id: u128 = remote[i].0;
            remote.set(i, (id, rsr));
        }
        assert forall|j: int| 0 <= j < i + 1 implies #[trigger] remote_views(remote@)[j]
            == goal[j] by {
            if j < i {
                assert(so_far[j] == goal[j]);
            }
        }
        assert forall|j: int| i + 1 <= j < all.len() implies #[trigger] remote_views(remote@)[j]
            == all[j] by {
            assert(so_far[j] == all[j]);
        }
        i += 1;
    }
    assert(remote_views(remote@) =~= goal);
    let direct = RemoteServerRecords { timestamp, expiry: limit, records: local };
    let ghost report = direct@;
    let mut k: usize = 0;
    while k < remote.len() && remote[k].0 != server_id
        invariant
            k <= remote.len(),
            goal == remote_views(remote@),
            forall|j: int| 0 <= j < k ==> (#[trigger] goal[j]).0 != server_id,
        decreases remote.len() - k,
    {
        assert(goal[k as int].0 != server_id);
        k += 1;
    }
    proof {
        if k < remote.len() {
            assert(goal[k as int].0 == server_id);
        }
        lemma_place_is(goal, server_id, k as int);
    }
    if k < remote.len() {
        remote.set(k, (server_id, direct));
    } else {
        remote.push((server_id, direct));
    }
    assert(remote_views(remote@) =~= put(goal, server_id, report));
    remote
}

/// The time until which reports that are taken in at some time hold: three times as long as it is
/// between two looks. There is none where it could not be represented.
pub fn max_expiry(config: &RemoteConfig, timestamp: Timestamp) -> (r: Option<Timestamp>)
    requires
        config.millis() * 3 <= i64::MAX,
    ensures
        r == match instant_after(
            timestamp.secs,
            timestamp.nanos,
            (config.millis() * 3) as i64,
        ) {
            Some((secs, nanos)) => Some(Timestamp { secs, nanos }),
            None => None,
        },
        timestamp.nanos < 1_000_000_000 && r is Some ==> instant(r->0) == instant(timestamp)
            + config.millis() * 3 * 1_000_000,
        timestamp.nanos < 1_000_000_000 && 0 <= timestamp.secs && timestamp.secs + config.millis()
            * 3 / 1000 < 8_000_000_000_000 ==> r is Some,
{
    let millis: u64 = config.interval() * 3;
    plus_millis(timestamp, millis as i64)
}

/// What comes of what another server told, or did not tell, at some time, when it is stored at
/// another: the store, and how the round of the source ends. Where it told records, the reports are taken in. Where it told
/// nothing, the records of the source are dropped. Nothing happens, and the round does not end,
/// where the time until which the records hold could not be represented.
pub open spec fn fetched(
    source: (SourceType, Seq<char>),
    millis: u64,
    outcome: Result<(u128, StoreView), LoopResult>,
    store: StoreView,
    time: Timestamp,
    stored: Timestamp,
) -> (StoreView, Option<LoopResult>) {
    match outcome {
        Ok((server_id, told)) => match instant_after(time.secs, time.nanos, (millis * 3) as i64) {
            Some((secs, nanos)) => (
                expired(
                    StoreView {
                        local: store.local,
                        remote: all_reported(
                            store.remote,
                            taken_reports(server_id, told, time, Timestamp { secs, nanos }),
                        ),
                    },
                    stored,
                ),
                Some(LoopResult::Sleep),
            ),
            None => (store, None),
        },
        Err(result) => (
            expired(
                StoreView { local: drop_key(store.local, source), remote: store.remote },
                stored,
            ),
            Some(result),
        ),
    }
}

/// What another server told, by its identifier.
pub open spec fn outcome_view(outcome: Result<ApiRecords, LoopResult>) -> Result<
    (u128, StoreView),
    LoopResult,
> {
    match outcome {
        Ok(api_records) => Ok((api_records.server_id, api_records.store@)),
        Err(result) => Err(result),
    }
}

/// Takes what another server told at some time into the store, at another time.
pub fn fetch_records_at(
    source_id: &SourceId,
    config: &RemoteConfig,
    outcome: Result<ApiRecords, LoopResult>,
    record_store: &mut RecordStore,
    timestamp: Timestamp,
    stored: Timestamp,
) -> (r: Option<LoopResult>)
    requires
        outcome is Ok ==> config.millis() * 3 <= i64::MAX,
    ensures
        (final(record_store)@, r) == fetched(
            source_id@,
            config.millis(),
            outcome_view(outcome),
            old(record_store)@,
            timestamp,
            stored,
        ),
        r is Some ==> final(record_store).published() == served(final(record_store)@),
        r is None ==> final(record_store).published() == old(record_store).published(),
{
    match outcome {
        Ok(api_records) => {
            let limit = match max_expiry(config, timestamp) {
                Some(limit) => limit,
                None => {
                    return None;
                },
            };
            let remotes = take_reports(api_records, timestamp, limit);
            record_store.add_remote_records_at(&remotes, stored);
            Some(LoopResult::Sleep)
        },
        Err(result) => {
            record_store.clear_source_records_at(source_id, stored);
            Some(result)
        },
    }
}

/// Takes what another server told now into the store. The clock is read once for the reports and
/// once for the store.
pub fn fetch_records(
    source_id: &SourceId,
    config: &RemoteConfig,
    outcome: Result<ApiRecords, LoopResult>,
    record_store: &mut RecordStore,
) -> (r: Option<LoopResult>)
    requires
        outcome is Ok ==> config.millis() * 3 <= i64::MAX,
    ensures
        exists|time: Timestamp, stored: Timestamp|
            (final(record_store)@, r) == #[trigger] fetched(
                source_id@,
                config.millis(),
                outcome_view(outcome),
                old(record_store)@,
                time,
                stored,
            ) && on_clock(time) && on_clock(stored),
        r is Some ==> final(record_store).published() == served(final(record_store)@),
        r is None ==> final(record_store).published() == old(record_store).published(),
{
    let timestamp = now();
    let stored = now();
    fetch_records_at(source_id, config, outcome, record_store, timestamp, stored)
}

/// Decides whether a source goes on after a round, and for how long it waits: after success the
/// waiting time goes back, after a failure it grows to the one given, as far as the limit allows.
pub fn remote_loop(backoff: &mut Backoff, result: LoopResult, scaled: u64) -> (r: bool)
    ensures
        r == (result != LoopResult::Quit),
        final(backoff).initial() == old(backoff).initial(),
        final(backoff).limit() == old(backoff).limit(),
        final(backoff).millis() == match result {
            LoopResult::Quit => old(backoff).millis(),
            LoopResult::Sleep => old(backoff).initial(),
            LoopResult::Backoff => if scaled < old(backoff).limit() {
                scaled
            } else {
                old(backoff).limit()
            },
        },
{
    match result {
        LoopResult::Quit => false,
        LoopResult::Sleep => {
            backoff.reset();
            true
        },
        LoopResult::Backoff => {
            backoff.backoff(scaled);
            true
        },
    }
}

/// The reports that are taken in from what a server tells, and no others: one on the server itself
/// with all the sources that it told, and those on the servers that it knows of with what it told of
/// them, except that none holds beyond the limit.
pub proof fn law_all_reports_are_taken(
    server_id: u128,
    told: StoreView,
    timestamp: Timestamp,
    limit: Timestamp,
    entry: (u128, RemoteView),
)
    requires
        unique_keys(told.remote),
    ensures
        taken_reports(server_id, told, timestamp, limit).contains(entry) <==> if entry.0
            == server_id {
            entry.1.timestamp == timestamp && entry.1.expiry == limit && entry.1.records
                == told.local
        } else {
            exists|i: int|
                0 <= i < told.remote.len() && (#[trigger] told.remote[i]).0 == entry.0
                    && entry.1.timestamp == told.remote[i].1.timestamp && entry.1.records
                    == told.remote[i].1.records && entry.1.expiry == (if before(
                    limit,
                    told.remote[i].1.expiry,
                ) {
                    limit
                } else {
                    told.remote[i].1.expiry
                })
        },
        unique_keys(taken_reports(server_id, told, timestamp, limit)),
{
    let others = all_capped(told.remote, limit);
    let own = RemoteView { timestamp, expiry: limit, records: told.local };
    let all = taken_reports(server_id, told, timestamp, limit);
    assert(unique_keys(others)) by {
        assert forall|i: int, j: int| 0 <= i < j < others.len() implies (#[trigger] others[i]).0 != (
        #[trigger] others[j]).0 by {
            assert(told.remote[i].0 != told.remote[j].0);
        }
    }
    lemma_put(others, server_id, own, entry.0);
    lemma_contains(all, entry.0, entry.1);
    lemma_contains(others, entry.0, entry.1);
    if entry.0 == server_id {
        assert(all.contains(entry) <==> entry.1 == own);
    } else {
        assert(all.contains(entry) <==> others.contains(entry));
        if others.contains(entry) {
            let i = choose|i: int| 0 <= i < others.len() && others[i] == entry;
            assert(told.remote[i].0 == entry.0);
        }
        if exists|i: int|
            0 <= i < told.remote.len() && (#[trigger] told.remote[i]).0 == entry.0
                && entry.1.timestamp == told.remote[i].1.timestamp && entry.1.records
                == told.remote[i].1.records && entry.1.expiry == (if before(
                limit,
                told.remote[i].1.expiry,
            ) {
                limit
            } else {
                told.remote[i].1.expiry
            }) {
            let i = choose|i: int|
                0 <= i < told.remote.len() && (#[trigger] told.remote[i]).0 == entry.0
                    && entry.1.timestamp == told.remote[i].1.timestamp && entry.1.records
                    == told.remote[i].1.records && entry.1.expiry == (if before(
                    limit,
                    told.remote[i].1.expiry,
                ) {
                    limit
                } else {
                    told.remote[i].1.expiry
                });
            assert(others[i] == entry);
        }
    }
}

/// Every record of every source that another server told is served when it is stored before its
/// limit, unless a newer report on that server is known.
pub proof fn law_told_records_are_served(
    source: (SourceType, Seq<char>),
    millis: u64,
    server_id: u128,
    told: StoreView,
    store: StoreView,
    time: Timestamp,
    stored: Timestamp,
    limit: Timestamp,
    at: int,
    record: RecordView,
)
    requires
        unique_keys(told.remote),
        unique_keys(store.remote),
        instant_after(time.secs, time.nanos, (millis * 3) as i64) == Some((limit.secs, limit.nanos)),
        before(stored, limit),
        forall|i: int|
            0 <= i < store.remote.len() && (#[trigger] store.remote[i]).0 == server_id ==> before(
                store.remote[i].1.timestamp,
                time,
            ),
        0 <= at < told.local.len(),
        holds(told.local[at].1.records, record),
    ensures
        ({
            let (after, result) = fetched(source, millis, Ok((server_id, told)), store, time, stored);
            &&& holds(served(after).records, record)
            &&& result == Some(LoopResult::Sleep)
        }),
{
    let reports = taken_reports(server_id, told, time, limit);
    let own = RemoteView { timestamp: time, expiry: limit, records: told.local };
    law_all_reports_are_taken(server_id, told, time, limit, (server_id, own));
    let k = choose|k: int| 0 <= k < reports.len() && reports[k] == (server_id, own);
    law_newest_report_counts(store.remote, reports, k);
    let known = all_reported(store.remote, reports);
    let i = choose|i: int| 0 <= i < known.len() && known[i] == (server_id, own);
    assert(sourced_from(known[i].1.records, record)) by {
        assert(holds(told.local[at].1.records, record));
    }
    assert(before(stored, known[i].1.expiry));
    law_served_at_a_time(StoreView { local: store.local, remote: known }, stored, record);
}

/// Every record that another server told of a third one is served when it is stored before it
/// expires there and before the limit, unless a report on the third that is as new is known.
pub proof fn law_relayed_records_are_served(
    source: (SourceType, Seq<char>),
    millis: u64,
    server_id: u128,
    told: StoreView,
    store: StoreView,
    time: Timestamp,
    stored: Timestamp,
    limit: Timestamp,
    at: int,
    record: RecordView,
)
    requires
        unique_keys(told.remote),
        unique_keys(store.remote),
        instant_after(time.secs, time.nanos, (millis * 3) as i64) == Some((limit.secs, limit.nanos)),
        0 <= at < told.remote.len(),
        told.remote[at].0 != server_id,
        before(stored, limit),
        before(stored, told.remote[at].1.expiry),
        forall|i: int|
            0 <= i < store.remote.len() && (#[trigger] store.remote[i]).0 == told.remote[at].0
                ==> before(store.remote[i].1.timestamp, told.remote[at].1.timestamp),
        sourced_from(told.remote[at].1.records, record),
    ensures
        holds(
            served(
                fetched(source, millis, Ok((server_id, told)), store, time, stored).0,
            ).records,
            record,
        ),
{
    let reports = taken_reports(server_id, told, time, limit);
    let entry = (
        told.remote[at].0,
        RemoteView {
            expiry: if before(limit, told.remote[at].1.expiry) {
                limit
            } else {
                told.remote[at].1.expiry
            },
            ..told.remote[at].1
        },
    );
    law_all_reports_are_taken(server_id, told, time, limit, entry);
    let k = choose|k: int| 0 <= k < reports.len() && reports[k] == entry;
    law_newest_report_counts(store.remote, reports, k);
    let known = all_reported(store.remote, reports);
    let i = choose|i: int| 0 <= i < known.len() && known[i] == entry;
    assert(sourced_from(known[i].1.records, record));
    assert(before(stored, known[i].1.expiry));
    law_served_at_a_time(StoreView { local: store.local, remote: known }, stored, record);
}

/// After another server was asked, nothing is served but the records of the sources of this server,
/// those that were known of other servers, and those that were told; all records of the sources of
/// this server are.
pub proof fn law_nothing_else_is_served(
    source: (SourceType, Seq<char>),
    millis: u64,
    server_id: u128,
    told: StoreView,
    store: StoreView,
    time: Timestamp,
    stored: Timestamp,
    record: RecordView,
)
    requires
        unique_keys(told.remote),
        unique_keys(store.remote),
        instant_after(time.secs, time.nanos, (millis * 3) as i64) is Some,
    ensures
        ({
            let after = fetched(source, millis, Ok((server_id, told)), store, time, stored).0;
            &&& holds(served(after).records, record) ==> sourced_from(store.local, record)
                || sourced_from(told.local, record) || (exists|i: int|
                0 <= i < store.remote.len() && sourced_from(
                    (#[trigger] store.remote[i]).1.records,
                    record,
                )) || (exists|i: int|
                0 <= i < told.remote.len() && sourced_from(
                    (#[trigger] told.remote[i]).1.records,
                    record,
                ))
            &&& sourced_from(store.local, record) ==> holds(served(after).records, record)
        }),
{
    let (secs, nanos) = instant_after(time.secs, time.nanos, (millis * 3) as i64)->0;
    let limit = Timestamp { secs, nanos };
    let reports = taken_reports(server_id, told, time, limit);
    let known = all_reported(store.remote, reports);
    law_served_at_a_time(StoreView { local: store.local, remote: known }, stored, record);
    if told_beyond(known, stored, record) {
        let i = choose|i: int|
            0 <= i < known.len() && before(stored, (#[trigger] known[i]).1.expiry) && sourced_from(
                known[i].1.records,
                record,
            );
        assert(known.contains(known[i]));
        law_all_reports_are_taken(server_id, told, time, limit, known[i]);
        law_reports_are_not_made_up(store.remote, reports, known[i]);
        if !exists|j: int|
            0 <= j < store.remote.len() && sourced_from(
                (#[trigger] store.remote[j]).1.records,
                record,
            ) {
            let j = choose|j: int|
                0 <= j < reports.len() && (#[trigger] reports[j]).0 == known[i].0
                    && reports[j].1.records == known[i].1.records && reports[j].1.timestamp
                    == known[i].1.timestamp;
            law_all_reports_are_taken(server_id, told, time, limit, reports[j]);
            assert(reports.contains(reports[j]));
        }
    }
}

/// Where another server could not be asked, the records of the source are dropped, and exactly those
/// of the other sources are served and those of other servers that still hold.
pub proof fn law_failure_drops_the_source(
    source: (SourceType, Seq<char>),
    millis: u64,
    result: LoopResult,
    store: StoreView,
    time: Timestamp,
    stored: Timestamp,
    record: RecordView,
)
    ensures
        ({
            let (after, ended) = fetched(source, millis, Err(result), store, time, stored);
            &&& ended == Some(result)
            &&& holds(served(after).records, record) <==> from_other_source(
                store.local,
                source,
                record,
            ) || told_beyond(store.remote, stored, record)
        }),
{
    law_dropped_source_is_not_served(store, source, stored, record);
}

} // verus!
