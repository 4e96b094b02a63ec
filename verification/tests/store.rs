use localns::dns::record::{RData, Record};
use localns::dns::set::RecordSet;
use localns::dns::store::{RecordStore, RecordStoreData, RemoteServerRecords};
use localns::ip::Ipv4Addr;
use localns::name::Fqdn;
use localns::sources::id::{SourceId, SourceType};
use localns::time::Timestamp;

fn fqdn(name: &str) -> Fqdn {
    Fqdn::from_text(name).unwrap()
}

fn at(secs: i64) -> Timestamp {
    Timestamp { secs, nanos: 0 }
}

fn one_record(name: &str) -> RecordSet {
    RecordSet::from_records(&vec![Record::new(fqdn(name), RData::A(Ipv4Addr::new(10, 0, 0, 1)))])
}

fn report(timestamp: i64, expiry: i64, name: &str) -> RemoteServerRecords {
    RemoteServerRecords {
        timestamp: at(timestamp),
        expiry: at(expiry),
        records: vec![(SourceId::new(SourceType::File, "remote"), one_record(name))],
    }
}

#[test]
fn record_store() {
    let mut record_store = RecordStore::new();

    let source_id_1 = SourceId::new(SourceType::File, "test");
    let mut records_1 = RecordSet::new();
    records_1.insert(Record::new(
        fqdn("www.example.org"),
        RData::Cname(fqdn("other.example.org")),
    ));
    record_store.add_source_records(&source_id_1, records_1.clone());

    let server_records = record_store.records();
    assert_eq!(server_records.len(), 1);
    assert!(server_records.contains(
        &fqdn("www.example.org"),
        &RData::Cname(fqdn("other.example.org"))
    ));

    record_store.add_source_records(&source_id_1, records_1.clone());
    let server_records = record_store.records();
    assert_eq!(server_records.len(), 1);
    assert!(server_records.contains(
        &fqdn("www.example.org"),
        &RData::Cname(fqdn("other.example.org"))
    ));

    records_1.insert(Record::new(
        fqdn("old.example.org"),
        RData::Cname(fqdn("other.example.org")),
    ));
    record_store.add_source_records(&source_id_1, records_1.clone());
    let server_records = record_store.records();
    assert_eq!(server_records.len(), 2);
    assert!(server_records.contains(
        &fqdn("www.example.org"),
        &RData::Cname(fqdn("other.example.org"))
    ));
    assert!(server_records.contains(
        &fqdn("old.example.org"),
        &RData::Cname(fqdn("other.example.org"))
    ));

    let source_id_2 = SourceId::new(SourceType::Docker, "test");
    let mut records_2 = RecordSet::new();
    records_2.insert(Record::new(
        fqdn("other.data.com"),
        RData::Cname(fqdn("www.data.com")),
    ));
    record_store.add_source_records(&source_id_2, records_2.clone());
    let server_records = record_store.records();
    assert_eq!(server_records.len(), 3);
    assert!(server_records.contains(
        &fqdn("www.example.org"),
        &RData::Cname(fqdn("other.example.org"))
    ));
    assert!(server_records.contains(
        &fqdn("old.example.org"),
        &RData::Cname(fqdn("other.example.org"))
    ));
    assert!(
        server_records.contains(&fqdn("other.data.com"), &RData::Cname(fqdn("www.data.com")))
    );

    record_store.prune_sources(&vec![source_id_2.clone()]);
    let server_records = record_store.records();
    assert_eq!(server_records.len(), 1);
    assert!(
        server_records.contains(&fqdn("other.data.com"), &RData::Cname(fqdn("www.data.com")))
    );

    record_store.clear_source_records(&source_id_2);
    assert!(record_store.records().is_empty());
}

#[test]
fn later_reports_count() {
    let mut store = RecordStore::new();
    store.add_remote_records_at(&vec![(1, report(100, 200, "new.local"))], at(100));
    assert!(store.records().has_name(&fqdn("new.local")));
    store.add_remote_records_at(&vec![(1, report(90, 300, "old.local"))], at(110));
    assert!(!store.records().has_name(&fqdn("old.local")));
    store.add_remote_records_at(&vec![(1, report(120, 130, "newer.local"))], at(120));
    assert!(store.records().has_name(&fqdn("newer.local")));
    assert!(!store.records().has_name(&fqdn("new.local")));
}

#[test]
fn reports_of_one_time_hold_for_the_longer() {
    let mut store = RecordStore::new();
    store.add_remote_records_at(&vec![(1, report(100, 200, "a.local"))], at(100));
    store.add_remote_records_at(&vec![(1, report(100, 150, "b.local"))], at(100));
    assert_eq!(store.store_data_at(at(180)).remote.len(), 1);
    store.add_remote_records_at(&vec![(1, report(100, 250, "b.local"))], at(100));
    let data = store.store_data_at(at(240));
    assert_eq!(data.remote.len(), 1);
    assert_eq!(data.remote[0].1.expiry, at(250));
    assert!(store.records().has_name(&fqdn("a.local")));
    assert_eq!(store.store_data_at(at(250)).remote.len(), 0);
}

#[test]
fn expired_records_are_not_served() {
    let mut store = RecordStore::new();
    let source = SourceId::new(SourceType::Dhcp, "local");
    store.add_remote_records_at(
        &vec![(1, report(100, 200, "one.local")), (2, report(100, 300, "two.local"))],
        at(100),
    );
    assert_eq!(store.records().len(), 2);
    store.add_source_records_at(&source, one_record("own.local"), at(200));
    assert!(!store.records().has_name(&fqdn("one.local")));
    assert!(store.records().has_name(&fqdn("two.local")));
    assert!(store.records().has_name(&fqdn("own.local")));
    store.clear_source_records_at(&source, at(250));
    assert!(!store.records().has_name(&fqdn("own.local")));
    store.prune_sources_at(&Vec::new(), at(300));
    assert!(store.records().is_empty());
}

#[test]
fn the_present_is_used() {
    let mut store = RecordStore::new();
    store.add_remote_records(&vec![
        (1, report(0, 1, "past.local")),
        (2, report(0, 4_000_000_000_000, "future.local")),
    ]);
    assert!(!store.records().has_name(&fqdn("past.local")));
    assert!(store.records().has_name(&fqdn("future.local")));
    assert_eq!(store.store_data().remote.len(), 1);
}

#[test]
fn old_reports_are_dropped_now() {
    let mut data = RecordStoreData::new();
    data.add_remote_records(&vec![
        (1, report(10, 20, "old.local")),
        (2, report(10, 200_000_000_000, "new.local")),
    ]);
    data.expire_remotes();
    assert_eq!(data.remote.len(), 1);
    assert_eq!(data.remote[0].0, 2);
}
