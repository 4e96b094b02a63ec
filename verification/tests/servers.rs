use localns::api::ApiRecords;
use localns::config::zones::{DefaultZoneConfig, Zones};
use localns::dns::query::Query;
use localns::dns::record::{RData, Record};
use localns::dns::resolver::{LockedServerState, Resolver};
use localns::dns::rr;
use localns::dns::rr::{DnsClass, RecordType, ResponseCode};
use localns::dns::set::RecordSet;
use localns::dns::store::{RecordStore, RecordStoreData, RemoteServerRecords};
use localns::ip::Ipv4Addr;
use localns::name::Fqdn;
use localns::run_loop::LoopResult;
use localns::sources::id::{SourceId, SourceType};
use localns::sources::remote::{fetch_records_at, RemoteConfig};
use localns::time::Timestamp;

fn fqdn(name: &str) -> Fqdn {
    Fqdn::from_text(name).unwrap()
}

fn ipv4(ip: &str) -> Ipv4Addr {
    Ipv4Addr::from_text(ip).unwrap()
}

fn at(millis: i64) -> Timestamp {
    Timestamp { secs: millis / 1000, nanos: (millis % 1000) as u32 * 1_000_000 }
}

struct Machine {
    id: u128,
    store: RecordStore,
    interval_ms: u64,
}

impl Machine {
    fn new(id: u128, interval_ms: u64, hosts: &[(&str, &str)], millis: i64) -> Machine {
        let records = hosts
            .iter()
            .map(|(name, ip)| Record::new(fqdn(name), RData::A(ipv4(ip))))
            .collect();
        let mut store = RecordStore::new();
        let source_id = SourceId::new(SourceType::File, "file1");
        store.add_source_records_at(&source_id, RecordSet::from_records(&records), at(millis));
        Machine { id, store, interval_ms }
    }

    fn tell(&self, millis: i64) -> Result<ApiRecords, LoopResult> {
        Ok(ApiRecords {
            server_version: "2.0.0".to_owned(),
            server_id: self.id,
            store: self.store.store_data_at(at(millis)),
        })
    }

    fn take(&mut self, outcome: Result<ApiRecords, LoopResult>, millis: i64) {
        let source_id = SourceId::new(SourceType::Remote, "remote1");
        let config = RemoteConfig {
            url: "http://remote.home.local:8032/".to_owned(),
            interval_ms: Some(self.interval_ms),
        };
        let expected = if outcome.is_ok() { LoopResult::Sleep } else { LoopResult::Backoff };
        let (store, time) = (&mut self.store, at(millis));
        let result = fetch_records_at(&source_id, &config, outcome, store, time, time);
        assert_eq!(result, Some(expected));
    }

    fn address(&self, name: &str) -> Option<Ipv4Addr> {
        let defaults = DefaultZoneConfig { upstream: None, ttl: None };
        let server = LockedServerState {
            records: self.store.records().clone(),
            zones: Zones::new(defaults, Vec::new()),
        };
        let query = Query {
            name: fqdn(name),
            query_class: DnsClass::In,
            query_type: RecordType::A,
        };
        let mut resolver = Resolver::new(query, true);
        assert!(resolver.try_advance(&server).unwrap().is_none());
        assert!(resolver.can_finish());
        resolver.finish(&server);
        if resolver.state.answers.is_empty() {
            assert_eq!(resolver.state.response_code, ResponseCode::NXDomain);
            return None;
        }
        assert_eq!(resolver.state.response_code, ResponseCode::NoError);
        assert_eq!(resolver.state.answers.len(), 1);
        match &resolver.state.answers[0].data {
            Some(rr::RData::A(ip)) => Some(*ip),
            other => panic!("unexpected data {:?}", other),
        }
    }
}

#[test]
fn broken_remotes() {
    let mut server = Machine::new(1, 100, &[("test.home.local.", "10.10.10.10")], 1000);
    server.take(Err(LoopResult::Backoff), 2000);
    assert_eq!(server.address("test.home.local."), Some(ipv4("10.10.10.10")));
    assert_eq!(server.address("provided.home.local."), None);

    let provided = vec![Record::new(fqdn("provided.home.local"), RData::A(ipv4("10.5.23.43")))];
    let tell = |millis: i64| {
        Ok(ApiRecords {
            server_version: "2.0.0".to_owned(),
            server_id: 2,
            store: RecordStoreData {
                local: Vec::new(),
                remote: vec![(
                    3,
                    RemoteServerRecords {
                        timestamp: at(millis),
                        expiry: at(millis + 20_000),
                        records: vec![(
                            SourceId::new(SourceType::Dhcp, "test1"),
                            RecordSet::from_records(&provided),
                        )],
                    },
                )],
            },
        })
    };

    server.take(tell(3000), 3000);
    assert_eq!(server.address("provided.home.local."), Some(ipv4("10.5.23.43")));
    assert_eq!(server.address("test.home.local."), Some(ipv4("10.10.10.10")));

    server.take(Err(LoopResult::Backoff), 4000);
    assert_eq!(server.address("provided.home.local."), None);
    assert_eq!(server.address("test.home.local."), Some(ipv4("10.10.10.10")));

    server.take(tell(5000), 5000);
    assert_eq!(server.address("test.home.local."), Some(ipv4("10.10.10.10")));
    assert_eq!(server.address("provided.home.local."), Some(ipv4("10.5.23.43")));
}

#[test]
fn remote_cycle() {
    let mut server_a = Machine::new(1, 300, &[("host.servera.com.", "10.10.10.10")], 1000);
    let hosts = [("host.serverb.com.", "10.10.10.11"), ("old.serverb.com.", "10.10.10.12")];
    let mut server_b = Machine::new(2, 100, &hosts, 1000);

    // Both servers have both records.
    let mut millis: i64 = 1000;
    server_b.take(server_a.tell(millis), millis);
    server_a.take(server_b.tell(millis), millis);
    assert!(server_a.address("host.servera.com.").is_some());
    assert!(server_a.address("host.serverb.com.").is_some());
    assert!(server_b.address("host.servera.com.").is_some());
    assert!(server_b.address("host.serverb.com.").is_some());

    // A new server in place of the other gets the records of the one before it back at first.
    let mut server_b = Machine::new(3, 100, &hosts[0..1], millis);
    server_b.take(server_a.tell(millis), millis);
    assert!(server_b.address("host.servera.com.").is_some());
    assert!(server_b.address("host.serverb.com.").is_some());
    assert!(server_b.address("old.serverb.com.").is_some());

    // Both lose the old record, though each hears it from the other.
    while millis < 3000 {
        millis += 100;
        server_b.take(server_a.tell(millis), millis);
        if millis % 300 == 0 {
            server_a.take(server_b.tell(millis), millis);
        }
    }
    assert_eq!(server_b.address("old.serverb.com."), None);
    assert_eq!(server_a.address("old.serverb.com."), None);
    assert!(server_a.address("host.serverb.com.").is_some());
    assert!(server_b.address("host.servera.com.").is_some());

    // A server that is gone takes its records with it.
    while millis < 6000 {
        millis += 300;
        server_a.take(Err(LoopResult::Backoff), millis);
    }
    assert_eq!(server_a.address("host.serverb.com."), None);
    assert_eq!(server_a.address("host.servera.com."), Some(ipv4("10.10.10.10")));
}
