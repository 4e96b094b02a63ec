use localns::config::zones::{DefaultZoneConfig, PartialZoneConfig, Upstream, Zones};
use localns::dns::query::{Query, QueryState};
use localns::dns::record::{RData, Record};
use localns::dns::resolver::{
    http_addresses, http_queries, LockedServerState, Message, Question, Resolver,
};
use localns::dns::rr;
use localns::dns::rr::{DnsClass, RecordType, ResponseCode};
use localns::dns::set::RecordSet;
use localns::ip::{IpAddr, Ipv4Addr, Ipv6Addr};
use localns::name::Fqdn;
use localns::util::Address;

fn fqdn(name: &str) -> Fqdn {
    Fqdn::from_text(name).unwrap()
}

fn ipv4(ip: &str) -> Ipv4Addr {
    Ipv4Addr::from_text(ip).unwrap()
}

fn ipv6(ip: &str) -> Ipv6Addr {
    Ipv6Addr::from_text(ip).unwrap()
}

fn empty_zones() -> Zones {
    Zones::new(DefaultZoneConfig { upstream: None, ttl: None }, Vec::new())
}

fn upstream_zones() -> Zones {
    let upstream = Upstream { config: Address::from_text("127.0.0.1:5300").unwrap() };
    Zones::new(DefaultZoneConfig { upstream: Some(upstream), ttl: None }, Vec::new())
}

fn no_reply(_: &Question) -> Option<Message> {
    panic!("no server should have been asked");
}

fn perform(
    server: &LockedServerState,
    name: &str,
    query_type: RecordType,
    recursion_desired: bool,
    reply: fn(&Question) -> Option<Message>,
) -> QueryState {
    let mut resolver = Resolver::new(Query::query(fqdn(name), query_type), recursion_desired);
    while let Some(question) = resolver.advance(server) {
        resolver.reply(reply(&question));
    }
    assert!(resolver.can_finish());
    resolver.finish(server);
    resolver.state
}

fn sorted(state: &QueryState) -> Vec<rr::Record> {
    let mut answers = state.answers().clone();
    answers.sort_by_key(|record| record.name.text());
    answers
}

fn assert_record(record: &rr::Record, name: &str, record_type: RecordType, data: &str) {
    assert_eq!(record.name, fqdn(name));
    assert_eq!(record.class, DnsClass::In);
    assert_eq!(record.record_type, record_type);
    match record.data.as_ref().unwrap() {
        rr::RData::A(ip) => {
            assert_eq!(record_type, RecordType::A);
            assert_eq!(*ip, ipv4(data));
        }
        rr::RData::Aaaa(ip) => {
            assert_eq!(record_type, RecordType::Aaaa);
            assert_eq!(*ip, ipv6(data));
        }
        rr::RData::Cname(target) => {
            assert_eq!(record_type, RecordType::Cname);
            assert_eq!(*target, fqdn(data));
        }
        rr::RData::Aname(target) => {
            assert_eq!(record_type, RecordType::Aname);
            assert_eq!(*target, fqdn(data));
        }
        rr::RData::Ptr(target) => {
            assert_eq!(record_type, RecordType::Ptr);
            assert_eq!(*target, fqdn(data));
        }
        other => panic!("unexpected data {:?}", other),
    }
}

#[test]
fn mod_query() {
    let mut records = RecordSet::new();
    records.insert(Record::new(
        fqdn("test.home.local."),
        RData::Cname(fqdn("other.home.local.")),
    ));
    let mut server = LockedServerState { records: records.clone(), zones: empty_zones() };

    let state = perform(&server, "test.home.local.", RecordType::A, false, no_reply);
    assert_eq!(state.response_code, ResponseCode::NXDomain);
    let answers = sorted(&state);
    assert_eq!(answers.len(), 1);
    assert!(state.additionals().is_empty());
    assert_record(&answers[0], "test.home.local.", RecordType::Cname, "other.home.local.");

    records.insert(Record::new(fqdn("other.home.local."), RData::A(ipv4("10.10.45.23"))));
    server.records = records.clone();

    let state = perform(&server, "test.home.local.", RecordType::A, true, no_reply);
    assert_eq!(state.response_code, ResponseCode::NoError);
    let answers = sorted(&state);
    assert_eq!(answers.len(), 2);
    assert!(state.additionals().is_empty());
    assert_record(&answers[1], "test.home.local.", RecordType::Cname, "other.home.local.");
    assert_record(&answers[0], "other.home.local.", RecordType::A, "10.10.45.23");
}

#[test]
fn aliases() {
    let mut records = RecordSet::new();
    records.insert(Record::new(
        fqdn("alias.home.local."),
        RData::Aname(fqdn("target.home.local.")),
    ));
    records.insert(Record::new(
        fqdn("cname.home.local."),
        RData::Cname(fqdn("alias.home.local.")),
    ));
    records.insert(Record::new(fqdn("target.home.local."), RData::A(ipv4("10.4.2.5"))));
    records.insert(Record::new(
        fqdn("target.home.local."),
        RData::Aaaa(ipv6("2a00:1450:4009:81e::200e")),
    ));
    records.insert(Record::new(
        fqdn("alias2.home.local."),
        RData::Aname(fqdn("cname.home.local.")),
    ));
    records.insert(Record::new(
        fqdn("badalias.home.local."),
        RData::Aname(fqdn("unknown.home.local.")),
    ));
    let server = LockedServerState { records, zones: empty_zones() };

    let state = perform(&server, "alias.home.local.", RecordType::A, false, no_reply);
    assert_eq!(state.response_code, ResponseCode::NoError);
    let answers = sorted(&state);
    assert_eq!(answers.len(), 1);
    assert_record(&answers[0], "alias.home.local.", RecordType::A, "10.4.2.5");

    let state = perform(&server, "alias.home.local.", RecordType::Aaaa, false, no_reply);
    assert_eq!(state.response_code, ResponseCode::NoError);
    let answers = sorted(&state);
    assert_eq!(answers.len(), 1);
    assert_record(
        &answers[0],
        "alias.home.local.",
        RecordType::Aaaa,
        "2a00:1450:4009:81e::200e",
    );

    let state = perform(&server, "cname.home.local.", RecordType::A, false, no_reply);
    assert_eq!(state.response_code, ResponseCode::NoError);
    let answers = sorted(&state);
    assert_eq!(answers.len(), 2);
    assert_record(&answers[0], "alias.home.local.", RecordType::A, "10.4.2.5");
    assert_record(&answers[1], "cname.home.local.", RecordType::Cname, "alias.home.local.");

    let state = perform(&server, "alias2.home.local.", RecordType::Aaaa, false, no_reply);
    assert_eq!(state.response_code, ResponseCode::NoError);
    let answers = sorted(&state);
    assert_eq!(answers.len(), 1);
    assert_record(
        &answers[0],
        "alias2.home.local.",
        RecordType::Aaaa,
        "2a00:1450:4009:81e::200e",
    );

    let state = perform(&server, "cname.home.local.", RecordType::Cname, false, no_reply);
    assert_eq!(state.response_code, ResponseCode::NoError);
    let answers = sorted(&state);
    assert_eq!(answers.len(), 1);
    assert_record(&answers[0], "cname.home.local.", RecordType::Cname, "alias.home.local.");

    let state = perform(&server, "alias.home.local.", RecordType::Aname, false, no_reply);
    assert_eq!(state.response_code, ResponseCode::NoError);
    let answers = sorted(&state);
    assert_eq!(answers.len(), 1);
    assert_record(&answers[0], "alias.home.local.", RecordType::Aname, "target.home.local.");

    let state = perform(&server, "cname.home.local.", RecordType::Aname, false, no_reply);
    assert_eq!(state.response_code, ResponseCode::NoError);
    let answers = sorted(&state);
    assert_eq!(answers.len(), 2);
    assert_record(&answers[0], "alias.home.local.", RecordType::Aname, "target.home.local.");
    assert_record(&answers[1], "cname.home.local.", RecordType::Cname, "alias.home.local.");

    let state = perform(&server, "badalias.home.local.", RecordType::Aaaa, false, no_reply);
    assert_eq!(state.response_code, ResponseCode::NXDomain);
    assert_eq!(sorted(&state).len(), 0);
}

fn message(response_code: ResponseCode, answers: Vec<rr::Record>) -> Option<Message> {
    Some(Message {
        response_code,
        recursion_available: false,
        answers,
        additionals: Vec::new(),
        name_servers: Vec::new(),
    })
}

fn example_org(question: &Question) -> Option<Message> {
    let record = |name: &str, data: rr::RData| rr::Record::from_rdata(fqdn(name), 3600, data);
    let name = question.query.name.text();
    let www = record("www.example.org.", rr::RData::A(ipv4("10.10.10.5")));
    match (name.as_str(), question.query.query_type) {
        ("www.example.org.", RecordType::A) => message(ResponseCode::NoError, vec![www]),
        ("www.example.org.", RecordType::Aaaa) => {
            let v6 = record("www.example.org.", rr::RData::Aaaa(ipv6("2001::1")));
            message(ResponseCode::NoError, vec![v6])
        }
        ("alias.example.org.", RecordType::A) => {
            let alias = record("alias.example.org.", rr::RData::A(ipv4("100.100.23.12")));
            message(ResponseCode::NoError, vec![alias])
        }
        ("data.example.org.", RecordType::A) => {
            let data = record("data.example.org.", rr::RData::Cname(fqdn("www.example.org.")));
            message(ResponseCode::NoError, vec![data, www])
        }
        ("other.example.org.", RecordType::A) => {
            let other = record("other.example.org.", rr::RData::A(ipv4("10.5.3.2")));
            message(ResponseCode::NoError, vec![other])
        }
        _ => message(ResponseCode::NXDomain, Vec::new()),
    }
}

#[test]
fn upstream_overrides() {
    let mut records = RecordSet::new();
    records.insert(Record::new(
        fqdn("alias.example.org."),
        RData::Aname(fqdn("other.example.org.")),
    ));
    records.insert(Record::new(
        fqdn("alias2.example.org."),
        RData::Aname(fqdn("www.example.org.")),
    ));
    records.insert(Record::new(fqdn("other.example.org."), RData::A(ipv4("100.230.45.23"))));
    let server = LockedServerState { records, zones: upstream_zones() };

    let state = perform(&server, "alias.example.org.", RecordType::A, true, example_org);
    assert_eq!(state.response_code, ResponseCode::NoError);
    let answers = sorted(&state);
    assert_eq!(answers.len(), 1);
    assert_record(&answers[0], "alias.example.org.", RecordType::A, "100.230.45.23");

    let state = perform(&server, "alias2.example.org.", RecordType::A, true, example_org);
    assert_eq!(state.response_code, ResponseCode::NoError);
    let answers = sorted(&state);
    assert_eq!(answers.len(), 1);
    assert_record(&answers[0], "alias2.example.org.", RecordType::A, "10.10.10.5");
}

fn ask_upstream(name: &str) -> QueryState {
    let upstream = Upstream { config: Address::from_text("127.0.0.1:5300").unwrap() };
    let query = Query::query(fqdn(name), RecordType::A);
    let mut state = QueryState::new(query.clone(), false);
    let reply = example_org(&Question { upstream, query }).unwrap();
    upstream.resolve(&fqdn(name), reply, &mut state);
    state
}

#[test]
fn test_upstream() {
    let state = ask_upstream("unknown.example.org.");
    assert_eq!(state.response_code, ResponseCode::NXDomain);
    assert!(state.answers().is_empty());
    assert!(state.additionals().is_empty());

    let state = ask_upstream("www.example.org.");
    assert_eq!(state.response_code, ResponseCode::NoError);
    assert!(state.additionals().is_empty());
    let answers = sorted(&state);
    assert_eq!(answers.len(), 1);
    assert_record(&answers[0], "www.example.org.", RecordType::A, "10.10.10.5");

    let state = ask_upstream("data.example.org.");
    assert_eq!(state.response_code, ResponseCode::NoError);
    assert!(state.additionals().is_empty());
    let answers = sorted(&state);
    assert_eq!(answers.len(), 2);
    assert_record(&answers[0], "data.example.org.", RecordType::Cname, "www.example.org.");
    assert_record(&answers[1], "www.example.org.", RecordType::A, "10.10.10.5");
}

#[test]
fn names_exist_for_other_types() {
    let mut records = RecordSet::new();
    records.insert(Record::new(fqdn("ipv4.example.org."), RData::A(ipv4("10.0.0.1"))));
    let server = LockedServerState { records, zones: upstream_zones() };
    let state = perform(&server, "ipv4.example.org.", RecordType::Aaaa, true, no_reply);
    assert_eq!(state.response_code, ResponseCode::NoError);
    assert!(state.answers().is_empty());
}

#[test]
fn unknown_names_are_forwarded_only_with_recursion() {
    let server = LockedServerState { records: RecordSet::new(), zones: upstream_zones() };
    let state = perform(&server, "www.example.org.", RecordType::A, false, no_reply);
    assert_eq!(state.response_code, ResponseCode::NXDomain);
    assert!(state.answers().is_empty());
    let state = perform(&server, "www.example.org.", RecordType::A, true, example_org);
    assert_eq!(state.response_code, ResponseCode::NoError);
    assert_eq!(state.answers().len(), 1);
    assert!(!state.recursion_available);
}

#[test]
fn replies_decide_the_authority() {
    fn authority(_: &Question) -> Option<Message> {
        let soa = rr::Soa {
            mname: fqdn("ns.example.org."),
            rname: fqdn("hostmaster.example.org."),
            serial: 7,
            refresh: 1,
            retry: 2,
            expire: 3,
            minimum: 4,
        };
        let server = rr::RData::Ns(fqdn("ns.example.org."));
        Some(Message {
            response_code: ResponseCode::NXDomain,
            recursion_available: true,
            answers: Vec::new(),
            additionals: Vec::new(),
            name_servers: vec![
                rr::Record::from_rdata(fqdn("example.org."), 60, server),
                rr::Record::from_rdata(fqdn("example.org."), 60, rr::RData::Soa(soa)),
            ],
        })
    }
    let server = LockedServerState { records: RecordSet::new(), zones: upstream_zones() };
    let state = perform(&server, "no.example.org.", RecordType::A, true, authority);
    assert_eq!(state.name_servers().len(), 1);
    assert_eq!(state.soa().as_ref().unwrap().record_type, RecordType::Soa);
    let header = state.header();
    assert!(header.authoritative);
    assert!(header.recursion_available);
    assert_eq!(header.response_code, ResponseCode::NXDomain);
}

#[test]
fn a_server_that_does_not_reply_is_passed_over() {
    let server = LockedServerState { records: RecordSet::new(), zones: upstream_zones() };
    let state = perform(&server, "www.example.org.", RecordType::A, true, |_| None);
    assert_eq!(state.response_code, ResponseCode::NXDomain);
    assert!(state.recursion_available);
}

#[test]
fn authoritative_zones_name_their_authority() {
    let zone = PartialZoneConfig {
        config: DefaultZoneConfig { upstream: None, ttl: Some(400) },
        authoritative: None,
    };
    let zones = Zones::new(
        DefaultZoneConfig { upstream: None, ttl: None },
        vec![(fqdn("home.local"), zone)],
    );
    let mut records = RecordSet::new();
    records.insert(Record::new(fqdn("www.home.local"), RData::A(ipv4("10.0.0.1"))));
    let server = LockedServerState { records, zones };
    let state = perform(&server, "www.home.local", RecordType::A, false, no_reply);
    assert_eq!(state.answers()[0].ttl, 400);
    let soa = state.soa().as_ref().unwrap();
    assert_eq!(soa.name, fqdn("home.local"));
    match soa.data.as_ref().unwrap() {
        rr::RData::Soa(soa) => {
            assert_eq!(soa.mname, fqdn("ns.home.local"));
            assert_eq!(soa.rname, fqdn("hostmaster.home.local"));
            assert_eq!(soa.serial, 0);
            assert_eq!((soa.refresh, soa.retry, soa.expire), (400, 400, 4000));
            assert_eq!(soa.minimum, 60);
        }
        other => panic!("unexpected data {:?}", other),
    }
}

#[test]
fn reverse_lookups() {
    let mut records = RecordSet::new();
    records.insert(Record::new(fqdn("www.home.local"), RData::A(ipv4("10.1.2.3"))));
    records.insert(Record::new(fqdn("six.home.local"), RData::Aaaa(ipv6("2001:db8::1"))));
    let server = LockedServerState { records, zones: empty_zones() };
    let state = perform(&server, "3.2.1.10.IN-ADDR.arpa.", RecordType::Ptr, false, no_reply);
    assert_eq!(state.response_code, ResponseCode::NoError);
    assert_record(&state.answers()[0], "3.2.1.10.in-addr.arpa.", RecordType::Ptr, "www.home.local.");
    let name = Fqdn::reverse(&IpAddr::V6(ipv6("2001:db8::1"))).text();
    assert_eq!(
        name,
        "1.0.0.0.0.0.0.0.0.0.0.0.0.0.0.0.0.0.0.0.0.0.0.0.8.b.d.0.1.0.0.2.ip6.arpa."
    );
    let state = perform(&server, &name, RecordType::Ptr, false, no_reply);
    assert_record(&state.answers()[0], &name, RecordType::Ptr, "six.home.local.");
}

#[test]
fn circles_do_not_end() {
    let mut records = RecordSet::new();
    records.insert(Record::new(fqdn("a.local"), RData::Cname(fqdn("b.local"))));
    records.insert(Record::new(fqdn("b.local"), RData::Cname(fqdn("a.local"))));
    records.insert(Record::new(fqdn("c.local"), RData::Aname(fqdn("a.local"))));
    let server = LockedServerState { records, zones: empty_zones() };
    let state = perform(&server, "a.local", RecordType::A, false, no_reply);
    assert_eq!(state.answers().len(), 2);
    assert!(!state.resolves(&fqdn("a.local")));
    assert!(state.resolves(&fqdn("other.local")));
    let mut resolver = Resolver::new(Query::query(fqdn("c.local"), RecordType::A), false);
    assert!(resolver.advance(&server).is_none());
    assert!(!resolver.can_finish());
}

#[test]
fn hosts_of_urls() {
    let mut records = RecordSet::new();
    records.insert(Record::new(fqdn("web.local"), RData::Cname(fqdn("host.local"))));
    records.insert(Record::new(fqdn("host.local"), RData::A(ipv4("10.0.0.9"))));
    records.insert(Record::new(fqdn("host.local"), RData::Aaaa(ipv6("fe80::9"))));
    let server = LockedServerState { records, zones: empty_zones() };
    let (name, mut v4, mut v6) = http_queries("web.local").unwrap();
    assert!(v4.advance(&server).is_none());
    assert!(v6.advance(&server).is_none());
    v4.finish(&server);
    v6.finish(&server);
    assert!(v4.state.resolves(&name) && v6.state.resolves(&name));
    let found = http_addresses(&name, &v4.state, &v6.state);
    assert_eq!(found.len(), 2);
    assert_eq!(found[0].ip, IpAddr::V4(ipv4("10.0.0.9")));
    assert_eq!(found[1].ip, IpAddr::V6(ipv6("fe80::9")));
    assert_eq!(found[0].port, 0);
    assert!(http_queries("not a name").is_err());
}

#[test]
fn lifetimes_matter_to_authorities_only() {
    let zones = Zones::new(
        DefaultZoneConfig { upstream: None, ttl: Some(4_000_000_000) },
        vec![(
            fqdn("home.local"),
            PartialZoneConfig {
                config: DefaultZoneConfig { upstream: None, ttl: None },
                authoritative: None,
            },
        )],
    );
    let address = RData::A(Ipv4Addr::new(10, 0, 0, 1));
    let records = RecordSet::from_records(&vec![
        Record::new(fqdn("www.example.com"), address.clone()),
        Record::new(fqdn("www.home.local"), address),
        Record::new(fqdn("alias.home.local"), RData::Aname(fqdn("www.example.com"))),
    ]);
    let server = LockedServerState { records, zones };
    let fits = |name: &str, query_class: DnsClass, query_type: RecordType| {
        let query = Query { name: fqdn(name), query_class, query_type };
        let mut resolver = Resolver::new(query, true);
        let checked = server.check_soa(&resolver.state);
        assert_eq!(resolver.try_advance(&server).is_some(), checked);
        checked
    };
    assert!(!fits("www.home.local", DnsClass::In, RecordType::A));
    assert!(fits("www.home.local", DnsClass::In, RecordType::Aaaa));
    assert!(fits("www.home.local", DnsClass::In, RecordType::Ptr));
    assert!(fits("www.home.local", DnsClass::Other(3), RecordType::A));
    assert!(fits("other.home.local", DnsClass::In, RecordType::A));
    assert!(fits("alias.home.local", DnsClass::In, RecordType::A));
    assert!(!fits("alias.home.local", DnsClass::In, RecordType::Aname));
    let query = Query::query(fqdn("www.example.com"), RecordType::A);
    let mut resolver = Resolver::new(query, true);
    assert!(resolver.advance(&server).is_none());
    assert_eq!(resolver.state.answers.len(), 1);
    assert_eq!(resolver.state.answers[0].ttl, 4_000_000_000);
    assert!(resolver.state.soa.is_none());
}
