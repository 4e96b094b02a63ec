use localns::backoff;
use localns::debounce::{Debounced, Inner, Received};
use localns::dns::handler::{
    refuse, respond, serve_failed, Edns, MessageType, OpCode, RequestInfo,
};
use localns::dns::query::{Query, QueryState};
use localns::dns::rr::{DnsClass, RData, Record, RecordType, ResponseCode, Soa};
use localns::docker;
use localns::docker::{ConnectionKind, LoopAction, LoopEvent, StreamAction, StreamEvent};
use localns::ip::Ipv4Addr;
use localns::name::Fqdn;
use localns::run_loop::{Backoff, LoopResult, RunLoop};
use localns::server::authority::SemiAuthoritativeAuthority;
use localns::server::handler::{forward, route, upstream, Forward, Route};
use localns::server::state::apply_records;
use localns::server::zone::{forwards, lookup_from_response, records_to_set, Outcome};
use localns::time::{zone_serial, Timestamp};
use localns::upstream::UpstreamResponse;
use localns::watcher::{fetch_state, FileEvent, Watcher};

fn fqdn(name: &str) -> Fqdn {
    Fqdn::from_text(name).unwrap()
}

fn request(message_type: MessageType, op_code: OpCode, version: u8) -> RequestInfo {
    RequestInfo {
        message_type,
        op_code,
        edns: Some(Edns { version, max_payload: 100, dnssec_ok: true }),
    }
}

#[test]
fn refused_requests() {
    let refused = refuse(&request(MessageType::Query, OpCode::Query, 1)).unwrap();
    assert_eq!(refused.header.response_code, ResponseCode::BadVers);
    assert_eq!(refused.edns, Some(Edns { version: 0, max_payload: 512, dnssec_ok: false }));
    let refused = refuse(&request(MessageType::Response, OpCode::Query, 0)).unwrap();
    assert_eq!(refused.header.response_code, ResponseCode::FormErr);
    let refused = refuse(&request(MessageType::Query, OpCode::Other(5), 0)).unwrap();
    assert_eq!(refused.header.response_code, ResponseCode::NotImp);
    assert!(refused.answers.is_empty());
    assert!(refuse(&request(MessageType::Query, OpCode::Query, 0)).is_none());
    assert_eq!(serve_failed().response_code, ResponseCode::ServFail);
}

fn address(name: &str, last: u8) -> Record {
    Record::from_rdata(fqdn(name), 60, RData::A(Ipv4Addr::new(10, 0, 0, last)))
}

#[test]
fn responses() {
    let info = RequestInfo {
        message_type: MessageType::Query,
        op_code: OpCode::Query,
        edns: Some(Edns { version: 0, max_payload: 4096, dnssec_ok: false }),
    };
    let mut state = QueryState::new(Query::query(fqdn("www.local"), RecordType::A), true);
    state.add_answers(vec![address("www.local", 1)]);
    let response = respond(&info, &state);
    assert_eq!(response.edns.unwrap().max_payload, 4096);
    assert_eq!(response.header.response_code, ResponseCode::NoError);
    assert!(!response.header.authoritative);
    assert_eq!(response.answers.len(), 1);
    assert!(response.soa.is_none());
}

fn reply(answers: Vec<Record>, additionals: Vec<Record>) -> UpstreamResponse {
    UpstreamResponse {
        authoritative: true,
        recursion_available: false,
        answers,
        additionals,
        name_servers: Vec::new(),
        soa: Some(Soa {
            mname: fqdn("ns.local"),
            rname: fqdn("hostmaster.local"),
            serial: 1,
            refresh: 2,
            retry: 3,
            expire: 4,
            minimum: 5,
        }),
    }
}

#[test]
fn forwarded_requests() {
    let query = RequestInfo {
        message_type: MessageType::Query,
        op_code: OpCode::Query,
        edns: None,
    };
    assert_eq!(route(&query, false), Route::Upstream);
    assert_eq!(route(&query, true), Route::Zone);
    let update = RequestInfo { op_code: OpCode::Other(5), ..query };
    assert_eq!(route(&update, false), Route::Zone);
    assert!(matches!(forward(&query, true), Forward::Ask));
    match forward(&query, false) {
        Forward::Respond(response) => {
            assert_eq!(response.header.response_code, ResponseCode::Refused)
        }
        Forward::Ask => panic!("there is no upstream to ask"),
    }
    match forward(&request(MessageType::Query, OpCode::Query, 2), true) {
        Forward::Respond(response) => {
            assert_eq!(response.header.response_code, ResponseCode::BadVers)
        }
        Forward::Ask => panic!("the version is not known"),
    }
    let name = fqdn("www.local");
    let refused = upstream(&query, &name, None);
    assert_eq!(refused.header.response_code, ResponseCode::Refused);
    let response = upstream(&query, &name, Some(reply(vec![address("www.local", 1)], Vec::new())));
    assert!(response.header.authoritative);
    assert_eq!(response.header.response_code, ResponseCode::NoError);
    let soa = response.soa.unwrap();
    assert_eq!(soa.name, name);
    assert_eq!(soa.ttl, 300);
    assert_eq!(response.answers.len(), 1);
}

#[test]
fn sets_of_replies() {
    assert!(records_to_set(Vec::new()).is_none());
    let sets = records_to_set(vec![
        address("a.local", 1),
        address("b.local", 2),
        address("A.local", 3),
        Record::from_rdata(fqdn("a.local"), 60, RData::Cname(fqdn("b.local"))),
    ])
    .unwrap();
    assert_eq!(sets.len(), 3);
    assert_eq!(sets[0].len(), 2);
    assert_eq!(sets[2][0].record_type, RecordType::Cname);
    assert!(lookup_from_response(reply(Vec::new(), vec![address("a.local", 1)])).is_none());
    let (answers, additionals) =
        lookup_from_response(reply(vec![address("a.local", 1)], Vec::new())).unwrap();
    assert_eq!(answers.len(), 1);
    assert!(additionals.is_none());
    assert!(forwards(Outcome::NxDomain));
    assert!(!forwards(Outcome::Found) && !forwards(Outcome::Failed));
}

fn soa(serial: u32) -> Record {
    let soa = Soa {
        mname: fqdn("ns.local"),
        rname: fqdn("hostmaster.local"),
        serial,
        refresh: 2,
        retry: 3,
        expire: 4,
        minimum: 5,
    };
    Record::from_rdata(fqdn("local"), 60, RData::Soa(soa))
}

#[test]
fn records_are_merged() {
    let alias = |target: &str| {
        Record::from_rdata(fqdn("a.local"), 60, RData::Cname(fqdn(target)))
    };
    let sets = records_to_set(vec![
        address("b.local", 1),
        Record { ttl: 5, ..address("B.local", 1) },
        address("b.local", 2),
        alias("x.local"),
        alias("y.local"),
        soa(7),
        soa(6),
        soa(8),
    ])
    .unwrap();
    assert_eq!(sets.len(), 3);
    assert_eq!(sets[0].len(), 2);
    assert_eq!(sets[0][0].ttl, address("b.local", 1).ttl);
    assert_eq!(sets[1].len(), 1);
    assert!(sets[1][0].data.as_ref().unwrap().same(&RData::Cname(fqdn("Y.local"))));
    assert_eq!(sets[2].len(), 1);
    assert!(sets[2][0].data.as_ref().unwrap().same(soa(8).data.as_ref().unwrap()));

    let other = |class: DnsClass| Record { class, ..address("b.local", 1) };
    let sets = records_to_set(vec![other(DnsClass::In), other(DnsClass::Other(3))]).unwrap();
    assert_eq!(sets[0].len(), 1);
    assert_eq!(sets[0][0].class, DnsClass::Other(3));
}

#[test]
fn aliases_stand_alone_in_zones() {
    let mut zone = SemiAuthoritativeAuthority::new(fqdn("home.local"));
    let alias = Record::from_rdata(fqdn("www.home.local"), 60, RData::Cname(fqdn("a.local")));
    zone.insert(alias.clone());
    zone.insert(address("www.home.local", 1));
    zone.insert(Record { class: DnsClass::Other(3), ..address("ftp.home.local", 1) });
    assert_eq!(zone.sets().len(), 2);
    assert_eq!(zone.sets()[1][0].record_type, RecordType::Cname);
    zone.insert(address("ftp.home.local", 1));
    zone.insert(Record { name: fqdn("ftp.home.local"), ..alias });
    assert_eq!(zone.sets().len(), 3);
    assert_eq!(zone.sets()[2][0].record_type, RecordType::A);
    assert_eq!(zone.serial(), 6);
}

#[test]
fn authority_serials() {
    let mut zone = SemiAuthoritativeAuthority::new(fqdn("home.local"));
    assert_eq!(zone.sets().len(), 1);
    assert_eq!(zone.serial(), 1);
    zone.insert(address("www.home.local", 1));
    assert_eq!(zone.serial(), 2);
    assert_eq!(zone.sets().len(), 2);
    assert_eq!(*zone.origin(), fqdn("home.local"));
    match zone.sets()[0][0].data.as_ref().unwrap() {
        RData::Soa(soa) => {
            assert_eq!(soa.expire, 300);
            assert_eq!(soa.minimum, 300);
            assert_eq!(soa.mname, fqdn("ns.home.local"));
        }
        other => panic!("unexpected data {:?}", other),
    }
}

#[test]
fn zones_that_go() {
    let previous = vec![fqdn("a.local"), fqdn("b.local")];
    let changes = apply_records(&previous, &vec![fqdn("B.local"), fqdn("c.local"), fqdn("b.local")]);
    assert_eq!(changes.names, vec![fqdn("b.local"), fqdn("c.local")]);
    assert_eq!(changes.removed, vec![fqdn("a.local")]);
}

#[test]
fn backoff() {
    let mut backoff = Backoff::new(200);
    let scaling = 2.5;
    let scale = |backoff: &Backoff| ((backoff.duration() as f64) * scaling).round() as u64;
    let assert_duration = |backoff: &Backoff, millis: u64| assert_eq!(backoff.duration(), millis);

    backoff.reset();
    assert_duration(&backoff, 200);
    backoff.reset();
    assert_duration(&backoff, 200);
    backoff.reset();
    assert_duration(&backoff, 200);
    backoff.backoff(scale(&backoff));
    assert_duration(&backoff, 500);
    backoff.backoff(scale(&backoff));
    assert_duration(&backoff, 1250);
    backoff.reset();
    assert_duration(&backoff, 200);
    backoff.backoff(scale(&backoff));
    assert_duration(&backoff, 500);
    backoff.backoff(scale(&backoff));
    assert_duration(&backoff, 1250);
    backoff.backoff(scale(&backoff));
    assert_duration(&backoff, 2000);
    assert_duration(&backoff, 2000);
    assert_duration(&backoff, 2000);
    backoff.reset();
    assert_duration(&backoff, 200);
    backoff.backoff(scale(&backoff));
    assert_duration(&backoff, 500);
}

#[test]
fn rounds_of_sources() {
    let mut run = RunLoop::new(5000);
    let failed = run.run(LoopResult::Backoff, 6000);
    assert!(failed.clear && failed.proceed);
    assert_eq!(run.backoff.duration(), 6000);
    let slept = run.run(LoopResult::Sleep, 0);
    assert!(!slept.clear && slept.proceed);
    assert_eq!(run.backoff.duration(), 5000);
    let quit = run.run(LoopResult::Quit, 0);
    assert!(quit.clear && !quit.proceed);
    let mut other = backoff::Backoff::default();
    assert_eq!(other.next(1200), 1000);
    assert_eq!(other.next(40000), 1200);
    assert_eq!(other.next(36000), 30000);
    other.reset();
    assert_eq!(other.next(1200), 1000);
}

#[test]
fn watcher() {
    let mut watcher = Watcher::new(fetch_state(None));
    assert_eq!(watcher.watch_loop(fetch_state(None)), None);
    assert_eq!(watcher.watch_loop(fetch_state(Some(Vec::new()))), Some(FileEvent::Create));
    let hello = Some(b"Hello".to_vec());
    assert_eq!(watcher.watch_loop(fetch_state(hello.clone())), Some(FileEvent::Change));
    assert_eq!(watcher.watch_loop(fetch_state(hello)), None);
    let other = Some(b"Other".to_vec());
    assert_eq!(watcher.watch_loop(fetch_state(other.clone())), Some(FileEvent::Change));
    assert_eq!(watcher.watch_loop(fetch_state(None)), Some(FileEvent::Delete));
    assert_eq!(watcher.watch_loop(fetch_state(other)), Some(FileEvent::Create));
    assert_eq!(watcher.watch_loop(fetch_state(None)), Some(FileEvent::Delete));
}

#[test]
fn digests() {
    let digest = fetch_state(Some(b"abc".to_vec())).unwrap();
    assert_eq!(digest.len(), 32);
    assert_eq!(digest[0..4], [0xba, 0x78, 0x16, 0xbf]);
}

#[test]
fn held_back_values() {
    let mut values: Debounced<u64> = Debounced::new(500);
    assert_eq!(values.receive(Inner::Pending), Received::Wait);
    assert_eq!(values.poll_next(true), None);
    assert_eq!(values.receive(Inner::Value(1)), Received::Restart);
    assert_eq!(values.poll_next(false), None);
    assert_eq!(values.receive(Inner::Value(2)), Received::Restart);
    assert_eq!(values.poll_next(true), Some(2));
    assert_eq!(values.receive(Inner::Value(2)), Received::Again);
    assert_eq!(values.poll_next(true), None);
    assert_eq!(values.receive(Inner::Value(3)), Received::Restart);
    assert_eq!(values.receive(Inner::Value(2)), Received::Again);
    assert_eq!(values.poll_next(true), Some(3));
    assert_eq!(values.receive(Inner::Ended), Received::Ended);
}

fn some(text: &str) -> Option<String> {
    Some(text.to_owned())
}

#[test]
fn docker_events() {
    assert!(!docker::useful_event(&some("container"), &some("exec_create: sh")));
    assert!(!docker::useful_event(&some("container"), &some("exec_start: sh")));
    assert!(!docker::useful_event(&some("container"), &some("exec_die")));
    assert!(docker::useful_event(&some("container"), &some("health_status: healthy")));
    assert!(docker::useful_event(&some("container"), &some("start")));
    assert!(docker::useful_event(&some("network"), &some("exec_die")));
    assert!(docker::useful_event(&None, &some("exec_die")));
    assert_eq!(docker::docker_loop(LoopEvent::Event(true)), LoopAction::Fetch);
    assert_eq!(docker::docker_loop(LoopEvent::Event(false)), LoopAction::Wait);
    assert_eq!(docker::docker_loop(LoopEvent::EventsEnded), LoopAction::Reconnect);
    assert_eq!(docker::docker_loop(LoopEvent::Config(true)), LoopAction::Reconnect);
    assert_eq!(docker::docker_loop(LoopEvent::Config(false)), LoopAction::Wait);
    assert_eq!(docker::docker_loop(LoopEvent::ConfigEnded), LoopAction::Fail);
    assert_eq!(docker::connect(&None), ConnectionKind::Defaults);
    let http = Some(docker::DockerConfig::Address("http://x".to_owned()));
    assert_eq!(docker::connect(&http), ConnectionKind::Http);
    let socket = Some(docker::DockerConfig::Address("/x".to_owned()));
    assert_eq!(docker::connect(&socket), ConnectionKind::Socket);
}

#[test]
fn docker_state() {
    let network = |id: &str, name: Option<String>| docker::NetworkSummary {
        id: some(id),
        name,
        containers: Some(Vec::new()),
        labels: Some(Vec::new()),
    };
    let container = docker::ContainerSummary {
        id: some("c"),
        image: some("image"),
        names: Some(vec!["/c".to_owned()]),
        networks: Some(vec!["n".to_owned()]),
        labels: None,
    };
    let state = docker::fetch_state(
        vec![network("n", some("one")), network("m", None), network("n", some("two"))],
        vec![container],
    );
    assert_eq!(state.networks.len(), 1);
    assert_eq!(state.networks[0].name, "two");
    assert!(state.containers.is_empty());
}

#[test]
fn serials_of_zones() {
    let at = |secs: i64, nanos: u32| zone_serial(Timestamp { secs, nanos });
    assert_eq!(at(946_684_800, 0), 0);
    assert_eq!(at(946_684_859, 0), 0);
    assert_eq!(at(946_684_860, 0), 1);
    assert_eq!(at(946_684_740, 0), 4_294_967_295);
    assert_eq!(at(946_684_740, 1), 0);
}

#[test]
fn names_are_taken_once() {
    let query = Query::query(fqdn("a.local"), RecordType::A);
    let mut state = QueryState::new(query, true);
    let alias = |name: &str, target: &str| {
        Record::from_rdata(fqdn(name), 60, RData::Cname(fqdn(target)))
    };
    assert_eq!(state.next_unknown(), Some(fqdn("a.local")));
    state.add_answers(vec![alias("a.local", "b.local"), alias("c.local", "d.local")]);
    state.add_answers(vec![alias("D.local", "A.local"), alias("x.local", "B.local")]);
    assert_eq!(state.next_unknown(), Some(fqdn("b.local")));
    assert_eq!(state.next_unknown(), None);
    state.add_answers(vec![alias("b.local", "c.local"), alias("b.local", "e.local")]);
    assert_eq!(state.next_unknown(), Some(fqdn("e.local")));
    assert_eq!(state.next_unknown(), None);
    assert_eq!(state.answers().len(), 6);
    assert_eq!(state.header().response_code, ResponseCode::NXDomain);
}

#[test]
fn docker_streams() {
    assert_eq!(docker::state_stream(StreamEvent::WatchEnded), StreamAction::Watch);
    assert_eq!(docker::state_stream(StreamEvent::WatchFailed), StreamAction::AwaitConfig(5000));
    assert_eq!(docker::state_stream(StreamEvent::DelayOver), StreamAction::Watch);
    assert_eq!(docker::state_stream(StreamEvent::NewConfig), StreamAction::Watch);
    assert_eq!(docker::state_stream(StreamEvent::ConfigEnded), StreamAction::GiveUp);
}
