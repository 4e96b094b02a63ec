use localns::config::zones::{DefaultZoneConfig, PartialZoneConfig, Upstream, Zones};
use localns::dns::context::QueryContext;
use localns::dns::query::Query;
use localns::dns::record::{RData, Record};
use localns::dns::resolver::Message;
use localns::dns::rr;
use localns::dns::rr::{DnsClass, RecordType, ResponseCode};
use localns::dns::set::RecordSet;
use localns::ip::Ipv4Addr;
use localns::name::Fqdn;
use localns::util::Address;

fn fqdn(name: &str) -> Fqdn {
    Fqdn::from_text(name).unwrap()
}

fn empty_zones() -> Zones {
    Zones::new(DefaultZoneConfig { upstream: None, ttl: None }, Vec::new())
}

fn perform(records: &RecordSet, recursion_desired: bool) -> QueryContext {
    let query = Query::query(fqdn("test.home.local."), RecordType::A);
    let mut context = QueryContext::new(records.clone(), empty_zones(), query, recursion_desired);
    assert!(context.perform_query().is_none());
    context
}

#[test]
fn server_query() {
    let mut records = RecordSet::new();
    records.insert(Record::new(
        fqdn("test.home.local."),
        RData::Cname(fqdn("other.home.local.")),
    ));

    // No recursion will not return the CNAME record.
    let context = perform(&records, false);
    assert_eq!(context.header().response_code, ResponseCode::NXDomain);
    assert!(context.answers().is_empty());
    assert!(context.additionals().is_empty());

    let context = perform(&records, true);
    assert_eq!(context.header().response_code, ResponseCode::NoError);
    let answers = context.answers();
    assert_eq!(answers.len(), 1);
    assert!(context.additionals().is_empty());
    assert_eq!(answers[0].name, fqdn("test.home.local."));
    assert_eq!(answers[0].class, DnsClass::In);
    assert_eq!(answers[0].record_type, RecordType::Cname);
    match answers[0].data.as_ref().unwrap() {
        rr::RData::Cname(target) => assert_eq!(*target, fqdn("other.home.local.")),
        other => panic!("unexpected data {:?}", other),
    }

    records.insert(Record::new(
        fqdn("other.home.local."),
        RData::A(Ipv4Addr::from_text("10.10.45.23").unwrap()),
    ));
    let context = perform(&records, true);
    assert_eq!(context.header().response_code, ResponseCode::NoError);
    let mut answers = context.answers().clone();
    answers.sort_by_key(|record| record.name.text());
    assert_eq!(answers.len(), 2);
    assert!(context.additionals().is_empty());
    assert_eq!(answers[1].name, fqdn("test.home.local."));
    assert_eq!(answers[1].class, DnsClass::In);
    assert_eq!(answers[1].record_type, RecordType::Cname);
    match answers[1].data.as_ref().unwrap() {
        rr::RData::Cname(target) => assert_eq!(*target, fqdn("other.home.local.")),
        other => panic!("unexpected data {:?}", other),
    }
    assert_eq!(answers[0].name, fqdn("other.home.local."));
    assert_eq!(answers[0].class, DnsClass::In);
    assert_eq!(answers[0].record_type, RecordType::A);
    match answers[0].data.as_ref().unwrap() {
        rr::RData::A(ip) => assert_eq!(*ip, Ipv4Addr::new(10, 10, 45, 23)),
        other => panic!("unexpected data {:?}", other),
    }
}

#[test]
fn named_records_exist_whatever_the_upstream_says() {
    let upstream = Upstream { config: Address::from_text("10.0.0.1").unwrap() };
    let defaults = DefaultZoneConfig { upstream: Some(upstream), ttl: None };
    let mut records = RecordSet::new();
    records.insert(Record::new(fqdn("v4.local"), RData::A(Ipv4Addr::new(10, 0, 0, 2))));
    let query = Query::query(fqdn("v4.local"), RecordType::Aaaa);
    let zones = Zones::new(defaults, Vec::new());
    let mut context = QueryContext::new(records, zones, query, true);
    let question = context.perform_query().unwrap();
    assert_eq!(question.upstream, upstream);
    assert_eq!(question.query.name, fqdn("v4.local"));
    assert_eq!(question.query.query_type, RecordType::Aaaa);
    context.reply(Message {
        response_code: ResponseCode::NXDomain,
        recursion_available: false,
        answers: Vec::new(),
        additionals: Vec::new(),
        name_servers: Vec::new(),
    });
    assert!(context.perform_query().is_none());
    assert_eq!(context.header().response_code, ResponseCode::NoError);
    assert!(!context.header().recursion_available);
    assert!(context.soa().is_none());
    assert!(context.name_servers().is_empty());
}

#[test]
fn only_names_without_answers_are_asked() {
    let upstream = Upstream { config: Address::from_text("10.0.0.1").unwrap() };
    let defaults = DefaultZoneConfig { upstream: Some(upstream), ttl: None };
    let ask = |record: Record| {
        let mut records = RecordSet::new();
        records.insert(record);
        let query = Query::query(fqdn("www.local"), RecordType::A);
        let zones = Zones::new(defaults, Vec::new());
        let mut context = QueryContext::new(records, zones, query, true);
        let question = context.perform_query();
        (question, context)
    };
    let address = RData::A(Ipv4Addr::new(10, 0, 0, 2));
    let (question, context) = ask(Record::new(fqdn("www.local"), address.clone()));
    assert!(question.is_none());
    assert_eq!(context.answers().len(), 1);

    let (question, context) =
        ask(Record::new(fqdn("www.local"), RData::Cname(fqdn("ftp.local"))));
    assert_eq!(question.unwrap().query.name, fqdn("ftp.local"));
    assert_eq!(context.answers().len(), 1);

    let (question, context) = ask(Record::new(fqdn("other.local"), address));
    assert_eq!(question.unwrap().query.name, fqdn("www.local"));
    assert!(context.answers().is_empty());
}

#[test]
fn long_lifetimes_do_not_matter_without_records() {
    let zone = PartialZoneConfig {
        config: DefaultZoneConfig { upstream: None, ttl: Some(4_000_000_000) },
        authoritative: None,
    };
    let defaults = DefaultZoneConfig { upstream: None, ttl: None };
    let zones = Zones::new(defaults, vec![(fqdn("home.local"), zone)]);
    let query = Query::query(fqdn("www.home.local"), RecordType::A);
    let mut context = QueryContext::new(RecordSet::new(), zones, query, true);
    assert!(context.try_perform_query().unwrap().is_none());
    assert_eq!(context.header().response_code, ResponseCode::NXDomain);
}

#[test]
fn nothing_of_a_query_is_left() {
    let mut records = RecordSet::new();
    let address = RData::A(Ipv4Addr::new(10, 0, 0, 2));
    records.insert(Record::new(fqdn("a.local"), RData::Cname(fqdn("b.local"))));
    records.insert(Record::new(fqdn("b.local"), address));
    let query = |name: &str| Query::query(fqdn(name), RecordType::A);
    let mut used = QueryContext::new(records.clone(), empty_zones(), query("a.local"), true);
    assert!(used.perform_query().is_none());
    assert_eq!(used.answers().len(), 2);
    for name in ["unknown.local", "b.local", "a.local"] {
        used.restart(query(name), true);
        assert!(used.try_perform_query().unwrap().is_none());
        let mut new = QueryContext::new(records.clone(), empty_zones(), query(name), true);
        assert!(new.try_perform_query().unwrap().is_none());
        assert_eq!(used.header(), new.header());
        assert_eq!(used.answers().len(), new.answers().len());
        assert!(used.additionals().is_empty() && used.name_servers().is_empty());
        assert!(used.soa().is_none());
    }
}
