use localns::config::host::Host;
use localns::dns::record::{RData, Record};
use localns::dns::rr;
use localns::dns::rr::{DnsClass, RecordType};
use localns::dns::set::RecordSet;
use localns::ip::{IpAddr, Ipv4Addr, Ipv6Addr, SocketAddr};
use localns::name::{Fqdn, NameError};
use localns::record;
use localns::record::{rdata, SharedRecordSet};
use localns::server::state::update_records;

fn name(text: &str) -> Fqdn {
    Fqdn::from_text(text).unwrap()
}

fn v4(a: u8, b: u8, c: u8, d: u8) -> IpAddr {
    IpAddr::V4(Ipv4Addr::new(a, b, c, d))
}

#[test]
fn fqdn() {
    assert_eq!(
        Fqdn::from_text("test.example.com.").unwrap(),
        Fqdn::from_text("test.example.com").unwrap()
    );
}

#[test]
fn names_are_the_same_in_any_case() {
    let upper = Fqdn::from_labels(vec![b"WWW".to_vec(), b"Example".to_vec()]).unwrap();
    assert_eq!(upper, name("www.example"));
    assert_eq!(upper.text(), "WWW.Example.");
    assert_eq!(name("WWW.Example").text(), "www.example.");
    assert_ne!(upper, name("www.example.com"));
    assert!(Fqdn::from_labels(vec![Vec::new()]).is_none());
    assert!(Fqdn::from_labels(vec![vec![97; 64]]).is_none());
    assert!(Fqdn::from_labels(vec![vec![97; 63]; 4]).is_none());
    assert!(Fqdn::from_labels(vec![vec![97; 63]; 3]).is_some());
}

#[test]
fn names_below_names() {
    let zone = name("home.local");
    let child = zone.child("www").unwrap();
    assert_eq!(child, name("www.home.local"));
    assert!(zone.zone_of(&child));
    assert!(!child.zone_of(&zone));
    assert!(name(".").zone_of(&zone));
    assert_eq!(zone.child("not valid").unwrap_err(), NameError::Invalid);
    let long = Fqdn::from_labels(vec![vec![97; 63]; 3]).unwrap();
    let host = "b".repeat(63);
    assert_eq!(long.child(&host).unwrap_err(), NameError::TooLong);
    assert_eq!(Fqdn::from_text("not valid").unwrap_err(), NameError::Invalid);
    assert_eq!(child.num_labels(), 3);
    assert_eq!(name("*.home.local").num_labels(), 2);
    assert_eq!(child.trim_to(2), zone);
    assert_eq!(child.trim_to(9), child);
    assert_eq!(child.ascii_text(), "www.home.local");
    assert_eq!(child.encoded_len(), 15);
}

#[test]
fn canonical_order() {
    let names = ["example", "a.example", "yljkjljk.a.example", "z.a.example", "zabc.a.example"];
    for pair in names.windows(2) {
        assert!(name(pair[0]).le(&name(pair[1])));
        assert!(!name(pair[1]).le(&name(pair[0])));
    }
    assert!(name("A.Example").le(&name("a.example")));
}

#[test]
fn reverse_names() {
    let ip = v4(10, 1, 2, 3);
    assert_eq!(Fqdn::reverse(&ip).text(), "3.2.1.10.in-addr.arpa.");
    assert_eq!(Fqdn::reverse(&ip).arpa(), Some(ip));
    assert_eq!(name("10.in-addr.arpa").arpa(), Some(v4(10, 0, 0, 0)));
    assert_eq!(name("www.example.com").arpa(), None);
}

#[test]
fn addresses_as_text() {
    assert_eq!(IpAddr::from_text("10.0.0.1"), Some(v4(10, 0, 0, 1)));
    assert_eq!(IpAddr::from_text("10.0.0.01"), None);
    assert_eq!(IpAddr::from_text("10.0.0"), None);
    let six = Ipv6Addr::from_text("2001:DB8::1").unwrap();
    assert_eq!(six.text(), "2001:db8::1");
    let socket = SocketAddr::from_text("[2001:db8::1]:53").unwrap();
    assert_eq!(socket.ip, IpAddr::V6(six));
    assert_eq!(socket.port, 53);
    assert_eq!(SocketAddr::from_text("10.0.0.1:65535").unwrap().port, 65535);
    assert!(SocketAddr::from_text("10.0.0.1:65536").is_none());
    assert!(SocketAddr::from_text("10.0.0.1").is_none());
}

#[test]
fn data_from_text() {
    match RData::from_text("10.0.0.1").unwrap() {
        RData::A(ip) => assert_eq!(ip, Ipv4Addr::new(10, 0, 0, 1)),
        other => panic!("unexpected data {:?}", other),
    }
    match RData::from_text("www.local").unwrap() {
        RData::Aname(target) => assert_eq!(target, name("www.local")),
        other => panic!("unexpected data {:?}", other),
    }
    assert_eq!(RData::from_text("not valid").unwrap_err(), NameError::Invalid);
    assert!(RData::Cname(name("a")).matches(RecordType::Aaaa));
    assert!(!RData::A(Ipv4Addr::new(1, 2, 3, 4)).matches(RecordType::Aaaa));
    assert!(RData::Aname(name("a")).matches(RecordType::A));
    assert!(!RData::Aname(name("a")).matches(RecordType::Cname));
}

#[test]
fn inserting_records() {
    let mut set = RecordSet::new();
    assert!(set.is_empty());
    let www = Record::new(name("www.local"), RData::A(Ipv4Addr::new(10, 0, 0, 1)));
    set.insert(www.clone());
    set.insert(www.clone());
    assert_eq!(set.len(), 1);
    assert!(set.has_name(&name("WWW.local")));
    assert!(!set.has_name(&name("local")));
    assert!(set.contains(&name("www.local"), &RData::A(Ipv4Addr::new(10, 0, 0, 1))));
    assert!(!set.contains(&name("www.local"), &RData::A(Ipv4Addr::new(10, 0, 0, 2))));
    assert!(set.contains_reverse(&v4(10, 0, 0, 1), &name("www.local")));
    set.insert(Record::new(name("other.local"), RData::A(Ipv4Addr::new(10, 0, 0, 1))));
    assert!(set.contains_reverse(&v4(10, 0, 0, 1), &name("other.local")));
    assert!(!set.contains_reverse(&v4(10, 0, 0, 1), &name("www.local")));

    let found = set.lookup(&name("www.local"), DnsClass::In, RecordType::A);
    assert_eq!(found.len(), 1);
    assert!(found[0].same(&www));
    assert!(set.lookup(&name("www.local"), DnsClass::Other(3), RecordType::A).is_empty());
    let reverse = Fqdn::reverse(&v4(10, 0, 0, 1));
    let found = set.lookup(&reverse, DnsClass::In, RecordType::Ptr);
    assert!(found[0].rdata().same(&RData::Ptr(name("other.local"))));
}

#[test]
fn sets_of_records() {
    let a = Record::new(name("a.local"), RData::A(Ipv4Addr::new(10, 0, 0, 1)));
    let b = Record::new(name("b.local"), RData::A(Ipv4Addr::new(10, 0, 0, 2)));
    let one = RecordSet::from_records(&vec![a.clone(), b.clone()]);
    let two = RecordSet::from_records(&vec![b.clone(), a.clone(), b.clone()]);
    assert_eq!(one, two);
    let mut three = RecordSet::from_records(&vec![a.clone()]);
    assert_ne!(one, three);
    three.append(RecordSet::from_records(&vec![b]));
    assert_eq!(one, three);
    assert_eq!(one.clone(), one);
    let mut aged = a;
    aged.ttl = Some(60);
    three.insert(aged);
    assert_eq!(three.len(), 3);
}

#[test]
fn shared_records() {
    assert!(record::try_fqdn("not valid").is_none());
    assert_eq!(record::try_fqdn("www.local").unwrap(), name("www.local"));
    assert!(record::try_rdata("not valid").is_none());
    let cname = record::Record::new(name("www.local"), record::try_rdata("host.local").unwrap());
    let address = record::Record::new(name("host.local"), record::try_rdata("10.0.0.5").unwrap());
    let mut set = SharedRecordSet::new(&vec![cname.clone()]);
    let host = Host::from_text("www.local");
    assert_eq!(set.try_resolve(&host).unwrap().text(), "host.local");
    set.add_records(&vec![address.clone(), cname.clone()]);
    assert_eq!(set.try_resolve(&host).unwrap().text(), "10.0.0.5");
    assert_eq!(set.try_resolve(&Host::from_text("::1")).unwrap().text(), "::1");
    assert!(set.try_resolve(&Host::from_text("not valid")).is_none());
    set.replace_records(&vec![address]);
    assert_eq!(set.try_resolve(&host).unwrap().text(), "www.local");
    let back = record::Record::new(name("host.local"), rr::RData::Cname(name("www.local")));
    set.replace_records(&vec![cname, back]);
    assert!(set.try_resolve(&host).is_none());
}

#[test]
fn the_same_records_change_nothing() {
    let a = localns::record::Record::new(Fqdn::from_text("a.local").unwrap(), rdata("10.0.0.1"));
    let b = localns::record::Record::new(Fqdn::from_text("b.local").unwrap(), rdata("a.local"));
    let mut current = SharedRecordSet::new(&vec![a.clone(), b.clone()]);
    let again = SharedRecordSet::new(&vec![b.clone(), a.clone(), b.clone()]);
    assert!(!update_records(&mut current, again));
    assert!(update_records(&mut current, SharedRecordSet::new(&vec![b.clone()])));
    assert!(current.same(&SharedRecordSet::new(&vec![b.clone()])));
    assert!(update_records(&mut current, SharedRecordSet::new(&vec![b, a])));
}
