use localns::ip::{IpAddr, Ipv4Addr};
use localns::rfc1035::{AbsoluteName, Address, RecordData, RelativeName, ResourceRecord, Zone};
use localns::rfc1035::Class;

#[test]
fn absolute_names() {
    let name = AbsoluteName::new("www.example.com..");
    assert_eq!(name.non_absolute(), "www.example.com");
    assert_eq!(name.text(), "www.example.com.");
    assert_eq!(name.len(), 16);
    assert_eq!(AbsoluteName::new("").len(), 1);
    assert_eq!(RelativeName::new("www.example").len(), 11);
}

#[test]
fn splitting_and_prepending() {
    let name = AbsoluteName::new("www.example.com");
    let (first, rest) = name.split().unwrap();
    assert_eq!(first.text(), "www");
    assert_eq!(rest.text(), "example.com.");
    assert_eq!(rest.prepend(first).text(), "www.example.com.");
    assert!(AbsoluteName::new("com").split().is_none());
    let below = AbsoluteName::new("example.com").prepend(RelativeName::new("a.b"));
    assert_eq!(below.text(), "a.b.example.com.");
    assert_eq!(below.len(), 3 + 1 + 12);
}

#[test]
fn addresses_and_data() {
    assert_eq!(RecordData::from_text("10.1.2.3").write(), "A       10.1.2.3");
    assert_eq!(RecordData::from_text("FE80::1").write(), "AAAA    fe80::1");
    assert_eq!(RecordData::from_text("www.example.com").write(), "CNAME   www.example.com.");
    let server = RecordData::Ns(Address::from_text("ns.example.com."));
    assert_eq!(server.write(), "NS      ns.example.com");
    assert_eq!(server.clone().write(), "NS      ns.example.com");
    assert!(matches!(server.clone(), RecordData::Ns(Address::Name(_))));
}

#[test]
fn zone_texts() {
    let ip = IpAddr::V4(Ipv4Addr::new(10, 0, 0, 1));
    let mut zone = Zone::new(AbsoluteName::new("example.com"), &ip, None);
    zone.add_record(ResourceRecord {
        name: Some(RelativeName::new("server")),
        class: Class::In,
        ttl: 60,
        data: RecordData::from_text("10.0.0.2"),
    });
    assert_eq!(zone.write_core("/zones/x"), "example.com {\n  file example.com.zone\n}\n");
    assert_eq!(
        zone.write_zone_at(77),
        "$ORIGIN example.com.\n@ 300 SOA ns.example.com. (hostmaster.example.com. 77 300 300 300 300)\nns       300 IN   A       10.0.0.1\nserver    60 IN   A       10.0.0.2\n"
    );
    let written = zone.write_zone();
    assert!(written.starts_with("$ORIGIN example.com.\n@ 300 SOA ns.example.com. ("));
    assert!(written.ends_with("server    60 IN   A       10.0.0.2\n"));
    assert_ne!(written, zone.write_zone_at(77));
    let forwarded = Zone::new(AbsoluteName::new("a.b"), &ip, Some("  forward . 10.0.0.3\n".to_owned()));
    assert_eq!(
        forwarded.write_core("/zones/x"),
        "a.b {\n  file /zones/x {\n    fallthrough\n  }\n\n  forward . 10.0.0.3\n}\n"
    );
}
