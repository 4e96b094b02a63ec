use localns::api;
use localns::api::ApiRecords;
use localns::backoff;
use localns::dns::record::{RData, Record};
use localns::dns::set::RecordSet;
use localns::dns::store::{RecordStore, RecordStoreData, RemoteServerRecords};
use localns::ip::{IpAddr, Ipv4Addr, Ipv6Addr};
use localns::name::Fqdn;
use localns::run_loop::{Backoff, LoopResult};
use localns::sources::dhcp;
use localns::sources::dhcp::DhcpConfig;
use localns::sources::docker;
use localns::sources::docker::{
    ContainerSummary, DockerAction, DockerConfig, DockerEvent, DockerTls, EndpointSettings,
    NetworkSummary,
};
use localns::sources::file::{check_file, parse_file, RDataItem};
use localns::sources::id::{SourceId, SourceType};
use localns::sources::install::{install_sources, SourcesConfig};
use localns::sources::remote;
use localns::sources::remote::RemoteConfig;
use localns::sources::traefik;
use localns::sources::traefik::{
    ApiRouter, RuleError, TraefikAction, TraefikConfig, TraefikEvent,
};
use localns::time::Timestamp;
use localns::util::Address;

fn fqdn(name: &str) -> Fqdn {
    Fqdn::from_text(name).unwrap()
}

fn ipv4(ip: &str) -> Ipv4Addr {
    Ipv4Addr::from_text(ip).unwrap()
}

fn ipv6(ip: &str) -> Ipv6Addr {
    Ipv6Addr::from_text(ip).unwrap()
}

#[test]
fn dhcp_parse_hosts() {
    let zone = fqdn("home.local");

    let records = dhcp::parse_dnsmasq(
        &zone,
        r#"
1646820667 64:4b:c2:7a:cd:83 10.10.1.24 caldigit 01:64:4b:c2:7a:cd:83
1646820649 8c:85:c2:7a:cf:8d 10.10.1.70 laptop 01:8c:85:c2:7a:cf:8d
1646820540 08:aa:0b:47:a3:f8 10.10.1.163 moto-power 01:08:aa:0b:47:a3:f8
1646820689 08:aa:7a:70:15:f6 10.10.1.207 moto-stylus 01:08:aa:7a:70:15:f6
1646820666 f4:d4:ac:db:a5:4c 10.10.1.159 takagi 01:f4:d4:ac:db:a5:4c
bad line
1646820343 f8:0f:01:74:83:c2 10.10.1.240 nest-office *
1646820846 74:d4:8c:85:c2:7a 10.10.15.230 mandelbrot ff:56:50:4d:98:00:02:00:00:ab:11:31:cd:b5:50:8c:85:c2:7a
duid 00:01:00:01:2f:0e:bf:99:00:e2:69:3e:6c:0a
1736266946 1 2b02:c7a:7e12:5b00:1::26b7 caldigit 00:01:00:01:2f:0e:b5:f6:84:2f:57:64:43:9f
1736266909 0 2b02:c7a:7e12:5b00:1::7a36 shashlik 00:01:00:01:2f:0e:b5:f6:84:2f:57:64:43:9f
1736266908 0 2b02:c7a:7e12:5b00:1::36a3 * 00:03:00:01:92:c1:8f:99:66:8c
1736266906 74879383 2a02:c7c:8e12:5b00:1::c8da tikka 00:02:00:00:ab:11:57:4e:b6:bf:29:c2:65:a7
        "#,
    );

    assert_eq!(records.len(), 10);

    assert!(records.contains(&fqdn("mandelbrot.home.local"), &RData::A(ipv4("10.10.15.230"))));
    assert!(records.contains(&fqdn("laptop.home.local"), &RData::A(ipv4("10.10.1.70"))));
    assert!(records
        .contains_reverse(&IpAddr::V4(ipv4("10.10.1.70")), &fqdn("laptop.home.local.")));
    assert!(records
        .contains_reverse(&IpAddr::V4(ipv4("10.10.15.230")), &fqdn("mandelbrot.home.local.")));
    assert!(records.contains(
        &fqdn("shashlik.home.local"),
        &RData::Aaaa(ipv6("2b02:c7a:7e12:5b00:1::7a36"))
    ));
    assert!(records.contains(&fqdn("caldigit.home.local"), &RData::A(ipv4("10.10.1.24"))));
    assert!(records.contains(
        &fqdn("caldigit.home.local"),
        &RData::Aaaa(ipv6("2b02:c7a:7e12:5b00:1::26b7"))
    ));
    assert!(records.contains(
        &fqdn("tikka.home.local"),
        &RData::Aaaa(ipv6("2a02:c7c:8e12:5b00:1::c8da"))
    ));
    assert!(records.contains_reverse(
        &IpAddr::V6(ipv6("2b02:c7a:7e12:5b00:1::7a36")),
        &fqdn("shashlik.home.local.")
    ));
}

#[test]
fn dhcp_integration() {
    let zone = fqdn("home.local.");
    let source_id = SourceId::new(SourceType::Dhcp, "test");
    let mut record_store = RecordStore::new();

    let leases = r#"
1646820667 64:4b:c2:7a:cd:83 10.10.1.24 caldigit 01:64:4b:c2:7a:cd:83
1646820649 8c:85:c2:7a:cf:8d 10.10.1.70 laptop 01:8c:85:c2:7a:cf:8d
"#;
    record_store.add_source_records(&source_id, dhcp::parse_file(&zone, Some(leases.to_owned())));
    let records = record_store.records();
    assert_eq!(records.len(), 2);
    assert!(records.contains(&fqdn("caldigit.home.local"), &RData::A(ipv4("10.10.1.24"))));
    assert!(records.contains(&fqdn("laptop.home.local"), &RData::A(ipv4("10.10.1.70"))));
    assert!(!records.has_name(&fqdn("other.home.local")));

    let leases = r#"
1646820667 64:4b:c2:7a:cd:83 10.10.1.58 other 01:64:4b:c2:7a:cd:83
        "#;
    record_store.add_source_records(&source_id, dhcp::parse_file(&zone, Some(leases.to_owned())));
    let records = record_store.records();
    assert_eq!(records.len(), 1);
    assert!(!records.has_name(&fqdn("caldigit.home.local.")));
    assert!(!records.has_name(&fqdn("laptop.home.local.")));
    assert!(records.contains(&fqdn("other.home.local"), &RData::A(ipv4("10.10.1.58"))));

    assert!(dhcp::parse_file(&zone, None).is_empty());
}

#[test]
fn traefik_parse_hosts() {
    fn do_parse(rule: &str) -> Vec<String> {
        traefik::parse_hosts(rule)
            .expect("Should be no parse error")
            .iter()
            .map(|n| n.text())
            .collect::<Vec<String>>()
    }

    assert_eq!(do_parse("Host(`allthethings.dev`)"), vec!["allthethings.dev."]);
    assert_eq!(do_parse("Host(   `allthethings.dev`  )"), vec!["allthethings.dev."]);
    assert_eq!(do_parse("Host(   \"allthethings.dev\")"), vec!["allthethings.dev."]);
    assert_eq!(
        do_parse("Host(`allthethings.dev`,`foo.example.com`)"),
        vec!["allthethings.dev.", "foo.example.com."]
    );
    assert_eq!(
        do_parse("Host(`allthethings.dev`, `foo.example.com`)"),
        vec!["allthethings.dev.", "foo.example.com."]
    );
    assert_eq!(
        do_parse("Host(`allthethings.dev` , `foo.example.com`)"),
        vec!["allthethings.dev.", "foo.example.com."]
    );
    assert_eq!(
        do_parse("Host(`allthethings.dev`, `foo.example.com`)"),
        vec!["allthethings.dev.", "foo.example.com."]
    );
    assert_eq!(
        do_parse(
            "Host(`phpmyadmin.cloud.oxymoronical.com`,`postfixadmin.cloud.oxymoronical.com`,)"
        ),
        vec![
            "phpmyadmin.cloud.oxymoronical.com.",
            "postfixadmin.cloud.oxymoronical.com."
        ]
    );
    assert_eq!(
        do_parse("Host(`allthethings.dev`)||Host(`foo.example.com`)"),
        vec!["allthethings.dev.", "foo.example.com."]
    );
    assert_eq!(
        do_parse("Host(`allthethings.dev`) ||Host(`foo.example.com`)"),
        vec!["allthethings.dev.", "foo.example.com."]
    );
    assert_eq!(
        do_parse("Host(`allthethings.dev`)|| Host(`foo.example.com`)"),
        vec!["allthethings.dev.", "foo.example.com."]
    );
    assert_eq!(
        do_parse("Host(`allthethings.dev`) || Host(`foo.example.com`)"),
        vec!["allthethings.dev.", "foo.example.com."]
    );
}

#[test]
fn rules_that_cannot_be_read() {
    let error = |rule: &str| traefik::parse_hosts(rule).unwrap_err();
    assert_eq!(error("Host(x)"), RuleError::ExpectedString('x'));
    assert_eq!(error("Host(`a` b)"), RuleError::ExpectedComma('b'));
    assert_eq!(error("Host(\"a\\b\")"), RuleError::ControlCharacter('b'));
    assert_eq!(error("Host(`a)"), RuleError::UnexpectedEnd);
    assert_eq!(error("Host(`a`) || Host(x)"), RuleError::ExpectedString('x'));
    assert!(traefik::parse_hosts("Path(`/x`)").unwrap().is_empty());
    assert!(traefik::parse_hosts("Host()").unwrap().is_empty());
    assert!(traefik::parse_hosts("Host(`not valid`)").unwrap().is_empty());
}

fn router(rule: &str) -> ApiRouter {
    ApiRouter { name: "router".to_owned(), rule: rule.to_owned() }
}

#[test]
fn traefik_integration() {
    let routers = vec![
        router("Host(`test.example.org`)"),
        router("Host(`localhost`) || PathPrefix(`/`)"),
        router("Host(oops)"),
    ];
    let config = TraefikConfig {
        url: "http://localhost:8080/api/".to_owned(),
        address: None,
        interval_ms: Some(100),
    };
    let records = traefik::generate_records(&config, &routers);
    assert_eq!(records.len(), 1);
    assert!(records.contains(&fqdn("test.example.org"), &RData::Cname(fqdn("localhost"))));

    let config = TraefikConfig {
        url: "http://localhost:8080/api/".to_owned(),
        address: Some(RData::A(ipv4("10.10.15.23"))),
        interval_ms: Some(100),
    };
    let records = traefik::generate_records(&config, &routers);
    assert_eq!(records.len(), 2);
    assert!(records.contains(&fqdn("test.example.org"), &RData::A(ipv4("10.10.15.23"))));
    assert!(records.contains(&fqdn("localhost"), &RData::A(ipv4("10.10.15.23"))));
}

#[test]
fn traefik_rounds() {
    let config = TraefikConfig {
        url: "http://10.0.0.1/api/".to_owned(),
        address: None,
        interval_ms: Some(100),
    };
    let mut backoff = backoff::Backoff::default();
    let mut next = |event: TraefikEvent| traefik::traefik_loop(&config, &mut backoff, event, 1200);
    assert!(matches!(next(TraefikEvent::Version(Ok(()))), TraefikAction::AskRouters));
    match next(TraefikEvent::Routers(Ok(vec![router("Host(`a.local`)")]))) {
        TraefikAction::Publish(records, wait) => {
            assert_eq!(wait, 100);
            assert!(records.contains(&fqdn("a.local"), &RData::A(ipv4("10.0.0.1"))));
        }
        other => panic!("unexpected action {:?}", other),
    }
    let failed = TraefikEvent::Version(Err(LoopResult::Backoff));
    assert!(matches!(next(failed), TraefikAction::Retry(1000)));
    let failed = TraefikEvent::Routers(Err(LoopResult::Backoff));
    assert!(matches!(next(failed), TraefikAction::Retry(1200)));
    assert!(matches!(next(TraefikEvent::Routers(Err(LoopResult::Quit))), TraefikAction::Stop));
}

#[test]
fn traefik_urls() {
    let config = TraefikConfig {
        url: "http://10.3.4.5".to_owned(),
        address: None,
        interval_ms: None,
    };
    let records = traefik::generate_records(&config, &vec![router("Host(`a.local`)")]);
    assert!(records.contains(&fqdn("a.local"), &RData::A(ipv4("10.3.4.5"))));
    assert_eq!(config.interval(), 15000);
    assert_eq!(
        traefik::api_url("http://localhost/api/", "http/routers").unwrap(),
        "http://localhost/api/http/routers"
    );
    assert_eq!(traefik::api_url("mailto:someone", "version").unwrap_err(), LoopResult::Quit);
    assert_eq!(localns::url::deserialize_url("HTTP://Host").unwrap(), "http://host/");
    assert_eq!(
        localns::url::deserialize_url("not a url").unwrap_err().message,
        "relative URL without a base"
    );
    assert_eq!(
        localns::url::deserialize_url("http://host:99999").unwrap_err().message,
        "invalid port number"
    );
    let no_host = TraefikConfig { url: "data:text".to_owned(), ..config };
    assert!(traefik::generate_records(&no_host, &vec![router("Host(`a.local`)")]).is_empty());
}

fn labels(pairs: &[(&str, &str)]) -> Option<Vec<(String, String)>> {
    Some(pairs.iter().map(|(k, v)| (k.to_string(), v.to_string())).collect())
}

fn network(id: &str, name: &str, driver: &str, exposed: bool) -> NetworkSummary {
    NetworkSummary {
        id: Some(id.to_owned()),
        name: Some(name.to_owned()),
        driver: Some(driver.to_owned()),
        labels: if exposed { labels(&[("localns.exposed", "true")]) } else { None },
    }
}

fn endpoint(network_id: &str, ip: &str) -> EndpointSettings {
    EndpointSettings {
        network_id: Some(network_id.to_owned()),
        ip_address: Some(ip.to_owned()),
        global_ipv6_address: Some(String::new()),
    }
}

fn container(
    id: &str,
    tags: &[(&str, &str)],
    networks: Vec<EndpointSettings>,
) -> ContainerSummary {
    ContainerSummary {
        id: Some(id.to_owned()),
        image: None,
        names: None,
        networks: Some(networks),
        labels: labels(tags),
    }
}

#[test]
fn docker_integration() {
    let networks = vec![network("n1", "bridge", "bridge", true)];
    let tags = [("localns.hostname", "test1.home.local")];
    let containers = vec![container("c1", &tags, vec![endpoint("n1", "172.17.0.2")])];
    let state = docker::fetch_state(&networks, &containers);
    let records = docker::generate_records(&state);
    assert_eq!(records.len(), 1);
    assert!(records.contains(&fqdn("test1.home.local"), &RData::A(ipv4("172.17.0.2"))));

    let state = docker::fetch_state(&networks, &Vec::new());
    assert!(docker::generate_records(&state).is_empty());
}

#[test]
fn docker_networks() {
    let networks = vec![
        network("n1", "inner", "bridge", false),
        network("n2", "lan", "macvlan", false),
        network("n3", "shown", "bridge", true),
        NetworkSummary { id: None, name: None, driver: None, labels: None },
    ];
    let name = ("localns.hostname", "c.local");
    let generate = |tags: &[(&str, &str)], ends: Vec<EndpointSettings>| {
        let containers = vec![container("c", tags, ends)];
        docker::generate_records(&docker::fetch_state(&networks, &containers))
    };
    let set = generate(&[name], vec![endpoint("n1", "10.0.0.1"), endpoint("n2", "10.0.0.2")]);
    assert_eq!(set.len(), 1);
    assert!(set.contains(&fqdn("c.local"), &RData::A(ipv4("10.0.0.2"))));
    assert!(generate(&[name], vec![endpoint("n1", "10.0.0.1")]).is_empty());
    let both = vec![endpoint("n2", "10.0.0.2"), endpoint("n3", "10.0.0.3")];
    assert!(generate(&[name], both).is_empty());
    let tags = [name, ("localns.network", "inner")];
    let set = generate(&tags, vec![endpoint("n1", "10.0.0.1"), endpoint("n2", "10.0.0.2")]);
    assert!(set.contains(&fqdn("c.local"), &RData::A(ipv4("10.0.0.1"))));
    assert_eq!(set.len(), 1);
    assert!(generate(&[], vec![endpoint("n2", "10.0.0.2")]).is_empty());
    assert!(generate(&[("localns.hostname", "not valid")], vec![endpoint("n2", "10.0.0.2")])
        .is_empty());
    assert!(generate(&[name], vec![endpoint("n9", "10.0.0.2")]).is_empty());
}

#[test]
fn docker_rounds() {
    let failed = docker::docker_loop(DockerEvent::ConnectFailed);
    assert!(matches!(failed, DockerAction::Finish(LoopResult::Backoff)));
    assert!(matches!(docker::docker_loop(DockerEvent::Connected), DockerAction::Fetch));
    let event = |typ: &str| docker::docker_loop(DockerEvent::Event(Some(typ.to_owned())));
    assert!(matches!(event("container"), DockerAction::Fetch));
    assert!(matches!(event("network"), DockerAction::Wait));
    assert!(matches!(docker::docker_loop(DockerEvent::Event(None)), DockerAction::Wait));
    assert!(docker::useful_event(&Some("container".to_owned())));
    let ended = docker::docker_loop(DockerEvent::EventsEnded);
    assert!(matches!(ended, DockerAction::Finish(LoopResult::Sleep)));
    let state = docker::fetch_state(&Vec::new(), &Vec::new());
    assert!(matches!(docker::docker_loop(DockerEvent::Fetched(state)), DockerAction::Publish(_)));
    let http = DockerConfig::Address("http://docker".to_owned());
    assert!(matches!(docker::connection(&http), docker::Connection::Http(_)));
    let socket = DockerConfig::Address("/var/run/docker.sock".to_owned());
    assert!(matches!(docker::connection(&socket), docker::Connection::Socket(_)));
    let tls = DockerConfig::Tls(DockerTls {
        address: Address::from_text("10.10.2.3").unwrap(),
        private_key: "key.pem".to_owned(),
        certificate: "cert.pem".to_owned(),
        ca: "ca.pem".to_owned(),
    });
    match docker::connection(&tls) {
        docker::Connection::Ssl(address, key, _, _) => {
            assert_eq!(address, "10.10.2.3:2376");
            assert_eq!(key, "key.pem");
        }
        other => panic!("unexpected connection {:?}", other),
    }
}

fn text(value: &str) -> RDataItem {
    RDataItem::Str(value.to_owned())
}

#[test]
fn file_integration() {
    let zone = vec![
        (fqdn("www.home.local"), vec![text("10.14.23.123"), text("1af2:cac:8e12:5b00::2")]),
        (fqdn("other.home.local"), vec![text("www.home.local")]),
    ];
    assert!(check_file(&zone));
    let records = parse_file(&zone);
    assert_eq!(records.len(), 3);
    assert!(records.contains(&fqdn("www.home.local"), &RData::A(ipv4("10.14.23.123"))));
    assert!(records
        .contains(&fqdn("www.home.local"), &RData::Aaaa(ipv6("1af2:cac:8e12:5b00::2"))));
    assert!(records.contains(&fqdn("other.home.local"), &RData::Aname(fqdn("www.home.local"))));

    let zone = vec![(fqdn("www.home.local"), vec![text("10.14.23.123")])];
    let records = parse_file(&zone);
    assert_eq!(records.len(), 1);
    assert!(!records.has_name(&fqdn("other.home.local")));
    assert!(records.contains(&fqdn("www.home.local"), &RData::A(ipv4("10.14.23.123"))));
}

#[test]
fn file_entries() {
    let own = RDataItem::RData(RData::Cname(fqdn("a.local")));
    assert!(!check_file(&vec![(fqdn("A.local"), vec![own])]));
    let zone = vec![(
        fqdn("b.local"),
        vec![text("not valid"), RDataItem::RData(RData::Cname(fqdn("a.local")))],
    )];
    assert!(check_file(&zone));
    let records = parse_file(&zone);
    assert_eq!(records.len(), 1);
    assert!(records.contains(&fqdn("b.local"), &RData::Cname(fqdn("a.local"))));
}

fn files(names: &[(&str, &str)]) -> SourcesConfig {
    SourcesConfig {
        docker: Vec::new(),
        traefik: Vec::new(),
        dhcp: Vec::new(),
        file: names.iter().map(|(k, v)| (k.to_string(), v.to_string())).collect(),
        remote: Vec::new(),
    }
}

fn zone_1() -> RecordSet {
    parse_file(&vec![
        (fqdn("home.test.local"), vec![text("10.45.23.56")]),
        (
            fqdn("www.test.local"),
            vec![RDataItem::RData(RData::Cname(fqdn("home.test.local")))],
        ),
    ])
}

fn zone_2() -> RecordSet {
    parse_file(&vec![
        (fqdn("home.other.local"), vec![text("10.45.23.57")]),
        (
            fqdn("www.other.local"),
            vec![RDataItem::RData(RData::Cname(fqdn("home.other.local")))],
        ),
        (
            fqdn("test.other.local"),
            vec![RDataItem::RData(RData::Cname(fqdn("home.test.local")))],
        ),
    ])
}

fn zone_3() -> RecordSet {
    parse_file(&vec![(
        fqdn("foo.baz.local"),
        vec![RDataItem::RData(RData::Cname(fqdn("home.other.local")))],
    )])
}

#[test]
fn mod_integration() {
    let mut record_store = RecordStore::new();
    let mut running: Vec<SourceId> = Vec::new();
    let mut install = |config: &SourcesConfig, old: Option<&SourcesConfig>| {
        let plan = install_sources(&running, config, old);
        running.retain(|id| !plan.stop.contains(id));
        record_store.prune_sources(&plan.keep);
        for id in &plan.start {
            if !running.contains(id) {
                running.push(id.clone());
            }
            let records = match id.source_name.as_str() {
                "test_file" => zone_1(),
                "other_file" => zone_2(),
                _ => zone_3(),
            };
            record_store.add_source_records(id, records);
        }
        (record_store.records().clone(), plan)
    };

    let config_1 = files(&[("test_file", "zone1.yml")]);
    let (records, _) = install(&config_1, None);
    assert_eq!(records.len(), 2);
    assert!(records.contains(&fqdn("home.test.local"), &RData::A(ipv4("10.45.23.56"))));
    assert!(records.contains(&fqdn("www.test.local"), &RData::Cname(fqdn("home.test.local"))));

    let config_2 = files(&[("test_file", "zone1.yml"), ("other_file", "zone2.yml")]);
    let (records, plan) = install(&config_2, Some(&config_1));
    assert_eq!(plan.start.len(), 1);
    assert_eq!(records.len(), 5);
    assert!(records.contains(&fqdn("home.test.local"), &RData::A(ipv4("10.45.23.56"))));
    assert!(records.contains(&fqdn("www.test.local"), &RData::Cname(fqdn("home.test.local"))));
    assert!(records.contains(&fqdn("home.other.local"), &RData::A(ipv4("10.45.23.57"))));
    assert!(records.contains(&fqdn("www.other.local"), &RData::Cname(fqdn("home.other.local"))));
    assert!(records.contains(&fqdn("test.other.local"), &RData::Cname(fqdn("home.test.local"))));

    let config_3 = files(&[("other_file", "zone2.yml"), ("new_file", "zone3.yml")]);
    let (records, plan) = install(&config_3, Some(&config_2));
    assert_eq!(plan.stop, vec![SourceId::new(SourceType::File, "test_file")]);
    assert_eq!(records.len(), 4);
    assert!(records.contains(&fqdn("home.other.local"), &RData::A(ipv4("10.45.23.57"))));
    assert!(records.contains(&fqdn("www.other.local"), &RData::Cname(fqdn("home.other.local"))));
    assert!(records.contains(&fqdn("test.other.local"), &RData::Cname(fqdn("home.test.local"))));
    assert!(records.contains(&fqdn("foo.baz.local"), &RData::Cname(fqdn("home.other.local"))));

    let (records, plan) = install(&files(&[]), Some(&config_3));
    assert_eq!(plan.stop.len(), 2);
    assert!(records.is_empty());
}

#[test]
fn sources_start_in_order() {
    let mut config = files(&[("f", "zone.yml")]);
    config.remote.push((
        "r".to_owned(),
        RemoteConfig { url: "http://a/".to_owned(), interval_ms: None },
    ));
    config.docker.push(("d".to_owned(), DockerConfig::Local));
    config.dhcp.push((
        "h".to_owned(),
        DhcpConfig { lease_file: "leases".to_owned(), zone: fqdn("local") },
    ));
    let plan = install_sources(&Vec::new(), &config, None);
    let kinds: Vec<SourceType> = plan.start.iter().map(|id| id.source_type).collect();
    assert_eq!(
        kinds,
        vec![SourceType::Dhcp, SourceType::File, SourceType::Docker, SourceType::Remote]
    );
    assert_eq!(plan.start[0].text(), "[dhcp,h]");
    assert!(install_sources(&plan.start, &config, Some(&config)).start.is_empty());
    let mut changed = files(&[("f", "other.yml")]);
    changed.docker.push(("d".to_owned(), DockerConfig::Local));
    let next = install_sources(&plan.start, &changed, Some(&config));
    assert_eq!(next.start, vec![SourceId::new(SourceType::File, "f")]);
    assert_eq!(next.stop.len(), 2);
}

fn set_of(records: &[(&str, RData)]) -> RecordSet {
    let mut set = RecordSet::new();
    for (name, rdata) in records {
        set.insert(Record::new(fqdn(name), rdata.clone()));
    }
    set
}

#[test]
fn remote_integration() {
    let at = |secs: i64| Timestamp { secs, nanos: 0 };
    let source_1 = SourceId::new(SourceType::Dhcp, "test1");
    let source_2 = SourceId::new(SourceType::File, "test2");
    let tell = |local: RecordSet, remote: Vec<(u128, RemoteServerRecords)>| {
        Ok(ApiRecords {
            server_version: "2.0.0".to_owned(),
            server_id: 1,
            store: RecordStoreData { local: vec![(source_1.clone(), local)], remote },
        })
    };
    let config =
        RemoteConfig { url: "http://localhost/".to_owned(), interval_ms: Some(100) };
    let source_id = SourceId::new(SourceType::Remote, "test");
    let mut store = RecordStore::new();

    let known = RemoteServerRecords {
        timestamp: at(1000),
        expiry: at(1010),
        records: vec![(
            source_2.clone(),
            set_of(&[
                ("www.test.local", RData::A(ipv4("10.4.2.4"))),
                ("lost.test.local", RData::A(ipv4("10.4.20.4"))),
            ]),
        )],
    };
    let outcome = tell(set_of(&[("www.test.local", RData::A(ipv4("10.5.23.43")))]), vec![(2, known)]);
    let result = remote::fetch_records_at(&source_id, &config, outcome, &mut store, at(1000), at(1000));
    assert_eq!(result, Some(LoopResult::Sleep));
    let records = store.records();
    assert_eq!(records.len(), 3);
    assert!(records.contains(&fqdn("www.test.local"), &RData::A(ipv4("10.5.23.43"))));
    assert!(records.contains(&fqdn("www.test.local"), &RData::A(ipv4("10.4.2.4"))));
    assert!(records.contains(&fqdn("lost.test.local"), &RData::A(ipv4("10.4.20.4"))));
    let data = store.store_data_at(at(1000));
    assert!(data.remote.iter().all(|(_, rsr)| {
        rsr.expiry == Timestamp { secs: 1000, nanos: 300_000_000 }
    }));

    let outcome = tell(
        set_of(&[
            ("www.test.local", RData::A(ipv4("10.5.23.43"))),
            ("bob.test.local", RData::Aaaa(ipv6("fe80::1"))),
        ]),
        Vec::new(),
    );
    remote::fetch_records_at(&source_id, &config, outcome, &mut store, at(1001), at(1001));
    let records = store.records();
    assert_eq!(records.len(), 2);
    assert!(records.contains(&fqdn("www.test.local"), &RData::A(ipv4("10.5.23.43"))));
    assert!(records.contains(&fqdn("bob.test.local"), &RData::Aaaa(ipv6("fe80::1"))));

    let outcome = tell(
        set_of(&[
            ("www.test.local", RData::A(ipv4("10.10.2.41"))),
            ("done.test.local", RData::A(ipv4("10.1.2.41"))),
        ]),
        Vec::new(),
    );
    remote::fetch_records_at(&source_id, &config, outcome, &mut store, at(1002), at(1002));
    let records = store.records();
    assert_eq!(records.len(), 2);
    assert!(records.contains(&fqdn("www.test.local"), &RData::A(ipv4("10.10.2.41"))));
    assert!(records.contains(&fqdn("done.test.local"), &RData::A(ipv4("10.1.2.41"))));

    let failed = remote::fetch_records_at(
        &source_id,
        &config,
        Err(LoopResult::Backoff),
        &mut store,
        at(1003),
        at(1003),
    );
    assert_eq!(failed, Some(LoopResult::Backoff));
    assert!(store.records().is_empty());

    let outcome = tell(set_of(&[("www.test.local", RData::A(ipv4("10.5.23.43")))]), Vec::new());
    let late = remote::fetch_records_at(&source_id, &config, outcome, &mut store, at(1004), at(1005));
    assert_eq!(late, Some(LoopResult::Sleep));
    assert!(store.records().is_empty());
}

#[test]
fn remote_rounds() {
    let config = RemoteConfig { url: "http://localhost/".to_owned(), interval_ms: None };
    assert_eq!(config.interval(), 15000);
    let end_of_time = Timestamp { secs: 8_210_266_876_799, nanos: 0 };
    assert_eq!(remote::max_expiry(&config, end_of_time), None);
    let start = Timestamp { secs: 5, nanos: 999_000_000 };
    assert_eq!(
        remote::max_expiry(&config, start),
        Some(Timestamp { secs: 50, nanos: 999_000_000 })
    );
    let mut backoff = Backoff::new(100);
    assert!(remote::remote_loop(&mut backoff, LoopResult::Backoff, 120));
    assert_eq!(backoff.duration(), 120);
    assert!(remote::remote_loop(&mut backoff, LoopResult::Sleep, 0));
    assert_eq!(backoff.duration(), 100);
    assert!(!remote::remote_loop(&mut backoff, LoopResult::Quit, 0));
    let mut store = RecordStore::new();
    let id = SourceId::new(SourceType::Remote, "r");
    let told = api::v2_records("2.0.0", 7, &store);
    assert_eq!(told.server_id, 7);
    assert_eq!(told.server_version, "2.0.0");
    assert_eq!(remote::fetch_records(&id, &config, Ok(told), &mut store), Some(LoopResult::Sleep));
    assert_eq!(store.store_data().remote.len(), 1);
}
