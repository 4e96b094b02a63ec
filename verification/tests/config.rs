use localns::api::ApiConfig;
use localns::config::env::{config_file, map_env, mappable};
use localns::config::host::{deserialize_fqdn, Address, Host};
use localns::config::settings::{Config, ConfigFile, ReadError, ZoneSettings};
use localns::config::stream::ConfigStream;
use localns::config::zones::{DefaultZoneConfig, PartialZoneConfig, Upstream, ZoneConfig, Zones};
use localns::dns::rr;
use localns::dns::rr::RecordType;
use localns::ip::SocketAddr;
use localns::name::Fqdn;
use localns::record::{rdata, Record};
use localns::server::state::{update_config, ServerConfig};
use localns::sources::docker::DockerConfig;
use localns::sources::install::SourcesConfig;
use localns::util;

fn fqdn(name: &str) -> Fqdn {
    Fqdn::from_text(name).unwrap()
}

fn upstream(address: &str) -> Option<Upstream> {
    Some(Upstream { config: util::Address::from_text(address).unwrap() })
}

fn zone(address: Option<Upstream>, ttl: Option<u32>) -> PartialZoneConfig {
    PartialZoneConfig {
        config: DefaultZoneConfig { upstream: address, ttl },
        authoritative: None,
    }
}

fn no_sources() -> SourcesConfig {
    SourcesConfig {
        docker: Vec::new(),
        traefik: Vec::new(),
        dhcp: Vec::new(),
        file: Vec::new(),
        remote: Vec::new(),
    }
}

#[test]
fn parse_config() {
    let zones = Zones::new(
        DefaultZoneConfig { upstream: upstream("10.10.14.250"), ttl: None },
        vec![
            (fqdn("home.local"), zone(None, None)),
            (fqdn("other.local"), zone(upstream("10.10.15.250:5353"), None)),
        ],
    );

    let zone_config = zones.zone_config(&fqdn("nowhere.local"));
    assert!(!zone_config.authoritative);
    assert_eq!(zone_config.upstreams.len(), 1);
    assert_eq!(zone_config.upstreams[0].config.address(53), "10.10.14.250:53");

    let zone_config = zones.zone_config(&fqdn("www.other.local"));
    assert!(zone_config.authoritative);
    assert_eq!(zone_config.upstreams.len(), 2);
    assert_eq!(zone_config.upstreams[0].config.address(53), "10.10.15.250:5353");
    assert_eq!(zone_config.upstreams[1].config.address(5324), "10.10.14.250:5324");

    let mut sources = no_sources();
    sources.docker.push(("local".to_owned(), DockerConfig::Local));
    assert_eq!(sources.docker.len(), 1);
    let (name, docker_config) = sources.docker.first().unwrap();
    assert_eq!(name, "local");
    assert!(matches!(docker_config, DockerConfig::Local));
}

#[test]
fn zones_inherit() {
    let zones = Zones::new(
        DefaultZoneConfig { upstream: upstream("1.1.1.1"), ttl: None },
        vec![
            (fqdn("somewhere.mossop.dev"), zone(None, Some(3600))),
            (fqdn("somewhere.com"), zone(None, Some(400))),
            (fqdn("mossop.dev"), zone(upstream("2.2.2.2"), Some(300))),
        ],
    );
    let config = zones.zone_config(&fqdn("www.somewhere.mossop.dev"));
    assert_eq!(config.ttl, 3600);
    assert_eq!(config.upstreams, vec![upstream("2.2.2.2").unwrap(), upstream("1.1.1.1").unwrap()]);
    assert_eq!(config.origin.unwrap(), fqdn("somewhere.mossop.dev"));
    let config = zones.zone_config(&fqdn("somewhere.com"));
    assert_eq!(config.ttl, 400);
    assert_eq!(config.upstreams, vec![upstream("1.1.1.1").unwrap()]);
    assert!(zones.check_soa(&fqdn("somewhere.com")));
    let config = zones.zone_config(&fqdn("example.com"));
    assert_eq!(config.ttl, 300);
    assert!(config.origin.is_none());
    assert!(config.soa().is_none());
}

#[test]
fn authorities() {
    let soa = ZoneConfig {
        origin: Some(fqdn("home.local")),
        upstreams: Vec::new(),
        ttl: 214_748_364,
        authoritative: true,
    }
    .soa()
    .unwrap();
    match soa.data.unwrap() {
        rr::RData::Soa(soa) => assert_eq!(soa.expire, 2_147_483_640),
        other => panic!("unexpected data {:?}", other),
    }
    let mut labels = vec![vec![97u8; 63]; 3];
    labels.push(vec![97u8; 51]);
    let config = ZoneConfig {
        origin: Fqdn::from_labels(labels.clone()),
        upstreams: Vec::new(),
        ttl: 300,
        authoritative: true,
    };
    assert!(config.soa().is_some());
    labels[3].push(97);
    let config = ZoneConfig { origin: Fqdn::from_labels(labels), ..config };
    assert!(config.soa().is_none());
    let large = Zones::new(
        DefaultZoneConfig { upstream: None, ttl: Some(214_748_365) },
        vec![(fqdn("home.local"), zone(None, None)), (fqdn("short.local"), zone(None, Some(60)))],
    );
    assert!(!large.check_soa(&fqdn("www.home.local")));
    assert!(large.check_soa(&fqdn("www.short.local")));
    assert!(large.check_soa(&fqdn("example.com")));
    assert_eq!(ZoneConfig::default().ttl, 300);
}

#[test]
fn server_addresses() {
    assert_eq!(util::Address::from_text("10.0.0.1").unwrap().text(), "10.0.0.1");
    let six = util::Address::from_text("[::1]:58").unwrap();
    assert_eq!(six.port, Some(58));
    assert_eq!(six.to_socket_address(53).port, 58);
    assert_eq!(six.text(), "::1:58");
    assert!(util::Address::from_text("localhost").is_none());
}

#[test]
fn hosts_by_name() {
    let named = Address::from_text("docker.local:2376");
    assert_eq!(named.host.text(), "docker.local");
    assert_eq!(named.port, Some(2376));
    assert_eq!(named.address(1), "docker.local:2376");
    assert!(named.to_socket_address(53).is_none());
    assert_eq!(Address::from_host(named.host).address(2375), "docker.local:2375");
    let odd = Address::from_text("docker:local");
    assert_eq!(odd.host.text(), "docker:local");
    assert_eq!(odd.address(7), "docker:local:7");
    assert_eq!(Address::from_text("host:+80").port, Some(80));
    let plain = Address::from_text("10.0.0.1");
    assert_eq!(plain.text(), "10.0.0.1");
    assert_eq!(plain.to_socket_address(53), SocketAddr::from_text("10.0.0.1:53"));
    assert_eq!(Address::from_text("::1").port, None);
    assert!(Address::from_text("::1").to_socket_address(53).is_none());
    assert!(Host::from_text("not valid").try_rdata().is_none());
    match Host::from_text("www.local").try_rdata().unwrap() {
        rr::RData::Cname(name) => assert_eq!(name, fqdn("www.local")),
        other => panic!("unexpected data {:?}", other),
    }
    assert_eq!(Host::from_name(&fqdn("www.local.")).text(), "www.local");
    assert_eq!(deserialize_fqdn("www.local").unwrap(), fqdn("www.local."));
    assert_eq!(deserialize_fqdn("www.local.").unwrap(), fqdn("www.local."));
    let message = deserialize_fqdn("no_good_.local").unwrap_err().message;
    assert!(message.starts_with("Label contains invalid characters"));
    assert_eq!(deserialize_fqdn("a..b").unwrap_err().message, "Malformed label: ");
}

#[test]
fn environment_keys() {
    assert_eq!(map_env("PID_FILE"), "pidFile");
    assert_eq!(map_env("server"), "server");
    assert_eq!(map_env("A_b_CDE"), "aBCde");
    assert!(mappable("PID_FILE"));
    assert!(!mappable("PID__FILE"));
    assert!(!mappable("A_\u{e9}"));
    assert_eq!(map_env("\u{c9}T\u{c9}"), "\u{e9}t\u{e9}");
}

#[test]
fn configuration_files() {
    assert_eq!(config_file(Some("a.yaml"), Some("b.yaml".to_owned())), "a.yaml");
    assert_eq!(config_file(None, Some("b.yaml".to_owned())), "b.yaml");
    assert_eq!(config_file(None, None), "config.yaml");
}

#[test]
fn restarts() {
    let server = ServerConfig { port: Some(5353) };
    let api = Some(ApiConfig { address: SocketAddr::from_text("0.0.0.0:80").unwrap() });
    assert_eq!(server.listen_port(), 5353);
    assert_eq!(ServerConfig::default().listen_port(), 53);
    let same = update_config(&server, &server, &api, &api);
    assert!(!same.dns_server && !same.api_server);
    let changed = update_config(&server, &ServerConfig::default(), &api, &None);
    assert!(changed.dns_server && changed.api_server);
}

fn record(name: &str, data: &str) -> Record {
    Record::new(fqdn(name), rdata(data))
}

#[test]
fn zones_of_records() {
    let settings = |upstream: Option<&str>, authoratative: bool| ZoneSettings {
        upstream: upstream.map(Address::from_text),
        authoratative,
    };
    let config = Config::from_file(
        "config.yaml",
        Ok(ConfigFile {
            upstream: Some(Address::from_text("10.0.0.1")),
            server: ServerConfig::default(),
            sources: no_sources(),
            zones: vec![
                ("home.local".to_owned(), settings(Some("10.0.0.2"), false)),
                ("own.local".to_owned(), settings(Some("10.0.0.2"), true)),
            ],
        }),
    )
    .unwrap();
    let records = vec![
        record("www.home.local", "10.1.0.1"),
        record("ftp.home.local", "www.home.local"),
        record("www.other.local", "10.1.0.2"),
    ];
    let zones = config.try_zones(&records).unwrap();
    assert_eq!(zones.len(), 3);
    assert_eq!(*zones[0].origin(), fqdn("home.local"));
    assert_eq!(zones[0].sets().len(), 3);
    assert_eq!(zones[0].serial(), 4);
    assert_eq!(zones[0].sets()[0][0].record_type, RecordType::Soa);
    assert_eq!(zones[0].sets()[2][0].record_type, RecordType::Cname);
    let upstream = zones[0].upstream().as_ref().unwrap();
    assert_eq!(upstream.config.text(), "10.0.0.2");
    assert_eq!(upstream.name, "home.local.");
    assert_eq!(upstream.lookup(), SocketAddr::from_text("10.0.0.2:53"));
    assert!(zones[1].upstream().is_none());
    assert_eq!(*zones[2].origin(), fqdn("other.local"));
    assert_eq!(zones[2].upstream().as_ref().unwrap().config.text(), "10.0.0.1");
    assert!(config.try_zones(&vec![record(".", "10.0.0.1")]).is_none());
    assert_eq!(config.server_config().port, None);
    assert!(config.docker_sources().is_empty());
    assert_eq!(config.upstream().as_ref().unwrap().text(), "10.0.0.1");

    let bad = Config::from_file(
        "config.yaml",
        Ok(ConfigFile {
            upstream: None,
            server: ServerConfig::default(),
            sources: no_sources(),
            zones: vec![("not valid".to_owned(), settings(None, false))],
        }),
    )
    .unwrap();
    assert!(bad.try_zones(&Vec::new()).is_none());
    let empty = Config::default("config.yaml");
    assert!(empty.try_zones(&Vec::new()).unwrap().is_empty());
    assert_eq!(empty.config_file, "config.yaml");
    assert!(empty.docker_sources().is_empty() && empty.traefik_sources().is_empty());
    assert!(empty.dhcp_sources().is_empty() && empty.file_sources().is_empty());
}

fn read(port: Option<u16>, zones: &[&str]) -> Result<Config, String> {
    let zones = zones
        .iter()
        .map(|name| {
            (name.to_string(), ZoneSettings { upstream: None, authoratative: true })
        })
        .collect();
    let file = ConfigFile {
        upstream: None,
        server: ServerConfig { port },
        sources: no_sources(),
        zones,
    };
    Config::from_file("/etc/localns/config.yaml", Ok(file))
}

#[test]
fn configurations_are_read_again() {
    let failed = |e: ReadError| Config::from_file("/etc/localns/config.yaml", Err(e));
    let message = failed(ReadError::Open("No such file".to_owned())).unwrap_err();
    assert_eq!(message, "Failed to open file at /etc/localns/config.yaml: No such file");
    let message = failed(ReadError::Parse("bad".to_owned())).unwrap_err();
    assert_eq!(message, "Failed to parse configuration: bad");

    let first = failed(ReadError::Parse("bad".to_owned()));
    let mut stream = ConfigStream::new("/etc/localns/config.yaml", first);
    assert_eq!(stream.config().config_file, "/etc/localns/config.yaml");
    assert_eq!(stream.config().server_config().port, None);
    assert!(!stream.update(failed(ReadError::Parse("bad".to_owned()))));
    assert!(stream.update(failed(ReadError::Parse("worse".to_owned()))));
    assert!(stream.update(read(Some(5353), &["a", "b"])));
    assert_eq!(stream.config().server_config().port, Some(5353));
    assert!(!stream.update(read(Some(5353), &["b", "a"])));
    assert!(stream.update(read(Some(5353), &["b", "c"])));
    assert!(stream.update(read(None, &["b", "c"])));
    assert!(stream.update(failed(ReadError::Open("gone".to_owned()))));
    assert_eq!(stream.config().server_config().port, None);
    assert!(stream.config().try_zones(&Vec::new()).unwrap().is_empty());
}

#[test]
fn paths_of_configurations() {
    let config = read(None, &[]).unwrap();
    assert_eq!(config.path("zone.yaml"), "/etc/localns/zone.yaml");
    assert_eq!(config.path("zones/a.yaml"), "/etc/localns/zones/a.yaml");
    assert_eq!(config.path("/srv/zone.yaml"), "/srv/zone.yaml");
    assert_eq!(Config::default("/config.yaml").path("zone.yaml"), "/zone.yaml");
}
