//! The configuration of a server that keeps zones for the domains of its records.

use vstd::prelude::*;
use crate::config::host::{Address, AddressView};
use crate::name::{fold, host_from_text, label_count, last_labels, name_text, Fqdn};
use crate::pairs::{has_key, lemma_place_is, place, value_of};
use crate::record::{record_views, Record, RecordView};
use crate::server::state::ServerConfig;
use crate::server::zone::{new_zone, zone_fits, zone_with, Zone, ZoneView};
use crate::sources::dhcp::DhcpConfig;
use crate::sources::docker::DockerConfig;
use crate::sources::file::FileConfig;
use crate::sources::install::SourcesConfig;
use crate::sources::traefik::TraefikConfig;
use crate::text::{
    chars_of, concat, join, join_texts, split, split_on, text_of, texts, trim_end, trim_end_char,
};
use crate::upstream::{Upstream, UpstreamView};

verus! {

/// What is configured for one zone.
#[derive(Debug)]
pub struct ZoneSettings {
    pub upstream: Option<Address>,
    pub authoratative: bool,
}

/// What is configured for one zone, by the characters of its texts.
#[verifier::ext_equal]
pub struct SettingsView {
    pub upstream: Option<AddressView>,
    pub authoratative: bool,
}

/// The address that there may be.
pub open spec fn address_option(address: Option<Address>) -> Option<AddressView> {
    match address {
        Some(address) => Some(address@),
        None => None,
    }
}

impl View for ZoneSettings {
    type V = SettingsView;

    open spec fn view(&self) -> SettingsView {
        SettingsView {
            upstream: address_option(self.upstream),
            authoratative: self.authoratative,
        }
    }
}

/// What a configuration file says.
#[derive(Debug)]
pub struct ConfigFile {
    pub upstream: Option<Address>,
    pub server: ServerConfig,
    pub sources: SourcesConfig,
    pub zones: Vec<(String, ZoneSettings)>,
}

/// A configuration, with the file that it comes from.
#[derive(Debug)]
pub struct Config {
    pub config_file: String,
    pub config: ConfigFile,
}

/// Why a configuration file could not be read, in words.
#[derive(Debug)]
pub enum ReadError {
    /// It could not be opened.
    Open(String),
    /// It holds no configuration.
    Parse(String),
}

/// What is said of a configuration file that could not be read.
pub open spec fn read_error_text(config_file: Seq<char>, e: ReadError) -> Seq<char> {
    match e {
        ReadError::Open(e) => "Failed to open file at "@ + config_file + ": "@ + e@,
        ReadError::Parse(e) => "Failed to parse configuration: "@ + e@,
    }
}

/// Whether a path is that of a file from the root on, with every part of it the name of something.
pub open spec fn canonical(path: Seq<char>) -> bool {
    let parts = split_on(path, '/');
    &&& parts.len() >= 2
    &&& parts[0].len() == 0
    &&& forall|i: int|
        1 <= i < parts.len() ==> (#[trigger] parts[i]).len() > 0 && parts[i] != seq!['.']
            && parts[i] != seq!['.', '.']
}

/// The settings of zones, by their names.
pub open spec fn settings_views(zones: Seq<(String, ZoneSettings)>) -> Seq<
    (Seq<char>, SettingsView),
> {
    Seq::new(zones.len(), |i: int| (zones[i].0@, zones[i].1@))
}

/// Where a zone forwards queries to: to its own upstream, or else to the common one. A zone with
/// full authority forwards none.
pub open spec fn zone_upstream(
    zones: Seq<(Seq<char>, SettingsView)>,
    common: Option<AddressView>,
    name: Seq<char>,
) -> Option<AddressView> {
    if has_key(zones, name) {
        let settings = value_of(zones, name);
        if settings.authoratative {
            None
        } else if settings.upstream is Some {
            settings.upstream
        } else {
            common
        }
    } else {
        common
    }
}

/// A zone as it is configured, without the records of sources.
pub open spec fn configured_zone(
    zones: Seq<(Seq<char>, SettingsView)>,
    common: Option<AddressView>,
    domain: Seq<Seq<u8>>,
) -> ZoneView {
    new_zone(
        domain,
        match zone_upstream(zones, common, trim_end(name_text(domain), '.')) {
            Some(address) => Some(UpstreamView { name: name_text(domain), config: address }),
            None => None,
        },
    )
}

/// The place of the zone of a domain, or the number of zones.
pub open spec fn zone_place(zones: Seq<ZoneView>, domain: Seq<Seq<u8>>) -> int
    decreases zones.len(),
{
    if zones.len() == 0 {
        0
    } else {
        let found = zone_place(zones.drop_last(), domain);
        if found < zones.len() - 1 {
            found
        } else if fold(zones.last().origin) == fold(domain) {
            zones.len() - 1
        } else {
            zones.len() as int
        }
    }
}

/// The zones that are configured.
pub open spec fn configured_zones(
    zones: Seq<(Seq<char>, SettingsView)>,
    common: Option<AddressView>,
    part: Seq<(Seq<char>, SettingsView)>,
) -> Seq<ZoneView>
    decreases part.len(),
{
    if part.len() == 0 {
        Seq::empty()
    } else {
        let rest = configured_zones(zones, common, part.drop_last());
        let domain = host_from_text(part.last().0.push('.'))->0;
        let zone = configured_zone(zones, common, domain);
        let k = zone_place(rest, domain);
        if k < rest.len() {
            rest.update(k, zone)
        } else {
            rest.push(zone)
        }
    }
}

/// The domain of a name: what follows its first label.
pub open spec fn domain_of(name: Seq<Seq<u8>>) -> Seq<Seq<u8>> {
    last_labels(name, (label_count(name) - 1) as nat)
}

/// Zones with records added, each to the zone of its domain.
pub open spec fn zones_with(
    settings: Seq<(Seq<char>, SettingsView)>,
    common: Option<AddressView>,
    zones: Seq<ZoneView>,
    records: Seq<RecordView>,
) -> Seq<ZoneView>
    decreases records.len(),
{
    if records.len() == 0 {
        zones
    } else {
        let rest = zones_with(settings, common, zones, records.drop_last());
        let domain = domain_of(records.last().name);
        let k = zone_place(rest, domain);
        if k < rest.len() {
            rest.update(k, zone_with(rest[k], records.last()))
        } else {
            rest.push(zone_with(configured_zone(settings, common, domain), records.last()))
        }
    }
}

/// Whether the names of the zones that are configured are valid and leave room for names below.
pub open spec fn zone_names_fit(zones: Seq<(Seq<char>, SettingsView)>) -> bool {
    forall|i: int|
        0 <= i < zones.len() ==> host_from_text((#[trigger] zones[i]).0.push('.')) is Some
            && zone_fits(host_from_text(zones[i].0.push('.'))->0)
}

/// Whether the names of records have a domain that leaves room for names below, and there are not
/// too many of them.
pub open spec fn record_names_fit(records: Seq<RecordView>) -> bool {
    &&& records.len() < u32::MAX - 2
    &&& forall|i: int|
        0 <= i < records.len() ==> label_count((#[trigger] records[i]).name) >= 1 && zone_fits(
            domain_of(records[i].name),
        )
}

/// The zones of a list.
pub open spec fn zone_list(zones: Seq<Zone>) -> Seq<ZoneView> {
    Seq::new(zones.len(), |i: int| zones[i]@)
}

/// The place of the zone of a domain, or the number of zones.
fn find_zone(zones: &Vec<Zone>, domain: &Fqdn) -> (r: usize)
    ensures
        r == zone_place(zone_list(zones@), domain@),
        r <= zones.len(),
{
    let ghost all = zone_list(zones@);
    let mut i: usize = 0;
    let mut found: usize = 0;
    assert(all.take(0) =~= Seq::empty());
    while i < zones.len()
        invariant
            i <= zones.len(),
            all == zone_list(zones@),
            found <= i,
            found == zone_place(all.take(i as int), domain@),
        decreases zones.len() - i,
    {
        assert(all.take(i + 1).drop_last() =~= all.take(i as int));
        assert(all.take(i + 1).last() == all[i as int]);
        if found == i && !zones[i].origin().same(domain) {
            found = i + 1;
        }
        i += 1;
    }
    assert(all.take(i as int) =~= all);
    found
}

impl Config {
    /// The settings of the zones.
    pub open spec fn settings(self) -> Seq<(Seq<char>, SettingsView)> {
        settings_views(self.config.zones@)
    }

    /// The upstream of all zones.
    pub open spec fn common(self) -> Option<AddressView> {
        address_option(self.config.upstream)
    }

    /// Whether this is the configuration of a file that says nothing.
    pub open spec fn is_default(self, config_file: Seq<char>) -> bool {
        &&& self.config_file@ == config_file
        &&& self.config.upstream is None
        &&& self.config.server.port is None
        &&& self.config.zones@.len() == 0
        &&& self.config.sources.docker@.len() == 0
        &&& self.config.sources.traefik@.len() == 0
        &&& self.config.sources.dhcp@.len() == 0
        &&& self.config.sources.file@.len() == 0
        &&& self.config.sources.remote@.len() == 0
    }

    /// A configuration that says nothing.
    pub fn default(config_file: &str) -> (r: Config)
        ensures
            r.is_default(config_file@),
    {
        Config {
            config_file: config_file.to_owned(),
            config: ConfigFile {
                upstream: None,
                server: ServerConfig { port: None },
                sources: SourcesConfig {
                    docker: Vec::new(),
                    traefik: Vec::new(),
                    dhcp: Vec::new(),
                    file: Vec::new(),
                    remote: Vec::new(),
                },
                zones: Vec::new(),
            },
        }
    }

    /// The configuration that a file gives, from what was read of it. A file that could not be
    /// opened or read gives an error.
    pub fn from_file(config_file: &str, read: Result<ConfigFile, ReadError>) -> (r: Result<
        Config,
        String,
    >)
        ensures
            match read {
                Ok(config) => r is Ok && r->Ok_0.config_file@ == config_file@ && r->Ok_0.config
                    == config,
                Err(e) => r is Err && r->Err_0@ == read_error_text(config_file@, e),
            },
    {
        match read {
            Ok(config) => Ok(Config { config_file: config_file.to_owned(), config }),
            Err(ReadError::Open(e)) => {
                let mut text = concat("Failed to open file at ", config_file);
                text.append(": ");
                text.append(e.as_str());
                Err(text)
            },
            Err(ReadError::Parse(e)) => Err(
                concat("Failed to parse configuration: ", e.as_str()),
            ),
        }
    }

    /// The path of a file that the configuration names. One that is not absolute starts in the
    /// directory of the configuration file.
    pub fn path(&self, path: &str) -> (r: String)
        requires
            canonical(self.config_file@),
        ensures
            r@ == if path@.len() > 0 && path@[0] == '/' {
                path@
            } else {
                join(split_on(self.config_file@, '/').drop_last(), seq!['/']) + seq!['/'] + path@
            },
    {
        let chars = chars_of(path);
        if chars.len() > 0 && chars[0] == '/' {
            return path.to_owned();
        }
        proof {
            reveal_strlit("/");
            assert("/"@ =~= seq!['/']);
        }
        let file = chars_of(self.config_file.as_str());
        let mut parts = split(file.as_slice(), '/');
        let ghost all = texts(parts@);
        parts.pop();
        assert(texts(parts@) =~= all.drop_last());
        let mut text = join_texts(&parts, "/");
        text.append("/");
        text.append(path);
        assert(text@ =~= join(all.drop_last(), seq!['/']) + seq!['/'] + path@);
        text
    }

    /// How the server is reached.
    pub fn server_config(&self) -> (r: &ServerConfig)
        ensures
            *r == self.config.server,
    {
        &self.config.server
    }

    /// The docker sources.
    pub fn docker_sources(&self) -> (r: &Vec<(String, DockerConfig)>)
        ensures
            *r == self.config.sources.docker,
    {
        &self.config.sources.docker
    }

    /// The traefik sources.
    pub fn traefik_sources(&self) -> (r: &Vec<(String, TraefikConfig)>)
        ensures
            *r == self.config.sources.traefik,
    {
        &self.config.sources.traefik
    }

    /// The DHCP sources.
    pub fn dhcp_sources(&self) -> (r: &Vec<(String, DhcpConfig)>)
        ensures
            *r == self.config.sources.dhcp,
    {
        &self.config.sources.dhcp
    }

    /// The file sources.
    pub fn file_sources(&self) -> (r: &Vec<(String, FileConfig)>)
        ensures
            *r == self.config.sources.file,
    {
        &self.config.sources.file
    }

    /// The upstream of all zones.
    pub fn upstream(&self) -> (r: &Option<Address>)
        ensures
            *r == self.config.upstream,
    {
        &self.config.upstream
    }

    /// A zone as it is configured.
    fn zone(&self, domain: Fqdn) -> (r: Zone)
        requires
            zone_fits(domain@),
        ensures
            r@ == configured_zone(self.settings(), self.common(), domain@),
    {
        let name = domain.text();
        let trimmed = trim_end_char(name.as_str(), '.');
        let fqdn = text_of(trimmed.as_slice());
        let ghost all = self.settings();
        let mut i: usize = 0;
        while i < self.config.zones.len() && self.config.zones[i].0 != fqdn
            invariant
                i <= self.config.zones.len(),
                all == settings_views(self.config.zones@),
                forall|j: int| 0 <= j < i ==> (#[trigger] all[j]).0 != fqdn@,
            decreases self.config.zones.len() - i,
        {
            assert(all[i as int].0 != fqdn@);
            i += 1;
        }
        proof {
            if i < self.config.zones.len() {
                assert(all[i as int].0 == fqdn@);
            }
            lemma_place_is(all, fqdn@, i as int);
        }
        let address = if i < self.config.zones.len() {
            assert(value_of(all, fqdn@) == self.config.zones@[i as int].1@);
            if self.config.zones[i].1.authoratative {
                None
            } else if let Some(address) = &self.config.zones[i].1.upstream {
                Some(address.clone())
            } else if let Some(address) = &self.config.upstream {
                Some(address.clone())
            } else {
                None
            }
        } else if let Some(address) = &self.config.upstream {
            Some(address.clone())
        } else {
            None
        };
        let upstream = match address {
            Some(address) => Some(Upstream::new(name.as_str(), &address)),
            None => None,
        };
        Zone::new(domain, upstream)
    }

    /// The zones that are configured.
    fn own_zones(&self) -> (r: Vec<Zone>)
        requires
            zone_names_fit(self.settings()),
        ensures
            zone_list(r@) == configured_zones(self.settings(), self.common(), self.settings()),
            forall|i: int| 0 <= i < r@.len() ==> (#[trigger] zone_list(r@)[i]).serial == 2,
    {
        let ghost all = self.settings();
        let mut zones: Vec<Zone> = Vec::new();
        let mut i: usize = 0;
        assert(all.take(0) =~= Seq::empty());
        assert(zone_list(zones@) =~= Seq::empty());
        while i < self.config.zones.len()
            invariant
                i <= self.config.zones.len(),
                all == settings_views(self.config.zones@),
                zone_names_fit(all),
                zone_list(zones@) == configured_zones(all, self.common(), all.take(i as int)),
                forall|j: int|
                    0 <= j < zones@.len() ==> (#[trigger] zone_list(zones@)[j]).serial == 2,
            decreases self.config.zones.len() - i,
        {
            assert(all.take(i + 1).drop_last() =~= all.take(i as int));
            assert(all.take(i + 1).last() == all[i as int]);
            let mut text = self.config.zones[i].0.clone();
            text.push('.');
            let name = Fqdn::from_host_text(text.as_str()).unwrap();
            let ghost before = zone_list(zones@);
            let k: usize = find_zone(&zones, &name);
            let zone = self.zone(name);
            let ghost view = zone@;
            if k < zones.len() {
                zones.set(k, zone);
                assert(zone_list(zones@) =~= before.update(k as int, view));
            } else {
                zones.push(zone);
                assert(zone_list(zones@) =~= before.push(view));
            }
            i += 1;
        }
        assert(all.take(i as int) =~= all);
        zones
    }

    /// The zones that are configured and those of the domains of records, with the records in the
    /// zones of their domains.
    pub fn zones(&self, records: &Vec<Record>) -> (r: Vec<Zone>)
        requires
            zone_names_fit(self.settings()),
            record_names_fit(record_views(records@)),
        ensures
            zone_list(r@) == zones_with(
                self.settings(),
                self.common(),
                configured_zones(self.settings(), self.common(), self.settings()),
                record_views(records@),
            ),
    {
        let ghost settings = self.settings();
        let ghost common = self.common();
        let mut zones = self.own_zones();
        let ghost start = zone_list(zones@);
        let ghost all = record_views(records@);
        let mut i: usize = 0;
        assert(all.take(0) =~= Seq::empty());
        while i < records.len()
            invariant
                i <= records.len(),
                settings == self.settings(),
                common == self.common(),
                all == record_views(records@),
                record_names_fit(all),
                zone_list(zones@) == zones_with(settings, common, start, all.take(i as int)),
                forall|j: int|
                    0 <= j < zones@.len() ==> (#[trigger] zone_list(zones@)[j]).serial <= i + 2,
            decreases records.len() - i,
        {
            assert(all.take(i + 1).drop_last() =~= all.take(i as int));
            assert(all.take(i + 1).last() == all[i as int]);
            let ghost before = zone_list(zones@);
            let count: u8 = records[i].name.num_labels();
            let domain = records[i].name.trim_to((count - 1) as usize);
            let record = records[i].clone();
            let k: usize = find_zone(&zones, &domain);
            if k < zones.len() {
                assert(before[k as int].serial <= i + 2);
                let mut zone = zones[k].clone();
                zone.insert(record);
                let ghost view = zone@;
                zones.set(k, zone);
                assert(zone_list(zones@) =~= before.update(k as int, view));
            } else {
                let mut zone = self.zone(domain);
                zone.insert(record);
                let ghost view = zone@;
                zones.push(zone);
                assert(zone_list(zones@) =~= before.push(view));
            }
            i += 1;
            assert forall|j: int| 0 <= j < zones@.len() implies (
            #[trigger] zone_list(zones@)[j]).serial <= i + 2 by {
                if j < before.len() && j != k {
                    assert(zone_list(zones@)[j] == before[j]);
                }
            }
        }
        assert(all.take(i as int) =~= all);
        zones
    }

    /// Whether the names of the zones that are configured and of records are such that there can be
    /// zones for them.
    fn zones_fit(&self, records: &Vec<Record>) -> (r: bool)
        ensures
            r == (zone_names_fit(self.settings()) && record_names_fit(record_views(records@))),
    {
        let ghost settings = self.settings();
        let ghost all = record_views(records@);
        if records.len() as u64 >= 4_294_967_293 {
            return false;
        }
        let mut i: usize = 0;
        while i < self.config.zones.len()
            invariant
                i <= self.config.zones.len(),
                settings == settings_views(self.config.zones@),
                forall|j: int|
                    0 <= j < i ==> host_from_text((#[trigger] settings[j]).0.push('.')) is Some
                        && zone_fits(host_from_text(settings[j].0.push('.'))->0),
            decreases self.config.zones.len() - i,
        {
            let mut text = self.config.zones[i].0.clone();
            text.push('.');
            assert(text@ == settings[i as int].0.push('.'));
            match Fqdn::from_host_text(text.as_str()) {
                Some(name) => if !fits(&name) {
                    return false;
                },
                None => {
                    return false;
                },
            }
            i += 1;
        }
        let mut k: usize = 0;
        while k < records.len()
            invariant
                k <= records.len(),
                all == record_views(records@),
                forall|j: int|
                    0 <= j < k ==> label_count((#[trigger] all[j]).name) >= 1 && zone_fits(
                        domain_of(all[j].name),
                    ),
            decreases records.len() - k,
        {
            let count: u8 = records[k].name.num_labels();
            assert(all[k as int].name == records@[k as int].name@);
            if count < 1 {
                return false;
            }
            let domain = records[k].name.trim_to((count - 1) as usize);
            if !fits(&domain) {
                return false;
            }
            k += 1;
        }
        true
    }

    /// The zones that are configured and those of the domains of records, unless there is a name
    /// for which there can be no zone.
    pub fn try_zones(&self, records: &Vec<Record>) -> (r: Option<Vec<Zone>>)
        ensures
            r is Some <==> zone_names_fit(self.settings()) && record_names_fit(
                record_views(records@),
            ),
            r matches Some(zones) ==> zone_list(zones@) == zones_with(
                self.settings(),
                self.common(),
                configured_zones(self.settings(), self.common(), self.settings()),
                record_views(records@),
            ),
    {
        if self.zones_fit(records) {
            Some(self.zones(records))
        } else {
            None
        }
    }
}

/// Whether the names that a zone needs below its own fit in a name.
fn fits(name: &Fqdn) -> (r: bool)
    ensures
        r == zone_fits(name@),
{
    name.encoded_len() + 11 <= 255
}

/// The domain of a name is what follows its first label, or its first two where the first is a star.
pub proof fn law_domain_follows_the_first_label(name: Seq<Seq<u8>>)
    requires
        label_count(name) >= 1,
    ensures
        name[0] != seq!['*' as u8] ==> domain_of(name) == name.skip(1),
        name[0] == seq!['*' as u8] ==> domain_of(name) == name.skip(2),
{
    assert(seq!['*' as u8] =~= seq![42u8]);
    if name[0] == seq![42u8] {
        assert(domain_of(name) =~= name.skip(2));
    } else {
        assert(domain_of(name) =~= name.skip(1));
    }
}

/// Queries for a zone that is configured with full authority are forwarded nowhere; those for another
/// go to its own upstream, or else to the common one.
pub proof fn law_zones_forward_to_their_upstream(
    zones: Seq<(Seq<char>, SettingsView)>,
    common: Option<AddressView>,
    name: Seq<char>,
    k: int,
)
    ensures
        0 <= k < zones.len() && zones[k].0 == name && (forall|j: int|
            0 <= j < k ==> (#[trigger] zones[j]).0 != name) ==> zone_upstream(zones, common, name)
            == if zones[k].1.authoratative {
            None
        } else if zones[k].1.upstream is Some {
            zones[k].1.upstream
        } else {
            common
        },
        (forall|j: int| 0 <= j < zones.len() ==> (#[trigger] zones[j]).0 != name) ==> zone_upstream(
            zones,
            common,
            name,
        ) == common,
{
    lemma_settings_place(zones, name);
    let at = place(zones, name);
    if 0 <= k < zones.len() && zones[k].0 == name && (forall|j: int|
        0 <= j < k ==> (#[trigger] zones[j]).0 != name) {
        if at < k {
            assert(zones[at].0 != name);
        }
        if k < at {
            assert(zones[k].0 != name);
        }
    }
}

/// The place of a name is the first that has it.
proof fn lemma_settings_place(zones: Seq<(Seq<char>, SettingsView)>, name: Seq<char>)
    ensures
        0 <= place(zones, name) <= zones.len(),
        place(zones, name) < zones.len() ==> zones[place(zones, name)].0 == name,
        forall|j: int| 0 <= j < place(zones, name) ==> (#[trigger] zones[j]).0 != name,
    decreases zones.len(),
{
    if zones.len() > 0 {
        let front = zones.drop_last();
        lemma_settings_place(front, name);
        assert forall|j: int| 0 <= j < place(zones, name) implies (#[trigger] zones[j]).0
            != name by {
            if j < front.len() {
                assert(front[j] == zones[j]);
            }
        }
    }
}

/// Whether there is a zone for a domain.
pub open spec fn has_zone(zones: Seq<ZoneView>, domain: Seq<Seq<u8>>) -> bool {
    exists|k: int| 0 <= k < zones.len() && fold((#[trigger] zones[k]).origin) == fold(domain)
}

/// Whether no domain has two zones.
pub open spec fn zones_apart(zones: Seq<ZoneView>) -> bool {
    forall|i: int, j: int|
        0 <= i < j < zones.len() ==> fold((#[trigger] zones[i]).origin) != fold(
            (#[trigger] zones[j]).origin,
        )
}

/// The place of the zone of a domain.
proof fn lemma_zone_place(zones: Seq<ZoneView>, domain: Seq<Seq<u8>>)
    ensures
        0 <= zone_place(zones, domain) <= zones.len(),
        zone_place(zones, domain) < zones.len() ==> fold(zones[zone_place(zones, domain)].origin)
            == fold(domain),
        zone_place(zones, domain) == zones.len() ==> !has_zone(zones, domain),
    decreases zones.len(),
{
    if zones.len() > 0 {
        let front = zones.drop_last();
        lemma_zone_place(front, domain);
        if has_zone(zones, domain) && zone_place(zones, domain) == zones.len() {
            let k = choose|k: int|
                0 <= k < zones.len() && fold((#[trigger] zones[k]).origin) == fold(domain);
            if k < front.len() {
                assert(front[k] == zones[k]);
            }
        }
    }
}

/// Zones with one of a domain put in the place of the one that was there, or at their end.
proof fn lemma_zone_put(
    zones: Seq<ZoneView>,
    domain: Seq<Seq<u8>>,
    zone: ZoneView,
    other: Seq<Seq<u8>>,
)
    requires
        zones_apart(zones),
        fold(zone.origin) == fold(domain),
    ensures
        ({
            let k = zone_place(zones, domain);
            let after = if k < zones.len() {
                zones.update(k, zone)
            } else {
                zones.push(zone)
            };
            &&& zones_apart(after)
            &&& has_zone(after, other) <==> has_zone(zones, other) || fold(other) == fold(domain)
        }),
{
    let k = zone_place(zones, domain);
    lemma_zone_place(zones, domain);
    let after = if k < zones.len() {
        zones.update(k, zone)
    } else {
        zones.push(zone)
    };
    assert(after[k] == zone);
    assert forall|i: int| 0 <= i < after.len() && i != k implies #[trigger] after[i] == zones[i]
        && fold(after[i].origin) != fold(domain) by {
        if k < zones.len() {
            if i < k {
                assert(fold(zones[i].origin) != fold(zones[k].origin));
            } else {
                assert(fold(zones[k].origin) != fold(zones[i].origin));
            }
        } else {
            assert(!has_zone(zones, domain));
            assert(fold(zones[i].origin) != fold(domain));
        }
    }
    assert forall|i: int, j: int| 0 <= i < j < after.len() implies fold(
        (#[trigger] after[i]).origin,
    ) != fold((#[trigger] after[j]).origin) by {
        if i != k && j != k {
            assert(fold(zones[i].origin) != fold(zones[j].origin));
        }
    }
    if has_zone(zones, other) {
        let i = choose|i: int|
            0 <= i < zones.len() && fold((#[trigger] zones[i]).origin) == fold(other);
        if i != k {
            assert(after[i] == zones[i]);
        } else {
            assert(fold(after[k].origin) == fold(other));
        }
    }
    if has_zone(after, other) {
        let i = choose|i: int|
            0 <= i < after.len() && fold((#[trigger] after[i]).origin) == fold(other);
        if i != k {
            assert(zones[i] == after[i]);
        }
    }
    if fold(other) == fold(domain) {
        assert(fold(after[k].origin) == fold(other));
    }
}

/// There is exactly one zone for each name that is configured, as its settings say.
pub proof fn law_configured_zones_are_made(
    zones: Seq<(Seq<char>, SettingsView)>,
    common: Option<AddressView>,
    part: Seq<(Seq<char>, SettingsView)>,
    domain: Seq<Seq<u8>>,
)
    ensures
        ({
            let made = configured_zones(zones, common, part);
            &&& zones_apart(made)
            &&& has_zone(made, domain) <==> exists|i: int|
                0 <= i < part.len() && fold(host_from_text((#[trigger] part[i]).0.push('.'))->0)
                    == fold(domain)
            &&& forall|k: int|
                0 <= k < made.len() ==> #[trigger] made[k] == configured_zone(
                    zones,
                    common,
                    made[k].origin,
                )
        }),
    decreases part.len(),
{
    if part.len() > 0 {
        let front = part.drop_last();
        let rest = configured_zones(zones, common, front);
        let name = host_from_text(part.last().0.push('.'))->0;
        law_configured_zones_are_made(zones, common, front, domain);
        lemma_zone_put(rest, name, configured_zone(zones, common, name), domain);
        assert(part[part.len() - 1] == part.last());
        assert forall|i: int| 0 <= i < front.len() implies #[trigger] front[i] == part[i] by {}
        assert forall|i: int| 0 <= i < front.len() implies #[trigger] part[i] == front[i] by {}
        let made = configured_zones(zones, common, part);
        let at = zone_place(rest, name);
        lemma_zone_place(rest, name);
        assert forall|k: int| 0 <= k < made.len() implies #[trigger] made[k] == configured_zone(
            zones,
            common,
            made[k].origin,
        ) by {
            if k != at {
                assert(made[k] == rest[k]);
            }
        }
    }
}

/// Whether a record is one of a domain.
pub open spec fn of_domain(domain: Seq<Seq<u8>>) -> spec_fn(RecordView) -> bool {
    |record: RecordView| fold(domain_of(record.name)) == fold(domain)
}

/// A zone with records added one after the other.
pub open spec fn zone_with_all(zone: ZoneView, records: Seq<RecordView>) -> ZoneView {
    records.fold_left(zone, |zone: ZoneView, record: RecordView| zone_with(zone, record))
}

/// A zone with one record more.
proof fn lemma_zone_with_more(zone: ZoneView, records: Seq<RecordView>, record: RecordView)
    ensures
        zone_with_all(zone, records.push(record)) == zone_with(zone_with_all(zone, records), record),
        zone_with_all(zone, Seq::empty()) == zone,
{
    assert(records.push(record).drop_last() =~= records);
}

/// Records of which none meets a condition leave none.
proof fn lemma_none_kept(records: Seq<RecordView>, kept: spec_fn(RecordView) -> bool)
    requires
        forall|i: int| 0 <= i < records.len() ==> !kept(#[trigger] records[i]),
    ensures
        records.filter(kept).len() == 0,
    decreases records.len(),
{
    reveal(Seq::filter);
    if records.len() > 0 {
        let front = records.drop_last();
        assert forall|i: int| 0 <= i < front.len() implies !kept(#[trigger] front[i]) by {
            assert(front[i] == records[i]);
        }
        lemma_none_kept(front, kept);
        assert(!kept(records[records.len() - 1]));
    }
}

/// Every record is in the zone of its domain, and in no other: there is exactly one zone for each
/// domain that had one or that a record has, and it holds, besides what it held, exactly the records of
/// its domain, in their order.
pub proof fn law_records_are_in_the_zone_of_their_domain(
    settings: Seq<(Seq<char>, SettingsView)>,
    common: Option<AddressView>,
    zones: Seq<ZoneView>,
    records: Seq<RecordView>,
    domain: Seq<Seq<u8>>,
)
    requires
        zones_apart(zones),
    ensures
        ({
            let made = zones_with(settings, common, zones, records);
            &&& zones_apart(made)
            &&& has_zone(made, domain) <==> has_zone(zones, domain) || exists|i: int|
                0 <= i < records.len() && fold(domain_of((#[trigger] records[i]).name)) == fold(
                    domain,
                )
            &&& made.len() >= zones.len()
            &&& forall|k: int|
                0 <= k < made.len() ==> #[trigger] made[k] == zone_with_all(
                    if k < zones.len() {
                        zones[k]
                    } else {
                        configured_zone(settings, common, made[k].origin)
                    },
                    records.filter(of_domain(made[k].origin)),
                )
        }),
    decreases records.len(),
{
    reveal(Seq::filter);
    let made = zones_with(settings, common, zones, records);
    if records.len() == 0 {
        assert forall|k: int| 0 <= k < made.len() implies #[trigger] made[k] == zone_with_all(
            zones[k],
            records.filter(of_domain(made[k].origin)),
        ) by {
            assert(records.filter(of_domain(made[k].origin)).len() == 0);
        }
    } else {
        let front = records.drop_last();
        let record = records.last();
        let rest = zones_with(settings, common, zones, front);
        let name = domain_of(record.name);
        let at = zone_place(rest, name);
        law_records_are_in_the_zone_of_their_domain(settings, common, zones, front, domain);
        law_records_are_in_the_zone_of_their_domain(settings, common, zones, front, name);
        lemma_zone_place(rest, name);
        lemma_zone_put(
            rest,
            name,
            if at < rest.len() {
                zone_with(rest[at], record)
            } else {
                zone_with(configured_zone(settings, common, name), record)
            },
            domain,
        );
        assert(records[records.len() - 1] == record);
        assert forall|i: int| 0 <= i < front.len() implies #[trigger] front[i] == records[i] by {}
        assert forall|i: int| 0 <= i < front.len() implies #[trigger] records[i] == front[i] by {}
        assert forall|k: int| 0 <= k < made.len() implies #[trigger] made[k] == zone_with_all(
            if k < zones.len() {
                zones[k]
            } else {
                configured_zone(settings, common, made[k].origin)
            },
            records.filter(of_domain(made[k].origin)),
        ) by {
            let kept = of_domain(made[k].origin);
            let before = front.filter(kept);
            if k == at {
                assert(kept(record));
                assert(records.filter(kept) =~= before.push(record));
                let start = if k < zones.len() {
                    zones[k]
                } else {
                    configured_zone(settings, common, made[k].origin)
                };
                lemma_zone_with_more(start, before, record);
                if at < rest.len() {
                    assert(rest[at].origin == made[k].origin);
                    assert(rest[k] == zone_with_all(start, before));
                } else {
                    assert(made[k].origin == name);
                    assert forall|i: int| 0 <= i < front.len() implies !kept(
                        #[trigger] front[i],
                    ) by {
                        assert(!has_zone(rest, name));
                    }
                    lemma_none_kept(front, kept);
                    assert(before =~= Seq::empty());
                }
            } else {
                assert(made[k] == rest[k]);
                if at < rest.len() {
                    if k < at {
                        assert(fold(rest[k].origin) != fold(rest[at].origin));
                    } else {
                        assert(fold(rest[at].origin) != fold(rest[k].origin));
                    }
                } else {
                    assert(!has_zone(rest, name));
                    assert(fold(rest[k].origin) != fold(name));
                }
                assert(!kept(record));
                assert(records.filter(kept) == before);
            }
        }
    }
}

} // verus!
