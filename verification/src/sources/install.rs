//! Which sources are stopped and started when the configuration changes.

use vstd::prelude::*;
use crate::dns::record::fold_data;
use crate::dns::rr::RDataView;
use crate::dns::store::{contains_id, id_views};
use crate::name::fold;
use crate::sources::dhcp::DhcpConfig;
use crate::sources::docker::DockerConfig;
use crate::sources::file::FileConfig;
use crate::sources::id::{SourceId, SourceType};
use crate::sources::remote::RemoteConfig;
use crate::sources::traefik::{address_view, TraefikConfig};

verus! {

/// The configuration of a kind of sources.
pub trait SourceConfig: Sized {
    /// The kind of sources.
    spec fn kind() -> SourceType;

    /// Whether two configurations are the same.
    spec fn same_config(&self, other: &Self) -> bool;

    /// The kind of sources.
    fn source_type() -> (r: SourceType)
        ensures
            r == Self::kind(),
    ;

    /// Whether this is the same configuration as another.
    fn same(&self, other: &Self) -> (r: bool)
        ensures
            r == self.same_config(other),
    ;
}

impl SourceConfig for DhcpConfig {
    open spec fn kind() -> SourceType {
        SourceType::Dhcp
    }

    open spec fn same_config(&self, other: &Self) -> bool {
        self.lease_file@ == other.lease_file@ && fold(self.zone@) == fold(other.zone@)
    }

    fn source_type() -> SourceType {
        SourceType::Dhcp
    }

    fn same(&self, other: &Self) -> bool {
        self.lease_file == other.lease_file && self.zone.same(&other.zone)
    }
}

impl SourceConfig for FileConfig {
    open spec fn kind() -> SourceType {
        SourceType::File
    }

    open spec fn same_config(&self, other: &Self) -> bool {
        self@ == other@
    }

    fn source_type() -> SourceType {
        SourceType::File
    }

    fn same(&self, other: &Self) -> bool {
        *self == *other
    }
}

impl SourceConfig for DockerConfig {
    open spec fn kind() -> SourceType {
        SourceType::Docker
    }

    open spec fn same_config(&self, other: &Self) -> bool {
        match (*self, *other) {
            (DockerConfig::Address(a), DockerConfig::Address(b)) => a@ == b@,
            (DockerConfig::Tls(a), DockerConfig::Tls(b)) => a.address == b.address && a.private_key@
                == b.private_key@ && a.certificate@ == b.certificate@ && a.ca@ == b.ca@,
            (DockerConfig::Local, DockerConfig::Local) => true,
            _ => false,
        }
    }

    fn source_type() -> SourceType {
        SourceType::Docker
    }

    fn same(&self, other: &Self) -> bool {
        match (self, other) {
            (DockerConfig::Address(a), DockerConfig::Address(b)) => *a == *b,
            (DockerConfig::Tls(a), DockerConfig::Tls(b)) => a.address == b.address && a.private_key
                == b.private_key && a.certificate == b.certificate && a.ca == b.ca,
            (DockerConfig::Local, DockerConfig::Local) => true,
            _ => false,
        }
    }
}

/// The data that there may be, with its name in lower case.
pub open spec fn fold_address(address: Option<RDataView>) -> Option<RDataView> {
    match address {
        Some(data) => Some(fold_data(data)),
        None => None,
    }
}

impl SourceConfig for TraefikConfig {
    open spec fn kind() -> SourceType {
        SourceType::Traefik
    }

    open spec fn same_config(&self, other: &Self) -> bool {
        self.url@ == other.url@ && fold_address(address_view(self.address)) == fold_address(
            address_view(other.address),
        ) && self.interval_ms == other.interval_ms
    }

    fn source_type() -> SourceType {
        SourceType::Traefik
    }

    fn same(&self, other: &Self) -> bool {
        let same_address = match (&self.address, &other.address) {
            (Some(a), Some(b)) => a.same(b),
            (None, None) => true,
            _ => false,
        };
        self.url == other.url && same_address && self.interval_ms == other.interval_ms
    }
}

impl SourceConfig for RemoteConfig {
    open spec fn kind() -> SourceType {
        SourceType::Remote
    }

    open spec fn same_config(&self, other: &Self) -> bool {
        self.url@ == other.url@ && self.interval_ms == other.interval_ms
    }

    fn source_type() -> SourceType {
        SourceType::Remote
    }

    fn same(&self, other: &Self) -> bool {
        self.url == other.url && self.interval_ms == other.interval_ms
    }
}

/// The configuration of all sources, by their names.
#[derive(Debug)]
pub struct SourcesConfig {
    pub docker: Vec<(String, DockerConfig)>,
    pub traefik: Vec<(String, TraefikConfig)>,
    pub dhcp: Vec<(String, DhcpConfig)>,
    pub file: Vec<(String, FileConfig)>,
    pub remote: Vec<(String, RemoteConfig)>,
}

/// The sources of one kind.
pub open spec fn ids_of<C: SourceConfig>(sources: Seq<(String, C)>) -> Seq<(SourceType, Seq<char>)> {
    Seq::new(sources.len(), |i: int| (C::kind(), sources[i].0@))
}

/// Whether a source has the same configuration in another list.
pub open spec fn unchanged<C: SourceConfig>(
    sources: Seq<(String, C)>,
    name: Seq<char>,
    config: C,
) -> bool {
    exists|i: int|
        0 <= i < sources.len() && (#[trigger] sources[i]).0@ == name && config.same_config(
            &sources[i].1,
        )
}

/// The sources of one kind whose configuration is not that of an older list.
pub open spec fn changed_ids<C: SourceConfig>(
    sources: Seq<(String, C)>,
    old_sources: Seq<(String, C)>,
) -> Seq<(SourceType, Seq<char>)>
    decreases sources.len(),
{
    if sources.len() == 0 {
        Seq::empty()
    } else {
        let rest = changed_ids(sources.drop_last(), old_sources);
        if unchanged(old_sources, sources.last().0@, sources.last().1) {
            rest
        } else {
            rest.push((C::kind(), sources.last().0@))
        }
    }
}

/// All sources that are configured.
pub open spec fn all_ids(config: SourcesConfig) -> Seq<(SourceType, Seq<char>)> {
    ids_of(config.dhcp@) + ids_of(config.file@) + ids_of(config.docker@) + ids_of(config.traefik@)
        + ids_of(config.remote@)
}

/// The sources that are started where none was before, in the order in which later ones may need
/// the names of earlier ones.
pub open spec fn started(config: SourcesConfig, old_config: Option<SourcesConfig>) -> Seq<
    (SourceType, Seq<char>),
> {
    match old_config {
        Some(old) => changed_ids(config.dhcp@, old.dhcp@) + changed_ids(config.file@, old.file@)
            + changed_ids(config.docker@, old.docker@) + changed_ids(config.traefik@, old.traefik@)
            + changed_ids(config.remote@, old.remote@),
        None => changed_ids(config.dhcp@, Seq::empty()) + changed_ids(config.file@, Seq::empty())
            + changed_ids(config.docker@, Seq::empty()) + changed_ids(config.traefik@, Seq::empty())
            + changed_ids(config.remote@, Seq::empty()),
    }
}

/// The sources that run but are no longer configured.
pub open spec fn stopped(
    running: Seq<(SourceType, Seq<char>)>,
    wanted: Seq<(SourceType, Seq<char>)>,
) -> Seq<(SourceType, Seq<char>)>
    decreases running.len(),
{
    if running.len() == 0 {
        Seq::empty()
    } else {
        let rest = stopped(running.drop_last(), wanted);
        if wanted.contains(running.last()) {
            rest
        } else {
            rest.push(running.last())
        }
    }
}

/// What is done with sources: which are kept, which are stopped and which are started.
#[derive(Debug)]
pub struct SourcePlan {
    pub keep: Vec<SourceId>,
    pub stop: Vec<SourceId>,
    pub start: Vec<SourceId>,
}

/// Adds the sources of one kind.
fn list_sources<C: SourceConfig>(sources: &Vec<(String, C)>, seen: &mut Vec<SourceId>)
    ensures
        id_views(final(seen)@) == id_views(old(seen)@) + ids_of(sources@),
{
    let ghost start = id_views(seen@);
    let ghost all = ids_of(sources@);
    let mut i: usize = 0;
    assert(id_views(seen@) =~= start + all.take(0));
    while i < sources.len()
        invariant
            i <= sources.len(),
            all == ids_of(sources@),
            id_views(seen@) == start + all.take(i as int),
        decreases sources.len() - i,
    {
        let ghost before = id_views(seen@);
        let id = SourceId::new(C::source_type(), sources[i].0.as_str());
        seen.push(id);
        i += 1;
        assert(id_views(seen@) =~= before.push(all[i - 1]));
        assert(id_views(seen@) =~= start + all.take(i as int));
    }
    assert(all.take(i as int) =~= all);
}

/// Whether a source has the same configuration in another list.
pub(crate) fn is_unchanged<C: SourceConfig>(
    sources: &Vec<(String, C)>,
    name: &String,
    config: &C,
) -> (r: bool)
    ensures
        r == unchanged(sources@, name@, *config),
{
    let mut i: usize = 0;
    while i < sources.len()
        invariant
            i <= sources.len(),
            forall|j: int|
                0 <= j < i ==> !((#[trigger] sources@[j]).0@ == name@ && config.same_config(
                    &sources@[j].1,
                )),
        decreases sources.len() - i,
    {
        if sources[i].0 == *name && config.same(&sources[i].1) {
            return true;
        }
        i += 1;
    }
    false
}

/// Adds the sources of one kind whose configuration is not that of an older list.
fn spawn_sources<C: SourceConfig>(
    sources: &Vec<(String, C)>,
    old_sources: &Vec<(String, C)>,
    start: &mut Vec<SourceId>,
)
    ensures
        id_views(final(start)@) == id_views(old(start)@) + changed_ids(sources@, old_sources@),
{
    let ghost begin = id_views(start@);
    let mut i: usize = 0;
    assert(sources@.take(0) =~= Seq::empty());
    assert(id_views(start@) =~= begin + Seq::empty());
    while i < sources.len()
        invariant
            i <= sources.len(),
            id_views(start@) == begin + changed_ids(sources@.take(i as int), old_sources@),
        decreases sources.len() - i,
    {
        assert(sources@.take(i + 1).drop_last() =~= sources@.take(i as int));
        assert(sources@.take(i + 1).last() == sources@[i as int]);
        if !is_unchanged(old_sources, &sources[i].0, &sources[i].1) {
            let ghost before = id_views(start@);
            let id = SourceId::new(C::source_type(), sources[i].0.as_str());
            start.push(id);
            assert(id_views(start@) =~= before.push(id@));
        }
        i += 1;
        assert(id_views(start@) =~= begin + changed_ids(
            sources@.take(i as int),
            old_sources@,
        ));
    }
    assert(sources@.take(i as int) =~= sources@);
}

/// Decides what is done with sources when the configuration changes: those that are no longer
/// configured are stopped, and those whose configuration is new or has changed are started.
pub fn install_sources(
    running: &Vec<SourceId>,
    config: &SourcesConfig,
    old_config: Option<&SourcesConfig>,
) -> (r: SourcePlan)
    ensures
        id_views(r.keep@) == all_ids(*config),
        id_views(r.stop@) == stopped(id_views(running@), all_ids(*config)),
        id_views(r.start@) == started(
            *config,
            match old_config {
                Some(old) => Some(*old),
                None => None,
            },
        ),
{
    let mut keep: Vec<SourceId> = Vec::new();
    assert(id_views(keep@) =~= Seq::empty());
    list_sources(&config.dhcp, &mut keep);
    list_sources(&config.file, &mut keep);
    list_sources(&config.docker, &mut keep);
    list_sources(&config.traefik, &mut keep);
    list_sources(&config.remote, &mut keep);
    assert(id_views(keep@) =~= all_ids(*config));
    let mut stop: Vec<SourceId> = Vec::new();
    let ghost all = id_views(running@);
    let mut i: usize = 0;
    assert(all.take(0) =~= Seq::empty());
    assert(id_views(stop@) =~= Seq::empty());
    while i < running.len()
        invariant
            i <= running.len(),
            all == id_views(running@),
            id_views(keep@) == all_ids(*config),
            id_views(stop@) == stopped(all.take(i as int), all_ids(*config)),
        decreases running.len() - i,
    {
        assert(all.take(i + 1).drop_last() =~= all.take(i as int));
        assert(all.take(i + 1).last() == all[i as int]);
        if !contains_id(&keep, &running[i]) {
            let ghost before = id_views(stop@);
            let id = running[i].clone();
            stop.push(id);
            assert(id_views(stop@) =~= before.push(all[i as int]));
        }
        i += 1;
    }
    assert(all.take(i as int) =~= all);
    let mut start: Vec<SourceId> = Vec::new();
    assert(id_views(start@) =~= Seq::empty());
    match old_config {
        Some(old) => {
            spawn_sources(&config.dhcp, &old.dhcp, &mut start);
            spawn_sources(&config.file, &old.file, &mut start);
            spawn_sources(&config.docker, &old.docker, &mut start);
            spawn_sources(&config.traefik, &old.traefik, &mut start);
            spawn_sources(&config.remote, &old.remote, &mut start);
            assert(id_views(start@) =~= started(*config, Some(*old)));
        },
        None => {
            let no_dhcp: Vec<(String, DhcpConfig)> = Vec::new();
            let no_file: Vec<(String, FileConfig)> = Vec::new();
            let no_docker: Vec<(String, DockerConfig)> = Vec::new();
            let no_traefik: Vec<(String, TraefikConfig)> = Vec::new();
            let no_remote: Vec<(String, RemoteConfig)> = Vec::new();
            spawn_sources(&config.dhcp, &no_dhcp, &mut start);
            spawn_sources(&config.file, &no_file, &mut start);
            spawn_sources(&config.docker, &no_docker, &mut start);
            spawn_sources(&config.traefik, &no_traefik, &mut start);
            spawn_sources(&config.remote, &no_remote, &mut start);
            assert(id_views(start@) =~= started(*config, None));
        },
    }
    SourcePlan { keep, stop, start }
}

/// Exactly the sources that run and are no longer configured are stopped.
pub proof fn law_only_unwanted_sources_stop(
    running: Seq<(SourceType, Seq<char>)>,
    wanted: Seq<(SourceType, Seq<char>)>,
    id: (SourceType, Seq<char>),
)
    ensures
        stopped(running, wanted).contains(id) <==> running.contains(id) && !wanted.contains(id),
    decreases running.len(),
{
    if running.len() > 0 {
        let front = running.drop_last();
        let rest = stopped(front, wanted);
        let all = stopped(running, wanted);
        law_only_unwanted_sources_stop(front, wanted, id);
        if running.contains(id) {
            let i = choose|i: int| 0 <= i < running.len() && running[i] == id;
            if i < front.len() {
                assert(front[i] == id);
            }
        }
        if front.contains(id) {
            let i = choose|i: int| 0 <= i < front.len() && front[i] == id;
            assert(running[i] == id);
        }
        assert(running[running.len() - 1] == running.last());
        if all.contains(id) {
            let i = choose|i: int| 0 <= i < all.len() && all[i] == id;
            if i < rest.len() {
                assert(rest[i] == id);
            }
        }
        if rest.contains(id) {
            let i = choose|i: int| 0 <= i < rest.len() && rest[i] == id;
            assert(all[i] == id);
        }
        if !wanted.contains(running.last()) {
            assert(all[rest.len() as int] == running.last());
        }
    }
}

/// Sources of which each has its old configuration are left as they are.
pub proof fn law_unchanged_sources_are_left<C: SourceConfig>(
    sources: Seq<(String, C)>,
    old_sources: Seq<(String, C)>,
)
    requires
        forall|i: int|
            0 <= i < sources.len() ==> unchanged(
                old_sources,
                (#[trigger] sources[i]).0@,
                sources[i].1,
            ),
    ensures
        changed_ids(sources, old_sources).len() == 0,
    decreases sources.len(),
{
    if sources.len() > 0 {
        let front = sources.drop_last();
        assert forall|i: int| 0 <= i < front.len() implies unchanged(
            old_sources,
            (#[trigger] front[i]).0@,
            front[i].1,
        ) by {
            assert(front[i] == sources[i]);
        }
        law_unchanged_sources_are_left(front, old_sources);
        assert(sources.last() == sources[sources.len() - 1]);
    }
}

/// Where there was no configuration before, all sources are started.
pub proof fn law_all_sources_start_at_first<C: SourceConfig>(sources: Seq<(String, C)>)
    ensures
        changed_ids(sources, Seq::empty()) == ids_of(sources),
    decreases sources.len(),
{
    if sources.len() > 0 {
        let front = sources.drop_last();
        law_all_sources_start_at_first(front);
        assert(!unchanged(Seq::<(String, C)>::empty(), sources.last().0@, sources.last().1));
        assert(ids_of(sources) =~= ids_of(front).push((C::kind(), sources.last().0@)));
    } else {
        assert(ids_of(sources) =~= Seq::empty());
    }
}

/// Whether a source is configured in a list of one kind, and not so in an older list.
pub open spec fn is_new<C: SourceConfig>(
    sources: Seq<(String, C)>,
    old_sources: Seq<(String, C)>,
    id: (SourceType, Seq<char>),
) -> bool {
    exists|i: int|
        0 <= i < sources.len() && id == (C::kind(), (#[trigger] sources[i]).0@) && !unchanged(
            old_sources,
            sources[i].0@,
            sources[i].1,
        )
}

/// The sources of one kind that are started are those that are configured anew.
proof fn lemma_changed<C: SourceConfig>(
    sources: Seq<(String, C)>,
    old_sources: Seq<(String, C)>,
    id: (SourceType, Seq<char>),
)
    ensures
        changed_ids(sources, old_sources).contains(id) <==> is_new(sources, old_sources, id),
    decreases sources.len(),
{
    if sources.len() > 0 {
        let front = sources.drop_last();
        let rest = changed_ids(front, old_sources);
        let all = changed_ids(sources, old_sources);
        lemma_changed(front, old_sources, id);
        assert(sources[sources.len() - 1] == sources.last());
        assert forall|i: int| 0 <= i < front.len() implies #[trigger] front[i] == sources[i] by {}
        assert forall|i: int| 0 <= i < front.len() implies #[trigger] sources[i] == front[i] by {}
        if all.contains(id) {
            let i = choose|i: int| 0 <= i < all.len() && all[i] == id;
            if i < rest.len() {
                assert(rest[i] == id);
            }
        }
        if rest.contains(id) {
            let i = choose|i: int| 0 <= i < rest.len() && rest[i] == id;
            assert(all[i] == id);
        }
        if all.len() > rest.len() {
            assert(all[rest.len() as int] == (C::kind(), sources.last().0@));
        }
    }
}

/// An item is in one of two lists where it is in both together.
proof fn lemma_in_both(
    a: Seq<(SourceType, Seq<char>)>,
    b: Seq<(SourceType, Seq<char>)>,
    id: (SourceType, Seq<char>),
)
    ensures
        (a + b).contains(id) <==> a.contains(id) || b.contains(id),
{
    let all = a + b;
    if all.contains(id) {
        let i = choose|i: int| 0 <= i < all.len() && all[i] == id;
        if i < a.len() {
            assert(a[i] == id);
        } else {
            assert(b[i - a.len()] == id);
        }
    }
    if a.contains(id) {
        let i = choose|i: int| 0 <= i < a.len() && a[i] == id;
        assert(all[i] == id);
    }
    if b.contains(id) {
        let i = choose|i: int| 0 <= i < b.len() && b[i] == id;
        assert(all[a.len() + i] == id);
    }
}

/// When the configuration changes, exactly those sources are started, of all kinds, that were not
/// configured so before.
pub proof fn law_changed_sources_start(
    config: SourcesConfig,
    old: SourcesConfig,
    id: (SourceType, Seq<char>),
)
    ensures
        started(config, Some(old)).contains(id) <==> is_new(config.dhcp@, old.dhcp@, id) || is_new(
            config.file@,
            old.file@,
            id,
        ) || is_new(config.docker@, old.docker@, id) || is_new(
            config.traefik@,
            old.traefik@,
            id,
        ) || is_new(config.remote@, old.remote@, id),
{
    let a = changed_ids(config.dhcp@, old.dhcp@);
    let b = changed_ids(config.file@, old.file@);
    let c = changed_ids(config.docker@, old.docker@);
    let d = changed_ids(config.traefik@, old.traefik@);
    let e = changed_ids(config.remote@, old.remote@);
    lemma_changed(config.dhcp@, old.dhcp@, id);
    lemma_changed(config.file@, old.file@, id);
    lemma_changed(config.docker@, old.docker@, id);
    lemma_changed(config.traefik@, old.traefik@, id);
    lemma_changed(config.remote@, old.remote@, id);
    lemma_in_both(a, b, id);
    lemma_in_both(a + b, c, id);
    lemma_in_both(a + b + c, d, id);
    lemma_in_both(a + b + c + d, e, id);
}

/// At first all sources that are configured are started: those of leases, then those of files, of
/// Docker, of Traefik and of other servers, each in their order.
pub proof fn law_all_kinds_start_in_order(config: SourcesConfig)
    ensures
        started(config, None) == all_ids(config),
        all_ids(config) == Seq::new(
            config.dhcp@.len(),
            |i: int| (SourceType::Dhcp, config.dhcp@[i].0@),
        ) + Seq::new(config.file@.len(), |i: int| (SourceType::File, config.file@[i].0@))
            + Seq::new(config.docker@.len(), |i: int| (SourceType::Docker, config.docker@[i].0@))
            + Seq::new(config.traefik@.len(), |i: int| (SourceType::Traefik, config.traefik@[i].0@))
            + Seq::new(config.remote@.len(), |i: int| (SourceType::Remote, config.remote@[i].0@)),
{
    law_all_sources_start_at_first(config.dhcp@);
    law_all_sources_start_at_first(config.file@);
    law_all_sources_start_at_first(config.docker@);
    law_all_sources_start_at_first(config.traefik@);
    law_all_sources_start_at_first(config.remote@);
    assert(ids_of(config.dhcp@) =~= Seq::new(
        config.dhcp@.len(),
        |i: int| (SourceType::Dhcp, config.dhcp@[i].0@),
    ));
    assert(ids_of(config.file@) =~= Seq::new(
        config.file@.len(),
        |i: int| (SourceType::File, config.file@[i].0@),
    ));
    assert(ids_of(config.docker@) =~= Seq::new(
        config.docker@.len(),
        |i: int| (SourceType::Docker, config.docker@[i].0@),
    ));
    assert(ids_of(config.traefik@) =~= Seq::new(
        config.traefik@.len(),
        |i: int| (SourceType::Traefik, config.traefik@[i].0@),
    ));
    assert(ids_of(config.remote@) =~= Seq::new(
        config.remote@.len(),
        |i: int| (SourceType::Remote, config.remote@[i].0@),
    ));
}

/// Two configurations of a source are the same exactly when all that they say is, but for the case of
/// names.
pub proof fn law_all_settings_count(
    dhcp: (DhcpConfig, DhcpConfig),
    file: (FileConfig, FileConfig),
    docker: (DockerConfig, DockerConfig),
    traefik: (TraefikConfig, TraefikConfig),
    remote: (RemoteConfig, RemoteConfig),
)
    ensures
        dhcp.0.same_config(&dhcp.1) <==> dhcp.0.lease_file@ == dhcp.1.lease_file@ && fold(
            dhcp.0.zone@,
        ) == fold(dhcp.1.zone@),
        file.0.same_config(&file.1) <==> file.0@ == file.1@,
        docker.0.same_config(&docker.1) <==> match docker {
            (DockerConfig::Address(a), DockerConfig::Address(b)) => a@ == b@,
            (DockerConfig::Tls(a), DockerConfig::Tls(b)) => a.address == b.address
                && a.private_key@ == b.private_key@ && a.certificate@ == b.certificate@ && a.ca@
                == b.ca@,
            (DockerConfig::Local, DockerConfig::Local) => true,
            _ => false,
        },
        traefik.0.same_config(&traefik.1) <==> traefik.0.url@ == traefik.1.url@
            && traefik.0.interval_ms == traefik.1.interval_ms && match (
            traefik.0.address,
            traefik.1.address,
        ) {
            (Some(a), Some(b)) => fold_data(a@) == fold_data(b@),
            (None, None) => true,
            _ => false,
        },
        remote.0.same_config(&remote.1) <==> remote.0.url@ == remote.1.url@ && remote.0.interval_ms
            == remote.1.interval_ms,
{
}

} // verus!
