//! What is known of a docker server, and when it is looked at again.

use vstd::prelude::*;
use crate::pairs::{is_last, lemma_place, lemma_place_is, lemma_put_all, place, put, put_all};
use crate::text::{
    chars_of, find_char, lemma_position, lemma_position_is, part_of, position, text_of,
};

verus! {

/// How long the server may take to reply, in seconds.
pub const DOCKER_TIMEOUT: u64 = 4;

/// How long to wait before connecting again, in milliseconds.
pub const RECONNECT_DELAY_MS: u64 = 5000;

/// How long the state is held back, in milliseconds.
pub const STATE_DEBOUNCE_MS: u64 = 500;

/// A server that is reached over an encrypted connection.
#[derive(Debug)]
pub struct DockerTls {
    pub address: String,
    pub private_key: String,
    pub certificate: String,
    pub ca: String,
}

/// A server.
#[derive(Debug)]
pub enum DockerConfig {
    Address(String),
    Tls(DockerTls),
}

/// Labels, by their names.
pub type Labels = Vec<(String, String)>;

/// A network.
#[derive(Debug)]
pub struct Network {
    pub id: String,
    pub name: String,
    pub containers: Vec<String>,
    pub labels: Labels,
}

/// A container.
#[derive(Debug)]
pub struct Container {
    pub id: String,
    pub names: Vec<String>,
    pub image: String,
    pub networks: Vec<String>,
    pub labels: Labels,
}

/// The networks and containers of a server. Each has an identifier of its own.
#[derive(Debug)]
pub struct DockerState {
    pub networks: Vec<Network>,
    pub containers: Vec<Container>,
}

/// How a server is reached.
#[derive(Clone, Copy, PartialEq, Eq, Debug, Hash, Structural)]
pub enum ConnectionKind {
    Http,
    Socket,
    Ssl,
    Defaults,
}

/// How a server is reached: by HTTP where its address says so, else by a local socket; over an
/// encrypted connection where keys are configured; by the means of the system where nothing is.
pub fn connect(config: &Option<DockerConfig>) -> (r: ConnectionKind)
    ensures
        r == match *config {
            Some(DockerConfig::Address(address)) => if crate::sources::docker::starts_with(
                address@,
                "http://"@,
            ) {
                ConnectionKind::Http
            } else {
                ConnectionKind::Socket
            },
            Some(DockerConfig::Tls(_)) => ConnectionKind::Ssl,
            None => ConnectionKind::Defaults,
        },
{
    match config {
        Some(DockerConfig::Address(address)) => if crate::sources::docker::has_prefix(
            address.as_str(),
            "http://",
        ) {
            ConnectionKind::Http
        } else {
            ConnectionKind::Socket
        },
        Some(DockerConfig::Tls(_)) => ConnectionKind::Ssl,
        None => ConnectionKind::Defaults,
    }
}

/// Whether an event may have changed the state. Commands that are run in a container do not.
pub open spec fn event_useful(typ: Option<Seq<char>>, action: Option<Seq<char>>) -> bool {
    match (typ, action) {
        (Some(typ), Some(action)) => if typ == "container"@ {
            let k = position(action, ':');
            if k < action.len() {
                action.take(k) != "exec_create"@ && action.take(k) != "exec_start"@
            } else {
                action != "exec_die"@
            }
        } else {
            true
        },
        _ => true,
    }
}

/// The text that there may be.
pub open spec fn text_view(s: Option<String>) -> Option<Seq<char>> {
    match s {
        Some(s) => Some(s@),
        None => None,
    }
}

/// Whether an event may have changed the state.
pub fn useful_event(typ: &Option<String>, action: &Option<String>) -> (r: bool)
    ensures
        r == event_useful(text_view(*typ), text_view(*action)),
{
    match (typ, action) {
        (Some(typ), Some(action)) => {
            let container = "container".to_owned();
            if *typ != container {
                return true;
            }
            let chars = chars_of(action.as_str());
            let k: usize = find_char(chars.as_slice(), ':');
            if k < chars.len() {
                let start = part_of(chars.as_slice(), 0, k);
                assert(start@ =~= action@.take(k as int));
                let command = text_of(start.as_slice());
                let create = "exec_create".to_owned();
                let begin = "exec_start".to_owned();
                command != create && command != begin
            } else {
                let die = "exec_die".to_owned();
                *action != die
            }
        },
        _ => true,
    }
}

/// A network as the server describes it.
#[derive(Debug)]
pub struct NetworkSummary {
    pub id: Option<String>,
    pub name: Option<String>,
    pub containers: Option<Vec<String>>,
    pub labels: Option<Labels>,
}

/// A container as the server describes it.
#[derive(Debug)]
pub struct ContainerSummary {
    pub id: Option<String>,
    pub image: Option<String>,
    pub names: Option<Vec<String>>,
    pub networks: Option<Vec<String>>,
    pub labels: Option<Labels>,
}

/// Whether a network is fully described.
pub open spec fn network_complete(state: NetworkSummary) -> bool {
    state.id is Some && state.name is Some && state.containers is Some && state.labels is Some
}

/// Whether a container is fully described.
pub open spec fn container_complete(state: ContainerSummary) -> bool {
    state.id is Some && state.image is Some && state.names is Some && state.networks is Some
        && state.labels is Some
}

/// The network that a full description is of.
pub open spec fn network_of(state: NetworkSummary) -> Network {
    Network {
        id: state.id->0,
        name: state.name->0,
        containers: state.containers->0,
        labels: state.labels->0,
    }
}

/// The container that a full description is of.
pub open spec fn container_of(state: ContainerSummary) -> Container {
    Container {
        id: state.id->0,
        image: state.image->0,
        names: state.names->0,
        networks: state.networks->0,
        labels: state.labels->0,
    }
}

/// Networks by their identifiers.
pub open spec fn networks_by_id(networks: Seq<Network>) -> Seq<(Seq<char>, Network)> {
    Seq::new(networks.len(), |i: int| (networks[i].id@, networks[i]))
}

/// Containers by their identifiers.
pub open spec fn containers_by_id(containers: Seq<Container>) -> Seq<(Seq<char>, Container)> {
    Seq::new(containers.len(), |i: int| (containers[i].id@, containers[i]))
}

/// The networks that are fully described, the last with each identifier.
pub open spec fn networks_of(states: Seq<NetworkSummary>) -> Seq<Network>
    decreases states.len(),
{
    if states.len() == 0 {
        Seq::empty()
    } else {
        let rest = networks_of(states.drop_last());
        if network_complete(states.last()) {
            let network = network_of(states.last());
            let k = place(networks_by_id(rest), network.id@);
            if k < rest.len() {
                rest.update(k, network)
            } else {
                rest.push(network)
            }
        } else {
            rest
        }
    }
}

/// The containers that are fully described, the last with each identifier.
pub open spec fn containers_of(states: Seq<ContainerSummary>) -> Seq<Container>
    decreases states.len(),
{
    if states.len() == 0 {
        Seq::empty()
    } else {
        let rest = containers_of(states.drop_last());
        if container_complete(states.last()) {
            let container = container_of(states.last());
            let k = place(containers_by_id(rest), container.id@);
            if k < rest.len() {
                rest.update(k, container)
            } else {
                rest.push(container)
            }
        } else {
            rest
        }
    }
}

/// Adds a network in place of the one with its identifier.
fn add_network(networks: &mut Vec<Network>, network: Network)
    ensures
        ({
            let k = place(networks_by_id(old(networks)@), network.id@);
            final(networks)@ == if k < old(networks)@.len() {
                old(networks)@.update(k, network)
            } else {
                old(networks)@.push(network)
            }
        }),
{
    let ghost all = networks_by_id(networks@);
    let mut i: usize = 0;
    while i < networks.len() && networks[i].id != network.id
        invariant
            i <= networks.len(),
            networks@ == old(networks)@,
            all == networks_by_id(networks@),
            forall|j: int| 0 <= j < i ==> (#[trigger] all[j]).0 != network.id@,
        decreases networks.len() - i,
    {
        assert(all[i as int].0 != network.id@);
        i += 1;
    }
    proof {
        if i < networks.len() {
            assert(all[i as int].0 == network.id@);
        }
        lemma_place_is(all, network.id@, i as int);
    }
    if i < networks.len() {
        networks.set(i, network);
    } else {
        networks.push(network);
    }
}

/// Adds a container in place of the one with its identifier.
fn add_container(containers: &mut Vec<Container>, container: Container)
    ensures
        ({
            let k = place(containers_by_id(old(containers)@), container.id@);
            final(containers)@ == if k < old(containers)@.len() {
                old(containers)@.update(k, container)
            } else {
                old(containers)@.push(container)
            }
        }),
{
    let ghost all = containers_by_id(containers@);
    let mut i: usize = 0;
    while i < containers.len() && containers[i].id != container.id
        invariant
            i <= containers.len(),
            containers@ == old(containers)@,
            all == containers_by_id(containers@),
            forall|j: int| 0 <= j < i ==> (#[trigger] all[j]).0 != container.id@,
        decreases containers.len() - i,
    {
        assert(all[i as int].0 != container.id@);
        i += 1;
    }
    proof {
        if i < containers.len() {
            assert(all[i as int].0 == container.id@);
        }
        lemma_place_is(all, container.id@, i as int);
    }
    if i < containers.len() {
        containers.set(i, container);
    } else {
        containers.push(container);
    }
}

/// The networks and containers of a server, as far as it describes them fully.
pub fn fetch_state(networks: Vec<NetworkSummary>, containers: Vec<ContainerSummary>) -> (r:
    DockerState)
    ensures
        r.networks@ == networks_of(networks@),
        r.containers@ == containers_of(containers@),
{
    let ghost all_networks = networks@;
    let ghost all_containers = containers@;
    let mut known: Vec<Network> = Vec::new();
    let mut networks = networks;
    let mut done: usize = 0;
    let total: usize = networks.len();
    assert(all_networks.take(0) =~= Seq::empty());
    assert(known@ =~= Seq::empty());
    while networks.len() > 0
        invariant
            done + networks.len() == total,
            total == all_networks.len(),
            networks@ == all_networks.skip(done as int),
            known@ == networks_of(all_networks.take(done as int)),
        decreases networks.len(),
    {
        let state = networks.remove(0);
        assert(all_networks.take(done + 1).drop_last() =~= all_networks.take(done as int));
        assert(all_networks.take(done + 1).last() == state);
        assert(networks@ =~= all_networks.skip(done + 1));
        if let NetworkSummary {
            id: Some(id),
            name: Some(name),
            containers: Some(containers),
            labels: Some(labels),
        } = state {
            add_network(&mut known, Network { id, name, containers, labels });
        }
        done += 1;
    }
    assert(all_networks.take(done as int) =~= all_networks);
    let mut running: Vec<Container> = Vec::new();
    let mut containers = containers;
    let mut seen: usize = 0;
    let count: usize = containers.len();
    assert(all_containers.take(0) =~= Seq::empty());
    assert(running@ =~= Seq::empty());
    while containers.len() > 0
        invariant
            seen + containers.len() == count,
            count == all_containers.len(),
            containers@ == all_containers.skip(seen as int),
            running@ == containers_of(all_containers.take(seen as int)),
        decreases containers.len(),
    {
        let state = containers.remove(0);
        assert(all_containers.take(seen + 1).drop_last() =~= all_containers.take(seen as int));
        assert(all_containers.take(seen + 1).last() == state);
        assert(containers@ =~= all_containers.skip(seen + 1));
        if let ContainerSummary {
            id: Some(id),
            image: Some(image),
            names: Some(names),
            networks: Some(networks),
            labels: Some(labels),
        } = state {
            add_container(&mut running, Container { id, names, image, networks, labels });
        }
        seen += 1;
    }
    assert(all_containers.take(seen as int) =~= all_containers);
    DockerState { networks: known, containers: running }
}

/// What happened while a server is watched.
#[derive(Clone, Copy, PartialEq, Eq, Debug, Hash, Structural)]
pub enum LoopEvent {
    /// The server reported an event that may have changed the state, or another.
    Event(bool),
    /// The events ended, or failed.
    EventsEnded,
    /// The configuration changed, for this server or for others.
    Config(bool),
    /// There will be no more configurations.
    ConfigEnded,
}

/// What is done after something happened while a server is watched.
#[derive(Clone, Copy, PartialEq, Eq, Debug, Hash, Structural)]
pub enum LoopAction {
    /// The state is asked for and sent on.
    Fetch,
    /// Nothing.
    Wait,
    /// The server is connected to anew.
    Reconnect,
    /// The watch ends with an error.
    Fail,
}

/// Decides what is done after something happened while a server is watched.
pub fn docker_loop(event: LoopEvent) -> (r: LoopAction)
    ensures
        r == match event {
            LoopEvent::Event(true) => LoopAction::Fetch,
            LoopEvent::Event(false) => LoopAction::Wait,
            LoopEvent::EventsEnded => LoopAction::Reconnect,
            LoopEvent::Config(true) => LoopAction::Reconnect,
            LoopEvent::Config(false) => LoopAction::Wait,
            LoopEvent::ConfigEnded => LoopAction::Fail,
        },
{
    match event {
        LoopEvent::Event(useful) => if useful {
            LoopAction::Fetch
        } else {
            LoopAction::Wait
        },
        LoopEvent::EventsEnded => LoopAction::Reconnect,
        LoopEvent::Config(changed) => if changed {
            LoopAction::Reconnect
        } else {
            LoopAction::Wait
        },
        LoopEvent::ConfigEnded => LoopAction::Fail,
    }
}

/// What happened to the stream of states of a server.
#[derive(Clone, Copy, PartialEq, Eq, Debug, Hash, Structural)]
pub enum StreamEvent {
    /// The watch of the server ended without an error.
    WatchEnded,
    /// The watch of the server failed.
    WatchFailed,
    /// No new configuration came in the time that was waited.
    DelayOver,
    /// A new configuration came.
    NewConfig,
    /// There will be no more configurations.
    ConfigEnded,
}

/// What is done next to have the states of a server.
#[derive(Clone, Copy, PartialEq, Eq, Debug, Hash, Structural)]
pub enum StreamAction {
    /// The server is watched.
    Watch,
    /// A new configuration is waited for, for so many milliseconds at most.
    AwaitConfig(u64),
    /// There will be no more states.
    GiveUp,
}

/// Decides what is done next to have the states of a server. After a failure the server is watched
/// again when some time has passed, or as soon as there is a new configuration; it is not where
/// there will be no more configurations.
pub fn state_stream(event: StreamEvent) -> (r: StreamAction)
    ensures
        r == match event {
            StreamEvent::WatchEnded => StreamAction::Watch,
            StreamEvent::WatchFailed => StreamAction::AwaitConfig(RECONNECT_DELAY_MS),
            StreamEvent::DelayOver => StreamAction::Watch,
            StreamEvent::NewConfig => StreamAction::Watch,
            StreamEvent::ConfigEnded => StreamAction::GiveUp,
        },
{
    match event {
        StreamEvent::WatchFailed => StreamAction::AwaitConfig(RECONNECT_DELAY_MS),
        StreamEvent::ConfigEnded => StreamAction::GiveUp,
        _ => StreamAction::Watch,
    }
}

/// Whether a text starts with another.
pub open spec fn starts_with(s: Seq<char>, start: Seq<char>) -> bool {
    start.len() <= s.len() && s.take(start.len() as int) == start
}

/// An event is passed over exactly when it is of a container and of a command that is run in it: the
/// command is made, is started, or has ended.
pub proof fn law_commands_change_nothing(typ: Option<Seq<char>>, action: Option<Seq<char>>)
    ensures
        !event_useful(typ, action) <==> typ == Some("container"@) && (action matches Some(action)
            && (starts_with(action, "exec_create:"@) || starts_with(action, "exec_start:"@)
            || action == "exec_die"@)),
{
    reveal_strlit("exec_create");
    reveal_strlit("exec_start");
    reveal_strlit("exec_create:");
    reveal_strlit("exec_start:");
    reveal_strlit("exec_die");
    if let Some(action) = action {
        let k = position(action, ':');
        lemma_position(action, ':');
        if starts_with(action, "exec_create:"@) {
            let n = "exec_create"@.len() as int;
            assert(action.take(n + 1) == "exec_create:"@);
            assert forall|i: int| 0 <= i < n implies action[i] == "exec_create"@[i] by {
                assert(action.take(n + 1)[i] == "exec_create:"@[i]);
            }
            assert(action[n] == action.take(n + 1)[n]);
            lemma_position_is(action, ':', n);
            assert(action.take(k) =~= "exec_create"@);
        }
        if starts_with(action, "exec_start:"@) {
            let n = "exec_start"@.len() as int;
            assert(action.take(n + 1) == "exec_start:"@);
            assert forall|i: int| 0 <= i < n implies action[i] == "exec_start"@[i] by {
                assert(action.take(n + 1)[i] == "exec_start:"@[i]);
            }
            assert(action[n] == action.take(n + 1)[n]);
            lemma_position_is(action, ':', n);
            assert(action.take(k) =~= "exec_start"@);
        }
        if k < action.len() {
            if action.take(k) == "exec_create"@ {
                assert(action.take(k + 1) =~= action.take(k).push(':'));
                assert(action.take(k + 1) =~= "exec_create:"@);
            }
            if action.take(k) == "exec_start"@ {
                assert(action.take(k + 1) =~= action.take(k).push(':'));
                assert(action.take(k + 1) =~= "exec_start:"@);
            }
            if action == "exec_die"@ {
                assert(action[k] == ':');
                assert(false);
            }
        }
    }
}

/// Whether a full description is that of a network.
pub open spec fn describes_network(state: NetworkSummary, network: Network) -> bool {
    &&& state.id == Some(network.id)
    &&& state.name == Some(network.name)
    &&& state.containers == Some(network.containers)
    &&& state.labels == Some(network.labels)
}

/// The networks that are put one after the other.
spec fn network_entries(states: Seq<NetworkSummary>) -> Seq<Option<(Seq<char>, Network)>> {
    Seq::new(
        states.len(),
        |i: int|
            if network_complete(states[i]) {
                Some((states[i].id->0@, network_of(states[i])))
            } else {
                None
            },
    )
}

/// The networks by their identifiers are those that are put one after the other.
proof fn lemma_networks_put(states: Seq<NetworkSummary>)
    ensures
        networks_by_id(networks_of(states)) == put_all(network_entries(states)),
    decreases states.len(),
{
    let entries = network_entries(states);
    if states.len() > 0 {
        let front = states.drop_last();
        lemma_networks_put(front);
        assert(entries.drop_last() =~= network_entries(front));
        if network_complete(states.last()) {
            let network = network_of(states.last());
            let rest = networks_of(front);
            lemma_place(networks_by_id(rest), network.id@);
            assert(networks_by_id(networks_of(states)) =~= put(
                networks_by_id(rest),
                network.id@,
                network,
            ));
        }
    } else {
        assert(networks_by_id(networks_of(states)) =~= put_all(entries));
    }
}

/// A network is known exactly when a server describes it fully, wherever in its list, and no full
/// description after that one is of the same identifier.
pub proof fn law_described_networks_are_kept(states: Seq<NetworkSummary>, network: Network)
    ensures
        networks_of(states).contains(network) <==> exists|i: int|
            0 <= i < states.len() && describes_network(#[trigger] states[i], network) && forall|
                j: int,
                other: Network,
            |
                i < j < states.len() && #[trigger] describes_network(states[j], other)
                    ==> other.id@ != network.id@,
{
    let entries = network_entries(states);
    let all = networks_of(states);
    let pairs = networks_by_id(all);
    lemma_networks_put(states);
    lemma_put_all(entries, network.id@, network);
    if all.contains(network) {
        let i = choose|i: int| 0 <= i < all.len() && all[i] == network;
        assert(pairs[i] == (network.id@, network));
        assert(pairs.contains((network.id@, network)));
        let at = choose|at: int| #[trigger] is_last(entries, at, network.id@, network);
        assert(describes_network(states[at], network));
        assert forall|j: int, other: Network|
            at < j < states.len() && #[trigger] describes_network(states[j], other) implies other.id@
            != network.id@ by {
            assert(entries[j] is Some);
        }
    }
    if exists|i: int|
        0 <= i < states.len() && describes_network(#[trigger] states[i], network) && forall|
            j: int,
            other: Network,
        |
            i < j < states.len() && #[trigger] describes_network(states[j], other) ==> other.id@
                != network.id@ {
        let i = choose|i: int|
            0 <= i < states.len() && describes_network(#[trigger] states[i], network) && forall|
                j: int,
                other: Network,
            |
                i < j < states.len() && #[trigger] describes_network(states[j], other)
                    ==> other.id@ != network.id@;
        assert(network_of(states[i]) == network);
        assert forall|j: int| i < j < entries.len() && (#[trigger] entries[j]) is Some implies (
        entries[j]->0).0 != network.id@ by {
            assert(describes_network(states[j], network_of(states[j])));
        }
        assert(is_last(entries, i, network.id@, network));
        let k = choose|k: int| 0 <= k < pairs.len() && pairs[k] == (network.id@, network);
        assert(all[k] == network);
    }
}

/// Whether a full description is that of a container.
pub open spec fn describes_container(state: ContainerSummary, container: Container) -> bool {
    &&& state.id == Some(container.id)
    &&& state.image == Some(container.image)
    &&& state.names == Some(container.names)
    &&& state.networks == Some(container.networks)
    &&& state.labels == Some(container.labels)
}

/// The containers that are put one after the other.
spec fn container_entries(states: Seq<ContainerSummary>) -> Seq<Option<(Seq<char>, Container)>> {
    Seq::new(
        states.len(),
        |i: int|
            if container_complete(states[i]) {
                Some((states[i].id->0@, container_of(states[i])))
            } else {
                None
            },
    )
}

/// The containers by their identifiers are those that are put one after the other.
proof fn lemma_containers_put(states: Seq<ContainerSummary>)
    ensures
        containers_by_id(containers_of(states)) == put_all(container_entries(states)),
    decreases states.len(),
{
    let entries = container_entries(states);
    if states.len() > 0 {
        let front = states.drop_last();
        lemma_containers_put(front);
        assert(entries.drop_last() =~= container_entries(front));
        if container_complete(states.last()) {
            let container = container_of(states.last());
            let rest = containers_of(front);
            lemma_place(containers_by_id(rest), container.id@);
            assert(containers_by_id(containers_of(states)) =~= put(
                containers_by_id(rest),
                container.id@,
                container,
            ));
        }
    } else {
        assert(containers_by_id(containers_of(states)) =~= put_all(entries));
    }
}

/// A container is known exactly when a server describes it fully, wherever in its list, and no full
/// description after that one is of the same identifier.
pub proof fn law_described_containers_are_kept(states: Seq<ContainerSummary>, container: Container)
    ensures
        containers_of(states).contains(container) <==> exists|i: int|
            0 <= i < states.len() && describes_container(#[trigger] states[i], container) && forall|
                j: int,
                other: Container,
            |
                i < j < states.len() && #[trigger] describes_container(states[j], other)
                    ==> other.id@ != container.id@,
{
    let entries = container_entries(states);
    let all = containers_of(states);
    let pairs = containers_by_id(all);
    lemma_containers_put(states);
    lemma_put_all(entries, container.id@, container);
    if all.contains(container) {
        let i = choose|i: int| 0 <= i < all.len() && all[i] == container;
        assert(pairs[i] == (container.id@, container));
        assert(pairs.contains((container.id@, container)));
        let at = choose|at: int| #[trigger] is_last(entries, at, container.id@, container);
        assert(describes_container(states[at], container));
        assert forall|j: int, other: Container|
            at < j < states.len() && #[trigger] describes_container(states[j], other) implies other.id@
            != container.id@ by {
            assert(entries[j] is Some);
        }
    }
    if exists|i: int|
        0 <= i < states.len() && describes_container(#[trigger] states[i], container) && forall|
            j: int,
            other: Container,
        |
            i < j < states.len() && #[trigger] describes_container(states[j], other) ==> other.id@
                != container.id@ {
        let i = choose|i: int|
            0 <= i < states.len() && describes_container(#[trigger] states[i], container) && forall|
                j: int,
                other: Container,
            |
                i < j < states.len() && #[trigger] describes_container(states[j], other)
                    ==> other.id@ != container.id@;
        assert(container_of(states[i]) == container);
        assert forall|j: int| i < j < entries.len() && (#[trigger] entries[j]) is Some implies (
        entries[j]->0).0 != container.id@ by {
            assert(describes_container(states[j], container_of(states[j])));
        }
        assert(is_last(entries, i, container.id@, container));
        let k = choose|k: int| 0 <= k < pairs.len() && pairs[k] == (container.id@, container);
        assert(all[k] == container);
    }
}

} // verus!
