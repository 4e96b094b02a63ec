//! Names from the labels of docker containers.

use vstd::prelude::*;
use crate::dns::record::{fold_data, fold_record, record_views, RData, Record, RecordView};
use crate::dns::rr::RDataView;
use crate::dns::set::{holds, law_append_is_union, no_records, with_records, RecordSet};
use crate::ip::{Ipv4Addr, Ipv6Addr};
use crate::name::{fold, name_from_text, Fqdn};
use crate::pairs::{
    has_key, is_last, lemma_place, lemma_place_is, lemma_put_all, place, put, put_all, unique_keys,
    value_of,
};
use crate::run_loop::LoopResult;
use crate::text::{chars_of, texts};
use crate::util::Address;

verus! {

/// A docker server that is reached over an encrypted connection.
#[derive(Debug)]
pub struct DockerTls {
    pub address: Address,
    pub private_key: String,
    pub certificate: String,
    pub ca: String,
}

/// A docker server.
#[derive(Debug)]
pub enum DockerConfig {
    Address(String),
    Tls(DockerTls),
    Local,
}

/// How a docker server is reached.
#[derive(Debug)]
pub enum Connection {
    Http(String),
    Socket(String),
    Defaults,
    Ssl(String, String, String, String),
}

/// Whether a text starts with another.
pub open spec fn starts_with(s: Seq<char>, prefix: Seq<char>) -> bool {
    s.len() >= prefix.len() && s.take(prefix.len() as int) == prefix
}

/// Whether a text starts with another.
pub(crate) fn has_prefix(s: &str, prefix: &str) -> (r: bool)
    ensures
        r == starts_with(s@, prefix@),
{
    let a = chars_of(s);
    let b = chars_of(prefix);
    if a.len() < b.len() {
        return false;
    }
    let mut i: usize = 0;
    while i < b.len()
        invariant
            i <= b.len() <= a.len(),
            a@ == s@,
            b@ == prefix@,
            forall|j: int| 0 <= j < i ==> #[trigger] a@[j] == b@[j],
        decreases b.len() - i,
    {
        if a[i] != b[i] {
            assert(s@.take(b.len() as int)[i as int] != prefix@[i as int]);
            return false;
        }
        i += 1;
    }
    assert(s@.take(b.len() as int) =~= prefix@);
    true
}

/// How a docker server is reached: by HTTP where its address says so, else by a local socket; over
/// an encrypted connection on port 2376 unless another is given.
pub fn connection(config: &DockerConfig) -> (r: Connection)
    ensures
        match *config {
            DockerConfig::Address(address) => if starts_with(address@, "http://"@) {
                r matches Connection::Http(a) && a@ == address@
            } else {
                r matches Connection::Socket(a) && a@ == address@
            },
            DockerConfig::Tls(tls) => r matches Connection::Ssl(a, key, certificate, ca) && a@
                == crate::util::host_port_text(tls.address.host, tls.address.port_or(2376)) && key@
                == tls.private_key@ && certificate@ == tls.certificate@ && ca@ == tls.ca@,
            DockerConfig::Local => r is Defaults,
        },
{
    match config {
        DockerConfig::Address(address) => if has_prefix(address.as_str(), "http://") {
            Connection::Http(address.clone())
        } else {
            Connection::Socket(address.clone())
        },
        DockerConfig::Tls(tls) => Connection::Ssl(
            tls.address.address(2376),
            tls.private_key.clone(),
            tls.certificate.clone(),
            tls.ca.clone(),
        ),
        DockerConfig::Local => Connection::Defaults,
    }
}

/// Labels, by their names.
pub type Labels = Vec<(String, String)>;

/// The characters of labels.
pub open spec fn label_views(labels: Seq<(String, String)>) -> Seq<(Seq<char>, Seq<char>)> {
    Seq::new(labels.len(), |i: int| (labels[i].0@, labels[i].1@))
}

/// The value of a label.
pub open spec fn label(labels: Seq<(Seq<char>, Seq<char>)>, name: Seq<char>) -> Option<Seq<char>> {
    if has_key(labels, name) {
        Some(value_of(labels, name))
    } else {
        None
    }
}

/// The value of a label.
fn find_label(labels: &Labels, name: &str) -> (r: Option<String>)
    ensures
        match r {
            Some(value) => label(label_views(labels@), name@) == Some(value@),
            None => label(label_views(labels@), name@) is None,
        },
{
    let ghost all = label_views(labels@);
    let key = name.to_owned();
    let mut i: usize = 0;
    while i < labels.len()
        invariant
            i <= labels.len(),
            all == label_views(labels@),
            key@ == name@,
            forall|j: int| 0 <= j < i ==> (#[trigger] all[j]).0 != name@,
        decreases labels.len() - i,
    {
        if labels[i].0 == key {
            proof {
                assert(all[i as int].0 == name@);
                lemma_place_is(all, name@, i as int);
            }
            return Some(labels[i].1.clone());
        }
        assert(all[i as int].0 != name@);
        i += 1;
    }
    proof {
        lemma_place_is(all, name@, i as int);
    }
    None
}

/// A network.
#[derive(Debug)]
pub struct Network {
    pub id: String,
    pub name: String,
    pub driver: Option<String>,
    pub labels: Labels,
}

/// A network that a container is attached to, with its addresses there.
#[derive(Debug)]
pub struct ContainerEndpoint {
    pub network_id: String,
    pub network_name: String,
    pub ipv4: Option<Ipv4Addr>,
    pub ipv6: Option<Ipv6Addr>,
}

/// A container. It is attached to a network once at most.
#[derive(Debug)]
pub struct Container {
    pub id: String,
    pub names: Vec<String>,
    pub image: Option<String>,
    pub networks: Vec<ContainerEndpoint>,
    pub labels: Labels,
}

/// The networks and containers of a docker server. Each has an identifier of its own.
#[derive(Debug)]
pub struct DockerState {
    pub networks: Vec<Network>,
    pub containers: Vec<Container>,
}

/// A network, by the characters of its texts.
#[verifier::ext_equal]
pub struct NetworkView {
    pub id: Seq<char>,
    pub name: Seq<char>,
    pub driver: Option<Seq<char>>,
    pub labels: Seq<(Seq<char>, Seq<char>)>,
}

/// An attachment to a network, by the characters of its texts.
#[verifier::ext_equal]
pub struct EndpointView {
    pub network_id: Seq<char>,
    pub network_name: Seq<char>,
    pub ipv4: Option<Ipv4Addr>,
    pub ipv6: Option<Ipv6Addr>,
}

/// A container, by the characters of its texts.
#[verifier::ext_equal]
pub struct ContainerView {
    pub id: Seq<char>,
    pub names: Seq<Seq<char>>,
    pub image: Option<Seq<char>>,
    pub networks: Seq<EndpointView>,
    pub labels: Seq<(Seq<char>, Seq<char>)>,
}

/// The text that there may be.
pub open spec fn text_view(s: Option<String>) -> Option<Seq<char>> {
    match s {
        Some(s) => Some(s@),
        None => None,
    }
}

impl View for Network {
    type V = NetworkView;

    open spec fn view(&self) -> NetworkView {
        NetworkView {
            id: self.id@,
            name: self.name@,
            driver: text_view(self.driver),
            labels: label_views(self.labels@),
        }
    }
}

impl View for ContainerEndpoint {
    type V = EndpointView;

    open spec fn view(&self) -> EndpointView {
        EndpointView {
            network_id: self.network_id@,
            network_name: self.network_name@,
            ipv4: self.ipv4,
            ipv6: self.ipv6,
        }
    }
}

/// The attachments of a list.
pub open spec fn endpoint_views(endpoints: Seq<ContainerEndpoint>) -> Seq<EndpointView> {
    Seq::new(endpoints.len(), |i: int| endpoints[i]@)
}

impl View for Container {
    type V = ContainerView;

    open spec fn view(&self) -> ContainerView {
        ContainerView {
            id: self.id@,
            names: texts(self.names@),
            image: text_view(self.image),
            networks: endpoint_views(self.networks@),
            labels: label_views(self.labels@),
        }
    }
}

/// The networks of a list.
pub open spec fn network_views(networks: Seq<Network>) -> Seq<NetworkView> {
    Seq::new(networks.len(), |i: int| networks[i]@)
}

/// The containers of a list.
pub open spec fn container_views(containers: Seq<Container>) -> Seq<ContainerView> {
    Seq::new(containers.len(), |i: int| containers[i]@)
}

/// Whether containers can be seen on a network from outside: its label says so, or its driver is
/// of a kind that makes them so.
pub open spec fn network_visible(network: NetworkView) -> bool {
    ||| label(network.labels, "localns.exposed"@) == Some("true"@)
    ||| network.driver matches Some(driver) && (driver == "host"@ || driver == "macvlan"@ || driver
        == "ipvlan"@)
}

/// Whether a network with an identifier is among those that can be seen from outside.
pub open spec fn id_visible(networks: Seq<NetworkView>, id: Seq<char>) -> bool {
    exists|i: int|
        0 <= i < networks.len() && (#[trigger] networks[i]).id == id && network_visible(networks[i])
}

/// The attachments to networks with a name.
pub open spec fn attached_to(endpoints: Seq<EndpointView>, network: Seq<char>) -> Seq<EndpointView>
    decreases endpoints.len(),
{
    if endpoints.len() == 0 {
        Seq::empty()
    } else {
        let rest = attached_to(endpoints.drop_last(), network);
        if endpoints.last().network_name == network {
            rest.push(endpoints.last())
        } else {
            rest
        }
    }
}

/// The attachments to networks that can be seen from outside.
pub open spec fn attached_visibly(
    endpoints: Seq<EndpointView>,
    networks: Seq<NetworkView>,
) -> Seq<EndpointView>
    decreases endpoints.len(),
{
    if endpoints.len() == 0 {
        Seq::empty()
    } else {
        let rest = attached_visibly(endpoints.drop_last(), networks);
        if id_visible(networks, endpoints.last().network_id) {
            rest.push(endpoints.last())
        } else {
            rest
        }
    }
}

/// The attachments whose addresses a container is known by: those to the network that its label
/// names, or the one to a network that can be seen from outside. Where there are several of
/// these, none counts.
pub open spec fn used_endpoints(container: ContainerView, networks: Seq<NetworkView>) -> Seq<
    EndpointView,
> {
    match label(container.labels, "localns.network"@) {
        Some(network) => attached_to(container.networks, network),
        None => {
            let visible = attached_visibly(container.networks, networks);
            if visible.len() == 1 {
                visible
            } else {
                Seq::empty()
            }
        },
    }
}

/// The records for the addresses of attachments.
pub open spec fn endpoint_records(name: Seq<Seq<u8>>, endpoints: Seq<EndpointView>) -> Seq<
    RecordView,
>
    decreases endpoints.len(),
{
    if endpoints.len() == 0 {
        Seq::empty()
    } else {
        let rest = endpoint_records(name, endpoints.drop_last());
        let with_v4 = match endpoints.last().ipv4 {
            Some(ip) => rest.push(RecordView { name, ttl: None, rdata: RDataView::A(ip) }),
            None => rest,
        };
        match endpoints.last().ipv6 {
            Some(ip) => with_v4.push(RecordView { name, ttl: None, rdata: RDataView::Aaaa(ip) }),
            None => with_v4,
        }
    }
}

/// The name that a container is known by: the one that its label gives.
pub open spec fn container_name(container: ContainerView) -> Option<Seq<Seq<u8>>> {
    match label(container.labels, "localns.hostname"@) {
        Some(hostname) => name_from_text(hostname),
        None => None,
    }
}

/// The records for containers.
pub open spec fn container_records(
    containers: Seq<ContainerView>,
    networks: Seq<NetworkView>,
) -> Seq<RecordView>
    decreases containers.len(),
{
    if containers.len() == 0 {
        Seq::empty()
    } else {
        let rest = container_records(containers.drop_last(), networks);
        match container_name(containers.last()) {
            Some(name) => rest + endpoint_records(
                name,
                used_endpoints(containers.last(), networks),
            ),
            None => rest,
        }
    }
}

/// Whether a text that there may be is another.
fn text_is(s: &Option<String>, text: &str) -> (r: bool)
    ensures
        r == (text_view(*s) == Some(text@)),
{
    match s {
        Some(s) => {
            let other = text.to_owned();
            *s == other
        },
        None => false,
    }
}

impl Network {
    /// Whether containers can be seen on the network from outside.
    pub fn visible(&self) -> (r: bool)
        ensures
            r == network_visible(self@),
    {
        let exposed = find_label(&self.labels, "localns.exposed");
        text_is(&exposed, "true") || text_is(&self.driver, "host") || text_is(
            &self.driver,
            "macvlan",
        ) || text_is(&self.driver, "ipvlan")
    }
}

impl DockerState {
    /// Whether a network with an identifier is among those that can be seen from outside.
    fn visible_network(&self, id: &String) -> (r: bool)
        ensures
            r == id_visible(network_views(self.networks@), id@),
    {
        let ghost all = network_views(self.networks@);
        let mut i: usize = 0;
        while i < self.networks.len()
            invariant
                i <= self.networks.len(),
                all == network_views(self.networks@),
                forall|j: int|
                    0 <= j < i ==> !((#[trigger] all[j]).id == id@ && network_visible(all[j])),
            decreases self.networks.len() - i,
        {
            if self.networks[i].id == *id && self.networks[i].visible() {
                assert(all[i as int].id == id@);
                return true;
            }
            assert(!(all[i as int].id == id@ && network_visible(all[i as int])));
            i += 1;
        }
        false
    }

    /// The places of the attachments whose addresses a container is known by.
    fn used(&self, container: &Container) -> (r: Vec<usize>)
        ensures
            forall|i: int| 0 <= i < r.len() ==> (#[trigger] r@[i]) < container.networks.len(),
            picked(container@.networks, r@) == used_endpoints(
                container@,
                network_views(self.networks@),
            ),
    {
        let ghost networks = network_views(self.networks@);
        let ghost all = container@.networks;
        let mut places: Vec<usize> = Vec::new();
        let named = find_label(&container.labels, "localns.network");
        let mut i: usize = 0;
        assert(all.take(0) =~= Seq::empty());
        assert(picked(all, places@) =~= Seq::empty());
        while i < container.networks.len()
            invariant
                i <= container.networks.len(),
                all == endpoint_views(container.networks@),
                networks == network_views(self.networks@),
                forall|j: int|
                    0 <= j < places.len() ==> (#[trigger] places@[j]) < container.networks.len(),
                picked(all, places@) == match text_view(named) {
                    Some(network) => attached_to(all.take(i as int), network),
                    None => attached_visibly(all.take(i as int), networks),
                },
            decreases container.networks.len() - i,
        {
            assert(all.take(i + 1).drop_last() =~= all.take(i as int));
            assert(all.take(i + 1).last() == all[i as int]);
            let used = match &named {
                Some(network) => container.networks[i].network_name == *network,
                None => self.visible_network(&container.networks[i].network_id),
            };
            if used {
                let ghost before = picked(all, places@);
                places.push(i);
                assert(picked(all, places@) =~= before.push(all[i as int]));
            }
            i += 1;
        }
        assert(all.take(i as int) =~= all);
        assert(picked(all, places@).len() == places.len());
        if named.is_none() && places.len() != 1 {
            let none: Vec<usize> = Vec::new();
            assert(picked(all, none@) =~= Seq::empty());
            return none;
        }
        places
    }
}

/// The attachments at some places.
pub open spec fn picked(endpoints: Seq<EndpointView>, places: Seq<usize>) -> Seq<EndpointView> {
    Seq::new(places.len(), |i: int| endpoints[places[i] as int])
}

/// Adds the records for a container.
fn add_container(state: &DockerState, container: &Container, records: &mut Vec<Record>)
    ensures
        record_views(final(records)@) == match container_name(container@) {
            Some(name) => record_views(old(records)@) + endpoint_records(
                name,
                used_endpoints(container@, network_views(state.networks@)),
            ),
            None => record_views(old(records)@),
        },
{
    let hostname = match find_label(&container.labels, "localns.hostname") {
        Some(hostname) => hostname,
        None => {
            return;
        },
    };
    let fqdn = match Fqdn::from_text(hostname.as_str()) {
        Ok(fqdn) => fqdn,
        Err(_) => {
            return;
        },
    };
    let places = state.used(container);
    let ghost start = record_views(records@);
    let ghost endpoints = picked(container@.networks, places@);
    let mut i: usize = 0;
    assert(endpoints.take(0) =~= Seq::empty());
    assert(record_views(records@) =~= start + Seq::empty());
    while i < places.len()
        invariant
            i <= places.len(),
            endpoints == picked(container@.networks, places@),
            forall|j: int|
                0 <= j < places.len() ==> (#[trigger] places@[j]) < container.networks.len(),
            record_views(records@) == start + endpoint_records(fqdn@, endpoints.take(i as int)),
        decreases places.len() - i,
    {
        let ghost part = endpoints.take(i + 1);
        let ghost before = record_views(records@);
        let ghost so_far = endpoint_records(fqdn@, endpoints.take(i as int));
        assert(part.drop_last() =~= endpoints.take(i as int));
        let k: usize = places[i];
        let endpoint = &container.networks[k];
        assert(part.last() == endpoint@);
        if let Some(ip) = endpoint.ipv4 {
            let record = Record::new(fqdn.clone(), RData::A(ip));
            records.push(record);
            assert(record_views(records@) =~= before.push(record@));
            assert(record_views(records@) =~= start + so_far.push(record@));
        }
        let ghost middle = record_views(records@);
        if let Some(ip) = endpoint.ipv6 {
            let record = Record::new(fqdn.clone(), RData::Aaaa(ip));
            records.push(record);
            assert(record_views(records@) =~= middle.push(record@));
        }
        i += 1;
        assert(record_views(records@) =~= start + endpoint_records(fqdn@, part));
    }
    assert(endpoints.take(i as int) =~= endpoints);
}

/// Whether labels give a value for a name: the first label with that name does.
pub open spec fn labelled(
    labels: Seq<(Seq<char>, Seq<char>)>,
    name: Seq<char>,
    value: Seq<char>,
) -> bool {
    exists|i: int|
        0 <= i < labels.len() && #[trigger] labels[i] == (name, value) && forall|j: int|
            0 <= j < i ==> (#[trigger] labels[j]).0 != name
}

/// Whether no label has a name.
pub open spec fn unlabelled(labels: Seq<(Seq<char>, Seq<char>)>, name: Seq<char>) -> bool {
    forall|i: int| 0 <= i < labels.len() ==> (#[trigger] labels[i]).0 != name
}

/// Whether a network with an identifier can be seen from outside: it is labelled as such, or its
/// driver makes it so.
pub open spec fn seen_outside(networks: Seq<NetworkView>, id: Seq<char>) -> bool {
    exists|i: int|
        0 <= i < networks.len() && (#[trigger] networks[i]).id == id && (labelled(
            networks[i].labels,
            "localns.exposed"@,
            "true"@,
        ) || networks[i].driver == Some("host"@) || networks[i].driver == Some("macvlan"@)
            || networks[i].driver == Some("ipvlan"@))
}

/// Whether a container is known by the addresses of one of its attachments: it is one to the network
/// that its label names, or where there is no such label, the only one to a network that can be seen
/// from outside.
pub open spec fn known_at(container: ContainerView, networks: Seq<NetworkView>, at: int) -> bool {
    &&& 0 <= at < container.networks.len()
    &&& labelled(container.labels, "localns.network"@, container.networks[at].network_name) || (
    unlabelled(container.labels, "localns.network"@) && seen_outside(
        networks,
        container.networks[at].network_id,
    ) && forall|j: int|
        0 <= j < container.networks.len() && j != at ==> !seen_outside(
            networks,
            (#[trigger] container.networks[j]).network_id,
        ))
}

/// Whether a container is known by a name: that which its label gives.
pub open spec fn known_as(container: ContainerView, name: Seq<Seq<u8>>) -> bool {
    exists|hostname: Seq<char>| #[trigger]
        labelled(container.labels, "localns.hostname"@, hostname) && name_from_text(hostname)
            == Some(name)
}

/// Whether a record is one for the address of an attachment, under a name.
pub open spec fn is_address_of(
    record: RecordView,
    name: Seq<Seq<u8>>,
    endpoint: EndpointView,
) -> bool {
    &&& fold(record.name) == fold(name)
    &&& record.ttl is None
    &&& (endpoint.ipv4 matches Some(ip) && record.rdata == RDataView::A(ip)) || (
    endpoint.ipv6 matches Some(ip) && record.rdata == RDataView::Aaaa(ip))
}

/// Whether a record is for an address that a container is known by, under the name that it is known
/// by.
pub open spec fn record_of_container(
    container: ContainerView,
    networks: Seq<NetworkView>,
    record: RecordView,
) -> bool {
    exists|name: Seq<Seq<u8>>, at: int|
        known_as(container, name) && known_at(container, networks, at) && #[trigger] is_address_of(
            record,
            name,
            container.networks[at],
        )
}

/// Whether a record is for an address that one of the containers is known by.
pub open spec fn record_of_some(
    containers: Seq<ContainerView>,
    networks: Seq<NetworkView>,
    record: RecordView,
) -> bool {
    exists|i: int|
        0 <= i < containers.len() && record_of_container(
            #[trigger] containers[i],
            networks,
            record,
        )
}

/// A label is found where labels give a value for it.
proof fn lemma_label(labels: Seq<(Seq<char>, Seq<char>)>, name: Seq<char>, value: Seq<char>)
    ensures
        label(labels, name) == Some(value) <==> labelled(labels, name, value),
        label(labels, name) is None <==> unlabelled(labels, name),
{
    lemma_place(labels, name);
    let k = place(labels, name);
    if label(labels, name) == Some(value) {
        assert(labels[k] == (name, value));
    }
    if labelled(labels, name, value) {
        let i = choose|i: int|
            0 <= i < labels.len() && #[trigger] labels[i] == (name, value) && forall|j: int|
                0 <= j < i ==> (#[trigger] labels[j]).0 != name;
        lemma_place_is(labels, name, i);
    }
    if label(labels, name) is Some {
        assert(labels[k].0 == name);
    }
    if label(labels, name) is None {
        assert forall|i: int| 0 <= i < labels.len() implies (#[trigger] labels[i]).0 != name by {
            assert(i < k);
        }
    }
}

/// A network can be seen from outside where its label or its driver says so.
proof fn lemma_visible(networks: Seq<NetworkView>, id: Seq<char>)
    ensures
        id_visible(networks, id) <==> seen_outside(networks, id),
{
    if id_visible(networks, id) {
        let i = choose|i: int|
            0 <= i < networks.len() && (#[trigger] networks[i]).id == id && network_visible(
                networks[i],
            );
        lemma_label(networks[i].labels, "localns.exposed"@, "true"@);
    }
    if seen_outside(networks, id) {
        let i = choose|i: int|
            0 <= i < networks.len() && (#[trigger] networks[i]).id == id && (labelled(
                networks[i].labels,
                "localns.exposed"@,
                "true"@,
            ) || networks[i].driver == Some("host"@) || networks[i].driver == Some("macvlan"@)
                || networks[i].driver == Some("ipvlan"@));
        lemma_label(networks[i].labels, "localns.exposed"@, "true"@);
        assert(network_visible(networks[i]));
    }
}

/// The attachments to networks with a name.
proof fn lemma_attached_to(
    endpoints: Seq<EndpointView>,
    network: Seq<char>,
    endpoint: EndpointView,
)
    ensures
        attached_to(endpoints, network).contains(endpoint) <==> endpoints.contains(endpoint)
            && endpoint.network_name == network,
    decreases endpoints.len(),
{
    let all = attached_to(endpoints, network);
    if endpoints.len() > 0 {
        let front = endpoints.drop_last();
        let rest = attached_to(front, network);
        lemma_attached_to(front, network, endpoint);
        assert(endpoints =~= front.push(endpoints.last()));
        lemma_push_contains(front, endpoints.last(), endpoint);
        lemma_push_contains(rest, endpoints.last(), endpoint);
    } else {
        assert(!all.contains(endpoint));
        assert(!endpoints.contains(endpoint));
    }
}

/// What is in a list with one more at its end.
proof fn lemma_push_contains<T>(items: Seq<T>, last: T, item: T)
    ensures
        items.push(last).contains(item) <==> items.contains(item) || item == last,
{
    let all = items.push(last);
    if all.contains(item) {
        let i = choose|i: int| 0 <= i < all.len() && all[i] == item;
        if i < items.len() {
            assert(items[i] == item);
        }
    }
    if items.contains(item) {
        let i = choose|i: int| 0 <= i < items.len() && items[i] == item;
        assert(all[i] == item);
    }
    assert(all[items.len() as int] == last);
}

/// The attachments to networks that can be seen from outside.
proof fn lemma_attached_visibly(
    endpoints: Seq<EndpointView>,
    networks: Seq<NetworkView>,
    at: int,
)
    requires
        0 <= at < endpoints.len(),
        id_visible(networks, endpoints[at].network_id),
    ensures
        attached_visibly(endpoints, networks).contains(endpoints[at]),
        attached_visibly(endpoints, networks).len() == 1 ==> forall|j: int|
            0 <= j < endpoints.len() && j != at ==> !id_visible(
                networks,
                (#[trigger] endpoints[j]).network_id,
            ),
        (forall|j: int|
            0 <= j < endpoints.len() && j != at ==> !id_visible(
                networks,
                (#[trigger] endpoints[j]).network_id,
            )) ==> attached_visibly(endpoints, networks) == seq![endpoints[at]],
    decreases endpoints.len(),
{
    let all = attached_visibly(endpoints, networks);
    let front = endpoints.drop_last();
    let rest = attached_visibly(front, networks);
    let last = endpoints.len() - 1;
    assert(endpoints[last] == endpoints.last());
    if at < last {
        assert(front[at] == endpoints[at]);
        lemma_attached_visibly(front, networks, at);
        if id_visible(networks, endpoints.last().network_id) {
            lemma_push_contains(rest, endpoints.last(), endpoints[at]);
            assert(rest.len() > 0);
        }
        if all.len() == 1 {
            assert forall|j: int| 0 <= j < endpoints.len() && j != at implies !id_visible(
                networks,
                (#[trigger] endpoints[j]).network_id,
            ) by {
                if j < last {
                    assert(front[j] == endpoints[j]);
                }
            }
        }
        if forall|j: int|
            0 <= j < endpoints.len() && j != at ==> !id_visible(
                networks,
                (#[trigger] endpoints[j]).network_id,
            ) {
            assert forall|j: int| 0 <= j < front.len() && j != at implies !id_visible(
                networks,
                (#[trigger] front[j]).network_id,
            ) by {
                assert(front[j] == endpoints[j]);
            }
        }
    } else {
        lemma_push_contains(rest, endpoints.last(), endpoints[at]);
        if all.len() == 1 {
            assert forall|j: int| 0 <= j < endpoints.len() && j != at implies !id_visible(
                networks,
                (#[trigger] endpoints[j]).network_id,
            ) by {
                assert(front[j] == endpoints[j]);
                if id_visible(networks, endpoints[j].network_id) {
                    lemma_attached_visibly(front, networks, j);
                    assert(rest.len() > 0);
                }
            }
        }
        if forall|j: int|
            0 <= j < endpoints.len() && j != at ==> !id_visible(
                networks,
                (#[trigger] endpoints[j]).network_id,
            ) {
            lemma_none_visible(front, networks);
            assert(all =~= seq![endpoints[at]]);
        }
    }
}

/// Where no network can be seen from outside, no attachment is to one that can.
proof fn lemma_none_visible(endpoints: Seq<EndpointView>, networks: Seq<NetworkView>)
    requires
        forall|j: int|
            0 <= j < endpoints.len() ==> !id_visible(
                networks,
                (#[trigger] endpoints[j]).network_id,
            ),
    ensures
        attached_visibly(endpoints, networks).len() == 0,
    decreases endpoints.len(),
{
    if endpoints.len() > 0 {
        let front = endpoints.drop_last();
        assert(endpoints[endpoints.len() - 1] == endpoints.last());
        assert forall|j: int| 0 <= j < front.len() implies !id_visible(
            networks,
            (#[trigger] front[j]).network_id,
        ) by {
            assert(front[j] == endpoints[j]);
        }
        lemma_none_visible(front, networks);
    }
}

/// The attachments that a container is known by are those at the places where it is known.
proof fn lemma_used(container: ContainerView, networks: Seq<NetworkView>, endpoint: EndpointView)
    ensures
        used_endpoints(container, networks).contains(endpoint) <==> exists|at: int| #[trigger]
            known_at(container, networks, at) && container.networks[at] == endpoint,
{
    let used = used_endpoints(container, networks);
    let all = container.networks;
    lemma_label(container.labels, "localns.network"@, endpoint.network_name);
    match label(container.labels, "localns.network"@) {
        Some(network) => {
            lemma_label(container.labels, "localns.network"@, network);
            lemma_attached_to(all, network, endpoint);
            if used.contains(endpoint) {
                let at = choose|at: int| 0 <= at < all.len() && all[at] == endpoint;
                assert(known_at(container, networks, at));
            }
            if exists|at: int| #[trigger]
                known_at(container, networks, at) && all[at] == endpoint {
                let at = choose|at: int| #[trigger]
                    known_at(container, networks, at) && all[at] == endpoint;
                assert(all.contains(endpoint));
            }
        },
        None => {
            assert forall|j: int| 0 <= j < all.len() implies id_visible(
                networks,
                (#[trigger] all[j]).network_id,
            ) == seen_outside(networks, all[j].network_id) by {
                lemma_visible(networks, all[j].network_id);
            }
            if used.contains(endpoint) {
                lemma_visibly_within(all, networks, endpoint);
                let at = choose|at: int|
                    0 <= at < all.len() && all[at] == endpoint && id_visible(
                        networks,
                        all[at].network_id,
                    );
                lemma_attached_visibly(all, networks, at);
                assert(known_at(container, networks, at));
            }
            if exists|at: int| #[trigger]
                known_at(container, networks, at) && all[at] == endpoint {
                let at = choose|at: int| #[trigger]
                    known_at(container, networks, at) && all[at] == endpoint;
                lemma_attached_visibly(all, networks, at);
                assert(used[0] == endpoint);
            }
        },
    }
}

/// The attachments to networks that can be seen from outside are among all.
proof fn lemma_visibly_within(
    endpoints: Seq<EndpointView>,
    networks: Seq<NetworkView>,
    endpoint: EndpointView,
)
    requires
        attached_visibly(endpoints, networks).contains(endpoint),
    ensures
        exists|at: int|
            0 <= at < endpoints.len() && endpoints[at] == endpoint && id_visible(
                networks,
                endpoints[at].network_id,
            ),
    decreases endpoints.len(),
{
    if endpoints.len() > 0 {
        let front = endpoints.drop_last();
        let rest = attached_visibly(front, networks);
        if rest.contains(endpoint) {
            lemma_visibly_within(front, networks, endpoint);
            let at = choose|at: int|
                0 <= at < front.len() && front[at] == endpoint && id_visible(
                    networks,
                    front[at].network_id,
                );
            assert(endpoints[at] == endpoint);
        } else {
            lemma_push_contains(rest, endpoints.last(), endpoint);
            assert(endpoints[endpoints.len() - 1] == endpoint);
        }
    }
}

/// The records for attachments are those for their addresses.
proof fn lemma_endpoint_records(
    name: Seq<Seq<u8>>,
    endpoints: Seq<EndpointView>,
    record: RecordView,
)
    ensures
        holds(endpoint_records(name, endpoints), record) <==> exists|i: int|
            0 <= i < endpoints.len() && is_address_of(record, name, #[trigger] endpoints[i]),
    decreases endpoints.len(),
{
    if endpoints.len() > 0 {
        let front = endpoints.drop_last();
        let last = endpoints.last();
        let rest = endpoint_records(name, front);
        lemma_endpoint_records(name, front, record);
        assert(endpoints[endpoints.len() - 1] == last);
        let with_v4 = match last.ipv4 {
            Some(ip) => rest.push(RecordView { name, ttl: None, rdata: RDataView::A(ip) }),
            None => rest,
        };
        if let Some(ip) = last.ipv4 {
            lemma_push_holds(rest, RecordView { name, ttl: None, rdata: RDataView::A(ip) }, record);
        }
        if let Some(ip) = last.ipv6 {
            lemma_push_holds(
                with_v4,
                RecordView { name, ttl: None, rdata: RDataView::Aaaa(ip) },
                record,
            );
        }
        if exists|i: int|
            0 <= i < endpoints.len() && is_address_of(record, name, #[trigger] endpoints[i]) {
            let i = choose|i: int|
                0 <= i < endpoints.len() && is_address_of(record, name, #[trigger] endpoints[i]);
            if i < front.len() {
                assert(front[i] == endpoints[i]);
            }
        }
        if exists|i: int|
            0 <= i < front.len() && is_address_of(record, name, #[trigger] front[i]) {
            let i = choose|i: int|
                0 <= i < front.len() && is_address_of(record, name, #[trigger] front[i]);
            assert(endpoints[i] == front[i]);
        }
    }
}

/// What is held by records with one more at their end.
proof fn lemma_push_holds(records: Seq<RecordView>, last: RecordView, record: RecordView)
    ensures
        holds(records.push(last), record) <==> holds(records, record) || fold_record(last)
            == fold_record(record),
        fold_record(last) == fold_record(record) <==> fold(last.name) == fold(record.name)
            && last.ttl == record.ttl && fold_data(last.rdata) == fold_data(record.rdata),
{
    let all = records.push(last);
    if holds(all, record) {
        let i = choose|i: int|
            0 <= i < all.len() && fold_record(#[trigger] all[i]) == fold_record(record);
        if i < records.len() {
            assert(records[i] == all[i]);
        }
    }
    if holds(records, record) {
        let i = choose|i: int|
            0 <= i < records.len() && fold_record(#[trigger] records[i]) == fold_record(record);
        assert(all[i] == records[i]);
    }
    assert(all[records.len() as int] == last);
    if fold_record(last) == fold_record(record) {
        assert(fold_record(last).name == fold_record(record).name);
        assert(fold_record(last).ttl == fold_record(record).ttl);
        assert(fold_record(last).rdata == fold_record(record).rdata);
    }
}

/// What is held by records with others after them.
proof fn lemma_concat_holds(a: Seq<RecordView>, b: Seq<RecordView>, record: RecordView)
    ensures
        holds(a + b, record) <==> holds(a, record) || holds(b, record),
{
    let all = a + b;
    if holds(all, record) {
        let i = choose|i: int|
            0 <= i < all.len() && fold_record(#[trigger] all[i]) == fold_record(record);
        if i < a.len() {
            assert(a[i] == all[i]);
        } else {
            assert(b[i - a.len()] == all[i]);
        }
    }
    if holds(a, record) {
        let i = choose|i: int|
            0 <= i < a.len() && fold_record(#[trigger] a[i]) == fold_record(record);
        assert(all[i] == a[i]);
    }
    if holds(b, record) {
        let i = choose|i: int|
            0 <= i < b.len() && fold_record(#[trigger] b[i]) == fold_record(record);
        assert(all[i + a.len()] == b[i]);
    }
}

/// The records for one container are those of the addresses and the name that it is known by.
proof fn lemma_one_container(
    container: ContainerView,
    networks: Seq<NetworkView>,
    record: RecordView,
)
    ensures
        record_of_container(container, networks, record) <==> container_name(container) is Some
            && holds(
            endpoint_records(
                container_name(container)->0,
                used_endpoints(container, networks),
            ),
            record,
        ),
{
    let used = used_endpoints(container, networks);
    if record_of_container(container, networks, record) {
        let (name, at) = choose|name: Seq<Seq<u8>>, at: int|
            known_as(container, name) && known_at(container, networks, at)
                && #[trigger] is_address_of(record, name, container.networks[at]);
        let hostname = choose|hostname: Seq<char>| #[trigger]
            labelled(container.labels, "localns.hostname"@, hostname) && name_from_text(hostname)
                == Some(name);
        lemma_label(container.labels, "localns.hostname"@, hostname);
        lemma_used(container, networks, container.networks[at]);
        let i = choose|i: int| 0 <= i < used.len() && used[i] == container.networks[at];
        assert(is_address_of(record, name, used[i]));
        lemma_endpoint_records(name, used, record);
    }
    if container_name(container) is Some && holds(
        endpoint_records(container_name(container)->0, used),
        record,
    ) {
        let name = container_name(container)->0;
        let hostname = label(container.labels, "localns.hostname"@)->0;
        lemma_label(container.labels, "localns.hostname"@, hostname);
        assert(known_as(container, name));
        lemma_endpoint_records(name, used, record);
        let i = choose|i: int|
            0 <= i < used.len() && is_address_of(record, name, #[trigger] used[i]);
        assert(used.contains(used[i]));
        lemma_used(container, networks, used[i]);
        let at = choose|at: int| #[trigger]
            known_at(container, networks, at) && container.networks[at] == used[i];
        assert(is_address_of(record, name, container.networks[at]));
    }
}

/// The records for containers are those of each of them.
proof fn lemma_containers(
    containers: Seq<ContainerView>,
    networks: Seq<NetworkView>,
    record: RecordView,
)
    ensures
        holds(container_records(containers, networks), record) <==> record_of_some(
            containers,
            networks,
            record,
        ),
    decreases containers.len(),
{
    if containers.len() > 0 {
        let front = containers.drop_last();
        let last = containers.last();
        let rest = container_records(front, networks);
        lemma_containers(front, networks, record);
        lemma_one_container(last, networks, record);
        assert(containers[containers.len() - 1] == last);
        if let Some(name) = container_name(last) {
            lemma_concat_holds(
                rest,
                endpoint_records(name, used_endpoints(last, networks)),
                record,
            );
        }
        if record_of_some(containers, networks, record) {
            let i = choose|i: int|
                0 <= i < containers.len() && record_of_container(
                    #[trigger] containers[i],
                    networks,
                    record,
                );
            if i < front.len() {
                assert(front[i] == containers[i]);
            }
        }
        if record_of_some(front, networks, record) {
            let i = choose|i: int|
                0 <= i < front.len() && record_of_container(#[trigger] front[i], networks, record);
            assert(containers[i] == front[i]);
        }
    }
}

/// A record is made for containers exactly when it is for an address that one of them is known by,
/// under the name that its label gives, however many others there are and wherever it stands among
/// them.
pub proof fn law_every_container_has_its_records(
    containers: Seq<ContainerView>,
    networks: Seq<NetworkView>,
    record: RecordView,
)
    ensures
        holds(
            with_records(no_records(), container_records(containers, networks)).records,
            record,
        ) <==> exists|i: int|
            0 <= i < containers.len() && record_of_container(
                #[trigger] containers[i],
                networks,
                record,
            ),
{
    law_append_is_union(no_records(), container_records(containers, networks), record);
    lemma_containers(containers, networks, record);
}

/// The records for the containers of a docker server.
pub fn generate_records(state: &DockerState) -> (r: RecordSet)
    ensures
        r@ == with_records(
            no_records(),
            container_records(
                container_views(state.containers@),
                network_views(state.networks@),
            ),
        ),
        forall|record: RecordView|
            #[trigger] holds(r@.records, record) <==> record_of_some(
                container_views(state.containers@),
                network_views(state.networks@),
                record,
            ),
{
    let mut records: Vec<Record> = Vec::new();
    let ghost all = container_views(state.containers@);
    let ghost networks = network_views(state.networks@);
    let mut i: usize = 0;
    assert(all.take(0) =~= Seq::empty());
    assert(record_views(records@) =~= Seq::empty());
    while i < state.containers.len()
        invariant
            i <= state.containers.len(),
            all == container_views(state.containers@),
            networks == network_views(state.networks@),
            record_views(records@) == container_records(all.take(i as int), networks),
        decreases state.containers.len() - i,
    {
        assert(all.take(i + 1).drop_last() =~= all.take(i as int));
        assert(all.take(i + 1).last() == all[i as int]);
        add_container(state, &state.containers[i], &mut records);
        i += 1;
    }
    assert(all.take(i as int) =~= all);
    proof {
        let made = with_records(no_records(), container_records(all, networks)).records;
        assert forall|record: RecordView|
            #[trigger] holds(made, record) <==> record_of_some(all, networks, record) by {
            law_every_container_has_its_records(all, networks, record);
        }
    }
    RecordSet::from_records(&records)
}

/// A network as the docker server describes it.
#[derive(Debug)]
pub struct NetworkSummary {
    pub id: Option<String>,
    pub name: Option<String>,
    pub driver: Option<String>,
    pub labels: Option<Labels>,
}

/// An attachment to a network as the docker server describes it.
#[derive(Debug)]
pub struct EndpointSettings {
    pub network_id: Option<String>,
    pub ip_address: Option<String>,
    pub global_ipv6_address: Option<String>,
}

/// A container as the docker server describes it.
#[derive(Debug)]
pub struct ContainerSummary {
    pub id: Option<String>,
    pub image: Option<String>,
    pub names: Option<Vec<String>>,
    pub networks: Option<Vec<EndpointSettings>>,
    pub labels: Option<Labels>,
}

/// The labels that there may be.
pub open spec fn labels_view(labels: Option<Labels>) -> Seq<(Seq<char>, Seq<char>)> {
    match labels {
        Some(labels) => label_views(labels@),
        None => Seq::empty(),
    }
}

/// The network that a description is of. One without an identifier or a name is none.
pub open spec fn described_network(state: NetworkSummary) -> Option<NetworkView> {
    match (state.id, state.name) {
        (Some(id), Some(name)) => Some(
            NetworkView {
                id: id@,
                name: name@,
                driver: text_view(state.driver),
                labels: labels_view(state.labels),
            },
        ),
        _ => None,
    }
}

/// Networks by their identifiers.
pub open spec fn by_id(networks: Seq<NetworkView>) -> Seq<(Seq<char>, NetworkView)> {
    Seq::new(networks.len(), |i: int| (networks[i].id, networks[i]))
}

/// Networks with one more, in place of the one with its identifier.
pub open spec fn with_network(networks: Seq<NetworkView>, network: NetworkView) -> Seq<NetworkView> {
    let k = place(by_id(networks), network.id);
    if k < networks.len() {
        networks.update(k, network)
    } else {
        networks.push(network)
    }
}

/// The networks that descriptions are of.
pub open spec fn described_networks(states: Seq<NetworkSummary>) -> Seq<NetworkView>
    decreases states.len(),
{
    if states.len() == 0 {
        Seq::empty()
    } else {
        let rest = described_networks(states.drop_last());
        match described_network(states.last()) {
            Some(network) => with_network(rest, network),
            None => rest,
        }
    }
}

/// The attachment that a description is of. One to a network that is not known is none, and an
/// address that cannot be read is left out.
pub open spec fn described_endpoint(state: EndpointSettings, networks: Seq<NetworkView>) -> Option<
    EndpointView,
> {
    match state.network_id {
        Some(id) => {
            let k = place(by_id(networks), id@);
            if k < networks.len() {
                Some(
                    EndpointView {
                        network_id: id@,
                        network_name: networks[k].name,
                        ipv4: match state.ip_address {
                            Some(text) => crate::ip::ipv4_from_text(text@),
                            None => None,
                        },
                        ipv6: match state.global_ipv6_address {
                            Some(text) => match crate::ip::ipv6_from_text(text@) {
                                Some(bits) => Some(Ipv6Addr { bits }),
                                None => None,
                            },
                            None => None,
                        },
                    },
                )
            } else {
                None
            }
        },
        None => None,
    }
}

/// Attachments by their networks.
pub open spec fn by_network(endpoints: Seq<EndpointView>) -> Seq<(Seq<char>, EndpointView)> {
    Seq::new(endpoints.len(), |i: int| (endpoints[i].network_id, endpoints[i]))
}

/// Attachments with one more, in place of the one to its network.
pub open spec fn with_endpoint(endpoints: Seq<EndpointView>, endpoint: EndpointView) -> Seq<
    EndpointView,
> {
    let k = place(by_network(endpoints), endpoint.network_id);
    if k < endpoints.len() {
        endpoints.update(k, endpoint)
    } else {
        endpoints.push(endpoint)
    }
}

/// The attachments that descriptions are of.
pub open spec fn described_endpoints(
    states: Seq<EndpointSettings>,
    networks: Seq<NetworkView>,
) -> Seq<EndpointView>
    decreases states.len(),
{
    if states.len() == 0 {
        Seq::empty()
    } else {
        let rest = described_endpoints(states.drop_last(), networks);
        match described_endpoint(states.last(), networks) {
            Some(endpoint) => with_endpoint(rest, endpoint),
            None => rest,
        }
    }
}

/// The container that a description is of. One without an identifier is none.
pub open spec fn described_container(
    state: ContainerSummary,
    networks: Seq<NetworkView>,
) -> Option<ContainerView> {
    match state.id {
        Some(id) => Some(
            ContainerView {
                id: id@,
                names: match state.names {
                    Some(names) => texts(names@),
                    None => Seq::empty(),
                },
                image: text_view(state.image),
                networks: match state.networks {
                    Some(endpoints) => described_endpoints(endpoints@, networks),
                    None => Seq::empty(),
                },
                labels: labels_view(state.labels),
            },
        ),
        None => None,
    }
}

/// Containers by their identifiers.
pub open spec fn by_container_id(containers: Seq<ContainerView>) -> Seq<
    (Seq<char>, ContainerView),
> {
    Seq::new(containers.len(), |i: int| (containers[i].id, containers[i]))
}

/// Containers with one more, in place of the one with its identifier.
pub open spec fn with_container(containers: Seq<ContainerView>, container: ContainerView) -> Seq<
    ContainerView,
> {
    let k = place(by_container_id(containers), container.id);
    if k < containers.len() {
        containers.update(k, container)
    } else {
        containers.push(container)
    }
}

/// The containers that descriptions are of.
pub open spec fn described_containers(
    states: Seq<ContainerSummary>,
    networks: Seq<NetworkView>,
) -> Seq<ContainerView>
    decreases states.len(),
{
    if states.len() == 0 {
        Seq::empty()
    } else {
        let rest = described_containers(states.drop_last(), networks);
        match described_container(states.last(), networks) {
            Some(container) => with_container(rest, container),
            None => rest,
        }
    }
}

/// The place of the network with an identifier, or the number of networks.
fn find_network(networks: &Vec<Network>, id: &String) -> (r: usize)
    ensures
        r == place(by_id(network_views(networks@)), id@),
        r <= networks.len(),
{
    let ghost all = by_id(network_views(networks@));
    let mut i: usize = 0;
    while i < networks.len() && networks[i].id != *id
        invariant
            i <= networks.len(),
            all == by_id(network_views(networks@)),
            forall|j: int| 0 <= j < i ==> (#[trigger] all[j]).0 != id@,
        decreases networks.len() - i,
    {
        assert(all[i as int].0 != id@);
        i += 1;
    }
    proof {
        if i < networks.len() {
            assert(all[i as int].0 == id@);
        }
        lemma_place_is(all, id@, i as int);
    }
    i
}

/// The place of the attachment to a network, or the number of attachments.
fn find_endpoint(endpoints: &Vec<ContainerEndpoint>, id: &String) -> (r: usize)
    ensures
        r == place(by_network(endpoint_views(endpoints@)), id@),
        r <= endpoints.len(),
{
    let ghost all = by_network(endpoint_views(endpoints@));
    let mut i: usize = 0;
    while i < endpoints.len() && endpoints[i].network_id != *id
        invariant
            i <= endpoints.len(),
            all == by_network(endpoint_views(endpoints@)),
            forall|j: int| 0 <= j < i ==> (#[trigger] all[j]).0 != id@,
        decreases endpoints.len() - i,
    {
        assert(all[i as int].0 != id@);
        i += 1;
    }
    proof {
        if i < endpoints.len() {
            assert(all[i as int].0 == id@);
        }
        lemma_place_is(all, id@, i as int);
    }
    i
}

/// The place of the container with an identifier, or the number of containers.
fn find_container(containers: &Vec<Container>, id: &String) -> (r: usize)
    ensures
        r == place(by_container_id(container_views(containers@)), id@),
        r <= containers.len(),
{
    let ghost all = by_container_id(container_views(containers@));
    let mut i: usize = 0;
    while i < containers.len() && containers[i].id != *id
        invariant
            i <= containers.len(),
            all == by_container_id(container_views(containers@)),
            forall|j: int| 0 <= j < i ==> (#[trigger] all[j]).0 != id@,
        decreases containers.len() - i,
    {
        assert(all[i as int].0 != id@);
        i += 1;
    }
    proof {
        if i < containers.len() {
            assert(all[i as int].0 == id@);
        }
        lemma_place_is(all, id@, i as int);
    }
    i
}

/// The labels that there may be.
fn labels_or_none(labels: &Option<Labels>) -> (r: Labels)
    ensures
        label_views(r@) == labels_view(*labels),
{
    let mut out: Labels = Vec::new();
    if let Some(labels) = labels {
        let mut i: usize = 0;
        while i < labels.len()
            invariant
                i <= labels.len(),
                label_views(out@) == label_views(labels@).take(i as int),
            decreases labels.len() - i,
        {
            let ghost before = label_views(out@);
            let entry = (labels[i].0.clone(), labels[i].1.clone());
            out.push(entry);
            i += 1;
            assert(label_views(out@) =~= before.push(label_views(labels@)[i - 1]));
            assert(label_views(out@) =~= label_views(labels@).take(i as int));
        }
        assert(label_views(labels@).take(i as int) =~= label_views(labels@));
    } else {
        assert(label_views(out@) =~= Seq::empty());
    }
    out
}

/// A copy of the text that there may be.
fn copy_text(s: &Option<String>) -> (r: Option<String>)
    ensures
        text_view(r) == text_view(*s),
{
    match s {
        Some(s) => Some(s.clone()),
        None => None,
    }
}

impl Network {
    /// The network that a description is of.
    pub fn try_from(state: &NetworkSummary) -> (r: Option<Network>)
        ensures
            match r {
                Some(network) => described_network(*state) == Some(network@),
                None => described_network(*state) is None,
            },
    {
        match (&state.id, &state.name) {
            (Some(id), Some(name)) => Some(
                Network {
                    id: id.clone(),
                    name: name.clone(),
                    driver: copy_text(&state.driver),
                    labels: labels_or_none(&state.labels),
                },
            ),
            _ => None,
        }
    }
}

impl ContainerEndpoint {
    /// The attachment that a description is of.
    pub fn try_from(state: &EndpointSettings, networks: &Vec<Network>) -> (r: Option<
        ContainerEndpoint,
    >)
        ensures
            match r {
                Some(endpoint) => described_endpoint(*state, network_views(networks@)) == Some(
                    endpoint@,
                ),
                None => described_endpoint(*state, network_views(networks@)) is None,
            },
    {
        let network_id = match &state.network_id {
            Some(id) => id,
            None => {
                return None;
            },
        };
        let k: usize = find_network(networks, network_id);
        if k >= networks.len() {
            return None;
        }
        let ipv4 = match &state.ip_address {
            Some(text) => Ipv4Addr::from_text(text.as_str()),
            None => None,
        };
        let ipv6 = match &state.global_ipv6_address {
            Some(text) => Ipv6Addr::from_text(text.as_str()),
            None => None,
        };
        Some(
            ContainerEndpoint {
                network_id: network_id.clone(),
                network_name: networks[k].name.clone(),
                ipv4,
                ipv6,
            },
        )
    }
}

impl Container {
    /// The container that a description is of.
    pub fn try_from(state: &ContainerSummary, networks: &Vec<Network>) -> (r: Option<Container>)
        ensures
            match r {
                Some(container) => described_container(*state, network_views(networks@)) == Some(
                    container@,
                ),
                None => described_container(*state, network_views(networks@)) is None,
            },
    {
        let id = match &state.id {
            Some(id) => id.clone(),
            None => {
                return None;
            },
        };
        let mut attached: Vec<ContainerEndpoint> = Vec::new();
        assert(endpoint_views(attached@) =~= Seq::empty());
        if let Some(endpoints) = &state.networks {
            let ghost known = network_views(networks@);
            let mut i: usize = 0;
            assert(endpoints@.take(0) =~= Seq::empty());
            while i < endpoints.len()
                invariant
                    i <= endpoints.len(),
                    known == network_views(networks@),
                    endpoint_views(attached@) == described_endpoints(
                        endpoints@.take(i as int),
                        known,
                    ),
                decreases endpoints.len() - i,
            {
                assert(endpoints@.take(i + 1).drop_last() =~= endpoints@.take(i as int));
                assert(endpoints@.take(i + 1).last() == endpoints@[i as int]);
                if let Some(endpoint) = ContainerEndpoint::try_from(&endpoints[i], networks) {
                    let ghost before = endpoint_views(attached@);
                    let ghost view = endpoint@;
                    let k: usize = find_endpoint(&attached, &endpoint.network_id);
                    if k < attached.len() {
                        attached.set(k, endpoint);
                    } else {
                        attached.push(endpoint);
                    }
                    assert(endpoint_views(attached@) =~= with_endpoint(before, view));
                }
                i += 1;
            }
            assert(endpoints@.take(i as int) =~= endpoints@);
        }
        let mut names: Vec<String> = Vec::new();
        assert(texts(names@) =~= Seq::empty());
        if let Some(given) = &state.names {
            let mut i: usize = 0;
            while i < given.len()
                invariant
                    i <= given.len(),
                    texts(names@) == texts(given@).take(i as int),
                decreases given.len() - i,
            {
                let ghost before = texts(names@);
                let name = given[i].clone();
                names.push(name);
                i += 1;
                assert(texts(names@) =~= before.push(given@[i - 1]@));
                assert(texts(names@) =~= texts(given@).take(i as int));
            }
            assert(texts(given@).take(i as int) =~= texts(given@));
        }
        Some(
            Container {
                id,
                names,
                image: copy_text(&state.image),
                networks: attached,
                labels: labels_or_none(&state.labels),
            },
        )
    }
}

/// The networks and containers that descriptions are of.
pub fn fetch_state(networks: &Vec<NetworkSummary>, containers: &Vec<ContainerSummary>) -> (r:
    DockerState)
    ensures
        network_views(r.networks@) == described_networks(networks@),
        container_views(r.containers@) == described_containers(
            containers@,
            described_networks(networks@),
        ),
{
    let mut known: Vec<Network> = Vec::new();
    let mut i: usize = 0;
    assert(networks@.take(0) =~= Seq::empty());
    assert(network_views(known@) =~= Seq::empty());
    while i < networks.len()
        invariant
            i <= networks.len(),
            network_views(known@) == described_networks(networks@.take(i as int)),
        decreases networks.len() - i,
    {
        assert(networks@.take(i + 1).drop_last() =~= networks@.take(i as int));
        assert(networks@.take(i + 1).last() == networks@[i as int]);
        if let Some(network) = Network::try_from(&networks[i]) {
            let ghost before = network_views(known@);
            let ghost view = network@;
            let k: usize = find_network(&known, &network.id);
            if k < known.len() {
                known.set(k, network);
            } else {
                known.push(network);
            }
            assert(network_views(known@) =~= with_network(before, view));
        }
        i += 1;
    }
    assert(networks@.take(i as int) =~= networks@);
    let ghost all = network_views(known@);
    let mut running: Vec<Container> = Vec::new();
    let mut j: usize = 0;
    assert(containers@.take(0) =~= Seq::empty());
    assert(container_views(running@) =~= Seq::empty());
    while j < containers.len()
        invariant
            j <= containers.len(),
            all == network_views(known@),
            container_views(running@) == described_containers(containers@.take(j as int), all),
        decreases containers.len() - j,
    {
        assert(containers@.take(j + 1).drop_last() =~= containers@.take(j as int));
        assert(containers@.take(j + 1).last() == containers@[j as int]);
        if let Some(container) = Container::try_from(&containers[j], &known) {
            let ghost before = container_views(running@);
            let ghost view = container@;
            let k: usize = find_container(&running, &container.id);
            if k < running.len() {
                running.set(k, container);
            } else {
                running.push(container);
            }
            assert(container_views(running@) =~= with_container(before, view));
        }
        j += 1;
    }
    assert(containers@.take(j as int) =~= containers@);
    DockerState { networks: known, containers: running }
}

/// Whether a description is one of a network.
pub open spec fn describes_network(state: NetworkSummary, network: NetworkView) -> bool {
    &&& state.id matches Some(id) && id@ == network.id
    &&& state.name matches Some(name) && name@ == network.name
    &&& match state.driver {
        Some(driver) => network.driver == Some(driver@),
        None => network.driver is None,
    }
    &&& match state.labels {
        Some(labels) => network.labels.len() == labels@.len() && forall|i: int|
            0 <= i < labels@.len() ==> #[trigger] network.labels[i] == (labels@[i].0@, labels@[
                i
            ].1@),
        None => network.labels.len() == 0,
    }
}

/// Whether a description has an identifier and a name.
pub open spec fn names_network(state: NetworkSummary, id: Seq<char>) -> bool {
    state.id is Some && state.id->0@ == id && state.name is Some
}

/// The networks that descriptions are of, each the last with its identifier.
proof fn lemma_described_networks(states: Seq<NetworkSummary>, network: NetworkView)
    ensures
        unique_keys(by_id(described_networks(states))),
        described_networks(states).contains(network) <==> exists|at: int|
            0 <= at < states.len() && described_network(#[trigger] states[at]) == Some(network)
                && forall|j: int|
                at < j < states.len() ==> !names_network(#[trigger] states[j], network.id),
{
    let entries = Seq::new(
        states.len(),
        |i: int|
            match described_network(states[i]) {
                Some(n) => Some((n.id, n)),
                None => None,
            },
    );
    lemma_network_entries(states, entries);
    lemma_put_all(entries, network.id, network);
    let all = described_networks(states);
    let pairs = by_id(all);
    assert(all.contains(network) <==> pairs.contains((network.id, network))) by {
        if all.contains(network) {
            let i = choose|i: int| 0 <= i < all.len() && all[i] == network;
            assert(pairs[i] == (network.id, network));
        }
        if pairs.contains((network.id, network)) {
            let i = choose|i: int| 0 <= i < pairs.len() && pairs[i] == (network.id, network);
            assert(all[i] == network);
        }
    }
    if exists|at: int| #[trigger] is_last(entries, at, network.id, network) {
        let at = choose|at: int| #[trigger] is_last(entries, at, network.id, network);
        assert(described_network(states[at]) == Some(network));
        assert forall|j: int| at < j < states.len() implies !names_network(
            #[trigger] states[j],
            network.id,
        ) by {
            assert(entries[j] is Some ==> (entries[j]->0).0 != network.id);
        }
    }
    if exists|at: int|
        0 <= at < states.len() && described_network(#[trigger] states[at]) == Some(network)
            && forall|j: int|
            at < j < states.len() ==> !names_network(#[trigger] states[j], network.id) {
        let at = choose|at: int|
            0 <= at < states.len() && described_network(#[trigger] states[at]) == Some(network)
                && forall|j: int|
                at < j < states.len() ==> !names_network(#[trigger] states[j], network.id);
        assert forall|j: int|
            at < j < entries.len() && (
            #[trigger] entries[j]) is Some implies (entries[j]->0).0 != network.id by {
            assert(!names_network(states[j], network.id));
        }
        assert(is_last(entries, at, network.id, network));
    }
}

/// Descriptions of networks, put one after the other.
proof fn lemma_network_entries(
    states: Seq<NetworkSummary>,
    entries: Seq<Option<(Seq<char>, NetworkView)>>,
)
    requires
        entries.len() == states.len(),
        forall|i: int|
            0 <= i < states.len() ==> #[trigger] entries[i] == match described_network(states[i]) {
                Some(n) => Some((n.id, n)),
                None => None,
            },
    ensures
        by_id(described_networks(states)) == put_all(entries),
    decreases states.len(),
{
    if states.len() > 0 {
        let front = states.drop_last();
        let fewer = entries.drop_last();
        assert forall|i: int| 0 <= i < front.len() implies #[trigger] fewer[i]
            == match described_network(front[i]) {
            Some(n) => Some((n.id, n)),
            None => None,
        } by {
            assert(fewer[i] == entries[i] && front[i] == states[i]);
        }
        lemma_network_entries(front, fewer);
        assert(entries[states.len() - 1] == entries.last());
        let rest = described_networks(front);
        if let Some(network) = described_network(states.last()) {
            lemma_place(by_id(rest), network.id);
            assert(by_id(with_network(rest, network)) =~= put(by_id(rest), network.id, network));
        }
    } else {
        assert(by_id(described_networks(states)) =~= put_all(entries));
    }
}

/// A network is known exactly when a description that has an identifier and a name is one of it, and
/// no later one has its identifier.
pub proof fn law_described_networks_are_known(states: Seq<NetworkSummary>, network: NetworkView)
    ensures
        described_networks(states).contains(network) <==> exists|at: int|
            0 <= at < states.len() && describes_network(#[trigger] states[at], network) && forall|
                j: int,
            |
                at < j < states.len() ==> !names_network(#[trigger] states[j], network.id),
        forall|i: int, j: int|
            0 <= i < j < described_networks(states).len() ==> (#[trigger] described_networks(
                states,
            )[i]).id != (#[trigger] described_networks(states)[j]).id,
{
    lemma_described_networks(states, network);
    let all = described_networks(states);
    assert forall|i: int, j: int| 0 <= i < j < all.len() implies (#[trigger] all[i]).id != (
    #[trigger] all[j]).id by {
        assert(by_id(all)[i].0 != by_id(all)[j].0);
    }
    assert forall|at: int| 0 <= at < states.len() implies (describes_network(
        #[trigger] states[at],
        network,
    ) <==> described_network(states[at]) == Some(network)) by {
        if describes_network(states[at], network) {
            assert(described_network(states[at])->0 =~= network);
        }
    }
    if exists|at: int|
        0 <= at < states.len() && describes_network(#[trigger] states[at], network) && forall|
            j: int,
        |
            at < j < states.len() ==> !names_network(#[trigger] states[j], network.id) {
        let at = choose|at: int|
            0 <= at < states.len() && describes_network(#[trigger] states[at], network) && forall|
                j: int,
            |
                at < j < states.len() ==> !names_network(#[trigger] states[j], network.id);
        assert(described_network(states[at]) == Some(network));
    }
    if all.contains(network) {
        let at = choose|at: int|
            0 <= at < states.len() && described_network(#[trigger] states[at]) == Some(network)
                && forall|j: int|
                at < j < states.len() ==> !names_network(#[trigger] states[j], network.id);
        assert(describes_network(states[at], network));
    }
}

/// Whether a description is one of an attachment to a network that is known.
pub open spec fn describes_endpoint(
    state: EndpointSettings,
    networks: Seq<NetworkView>,
    endpoint: EndpointView,
) -> bool {
    &&& state.network_id matches Some(id) && id@ == endpoint.network_id
    &&& exists|k: int|
        0 <= k < networks.len() && (#[trigger] networks[k]).id == endpoint.network_id
            && networks[k].name == endpoint.network_name && forall|j: int|
            0 <= j < k ==> (#[trigger] networks[j]).id != endpoint.network_id
    &&& match state.ip_address {
        Some(text) => endpoint.ipv4 == crate::ip::ipv4_from_text(text@),
        None => endpoint.ipv4 is None,
    }
    &&& match state.global_ipv6_address {
        Some(text) => match crate::ip::ipv6_from_text(text@) {
            Some(bits) => endpoint.ipv6 == Some(Ipv6Addr { bits }),
            None => endpoint.ipv6 is None,
        },
        None => endpoint.ipv6 is None,
    }
}

/// Whether a description is one of an attachment to a network with an identifier that is known.
pub open spec fn names_endpoint(
    state: EndpointSettings,
    networks: Seq<NetworkView>,
    id: Seq<char>,
) -> bool {
    state.network_id is Some && state.network_id->0@ == id && exists|k: int|
        0 <= k < networks.len() && (#[trigger] networks[k]).id == id
}

/// An attachment is described where a description is one of it.
proof fn lemma_describes_endpoint(
    state: EndpointSettings,
    networks: Seq<NetworkView>,
    endpoint: EndpointView,
)
    ensures
        describes_endpoint(state, networks, endpoint) <==> described_endpoint(state, networks)
            == Some(endpoint),
        names_endpoint(state, networks, endpoint.network_id) <==> described_endpoint(
            state,
            networks,
        ) is Some && (described_endpoint(state, networks)->0).network_id == endpoint.network_id,
{
    if let Some(id) = state.network_id {
        let pairs = by_id(networks);
        lemma_place(pairs, id@);
        let k = place(pairs, id@);
        if k < networks.len() {
            assert(pairs[k].0 == id@);
            assert(networks[k].id == id@);
            assert forall|j: int| 0 <= j < k implies (#[trigger] networks[j]).id != id@ by {
                assert(pairs[j].0 != id@);
            }
        }
        if describes_endpoint(state, networks, endpoint) {
            let m = choose|m: int|
                0 <= m < networks.len() && (#[trigger] networks[m]).id == endpoint.network_id
                    && networks[m].name == endpoint.network_name && forall|j: int|
                    0 <= j < m ==> (#[trigger] networks[j]).id != endpoint.network_id;
            assert(pairs[m].0 == id@);
            assert(m == k);
            assert(described_endpoint(state, networks)->0 =~= endpoint);
        }
        if names_endpoint(state, networks, endpoint.network_id) {
            let m = choose|m: int|
                0 <= m < networks.len() && (#[trigger] networks[m]).id == endpoint.network_id;
            assert(pairs[m].0 == id@);
        }
    }
}

/// Descriptions of attachments, put one after the other.
proof fn lemma_endpoint_entries(
    states: Seq<EndpointSettings>,
    networks: Seq<NetworkView>,
    entries: Seq<Option<(Seq<char>, EndpointView)>>,
)
    requires
        entries.len() == states.len(),
        forall|i: int|
            0 <= i < states.len() ==> #[trigger] entries[i] == match described_endpoint(
                states[i],
                networks,
            ) {
                Some(e) => Some((e.network_id, e)),
                None => None,
            },
    ensures
        by_network(described_endpoints(states, networks)) == put_all(entries),
    decreases states.len(),
{
    if states.len() > 0 {
        let front = states.drop_last();
        let fewer = entries.drop_last();
        assert forall|i: int| 0 <= i < front.len() implies #[trigger] fewer[i]
            == match described_endpoint(front[i], networks) {
            Some(e) => Some((e.network_id, e)),
            None => None,
        } by {
            assert(fewer[i] == entries[i] && front[i] == states[i]);
        }
        lemma_endpoint_entries(front, networks, fewer);
        assert(entries[states.len() - 1] == entries.last());
        let rest = described_endpoints(front, networks);
        if let Some(endpoint) = described_endpoint(states.last(), networks) {
            lemma_place(by_network(rest), endpoint.network_id);
            assert(by_network(with_endpoint(rest, endpoint)) =~= put(
                by_network(rest),
                endpoint.network_id,
                endpoint,
            ));
        }
    } else {
        assert(by_network(described_endpoints(states, networks)) =~= put_all(entries));
    }
}

/// An attachment is known exactly when a description is one of it, to a network that is known, and no
/// later one is of an attachment to that network.
pub proof fn law_described_endpoints_are_known(
    states: Seq<EndpointSettings>,
    networks: Seq<NetworkView>,
    endpoint: EndpointView,
)
    ensures
        described_endpoints(states, networks).contains(endpoint) <==> exists|at: int|
            0 <= at < states.len() && describes_endpoint(#[trigger] states[at], networks, endpoint)
                && forall|j: int|
                at < j < states.len() ==> !names_endpoint(
                    #[trigger] states[j],
                    networks,
                    endpoint.network_id,
                ),
{
    let entries = Seq::new(
        states.len(),
        |i: int|
            match described_endpoint(states[i], networks) {
                Some(e) => Some((e.network_id, e)),
                None => None,
            },
    );
    let id = endpoint.network_id;
    lemma_endpoint_entries(states, networks, entries);
    lemma_put_all(entries, id, endpoint);
    let all = described_endpoints(states, networks);
    let pairs = by_network(all);
    assert(all.contains(endpoint) <==> pairs.contains((id, endpoint))) by {
        if all.contains(endpoint) {
            let i = choose|i: int| 0 <= i < all.len() && all[i] == endpoint;
            assert(pairs[i] == (id, endpoint));
        }
        if pairs.contains((id, endpoint)) {
            let i = choose|i: int| 0 <= i < pairs.len() && pairs[i] == (id, endpoint);
            assert(all[i] == endpoint);
        }
    }
    if exists|at: int| #[trigger] is_last(entries, at, id, endpoint) {
        let at = choose|at: int| #[trigger] is_last(entries, at, id, endpoint);
        lemma_describes_endpoint(states[at], networks, endpoint);
        assert forall|j: int| at < j < states.len() implies !names_endpoint(
            #[trigger] states[j],
            networks,
            id,
        ) by {
            lemma_describes_endpoint(states[j], networks, endpoint);
            assert(entries[j] is Some ==> (entries[j]->0).0 != id);
        }
        assert(describes_endpoint(states[at], networks, endpoint));
    }
    if exists|at: int|
        0 <= at < states.len() && describes_endpoint(#[trigger] states[at], networks, endpoint)
            && forall|j: int|
            at < j < states.len() ==> !names_endpoint(#[trigger] states[j], networks, id) {
        let at = choose|at: int|
            0 <= at < states.len() && describes_endpoint(#[trigger] states[at], networks, endpoint)
                && forall|j: int|
                at < j < states.len() ==> !names_endpoint(#[trigger] states[j], networks, id);
        lemma_describes_endpoint(states[at], networks, endpoint);
        assert forall|j: int|
            at < j < entries.len() && (
            #[trigger] entries[j]) is Some implies (entries[j]->0).0 != id by {
            lemma_describes_endpoint(states[j], networks, endpoint);
            assert(!names_endpoint(states[j], networks, id));
        }
        assert(is_last(entries, at, id, endpoint));
    }
}

/// Whether a description is one of a container.
pub open spec fn describes_container(
    state: ContainerSummary,
    networks: Seq<NetworkView>,
    container: ContainerView,
) -> bool {
    &&& state.id matches Some(id) && id@ == container.id
    &&& match state.networks {
        Some(endpoints) => container.networks == described_endpoints(endpoints@, networks),
        None => container.networks.len() == 0,
    }
    &&& match state.labels {
        Some(labels) => container.labels.len() == labels@.len() && forall|i: int|
            0 <= i < labels@.len() ==> #[trigger] container.labels[i] == (
                labels@[i].0@,
                labels@[i].1@,
            ),
        None => container.labels.len() == 0,
    }
    &&& match state.image {
        Some(image) => container.image == Some(image@),
        None => container.image is None,
    }
    &&& match state.names {
        Some(names) => container.names.len() == names@.len() && forall|i: int|
            0 <= i < names@.len() ==> #[trigger] container.names[i] == names@[i]@,
        None => container.names.len() == 0,
    }
}

/// Descriptions of containers, put one after the other.
proof fn lemma_container_entries(
    states: Seq<ContainerSummary>,
    networks: Seq<NetworkView>,
    entries: Seq<Option<(Seq<char>, ContainerView)>>,
)
    requires
        entries.len() == states.len(),
        forall|i: int|
            0 <= i < states.len() ==> #[trigger] entries[i] == match described_container(
                states[i],
                networks,
            ) {
                Some(c) => Some((c.id, c)),
                None => None,
            },
    ensures
        by_container_id(described_containers(states, networks)) == put_all(entries),
    decreases states.len(),
{
    if states.len() > 0 {
        let front = states.drop_last();
        let fewer = entries.drop_last();
        assert forall|i: int| 0 <= i < front.len() implies #[trigger] fewer[i]
            == match described_container(front[i], networks) {
            Some(c) => Some((c.id, c)),
            None => None,
        } by {
            assert(fewer[i] == entries[i] && front[i] == states[i]);
        }
        lemma_container_entries(front, networks, fewer);
        assert(entries[states.len() - 1] == entries.last());
        let rest = described_containers(front, networks);
        if let Some(container) = described_container(states.last(), networks) {
            lemma_place(by_container_id(rest), container.id);
            assert(by_container_id(with_container(rest, container)) =~= put(
                by_container_id(rest),
                container.id,
                container,
            ));
        }
    } else {
        assert(by_container_id(described_containers(states, networks)) =~= put_all(entries));
    }
}

/// A container is known exactly when a description that has an identifier is one of it, and no later
/// one has its identifier.
pub proof fn law_described_containers_are_known(
    states: Seq<ContainerSummary>,
    networks: Seq<NetworkView>,
    container: ContainerView,
)
    ensures
        described_containers(states, networks).contains(container) <==> exists|at: int|
            0 <= at < states.len() && describes_container(
                #[trigger] states[at],
                networks,
                container,
            ) && forall|j: int|
                at < j < states.len() ==> !((#[trigger] states[j]).id is Some && states[j].id->0@
                    == container.id),
{
    let entries = Seq::new(
        states.len(),
        |i: int|
            match described_container(states[i], networks) {
                Some(c) => Some((c.id, c)),
                None => None,
            },
    );
    let id = container.id;
    lemma_container_entries(states, networks, entries);
    lemma_put_all(entries, id, container);
    let all = described_containers(states, networks);
    let pairs = by_container_id(all);
    assert(all.contains(container) <==> pairs.contains((id, container))) by {
        if all.contains(container) {
            let i = choose|i: int| 0 <= i < all.len() && all[i] == container;
            assert(pairs[i] == (id, container));
        }
        if pairs.contains((id, container)) {
            let i = choose|i: int| 0 <= i < pairs.len() && pairs[i] == (id, container);
            assert(all[i] == container);
        }
    }
    assert forall|at: int| 0 <= at < states.len() implies (describes_container(
        #[trigger] states[at],
        networks,
        container,
    ) <==> described_container(states[at], networks) == Some(container)) by {
        if describes_container(states[at], networks, container) {
            let other = described_container(states[at], networks)->0;
            assert(other.names =~= container.names);
            assert(other.networks =~= container.networks);
            assert(other.labels =~= container.labels);
            assert(other =~= container);
        }
    }
    if exists|at: int| #[trigger] is_last(entries, at, id, container) {
        let at = choose|at: int| #[trigger] is_last(entries, at, id, container);
        assert(describes_container(states[at], networks, container));
        assert forall|j: int| at < j < states.len() implies !((#[trigger] states[j]).id is Some
            && states[j].id->0@ == id) by {
            assert(entries[j] is Some ==> (entries[j]->0).0 != id);
        }
    }
    if exists|at: int|
        0 <= at < states.len() && describes_container(#[trigger] states[at], networks, container)
            && forall|j: int|
            at < j < states.len() ==> !((#[trigger] states[j]).id is Some && states[j].id->0@
                == id) {
        let at = choose|at: int|
            0 <= at < states.len() && describes_container(
                #[trigger] states[at],
                networks,
                container,
            ) && forall|j: int|
                at < j < states.len() ==> !((#[trigger] states[j]).id is Some && states[j].id->0@
                    == id);
        assert forall|j: int|
            at < j < entries.len() && (
            #[trigger] entries[j]) is Some implies (entries[j]->0).0 != id by {
            assert(!(states[j].id is Some && states[j].id->0@ == id));
        }
        assert(is_last(entries, at, id, container));
    }
}

/// A container without a label for its network that is attached to no network that can be seen
/// from outside, or to several, has no records.
pub proof fn law_ambiguous_containers_are_ignored(
    container: ContainerView,
    networks: Seq<NetworkView>,
)
    requires
        label(container.labels, "localns.network"@) is None,
        attached_visibly(container.networks, networks).len() != 1,
    ensures
        container_records(seq![container], networks).len() == 0,
{
    assert(seq![container].drop_last() =~= Seq::empty());
    assert(seq![container].last() == container);
    assert(container_records(seq![container].drop_last(), networks).len() == 0);
    if let Some(name) = container_name(container) {
        assert(endpoint_records(name, used_endpoints(container, networks)).len() == 0);
    }
}

/// A container without a label for its name has no records.
pub proof fn law_unnamed_containers_are_ignored(
    container: ContainerView,
    networks: Seq<NetworkView>,
)
    requires
        label(container.labels, "localns.hostname"@) is None,
    ensures
        container_records(seq![container], networks).len() == 0,
{
    assert(seq![container].drop_last() =~= Seq::empty());
    assert(seq![container].last() == container);
    assert(container_records(seq![container].drop_last(), networks).len() == 0);
}

/// What happened in the round of a docker source.
#[derive(Debug)]
pub enum DockerEvent {
    /// The server could not be reached.
    ConnectFailed,
    /// The server was reached.
    Connected,
    /// The version of the server could not be had.
    VersionFailed,
    /// The networks and containers could not be had.
    FetchFailed,
    /// The networks and containers were described.
    Fetched(DockerState),
    /// The server reported an event, on a thing of some kind.
    Event(Option<String>),
    /// The server reports no more events.
    EventsEnded,
}

/// What a docker source does next.
#[derive(Debug)]
pub enum DockerAction {
    /// It asks for the networks and containers.
    Fetch,
    /// It serves records, and waits for the next event.
    Publish(RecordSet),
    /// It waits for the next event.
    Wait,
    /// The round ends.
    Finish(LoopResult),
}

/// Whether an event on a thing of some kind may change the records: only one on a container may.
pub fn useful_event(typ: &Option<String>) -> (r: bool)
    ensures
        r == (typ is Some && typ->0@ == "container"@),
{
    match typ {
        Some(typ) => {
            let container = "container".to_owned();
            *typ == container
        },
        None => false,
    }
}

/// Decides what a docker source does next. Failures end the round with a pause that grows, and so
/// does the end of the events with one that does not; an event on a container makes the source
/// look again.
pub fn docker_loop(event: DockerEvent) -> (r: DockerAction)
    ensures
        match event {
            DockerEvent::ConnectFailed => r == DockerAction::Finish(LoopResult::Backoff),
            DockerEvent::Connected => r is Fetch,
            DockerEvent::VersionFailed => r == DockerAction::Finish(LoopResult::Backoff),
            DockerEvent::FetchFailed => r == DockerAction::Finish(LoopResult::Backoff),
            DockerEvent::Fetched(state) => r matches DockerAction::Publish(set) && set@
                == with_records(
                no_records(),
                container_records(
                    container_views(state.containers@),
                    network_views(state.networks@),
                ),
            ),
            DockerEvent::Event(typ) => if typ is Some && typ->0@ == "container"@ {
                r is Fetch
            } else {
                r is Wait
            },
            DockerEvent::EventsEnded => r == DockerAction::Finish(LoopResult::Sleep),
        },
{
    match event {
        DockerEvent::ConnectFailed => DockerAction::Finish(LoopResult::Backoff),
        DockerEvent::Connected => DockerAction::Fetch,
        DockerEvent::VersionFailed => DockerAction::Finish(LoopResult::Backoff),
        DockerEvent::FetchFailed => DockerAction::Finish(LoopResult::Backoff),
        DockerEvent::Fetched(state) => DockerAction::Publish(generate_records(&state)),
        DockerEvent::Event(typ) => if useful_event(&typ) {
            DockerAction::Fetch
        } else {
            DockerAction::Wait
        },
        DockerEvent::EventsEnded => DockerAction::Finish(LoopResult::Sleep),
    }
}

} // verus!
