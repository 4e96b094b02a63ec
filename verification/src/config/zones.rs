//! The configuration of zones. A name takes what is configured for the zones that it lies in.

use vstd::prelude::*;
use crate::dns::rr::{
    DnsClass, RData, RDataView, Record, RecordType, RecordView, Soa, SoaView,
};
use crate::name::{ascii_bytes, fold, in_zone, name_len, plain, plain_text, well_formed, Fqdn};
use crate::order::{law_name_order_total, law_name_order_transitive, law_wider_zone_first, name_le};
use crate::util::Address;

verus! {

/// A server that queries are forwarded to.
#[derive(Clone, Copy, PartialEq, Eq, Debug, Hash, Structural)]
pub struct Upstream {
    pub config: Address,
}

/// What is configured where no zone says otherwise.
#[derive(Clone, Copy, PartialEq, Eq, Debug, Hash, Structural)]
pub struct DefaultZoneConfig {
    pub upstream: Option<Upstream>,
    pub ttl: Option<u32>,
}

/// What is configured for one zone.
#[derive(Clone, Copy, PartialEq, Eq, Debug, Hash, Structural)]
pub struct PartialZoneConfig {
    pub config: DefaultZoneConfig,
    pub authoritative: Option<bool>,
}

/// The configuration that holds for a name.
#[derive(Debug)]
pub struct ZoneConfig {
    pub origin: Option<Fqdn>,
    pub upstreams: Vec<Upstream>,
    pub ttl: u32,
    pub authoritative: bool,
}

/// The configuration that holds for a name, by the labels of the zone's name.
#[verifier::ext_equal]
pub struct ZoneConfigView {
    pub origin: Option<Seq<Seq<u8>>>,
    pub upstreams: Seq<Upstream>,
    pub ttl: u32,
    pub authoritative: bool,
}

impl View for ZoneConfig {
    type V = ZoneConfigView;

    open spec fn view(&self) -> ZoneConfigView {
        ZoneConfigView {
            origin: match self.origin {
                Some(name) => Some(name@),
                None => None,
            },
            upstreams: self.upstreams@,
            ttl: self.ttl,
            authoritative: self.authoritative,
        }
    }
}

/// The configuration of a name that lies in no zone.
pub open spec fn default_config(defaults: DefaultZoneConfig) -> ZoneConfigView {
    ZoneConfigView {
        origin: None,
        upstreams: match defaults.upstream {
            Some(upstream) => seq![upstream],
            None => Seq::empty(),
        },
        ttl: match defaults.ttl {
            Some(ttl) => ttl,
            None => 300,
        },
        authoritative: false,
    }
}

/// A configuration with that of a zone put over it. The upstream of the zone is tried first.
pub open spec fn with_zone(
    config: ZoneConfigView,
    origin: Seq<Seq<u8>>,
    zone: PartialZoneConfig,
) -> ZoneConfigView {
    ZoneConfigView {
        origin: Some(origin),
        upstreams: match zone.config.upstream {
            Some(upstream) => seq![upstream] + config.upstreams,
            None => config.upstreams,
        },
        ttl: match zone.config.ttl {
            Some(ttl) => ttl,
            None => config.ttl,
        },
        authoritative: match zone.authoritative {
            Some(authoritative) => authoritative,
            None => true,
        },
    }
}

/// The configuration of a name: that of each zone it lies in, put over the defaults in turn.
pub open spec fn configured(
    defaults: DefaultZoneConfig,
    zones: Seq<(Seq<Seq<u8>>, PartialZoneConfig)>,
    name: Seq<Seq<u8>>,
) -> ZoneConfigView
    decreases zones.len(),
{
    if zones.len() == 0 {
        default_config(defaults)
    } else {
        let config = configured(defaults, zones.drop_last(), name);
        if in_zone(zones.last().0, name) {
            with_zone(config, zones.last().0, zones.last().1)
        } else {
            config
        }
    }
}

/// The configuration for a name does not depend on its case.
pub proof fn lemma_configured_folds(
    defaults: DefaultZoneConfig,
    zones: Seq<(Seq<Seq<u8>>, PartialZoneConfig)>,
    a: Seq<Seq<u8>>,
    b: Seq<Seq<u8>>,
)
    requires
        fold(a) == fold(b),
    ensures
        configured(defaults, zones, a) == configured(defaults, zones, b),
    decreases zones.len(),
{
    if zones.len() > 0 {
        lemma_configured_folds(defaults, zones.drop_last(), a, b);
        assert(a.len() == fold(a).len());
        assert(b.len() == fold(b).len());
    }
}

/// The one label of the name server in a zone.
pub open spec fn ns_label() -> Seq<Seq<u8>> {
    seq![seq![110u8, 115u8]]
}

/// The one label of the mailbox of a zone's keeper.
pub open spec fn hostmaster_label() -> Seq<Seq<u8>> {
    seq![seq![104u8, 111u8, 115u8, 116u8, 109u8, 97u8, 115u8, 116u8, 101u8, 114u8]]
}

/// The start of authority that a configuration gives, if it is authoritative for a zone whose
/// name leaves room for the names below it.
pub open spec fn soa_of(config: ZoneConfigView) -> Option<RecordView> {
    match config.origin {
        Some(origin) => if config.authoritative && name_len(origin) + 11 <= 255 {
            Some(
                crate::dns::rr::record_of(
                    origin,
                    config.ttl,
                    RDataView::Soa(
                        SoaView {
                            mname: ns_label() + origin,
                            rname: hostmaster_label() + origin,
                            serial: 0,
                            refresh: config.ttl as i32,
                            retry: config.ttl as i32,
                            expire: (config.ttl * 10) as i32,
                            minimum: 60,
                        },
                    ),
                ),
            )
        } else {
            None
        },
        None => None,
    }
}

/// The greatest lifetime whose tenfold fits in the expiry of a start of authority.
pub open spec fn soa_ttl_fits(ttl: u32) -> bool {
    ttl * 10 <= i32::MAX
}

/// The labels below a zone, as the names that are written.
pub proof fn lemma_zone_labels()
    ensures
        plain(ns_label()),
        well_formed(ns_label()),
        name_len(ns_label()) == 3,
        plain_text(ns_label()) == "ns"@,
        plain(hostmaster_label()),
        well_formed(hostmaster_label()),
        name_len(hostmaster_label()) == 11,
        plain_text(hostmaster_label()) == "hostmaster"@,
{
    reveal_strlit("ns");
    reveal_strlit("hostmaster");
    reveal_with_fuel(name_len, 2);
    assert(plain_text(ns_label()) =~= "ns"@);
    assert(plain_text(hostmaster_label()) =~= "hostmaster"@);
}

impl Default for ZoneConfig {
    fn default() -> (r: Self)
        ensures
            r@ == default_config(DefaultZoneConfig { upstream: None, ttl: None }),
    {
        ZoneConfig { origin: None, upstreams: Vec::new(), ttl: 300, authoritative: false }
    }
}

impl ZoneConfig {
    /// The configuration of a name that lies in no zone.
    pub fn from_defaults(defaults: &DefaultZoneConfig) -> (r: ZoneConfig)
        ensures
            r@ == default_config(*defaults),
    {
        let mut upstreams: Vec<Upstream> = Vec::new();
        if let Some(upstream) = defaults.upstream {
            upstreams.push(upstream);
        }
        let ttl: u32 = match defaults.ttl {
            Some(ttl) => ttl,
            None => 300,
        };
        let config = ZoneConfig { origin: None, upstreams, ttl, authoritative: false };
        assert(config@ =~= default_config(*defaults));
        config
    }

    /// The start of authority for the zone, if there is an authority.
    pub fn soa(&self) -> (r: Option<Record>)
        requires
            soa_of(self@) is Some ==> soa_ttl_fits(self.ttl),
        ensures
            match r {
                Some(record) => soa_of(self@) == Some(record@),
                None => soa_of(self@) is None,
            },
    {
        if !self.authoritative {
            return None;
        }
        proof {
            lemma_zone_labels();
        }
        match &self.origin {
            Some(origin) => {
                let mname = match origin.child("ns") {
                    Ok(name) => name,
                    Err(_) => {
                        return None;
                    },
                };
                let rname = match origin.child("hostmaster") {
                    Ok(name) => name,
                    Err(_) => {
                        return None;
                    },
                };
                let soa = Soa {
                    mname,
                    rname,
                    serial: 0,
                    refresh: self.ttl as i32,
                    retry: self.ttl as i32,
                    expire: (self.ttl * 10) as i32,
                    minimum: 60,
                };
                Some(Record::from_rdata(origin.clone(), self.ttl, RData::Soa(soa)))
            },
            None => None,
        }
    }

    /// Whether there is an authority for the zone.
    pub fn has_soa(&self) -> (r: bool)
        ensures
            r == (soa_of(self@) is Some),
    {
        proof {
            lemma_zone_labels();
        }
        match &self.origin {
            Some(origin) => self.authoritative && origin.child("ns").is_ok() && origin.child(
                "hostmaster",
            ).is_ok(),
            None => false,
        }
    }

    /// Puts the configuration of a zone over this one.
    fn apply_config(&mut self, origin: Fqdn, config: &PartialZoneConfig)
        ensures
            final(self)@ == with_zone(old(self)@, origin@, *config),
    {
        self.origin = Some(origin);
        if let Some(upstream) = config.config.upstream {
            self.upstreams.insert(0, upstream);
        }
        if let Some(ttl) = config.config.ttl {
            self.ttl = ttl;
        }
        self.authoritative = match config.authoritative {
            Some(authoritative) => authoritative,
            None => true,
        };
        assert(self@ =~= with_zone(old(self)@, origin@, *config));
    }
}

/// The zones of a list, by the labels of their names.
pub open spec fn zone_views(
    zones: Seq<(Fqdn, PartialZoneConfig)>,
) -> Seq<(Seq<Seq<u8>>, PartialZoneConfig)> {
    Seq::new(zones.len(), |i: int| (zones[i].0@, zones[i].1))
}

/// Whether zones stand in the order of their names.
pub open spec fn in_order(zones: Seq<(Seq<Seq<u8>>, PartialZoneConfig)>) -> bool {
    forall|i: int, j: int|
        0 <= i <= j < zones.len() ==> name_le((#[trigger] zones[i]).0, (#[trigger] zones[j]).0)
}

/// The configuration of all zones.
#[derive(Debug)]
pub struct Zones {
    defaults: DefaultZoneConfig,
    zones: Vec<(Fqdn, PartialZoneConfig)>,
}

impl Zones {
    /// What is configured where no zone says otherwise.
    pub closed spec fn defaults(self) -> DefaultZoneConfig {
        self.defaults
    }

    /// The zones, wider ones first.
    pub closed spec fn zones(self) -> Seq<(Seq<Seq<u8>>, PartialZoneConfig)> {
        zone_views(self.zones@)
    }

    #[verifier::type_invariant]
    closed spec fn inv(self) -> bool {
        in_order(zone_views(self.zones@))
    }

    /// Whether the start of authority for a name, where there is one, can hold its lifetimes.
    pub open spec fn soa_fits(self, name: Seq<Seq<u8>>) -> bool {
        let config = configured(self.defaults(), self.zones(), name);
        soa_of(config) is Some ==> soa_ttl_fits(config.ttl)
    }

    /// The configuration of some zones. They are put in the order of their names.
    pub fn new(defaults: DefaultZoneConfig, zones: Vec<(Fqdn, PartialZoneConfig)>) -> (r: Zones)
        ensures
            r.defaults() == defaults,
            in_order(r.zones()),
            r.zones().to_multiset() == zone_views(zones@).to_multiset(),
    {
        let mut rest = zones;
        let mut sorted: Vec<(Fqdn, PartialZoneConfig)> = Vec::new();
        let ghost all = zone_views(zones@);
        proof {
            assert(zone_views(sorted@) =~= Seq::empty());
            zone_views(sorted@).to_multiset_ensures();
            assert(zone_views(sorted@).to_multiset() =~= vstd::multiset::Multiset::empty());
        }
        while rest.len() > 0
            invariant
                in_order(zone_views(sorted@)),
                zone_views(sorted@).to_multiset().add(zone_views(rest@).to_multiset())
                    == all.to_multiset(),
            decreases rest.len(),
        {
            let ghost before = zone_views(rest@);
            let ghost placed = zone_views(sorted@);
            let zone = rest.pop().unwrap();
            proof {
                assert(zone_views(rest@) =~= before.drop_last());
                assert(before =~= before.drop_last().push(before.last()));
                before.drop_last().to_multiset_ensures();
                assert(before.to_multiset() =~= before.drop_last().to_multiset().insert(
                    before.last(),
                ));
            }
            place(&mut sorted, zone);
            assert(zone_views(sorted@).to_multiset().add(zone_views(rest@).to_multiset())
                =~= all.to_multiset());
        }
        proof {
            zone_views(rest@).to_multiset_ensures();
            assert(zone_views(rest@).to_multiset() =~= vstd::multiset::Multiset::empty());
            assert(zone_views(sorted@).to_multiset() =~= all.to_multiset());
        }
        Zones { defaults, zones: sorted }
    }

    /// The configuration that holds for a name.
    pub fn zone_config(&self, name: &Fqdn) -> (r: ZoneConfig)
        ensures
            r@ == configured(self.defaults(), self.zones(), name@),
    {
        let mut config = ZoneConfig::from_defaults(&self.defaults);
        let mut i: usize = 0;
        let ghost all = zone_views(self.zones@);
        assert(all.take(0) =~= Seq::empty());
        while i < self.zones.len()
            invariant
                i <= self.zones.len(),
                all == zone_views(self.zones@),
                config@ == configured(self.defaults, all.take(i as int), name@),
            decreases self.zones.len() - i,
        {
            assert(all.take(i + 1).drop_last() =~= all.take(i as int));
            assert(all.take(i + 1).last() == all[i as int]);
            if self.zones[i].0.zone_of(name) {
                let origin = self.zones[i].0.clone();
                config.apply_config(origin, &self.zones[i].1);
            }
            i += 1;
        }
        assert(all.take(i as int) =~= all);
        config
    }

    /// Whether the start of authority for a name, where there is one, can hold its lifetimes.
    pub fn check_soa(&self, name: &Fqdn) -> (r: bool)
        ensures
            r == self.soa_fits(name@),
    {
        let config = self.zone_config(name);
        config.ttl <= 214_748_364 || !config.has_soa()
    }
}

impl Clone for Zones {
    fn clone(&self) -> (r: Self)
        ensures
            r.defaults() == self.defaults(),
            r.zones() == self.zones(),
    {
        proof {
            use_type_invariant(self);
        }
        let mut zones: Vec<(Fqdn, PartialZoneConfig)> = Vec::new();
        let ghost all = zone_views(self.zones@);
        let mut i: usize = 0;
        while i < self.zones.len()
            invariant
                i <= self.zones.len(),
                all == zone_views(self.zones@),
                zone_views(zones@) == all.take(i as int),
            decreases self.zones.len() - i,
        {
            let ghost before = zone_views(zones@);
            let entry = (self.zones[i].0.clone(), self.zones[i].1);
            zones.push(entry);
            i += 1;
            assert(zone_views(zones@) =~= before.push(all[i - 1]));
            assert(zone_views(zones@) =~= all.take(i as int));
        }
        assert(all.take(i as int) =~= all);
        Zones { defaults: self.defaults, zones }
    }
}

/// Puts a zone in its place among zones that stand in order.
fn place(zones: &mut Vec<(Fqdn, PartialZoneConfig)>, zone: (Fqdn, PartialZoneConfig))
    requires
        in_order(zone_views(old(zones)@)),
    ensures
        in_order(zone_views(final(zones)@)),
        zone_views(final(zones)@).to_multiset() == zone_views(old(zones)@).to_multiset().insert(
            (zone.0@, zone.1),
        ),
{
    let ghost before = zone_views(zones@);
    let ghost new = (zone.0@, zone.1);
    let mut i: usize = 0;
    while i < zones.len() && zones[i].0.le(&zone.0)
        invariant
            i <= zones.len(),
            before == zone_views(zones@),
            new == (zone.0@, zone.1),
            forall|j: int| 0 <= j < i ==> name_le((#[trigger] before[j]).0, new.0),
        decreases zones.len() - i,
    {
        assert(name_le(before[i as int].0, new.0));
        i += 1;
    }
    zones.insert(i, zone);
    proof {
        let after = zone_views(zones@);
        assert(after =~= before.insert(i as int, new));
        assert(after.remove(i as int) =~= before);
        after.to_multiset_ensures();
        assert(after.contains(after[i as int]));
        assert(after.to_multiset() =~= before.to_multiset().insert(new));
        assert forall|j: int, k: int| 0 <= j <= k < after.len() implies name_le(
            (#[trigger] after[j]).0,
            (#[trigger] after[k]).0,
        ) by {
            law_name_order_total(new.0, new.0);
            if i < before.len() {
                law_name_order_total(new.0, before[i as int].0);
            }
            if k < i {
                assert(after[j] == before[j] && after[k] == before[k]);
            } else if k == i {
                if j < i {
                    assert(after[j] == before[j]);
                }
            } else {
                assert(after[k] == before[k - 1]);
                if j < i {
                    assert(after[j] == before[j]);
                } else if j == i {
                    assert(name_le(before[i as int].0, before[k - 1].0));
                    law_name_order_transitive(new.0, before[i as int].0, before[k - 1].0);
                } else {
                    assert(after[j] == before[j - 1]);
                }
            }
        }
    }
}

/// Zones after the one with the most labels among those that a name lies in hold it no longer.
proof fn lemma_none_after(
    zones: Seq<(Seq<Seq<u8>>, PartialZoneConfig)>,
    name: Seq<Seq<u8>>,
    k: int,
    j: int,
)
    requires
        in_order(zones),
        0 <= k < j < zones.len(),
        in_zone(zones[k].0, name),
        in_zone(zones[j].0, name),
    ensures
        zones[j].0.len() >= zones[k].0.len(),
{
    if zones[j].0.len() < zones[k].0.len() {
        law_wider_zone_first(zones[j].0, zones[k].0, name);
        assert(name_le(zones[k].0, zones[j].0));
    }
}

/// Zones that a name does not lie in, or that say nothing of a setting, leave it as it was.
proof fn lemma_settings_kept(
    defaults: DefaultZoneConfig,
    zones: Seq<(Seq<Seq<u8>>, PartialZoneConfig)>,
    name: Seq<Seq<u8>>,
    k: int,
    m: int,
)
    requires
        0 <= k < m <= zones.len(),
        in_zone(zones[k].0, name),
    ensures
        (forall|j: int|
            k < j < m && in_zone((#[trigger] zones[j]).0, name) ==> zones[j].1.config.ttl is None)
            && zones[k].1.config.ttl is Some ==> configured(defaults, zones.take(m), name).ttl
            == zones[k].1.config.ttl->0,
        (forall|j: int|
            k < j < m && in_zone((#[trigger] zones[j]).0, name)
                ==> zones[j].1.config.upstream is None) && zones[k].1.config.upstream is Some
            ==> configured(defaults, zones.take(m), name).upstreams.len() > 0 && configured(
            defaults,
            zones.take(m),
            name,
        ).upstreams[0] == zones[k].1.config.upstream->0,
        (forall|j: int| k < j < m ==> !in_zone((#[trigger] zones[j]).0, name)) ==> configured(
            defaults,
            zones.take(m),
            name,
        ).origin == Some(zones[k].0) && configured(defaults, zones.take(m), name).authoritative
            == (zones[k].1.authoritative matches Some(a) ==> a),
    decreases m - k,
{
    let z = zones.take(m);
    assert(z.drop_last() =~= zones.take(m - 1));
    assert(z.last() == zones[m - 1]);
    if m - 1 > k {
        lemma_settings_kept(defaults, zones, name, k, m - 1);
    }
}

/// The lifetime of a name's answers is that of the zone with the most labels among those that the
/// name lies in and that give one.
pub proof fn law_nearest_ttl(
    defaults: DefaultZoneConfig,
    zones: Seq<(Seq<Seq<u8>>, PartialZoneConfig)>,
    name: Seq<Seq<u8>>,
    k: int,
)
    requires
        in_order(zones),
        0 <= k < zones.len(),
        in_zone(zones[k].0, name),
        zones[k].1.config.ttl is Some,
        forall|j: int|
            0 <= j < zones.len() && j != k && in_zone((#[trigger] zones[j]).0, name)
                && zones[j].1.config.ttl is Some ==> zones[j].0.len() < zones[k].0.len(),
    ensures
        configured(defaults, zones, name).ttl == zones[k].1.config.ttl->0,
{
    assert forall|j: int|
        k < j < zones.len() && in_zone((#[trigger] zones[j]).0, name) implies
        zones[j].1.config.ttl is None by {
        lemma_none_after(zones, name, k, j);
    }
    lemma_settings_kept(defaults, zones, name, k, zones.len() as int);
    assert(zones.take(zones.len() as int) =~= zones);
}

/// The first upstream of a name is that of the zone with the most labels among those that the name
/// lies in and that have one.
pub proof fn law_nearest_upstream(
    defaults: DefaultZoneConfig,
    zones: Seq<(Seq<Seq<u8>>, PartialZoneConfig)>,
    name: Seq<Seq<u8>>,
    k: int,
)
    requires
        in_order(zones),
        0 <= k < zones.len(),
        in_zone(zones[k].0, name),
        zones[k].1.config.upstream is Some,
        forall|j: int|
            0 <= j < zones.len() && j != k && in_zone((#[trigger] zones[j]).0, name)
                && zones[j].1.config.upstream is Some ==> zones[j].0.len() < zones[k].0.len(),
    ensures
        configured(defaults, zones, name).upstreams.len() > 0,
        configured(defaults, zones, name).upstreams[0] == zones[k].1.config.upstream->0,
{
    assert forall|j: int|
        k < j < zones.len() && in_zone((#[trigger] zones[j]).0, name) implies
        zones[j].1.config.upstream is None by {
        lemma_none_after(zones, name, k, j);
    }
    lemma_settings_kept(defaults, zones, name, k, zones.len() as int);
    assert(zones.take(zones.len() as int) =~= zones);
}

/// The zone of a name is the one with the most labels among those that it lies in, and this zone
/// alone says whether there is authority for the name.
pub proof fn law_nearest_zone(
    defaults: DefaultZoneConfig,
    zones: Seq<(Seq<Seq<u8>>, PartialZoneConfig)>,
    name: Seq<Seq<u8>>,
    k: int,
)
    requires
        in_order(zones),
        0 <= k < zones.len(),
        in_zone(zones[k].0, name),
        forall|j: int|
            0 <= j < zones.len() && j != k && in_zone((#[trigger] zones[j]).0, name)
                ==> zones[j].0.len() < zones[k].0.len(),
    ensures
        configured(defaults, zones, name).origin == Some(zones[k].0),
        configured(defaults, zones, name).authoritative == (zones[k].1.authoritative matches Some(a)
            ==> a),
{
    assert forall|j: int| k < j < zones.len() implies !in_zone((#[trigger] zones[j]).0, name) by {
        if in_zone(zones[j].0, name) {
            lemma_none_after(zones, name, k, j);
        }
    }
    lemma_settings_kept(defaults, zones, name, k, zones.len() as int);
    assert(zones.take(zones.len() as int) =~= zones);
}

/// A name that lies in no zone has the defaults, and no authority.
pub proof fn law_outside_all_zones(
    defaults: DefaultZoneConfig,
    zones: Seq<(Seq<Seq<u8>>, PartialZoneConfig)>,
    name: Seq<Seq<u8>>,
)
    requires
        forall|j: int| 0 <= j < zones.len() ==> !in_zone((#[trigger] zones[j]).0, name),
    ensures
        configured(defaults, zones, name) == default_config(defaults),
    decreases zones.len(),
{
    if zones.len() > 0 {
        let rest = zones.drop_last();
        assert forall|j: int| 0 <= j < rest.len() implies !in_zone((#[trigger] rest[j]).0, name) by {
            assert(rest[j] == zones[j]);
        }
        law_outside_all_zones(defaults, rest, name);
        assert(zones.last() == zones[zones.len() - 1]);
    }
}

/// The default upstream is tried after those of all zones.
pub proof fn law_default_upstream_last(
    defaults: DefaultZoneConfig,
    zones: Seq<(Seq<Seq<u8>>, PartialZoneConfig)>,
    name: Seq<Seq<u8>>,
)
    requires
        defaults.upstream is Some,
    ensures
        configured(defaults, zones, name).upstreams.len() > 0,
        configured(defaults, zones, name).upstreams.last() == defaults.upstream->0,
    decreases zones.len(),
{
    if zones.len() > 0 {
        law_default_upstream_last(defaults, zones.drop_last(), name);
    }
}

/// A name that lies in no zone with a lifetime has that of the defaults, or else five minutes.
pub proof fn law_default_ttl(
    defaults: DefaultZoneConfig,
    zones: Seq<(Seq<Seq<u8>>, PartialZoneConfig)>,
    name: Seq<Seq<u8>>,
)
    requires
        forall|j: int|
            0 <= j < zones.len() && in_zone((#[trigger] zones[j]).0, name)
                ==> zones[j].1.config.ttl is None,
    ensures
        defaults.ttl matches Some(ttl) ==> configured(defaults, zones, name).ttl == ttl,
        defaults.ttl is None ==> configured(defaults, zones, name).ttl == 5 * 60,
    decreases zones.len(),
{
    if zones.len() > 0 {
        let rest = zones.drop_last();
        assert forall|j: int| 0 <= j < rest.len() && in_zone((#[trigger] rest[j]).0, name) implies
            rest[j].1.config.ttl is None by {
            assert(rest[j] == zones[j]);
        }
        law_default_ttl(defaults, rest, name);
        assert(zones.last() == zones[zones.len() - 1]);
    }
}

/// The upstreams of a name are those of all the zones that it lies in, from the last of them to the
/// first, and then the default one.
pub proof fn law_all_upstreams_are_tried(
    defaults: DefaultZoneConfig,
    zones: Seq<(Seq<Seq<u8>>, PartialZoneConfig)>,
    name: Seq<Seq<u8>>,
)
    ensures
        configured(defaults, zones, name).upstreams == zones.filter(
            |zone: (Seq<Seq<u8>>, PartialZoneConfig)|
                in_zone(zone.0, name) && zone.1.config.upstream is Some,
        ).map_values(
            |zone: (Seq<Seq<u8>>, PartialZoneConfig)| zone.1.config.upstream->0,
        ).reverse() + match defaults.upstream {
            Some(upstream) => seq![upstream],
            None => Seq::empty(),
        },
    decreases zones.len(),
{
    reveal(Seq::filter);
    let kept = |zone: (Seq<Seq<u8>>, PartialZoneConfig)|
        in_zone(zone.0, name) && zone.1.config.upstream is Some;
    let given = |zone: (Seq<Seq<u8>>, PartialZoneConfig)| zone.1.config.upstream->0;
    if zones.len() > 0 {
        let rest = zones.drop_last();
        law_all_upstreams_are_tried(defaults, rest, name);
        let before = rest.filter(kept).map_values(given);
        if kept(zones.last()) {
            let upstream = zones.last().1.config.upstream->0;
            assert(zones.filter(kept).map_values(given) =~= before.push(upstream));
            assert(before.push(upstream).reverse() =~= seq![upstream] + before.reverse());
        }
    }
}

/// There is authority for a name exactly where its zone is authoritative and leaves room for the names
/// of its server and its keeper. It is the zone's, and lasts as long as what the zone holds.
pub proof fn law_authority_is_that_of_the_zone(config: ZoneConfigView)
    ensures
        soa_of(config) is Some <==> config.authoritative && config.origin is Some && name_len(
            config.origin->0,
        ) <= 244,
        soa_of(config) matches Some(record) ==> {
            let origin = config.origin->0;
            &&& record.name == origin
            &&& record.record_type == RecordType::Soa
            &&& record.class == DnsClass::In
            &&& record.ttl == config.ttl
            &&& record.data matches Some(RDataView::Soa(soa)) && {
                &&& soa.mname == seq![ascii_bytes(seq!['n', 's'])] + origin
                &&& soa.rname == seq![
                    ascii_bytes(seq!['h', 'o', 's', 't', 'm', 'a', 's', 't', 'e', 'r']),
                ] + origin
                &&& soa.serial == 0
                &&& soa.minimum == 60
                &&& soa_ttl_fits(config.ttl) ==> soa.refresh == config.ttl && soa.retry
                    == config.ttl && soa.expire == 10 * config.ttl
            }
        },
{
    assert(ascii_bytes(seq!['n', 's']) =~= ns_label()[0]);
    assert(seq![ascii_bytes(seq!['n', 's'])] =~= ns_label());
    let keeper = seq!['h', 'o', 's', 't', 'm', 'a', 's', 't', 'e', 'r'];
    assert(ascii_bytes(keeper) =~= hostmaster_label()[0]);
    assert(seq![ascii_bytes(keeper)] =~= hostmaster_label());
}

} // verus!
