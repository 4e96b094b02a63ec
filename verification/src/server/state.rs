//! What changes when the configuration or the records of a server do.

use vstd::prelude::*;
use crate::api::ApiConfig;
use crate::dns::names::{
    contains_name, insert_name, lemma_with_name, lemma_with_name_apart, listed, name_views,
    names_apart, with_name,
};
use crate::dns::query::lemma_listed_folds;
use crate::name::{fold, Fqdn};
use crate::record::{same_records, SharedRecordSet};

verus! {

/// How a server is reached.
#[derive(Clone, Copy, PartialEq, Eq, Debug, Hash, Structural)]
pub struct ServerConfig {
    pub port: Option<u16>,
}

impl Default for ServerConfig {
    fn default() -> (r: Self)
        ensures
            r.port is None,
    {
        ServerConfig { port: None }
    }
}

impl ServerConfig {
    /// The port to listen on: 53 unless another is configured.
    pub fn listen_port(&self) -> (r: u16)
        ensures
            r == match self.port {
                Some(port) => port,
                None => 53,
            },
    {
        match self.port {
            Some(port) => port,
            None => 53,
        }
    }
}

/// What is started anew when the configuration changes.
#[derive(Clone, Copy, PartialEq, Eq, Debug, Hash, Structural)]
pub struct Restarts {
    pub dns_server: bool,
    pub api_server: bool,
}

/// Decides what is started anew when the configuration changes: each server whose own part of it
/// does.
pub fn update_config(
    old_server: &ServerConfig,
    new_server: &ServerConfig,
    old_api: &Option<ApiConfig>,
    new_api: &Option<ApiConfig>,
) -> (r: Restarts)
    ensures
        r.dns_server == (*old_server != *new_server),
        r.api_server == (*old_api != *new_api),
{
    let same_api = match (old_api, new_api) {
        (Some(a), Some(b)) => *a == *b,
        (None, None) => true,
        _ => false,
    };
    Restarts { dns_server: *old_server != *new_server, api_server: !same_api }
}

/// The zones that a server has after its zones were made anew: their names, and the names of those
/// that it no longer has.
#[derive(Debug)]
pub struct ZoneChanges {
    pub names: Vec<Fqdn>,
    pub removed: Vec<Fqdn>,
}

/// The names of zones, each once.
pub open spec fn distinct(names: Seq<Seq<Seq<u8>>>) -> Seq<Seq<Seq<u8>>>
    decreases names.len(),
{
    if names.len() == 0 {
        Seq::empty()
    } else {
        with_name(distinct(names.drop_last()), names.last())
    }
}

/// The names that are not among others.
pub open spec fn missing_from(
    names: Seq<Seq<Seq<u8>>>,
    others: Seq<Seq<Seq<u8>>>,
) -> Seq<Seq<Seq<u8>>>
    decreases names.len(),
{
    if names.len() == 0 {
        Seq::empty()
    } else {
        let rest = missing_from(names.drop_last(), others);
        if listed(others, names.last()) {
            rest
        } else {
            rest.push(names.last())
        }
    }
}

/// Decides which zones go when zones are made anew: those that were there and are not made again.
pub fn apply_records(previous_names: &Vec<Fqdn>, origins: &Vec<Fqdn>) -> (r: ZoneChanges)
    ensures
        name_views(r.names@) == distinct(name_views(origins@)),
        name_views(r.removed@) == missing_from(name_views(previous_names@), name_views(origins@)),
{
    let mut names: Vec<Fqdn> = Vec::new();
    let ghost all = name_views(origins@);
    let mut i: usize = 0;
    assert(all.take(0) =~= Seq::empty());
    assert(name_views(names@) =~= Seq::empty());
    while i < origins.len()
        invariant
            i <= origins.len(),
            all == name_views(origins@),
            name_views(names@) == distinct(all.take(i as int)),
        decreases origins.len() - i,
    {
        assert(all.take(i + 1).drop_last() =~= all.take(i as int));
        assert(all.take(i + 1).last() == all[i as int]);
        insert_name(&mut names, &origins[i]);
        i += 1;
    }
    assert(all.take(i as int) =~= all);
    let mut removed: Vec<Fqdn> = Vec::new();
    let ghost previous = name_views(previous_names@);
    let mut k: usize = 0;
    assert(previous.take(0) =~= Seq::empty());
    assert(name_views(removed@) =~= Seq::empty());
    while k < previous_names.len()
        invariant
            k <= previous_names.len(),
            previous == name_views(previous_names@),
            all == name_views(origins@),
            name_views(removed@) == missing_from(previous.take(k as int), all),
        decreases previous_names.len() - k,
    {
        assert(previous.take(k + 1).drop_last() =~= previous.take(k as int));
        assert(previous.take(k + 1).last() == previous[k as int]);
        if !contains_name(origins, &previous_names[k]) {
            let ghost before = name_views(removed@);
            let name = previous_names[k].clone();
            removed.push(name);
            assert(name_views(removed@) =~= before.push(previous[k as int]));
        }
        k += 1;
    }
    assert(previous.take(k as int) =~= previous);
    ZoneChanges { names, removed }
}

/// Takes the records that there are now. The result says whether the zones are to be made anew:
/// where the records are the same as before they are not.
pub fn update_records(records: &mut SharedRecordSet, new_records: SharedRecordSet) -> (r: bool)
    ensures
        r == !same_records(old(records)@, new_records@),
        *final(records) == if r {
            new_records
        } else {
            *old(records)
        },
{
    if records.same(&new_records) {
        return false;
    }
    *records = new_records;
    true
}

/// The zones that a server has are exactly those that were made, each once, and those that go are the
/// ones that it had and that were not made again.
pub proof fn law_zones_come_and_go(
    previous: Seq<Seq<Seq<u8>>>,
    made: Seq<Seq<Seq<u8>>>,
    name: Seq<Seq<u8>>,
)
    ensures
        names_apart(distinct(made)),
        listed(distinct(made), name) <==> listed(made, name),
        listed(missing_from(previous, made), name) <==> listed(previous, name) && !listed(
            made,
            name,
        ),
{
    lemma_distinct(made, name);
    lemma_missing(previous, made, name);
}

/// One of some names is the last, or one before it.
proof fn lemma_listed_last(names: Seq<Seq<Seq<u8>>>, name: Seq<Seq<u8>>)
    requires
        names.len() > 0,
    ensures
        listed(names, name) <==> listed(names.drop_last(), name) || fold(names.last()) == fold(
            name,
        ),
{
    let front = names.drop_last();
    assert(names[names.len() - 1] == names.last());
    if listed(names, name) {
        let i = choose|i: int| 0 <= i < names.len() && fold(#[trigger] names[i]) == fold(name);
        if i < front.len() {
            assert(front[i] == names[i]);
        }
    }
    if listed(front, name) {
        let i = choose|i: int| 0 <= i < front.len() && fold(#[trigger] front[i]) == fold(name);
        assert(names[i] == front[i]);
    }
}

/// Names that are there once are those that are there.
proof fn lemma_distinct(names: Seq<Seq<Seq<u8>>>, name: Seq<Seq<u8>>)
    ensures
        names_apart(distinct(names)),
        listed(distinct(names), name) <==> listed(names, name),
    decreases names.len(),
{
    if names.len() > 0 {
        let front = names.drop_last();
        lemma_distinct(front, name);
        lemma_with_name(distinct(front), names.last(), name);
        lemma_with_name_apart(distinct(front), names.last());
        lemma_listed_last(names, name);
    }
}

/// Names that are missing are those that are not among the others.
proof fn lemma_missing(
    names: Seq<Seq<Seq<u8>>>,
    others: Seq<Seq<Seq<u8>>>,
    name: Seq<Seq<u8>>,
)
    ensures
        listed(missing_from(names, others), name) <==> listed(names, name) && !listed(others, name),
    decreases names.len(),
{
    if names.len() > 0 {
        let front = names.drop_last();
        let rest = missing_from(front, others);
        lemma_missing(front, others, name);
        lemma_listed_last(names, name);
        if fold(names.last()) == fold(name) {
            lemma_listed_folds(others, names.last(), name);
        }
        if !listed(others, names.last()) {
            let all = rest.push(names.last());
            assert(all.drop_last() =~= rest);
            lemma_listed_last(all, name);
        }
    }
}

} // verus!
