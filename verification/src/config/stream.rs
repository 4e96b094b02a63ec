//! A configuration that is read again whenever its file changes.

use vstd::prelude::*;
use crate::config::settings::{address_option, settings_views, Config, SettingsView, ZoneSettings};
use crate::sources::install::{is_unchanged, unchanged, SourceConfig, SourcesConfig};

verus! {

/// Whether two lists of sources hold the same configurations under the same names. No name is in a
/// list twice.
pub open spec fn same_list<C: SourceConfig>(a: Seq<(String, C)>, b: Seq<(String, C)>) -> bool {
    a.len() == b.len() && forall|i: int|
        0 <= i < a.len() ==> unchanged(b, (#[trigger] a[i]).0@, a[i].1)
}

/// Whether two lists of sources of all kinds are the same.
pub open spec fn same_sources(a: SourcesConfig, b: SourcesConfig) -> bool {
    &&& same_list(a.docker@, b.docker@)
    &&& same_list(a.traefik@, b.traefik@)
    &&& same_list(a.dhcp@, b.dhcp@)
    &&& same_list(a.file@, b.file@)
    &&& same_list(a.remote@, b.remote@)
}

/// Whether two lists of zones hold the same settings under the same names. No name is in a list
/// twice.
pub open spec fn same_settings(
    a: Seq<(Seq<char>, SettingsView)>,
    b: Seq<(Seq<char>, SettingsView)>,
) -> bool {
    a.len() == b.len() && forall|i: int| 0 <= i < a.len() ==> b.contains(#[trigger] a[i])
}

/// Whether two configurations are the same.
pub open spec fn same_config(a: Config, b: Config) -> bool {
    &&& a.config_file@ == b.config_file@
    &&& address_option(a.config.upstream) == address_option(b.config.upstream)
    &&& a.config.server == b.config.server
    &&& same_sources(a.config.sources, b.config.sources)
    &&& same_settings(settings_views(a.config.zones@), settings_views(b.config.zones@))
}

/// Whether a file was read with the same result twice.
pub open spec fn same_result(a: Result<Config, String>, b: Result<Config, String>) -> bool {
    match (a, b) {
        (Ok(a), Ok(b)) => same_config(a, b),
        (Err(a), Err(b)) => a@ == b@,
        _ => false,
    }
}

/// Whether two lists of sources are the same.
fn lists_same<C: SourceConfig>(a: &Vec<(String, C)>, b: &Vec<(String, C)>) -> (r: bool)
    ensures
        r == same_list(a@, b@),
{
    if a.len() != b.len() {
        return false;
    }
    let mut i: usize = 0;
    while i < a.len()
        invariant
            i <= a.len(),
            a.len() == b.len(),
            forall|j: int| 0 <= j < i ==> unchanged(b@, (#[trigger] a@[j]).0@, a@[j].1),
        decreases a.len() - i,
    {
        if !is_unchanged(b, &a[i].0, &a[i].1) {
            assert(!unchanged(b@, a@[i as int].0@, a@[i as int].1));
            return false;
        }
        i += 1;
    }
    true
}

/// Whether the settings of two zones are the same.
fn zone_same(a: &ZoneSettings, b: &ZoneSettings) -> (r: bool)
    ensures
        r == (a@ == b@),
{
    let same_upstream = match (&a.upstream, &b.upstream) {
        (Some(a), Some(b)) => a.same(b),
        (None, None) => true,
        _ => false,
    };
    same_upstream && a.authoratative == b.authoratative
}

/// Whether two lists of zones are the same.
fn settings_same(a: &Vec<(String, ZoneSettings)>, b: &Vec<(String, ZoneSettings)>) -> (r: bool)
    ensures
        r == same_settings(settings_views(a@), settings_views(b@)),
{
    let ghost left = settings_views(a@);
    let ghost right = settings_views(b@);
    if a.len() != b.len() {
        return false;
    }
    let mut i: usize = 0;
    while i < a.len()
        invariant
            i <= a.len(),
            a.len() == b.len(),
            left == settings_views(a@),
            right == settings_views(b@),
            forall|j: int| 0 <= j < i ==> right.contains(#[trigger] left[j]),
        decreases a.len() - i,
    {
        let mut k: usize = 0;
        while k < b.len() && !(b[k].0 == a[i].0 && zone_same(&b[k].1, &a[i].1))
            invariant
                k <= b.len(),
                i < a.len(),
                left == settings_views(a@),
                right == settings_views(b@),
                forall|j: int| 0 <= j < k ==> #[trigger] right[j] != left[i as int],
            decreases b.len() - k,
        {
            assert(right[k as int] != left[i as int]);
            k += 1;
        }
        if k == b.len() {
            assert(!right.contains(left[i as int]));
            return false;
        }
        assert(right[k as int] == left[i as int]);
        i += 1;
    }
    true
}

/// Whether two configurations are the same.
fn config_same(a: &Config, b: &Config) -> (r: bool)
    ensures
        r == same_config(*a, *b),
{
    let same_upstream = match (&a.config.upstream, &b.config.upstream) {
        (Some(a), Some(b)) => a.same(b),
        (None, None) => true,
        _ => false,
    };
    let (x, y) = (&a.config.sources, &b.config.sources);
    a.config_file == b.config_file && same_upstream && a.config.server == b.config.server
        && lists_same(&x.docker, &y.docker) && lists_same(&x.traefik, &y.traefik) && lists_same(
        &x.dhcp,
        &y.dhcp,
    ) && lists_same(&x.file, &y.file) && lists_same(&x.remote, &y.remote) && settings_same(
        &a.config.zones,
        &b.config.zones,
    )
}

/// A configuration that is read again and again: what the file gave last, and what holds where it
/// gave an error.
#[derive(Debug)]
pub struct ConfigStream {
    last: Result<Config, String>,
    fallback: Config,
}

impl ConfigStream {
    /// What the file gave last.
    pub closed spec fn last(self) -> Result<Config, String> {
        self.last
    }

    /// What holds where the file gave an error.
    pub closed spec fn fallback(self) -> Config {
        self.fallback
    }

    /// The stream of a file, with what it gave at first.
    pub fn new(config_file: &str, first: Result<Config, String>) -> (r: ConfigStream)
        ensures
            r.last() == first,
            r.fallback().is_default(config_file@),
    {
        ConfigStream { last: first, fallback: Config::default(config_file) }
    }

    /// The configuration that holds: what the file gave last, or one that says nothing where that
    /// was an error.
    pub fn config(&self) -> (r: &Config)
        ensures
            *r == match self.last() {
                Ok(config) => config,
                Err(_) => self.fallback(),
            },
    {
        match &self.last {
            Ok(config) => config,
            Err(_) => &self.fallback,
        }
    }

    /// Takes what the file gives now. The result says whether the configuration is sent on: where
    /// the file gives the same again, it is not.
    pub fn update(&mut self, next: Result<Config, String>) -> (r: bool)
        ensures
            r == !same_result(next, old(self).last()),
            final(self).last() == if r {
                next
            } else {
                old(self).last()
            },
            final(self).fallback() == old(self).fallback(),
    {
        let same = match (&next, &self.last) {
            (Ok(a), Ok(b)) => config_same(a, b),
            (Err(a), Err(b)) => *a == *b,
            _ => false,
        };
        if same {
            return false;
        }
        self.last = next;
        true
    }
}

} // verus!
