//! What sources are called.

use vstd::prelude::*;

verus! {

/// The kinds of sources.
#[derive(Clone, Copy, PartialEq, Eq, Debug, Hash, Structural)]
pub enum SourceType {
    File,
    Dhcp,
    Docker,
    Remote,
    Traefik,
}

/// A source, by its kind and its name.
#[derive(Debug)]
pub struct SourceId {
    pub source_type: SourceType,
    pub source_name: String,
}

impl View for SourceId {
    type V = (SourceType, Seq<char>);

    open spec fn view(&self) -> (SourceType, Seq<char>) {
        (self.source_type, self.source_name@)
    }
}

/// A kind of sources as it is written.
pub open spec fn type_text(source_type: SourceType) -> Seq<char> {
    match source_type {
        SourceType::File => "file"@,
        SourceType::Dhcp => "dhcp"@,
        SourceType::Docker => "docker"@,
        SourceType::Remote => "remote"@,
        SourceType::Traefik => "traefik"@,
    }
}

impl SourceType {
    /// The written kind.
    pub fn text(&self) -> (r: String)
        ensures
            r@ == type_text(*self),
    {
        match self {
            SourceType::File => "file".to_owned(),
            SourceType::Dhcp => "dhcp".to_owned(),
            SourceType::Docker => "docker".to_owned(),
            SourceType::Remote => "remote".to_owned(),
            SourceType::Traefik => "traefik".to_owned(),
        }
    }
}

impl SourceId {
    /// A source with a name.
    pub fn new(source_type: SourceType, source_name: &str) -> (r: SourceId)
        ensures
            r@ == (source_type, source_name@),
    {
        SourceId { source_type, source_name: source_name.to_owned() }
    }

    /// The written source.
    pub fn text(&self) -> (r: String)
        ensures
            r@ == seq!['['] + type_text(self@.0) + seq![','] + self@.1 + seq![']'],
    {
        let mut s = String::new();
        s.push('[');
        s.append(self.source_type.text().as_str());
        s.push(',');
        s.append(self.source_name.as_str());
        s.push(']');
        assert(s@ =~= seq!['['] + type_text(self@.0) + seq![','] + self@.1 + seq![']']);
        s
    }

    /// Whether this is the same source as another.
    pub fn same(&self, other: &SourceId) -> (r: bool)
        ensures
            r == (self@ == other@),
    {
        self.source_type == other.source_type && self.source_name == other.source_name
    }
}

impl Clone for SourceId {
    fn clone(&self) -> (r: Self)
        ensures
            r@ == self@,
    {
        SourceId { source_type: self.source_type, source_name: self.source_name.clone() }
    }
}

impl PartialEq for SourceId {
    fn eq(&self, other: &Self) -> (r: bool) {
        self.same(other)
    }
}

impl vstd::std_specs::cmp::PartialEqSpecImpl for SourceId {
    open spec fn obeys_eq_spec() -> bool {
        true
    }

    open spec fn eq_spec(&self, other: &Self) -> bool {
        self@ == other@
    }
}

impl Eq for SourceId {

}

} // verus!
