//! The state of a query while it is being answered.

use vstd::prelude::*;
use crate::dns::chain::{data_views, resolution, resolve_chain};
use crate::dns::names::{
    contains_name, copy_names, insert_name, lemma_with_name, lemma_with_name_apart,
    lemma_without_name, lemma_without_name_apart, listed, name_views, names_apart, remove_name,
    with_name, without_name,
};
use crate::dns::rr::{
    copy_records, views, DnsClass, RData, RDataView, Record, RecordType, RecordView, ResponseCode,
};
use crate::name::{fold, Fqdn};

verus! {

/// What is asked for.
#[derive(Debug)]
pub struct Query {
    pub name: Fqdn,
    pub query_class: DnsClass,
    pub query_type: RecordType,
}

/// What is asked for, by the labels of its name.
#[verifier::ext_equal]
pub struct QueryView {
    pub name: Seq<Seq<u8>>,
    pub query_class: DnsClass,
    pub query_type: RecordType,
}

impl View for Query {
    type V = QueryView;

    open spec fn view(&self) -> QueryView {
        QueryView {
            name: self.name@,
            query_class: self.query_class,
            query_type: self.query_type,
        }
    }
}

impl Query {
    /// A query of the internet class.
    pub fn query(name: Fqdn, query_type: RecordType) -> (r: Query)
        ensures
            r@ == (QueryView { name: name@, query_class: DnsClass::In, query_type }),
    {
        Query { name, query_class: DnsClass::In, query_type }
    }
}

impl Clone for Query {
    fn clone(&self) -> (r: Self)
        ensures
            r@ == self@,
    {
        Query {
            name: self.name.clone(),
            query_class: self.query_class,
            query_type: self.query_type,
        }
    }
}

/// The parts of a response header that an answer decides.
#[derive(Clone, Copy, PartialEq, Eq, Debug, Hash, Structural)]
pub struct ResponseHeader {
    pub authoritative: bool,
    pub recursion_available: bool,
    pub response_code: ResponseCode,
}

/// The state of a query.
#[derive(Debug)]
pub struct QueryState {
    /// The original query.
    pub query: Query,
    /// Whether recursion was requested.
    pub recursion_desired: bool,
    /// Whether to directly resolve aliases.
    pub resolve_aliases: bool,
    /// The names that have been seen already.
    pub seen: Vec<Fqdn>,
    /// The names that remain to be looked up.
    pub unknowns: Vec<Fqdn>,
    pub recursion_available: bool,
    pub response_code: ResponseCode,
    /// The answers to respond with.
    pub answers: Vec<Record>,
    /// The additional records.
    pub additionals: Vec<Record>,
    /// The alias records that were found and must be resolved.
    pub aliases: Vec<(Fqdn, Fqdn)>,
    pub name_servers: Vec<Record>,
    pub soa: Option<Record>,
}

/// The state of a query, by the labels of its names.
#[verifier::ext_equal]
pub struct QueryStateView {
    pub query: QueryView,
    pub recursion_desired: bool,
    pub resolve_aliases: bool,
    pub seen: Seq<Seq<Seq<u8>>>,
    pub unknowns: Seq<Seq<Seq<u8>>>,
    pub recursion_available: bool,
    pub response_code: ResponseCode,
    pub answers: Seq<RecordView>,
    pub additionals: Seq<RecordView>,
    pub aliases: Seq<(Seq<Seq<u8>>, Seq<Seq<u8>>)>,
    pub name_servers: Seq<RecordView>,
    pub soa: Option<RecordView>,
}

/// The aliases of a list.
pub open spec fn alias_views(aliases: Seq<(Fqdn, Fqdn)>) -> Seq<(Seq<Seq<u8>>, Seq<Seq<u8>>)> {
    Seq::new(aliases.len(), |i: int| (aliases[i].0@, aliases[i].1@))
}

/// The record that there may be.
pub open spec fn soa_view(soa: Option<Record>) -> Option<RecordView> {
    match soa {
        Some(record) => Some(record@),
        None => None,
    }
}

impl View for QueryState {
    type V = QueryStateView;

    open spec fn view(&self) -> QueryStateView {
        QueryStateView {
            query: self.query@,
            recursion_desired: self.recursion_desired,
            resolve_aliases: self.resolve_aliases,
            seen: name_views(self.seen@),
            unknowns: name_views(self.unknowns@),
            recursion_available: self.recursion_available,
            response_code: self.response_code,
            answers: views(self.answers@),
            additionals: views(self.additionals@),
            aliases: alias_views(self.aliases@),
            name_servers: views(self.name_servers@),
            soa: soa_view(self.soa),
        }
    }
}

/// The state of a query that has just come: nothing is known of its name.
pub open spec fn fresh(query: QueryView, recursion_desired: bool) -> QueryStateView {
    QueryStateView {
        query,
        recursion_desired,
        resolve_aliases: false,
        seen: seq![query.name],
        unknowns: seq![query.name],
        recursion_available: true,
        response_code: ResponseCode::NXDomain,
        answers: Seq::empty(),
        additionals: Seq::empty(),
        aliases: Seq::empty(),
        name_servers: Seq::empty(),
        soa: None,
    }
}

/// The place of a name among aliases, or their number.
pub open spec fn alias_place(
    aliases: Seq<(Seq<Seq<u8>>, Seq<Seq<u8>>)>,
    name: Seq<Seq<u8>>,
) -> int
    decreases aliases.len(),
{
    if aliases.len() == 0 {
        0
    } else {
        let place = alias_place(aliases.drop_last(), name);
        if place < aliases.len() - 1 {
            place
        } else if fold(aliases.last().0) == fold(name) {
            aliases.len() - 1
        } else {
            aliases.len() as int
        }
    }
}

/// Aliases with a name made an alias of another.
pub open spec fn with_alias(
    aliases: Seq<(Seq<Seq<u8>>, Seq<Seq<u8>>)>,
    name: Seq<Seq<u8>>,
    target: Seq<Seq<u8>>,
) -> Seq<(Seq<Seq<u8>>, Seq<Seq<u8>>)> {
    let place = alias_place(aliases, name);
    if place < aliases.len() {
        aliases.update(place, (aliases[place].0, target))
    } else {
        aliases.push((name, target))
    }
}

/// The targets of aliases that have not been seen, each once.
pub open spec fn unseen_targets(
    aliases: Seq<(Seq<Seq<u8>>, Seq<Seq<u8>>)>,
    seen: Seq<Seq<Seq<u8>>>,
) -> Seq<Seq<Seq<u8>>>
    decreases aliases.len(),
{
    if aliases.len() == 0 {
        Seq::empty()
    } else {
        let rest = unseen_targets(aliases.drop_last(), seen);
        if listed(seen, aliases.last().1) {
            rest
        } else {
            with_name(rest, aliases.last().1)
        }
    }
}

/// The state in which the targets of the aliases of a query are looked up.
pub open spec fn for_targets(state: QueryStateView) -> QueryStateView {
    QueryStateView {
        query: state.query,
        recursion_desired: state.recursion_desired,
        resolve_aliases: true,
        seen: state.seen,
        unknowns: unseen_targets(state.aliases, state.seen),
        recursion_available: true,
        response_code: ResponseCode::NXDomain,
        answers: state.answers,
        additionals: state.additionals,
        aliases: Seq::empty(),
        name_servers: Seq::empty(),
        soa: None,
    }
}

/// A state in which an answer has been taken note of: its name is known, and if it leads to a name
/// that was not seen, that name remains to be looked up.
pub open spec fn noted(state: QueryStateView, record: RecordView) -> QueryStateView {
    let seen = with_name(state.seen, record.name);
    let unknowns = without_name(state.unknowns, record.name);
    let follows = match record.data {
        Some(RDataView::Cname(target)) => !listed(seen, target),
        _ => false,
    };
    QueryStateView {
        seen: if follows {
            with_name(seen, record.data->0->Cname_0)
        } else {
            seen
        },
        unknowns: if follows {
            with_name(unknowns, record.data->0->Cname_0)
        } else {
            unknowns
        },
        response_code: if record.record_type == state.query.query_type {
            ResponseCode::NoError
        } else {
            state.response_code
        },
        ..state
    }
}

/// A state in which answers have been taken note of.
pub open spec fn all_noted(state: QueryStateView, records: Seq<RecordView>) -> QueryStateView
    decreases records.len(),
{
    if records.len() == 0 {
        state
    } else {
        noted(all_noted(state, records.drop_last()), records.last())
    }
}

/// A state with answers added.
pub open spec fn with_answers(state: QueryStateView, records: Seq<RecordView>) -> QueryStateView {
    let after = all_noted(state, records);
    QueryStateView { answers: state.answers + records, ..after }
}

impl QueryState {
    /// The state of a query that has just come.
    pub fn new(query: Query, recursion_desired: bool) -> (r: QueryState)
        ensures
            r@ == fresh(query@, recursion_desired),
    {
        let name = query.name.clone();
        let unknown = query.name.clone();
        let state = QueryState {
            query,
            recursion_desired,
            resolve_aliases: false,
            seen: vec![name],
            unknowns: vec![unknown],
            recursion_available: true,
            response_code: ResponseCode::NXDomain,
            answers: Vec::new(),
            additionals: Vec::new(),
            aliases: Vec::new(),
            name_servers: Vec::new(),
            soa: None,
        };
        assert(state@ =~= fresh(query@, recursion_desired));
        state
    }

    /// The state in which the targets of the aliases are looked up.
    pub fn for_aliases(&self) -> (r: QueryState)
        ensures
            r@ == for_targets(self@),
    {
        let mut unknowns: Vec<Fqdn> = Vec::new();
        let ghost all = alias_views(self.aliases@);
        let mut i: usize = 0;
        assert(all.take(0) =~= Seq::empty());
        assert(name_views(unknowns@) =~= Seq::empty());
        while i < self.aliases.len()
            invariant
                i <= self.aliases.len(),
                all == alias_views(self.aliases@),
                name_views(unknowns@) == unseen_targets(all.take(i as int), name_views(self.seen@)),
            decreases self.aliases.len() - i,
        {
            assert(all.take(i + 1).drop_last() =~= all.take(i as int));
            assert(all.take(i + 1).last() == all[i as int]);
            if !contains_name(&self.seen, &self.aliases[i].1) {
                insert_name(&mut unknowns, &self.aliases[i].1);
            }
            i += 1;
        }
        assert(all.take(i as int) =~= all);
        let state = QueryState {
            seen: copy_names(&self.seen),
            unknowns,
            query: self.query.clone(),
            recursion_desired: self.recursion_desired,
            resolve_aliases: true,
            recursion_available: true,
            response_code: ResponseCode::NXDomain,
            answers: copy_records(&self.answers),
            additionals: copy_records(&self.additionals),
            aliases: Vec::new(),
            name_servers: Vec::new(),
            soa: None,
        };
        assert(state@ =~= for_targets(self@));
        state
    }

    /// The type that is asked for.
    pub fn query_type(&self) -> (r: RecordType)
        ensures
            r == self@.query.query_type,
    {
        self.query.query_type
    }

    /// The class that is asked for.
    pub fn query_class(&self) -> (r: DnsClass)
        ensures
            r == self@.query.query_class,
    {
        self.query.query_class
    }

    /// The answers to respond with.
    pub fn answers(&self) -> (r: &Vec<Record>)
        ensures
            views(r@) == self@.answers,
    {
        &self.answers
    }

    /// The additional records.
    pub fn additionals(&self) -> (r: &Vec<Record>)
        ensures
            views(r@) == self@.additionals,
    {
        &self.additionals
    }

    /// The name servers.
    pub fn name_servers(&self) -> (r: &Vec<Record>)
        ensures
            views(r@) == self@.name_servers,
    {
        &self.name_servers
    }

    /// The start of authority.
    pub fn soa(&self) -> (r: &Option<Record>)
        ensures
            soa_view(*r) == self@.soa,
    {
        &self.soa
    }

    /// Takes note of an answer.
    fn note(&mut self, record: &Record)
        ensures
            final(self)@ == noted(old(self)@, record@),
    {
        insert_name(&mut self.seen, &record.name);
        remove_name(&mut self.unknowns, &record.name);
        self.add_unknowns(record);
        if record.record_type == self.query.query_type {
            self.response_code = ResponseCode::NoError;
        }
        assert(self@ =~= noted(old(self)@, record@));
    }

    /// Takes note of the name that an answer leads to, if it has not been seen.
    fn add_unknowns(&mut self, record: &Record)
        ensures
            final(self)@ == (match record@.data {
                Some(RDataView::Cname(target)) => if listed(old(self)@.seen, target) {
                    old(self)@
                } else {
                    QueryStateView {
                        seen: with_name(old(self)@.seen, target),
                        unknowns: with_name(old(self)@.unknowns, target),
                        ..old(self)@
                    }
                },
                _ => old(self)@,
            }),
    {
        if let Some(RData::Cname(target)) = &record.data {
            if !contains_name(&self.seen, target) {
                insert_name(&mut self.seen, target);
                insert_name(&mut self.unknowns, target);
            }
        }
    }

    /// Adds answers.
    pub fn add_answers(&mut self, records: Vec<Record>)
        ensures
            final(self)@ == with_answers(old(self)@, views(records@)),
    {
        let ghost start = self@;
        let ghost all = views(records@);
        let mut records = records;
        let mut i: usize = 0;
        assert(all.take(0) =~= Seq::empty());
        while i < records.len()
            invariant
                i <= records.len(),
                all == views(records@),
                self@ == all_noted(start, all.take(i as int)),
            decreases records.len() - i,
        {
            assert(all.take(i + 1).drop_last() =~= all.take(i as int));
            assert(all.take(i + 1).last() == records@[i as int]@);
            self.note(&records[i]);
            i += 1;
        }
        assert(all.take(i as int) =~= all);
        proof {
            lemma_noted_keeps(start, all);
        }
        let ghost before = self@;
        self.answers.append(&mut records);
        assert(views(self.answers@) =~= start.answers + all);
        assert(self@ =~= with_answers(start, all));
    }

    /// Adds additional records.
    pub fn add_additionals(&mut self, records: Vec<Record>)
        ensures
            final(self)@ == (QueryStateView {
                additionals: old(self)@.additionals + views(records@),
                ..old(self)@
            }),
    {
        let mut records = records;
        let ghost all = views(records@);
        self.additionals.append(&mut records);
        assert(views(self.additionals@) =~= old(self)@.additionals + all);
        assert(self@ =~= (QueryStateView {
            additionals: old(self)@.additionals + all,
            ..old(self)@
        }));
    }

    /// Takes a name that remains to be looked up.
    pub fn next_unknown(&mut self) -> (r: Option<Fqdn>)
        ensures
            match r {
                Some(name) => old(self)@.unknowns.len() > 0 && name@ == old(self)@.unknowns[0]
                    && final(self)@ == (QueryStateView {
                    unknowns: old(self)@.unknowns.drop_first(),
                    ..old(self)@
                }),
                None => old(self)@.unknowns.len() == 0 && final(self)@ == old(self)@,
            },
    {
        if self.unknowns.len() == 0 {
            None
        } else {
            let name = self.unknowns.remove(0);
            assert(name_views(self.unknowns@) =~= old(self)@.unknowns.drop_first());
            assert(self@ =~= (QueryStateView {
                unknowns: old(self)@.unknowns.drop_first(),
                ..old(self)@
            }));
            Some(name)
        }
    }

    /// Makes a name an alias of another.
    pub fn add_alias(&mut self, name: &Fqdn, target: &Fqdn)
        ensures
            final(self)@ == (QueryStateView {
                aliases: with_alias(old(self)@.aliases, name@, target@),
                ..old(self)@
            }),
    {
        let ghost all = alias_views(self.aliases@);
        let mut i: usize = 0;
        let mut place: usize = 0;
        assert(all.take(0) =~= Seq::empty());
        while i < self.aliases.len()
            invariant
                i <= self.aliases.len(),
                all == alias_views(self.aliases@),
                self@ == old(self)@,
                place <= i,
                place == alias_place(all.take(i as int), name@),
            decreases self.aliases.len() - i,
        {
            assert(all.take(i + 1).drop_last() =~= all.take(i as int));
            assert(all.take(i + 1).last() == all[i as int]);
            if place == i && !self.aliases[i].0.same(name) {
                place = i + 1;
            }
            i += 1;
        }
        assert(all.take(i as int) =~= all);
        let copy = target.clone();
        if place < self.aliases.len() {
            let key = self.aliases[place].0.clone();
            self.aliases.set(place, (key, copy));
        } else {
            self.aliases.push((name.clone(), copy));
        }
        assert(alias_views(self.aliases@) =~= with_alias(all, name@, target@));
        assert(self@ =~= (QueryStateView {
            aliases: with_alias(old(self)@.aliases, name@, target@),
            ..old(self)@
        }));
    }

    /// Whether the aliases of a name do not lead round in a circle.
    pub fn resolves(&self, name: &Fqdn) -> (r: bool)
        ensures
            r == (resolution(self@.answers + self@.additionals, name@) is Some),
    {
        resolve_chain(&self.answers, &self.additionals, name).is_some()
    }

    /// The data under a name, with that of the names it is an alias of.
    pub fn resolve_name(&self, name: &Fqdn) -> (r: Vec<RData>)
        requires
            resolution(self@.answers + self@.additionals, name@) is Some,
        ensures
            data_views(r@) == resolution(self@.answers + self@.additionals, name@)->0,
    {
        match resolve_chain(&self.answers, &self.additionals, name) {
            Some(data) => data,
            None => Vec::new(),
        }
    }

    /// The parts of the response header that the answer decides.
    pub fn header(&self) -> (r: ResponseHeader)
        ensures
            r == (ResponseHeader {
                authoritative: self@.soa is Some,
                recursion_available: self@.recursion_available,
                response_code: self@.response_code,
            }),
    {
        ResponseHeader {
            authoritative: self.soa.is_some(),
            recursion_available: self.recursion_available,
            response_code: self.response_code,
        }
    }
}

/// Taking note of answers changes nothing but what is seen, what remains and the response code.
pub proof fn lemma_noted_keeps(state: QueryStateView, records: Seq<RecordView>)
    ensures
        all_noted(state, records) == (QueryStateView {
            seen: all_noted(state, records).seen,
            unknowns: all_noted(state, records).unknowns,
            response_code: all_noted(state, records).response_code,
            ..state
        }),
    decreases records.len(),
{
    if records.len() > 0 {
        lemma_noted_keeps(state, records.drop_last());
    }
}

/// Taking note of an answer makes a name remain to be looked up only if it was not seen before, and
/// such a name counts as seen from then on.
pub proof fn law_names_are_looked_up_once(
    state: QueryStateView,
    record: RecordView,
    name: Seq<Seq<u8>>,
)
    ensures
        listed(noted(state, record).unknowns, name) && !listed(state.unknowns, name) ==> !listed(
            state.seen,
            name,
        ) && listed(noted(state, record).seen, name),
        listed(state.seen, name) ==> listed(noted(state, record).seen, name),
        listed(noted(state, record).seen, record.name),
{
    let seen = with_name(state.seen, record.name);
    let unknowns = without_name(state.unknowns, record.name);
    lemma_with_name(state.seen, record.name, name);
    lemma_with_name(state.seen, record.name, record.name);
    lemma_without_name(state.unknowns, record.name, name);
    if let Some(RDataView::Cname(target)) = record.data {
        lemma_with_name(seen, target, name);
        lemma_with_name(seen, target, record.name);
        lemma_with_name(unknowns, target, name);
        if fold(name) == fold(target) && listed(seen, name) {
            let i = choose|i: int| 0 <= i < seen.len() && fold(#[trigger] seen[i]) == fold(name);
            assert(fold(seen[i]) == fold(target));
        }
    }
}

/// Whether one of some records is under a name.
pub open spec fn owned(records: Seq<RecordView>, name: Seq<Seq<u8>>) -> bool {
    exists|i: int| 0 <= i < records.len() && fold((#[trigger] records[i]).name) == fold(name)
}

/// Whether one of some records is an alias that leads to a name.
pub open spec fn aliased(records: Seq<RecordView>, name: Seq<Seq<u8>>) -> bool {
    exists|i: int| 0 <= i < records.len() && is_alias_of(#[trigger] records[i], name)
}

/// Whether a record is an alias that leads to a name.
pub open spec fn is_alias_of(record: RecordView, name: Seq<Seq<u8>>) -> bool {
    record.data matches Some(RDataView::Cname(target)) && fold(target) == fold(name)
}

/// After answers were added, exactly these names remain to be looked up: those that did and have no
/// answers now, and those that an answer leads to, that were not seen and have no answers. Seen are
/// those that were, those that have answers, and those that an answer leads to.
pub proof fn law_answers_decide_what_remains(
    state: QueryStateView,
    records: Seq<RecordView>,
    name: Seq<Seq<u8>>,
)
    ensures
        listed(with_answers(state, records).unknowns, name) <==> !owned(records, name) && (listed(
            state.unknowns,
            name,
        ) || aliased(records, name) && !listed(state.seen, name)),
        listed(with_answers(state, records).seen, name) <==> listed(state.seen, name) || owned(
            records,
            name,
        ) || aliased(records, name),
    decreases records.len(),
{
    if records.len() > 0 {
        let front = records.drop_last();
        let record = records.last();
        law_answers_decide_what_remains(state, front, name);
        let before = all_noted(state, front);
        let seen = with_name(before.seen, record.name);
        let unknowns = without_name(before.unknowns, record.name);
        lemma_with_name(before.seen, record.name, name);
        lemma_without_name(before.unknowns, record.name, name);
        if let Some(RDataView::Cname(target)) = record.data {
            lemma_with_name(seen, target, name);
            lemma_with_name(unknowns, target, name);
            if fold(name) == fold(target) {
                lemma_listed_folds(seen, name, target);
            }
        }
        lemma_owned_last(records, name);
        lemma_aliased_last(records, name);
    }
}

/// One of some records is under a name where the last is, or one before it.
pub proof fn lemma_owned_last(records: Seq<RecordView>, name: Seq<Seq<u8>>)
    requires
        records.len() > 0,
    ensures
        owned(records, name) <==> owned(records.drop_last(), name) || fold(records.last().name)
            == fold(name),
{
    let front = records.drop_last();
    assert(records[records.len() - 1] == records.last());
    if owned(front, name) {
        let i = choose|i: int|
            0 <= i < front.len() && fold((#[trigger] front[i]).name) == fold(name);
        assert(records[i] == front[i]);
    }
    if owned(records, name) {
        let i = choose|i: int|
            0 <= i < records.len() && fold((#[trigger] records[i]).name) == fold(name);
        if i < front.len() {
            assert(front[i] == records[i]);
        }
    }
}

/// One of some records leads to a name where the last does, or one before it.
pub proof fn lemma_aliased_last(records: Seq<RecordView>, name: Seq<Seq<u8>>)
    requires
        records.len() > 0,
    ensures
        aliased(records, name) <==> aliased(records.drop_last(), name) || is_alias_of(
            records.last(),
            name,
        ),
{
    let front = records.drop_last();
    assert(records[records.len() - 1] == records.last());
    if aliased(front, name) {
        let i = choose|i: int| 0 <= i < front.len() && is_alias_of(#[trigger] front[i], name);
        assert(records[i] == front[i]);
    }
    if aliased(records, name) {
        let i = choose|i: int| 0 <= i < records.len() && is_alias_of(#[trigger] records[i], name);
        if i < front.len() {
            assert(front[i] == records[i]);
        }
    }
}

/// Whether a name is listed does not depend on its case.
pub proof fn lemma_listed_folds(names: Seq<Seq<Seq<u8>>>, a: Seq<Seq<u8>>, b: Seq<Seq<u8>>)
    requires
        fold(a) == fold(b),
    ensures
        listed(names, a) == listed(names, b),
{
    if listed(names, a) {
        let i = choose|i: int| 0 <= i < names.len() && fold(#[trigger] names[i]) == fold(a);
        assert(fold(names[i]) == fold(b));
    }
    if listed(names, b) {
        let i = choose|i: int| 0 <= i < names.len() && fold(#[trigger] names[i]) == fold(b);
        assert(fold(names[i]) == fold(a));
    }
}

/// Whether a name is among names in no other case than its own.
pub open spec fn only_as(names: Seq<Seq<Seq<u8>>>, name: Seq<Seq<u8>>) -> bool {
    forall|i: int|
        0 <= i < names.len() && fold(#[trigger] names[i]) == fold(name) ==> names[i] == name
}

/// Whether the name of a query was seen, and remains to be looked up only as it was asked for.
pub open spec fn own_known(state: QueryStateView) -> bool {
    listed(state.seen, state.query.name) && only_as(state.unknowns, state.query.name)
}

/// Whether the name of a query was seen, and does not remain to be looked up.
pub open spec fn own_done(state: QueryStateView) -> bool {
    listed(state.seen, state.query.name) && !listed(state.unknowns, state.query.name)
}

/// The state of a query that has just come.
pub proof fn lemma_fresh_known(query: QueryView, recursion_desired: bool)
    ensures
        own_known(fresh(query, recursion_desired)),
{
    let state = fresh(query, recursion_desired);
    assert(fold(state.seen[0]) == fold(query.name));
}

/// Names that are left when one is taken out were there before.
pub proof fn lemma_without_name_within(
    names: Seq<Seq<Seq<u8>>>,
    name: Seq<Seq<u8>>,
    i: int,
)
    requires
        0 <= i < without_name(names, name).len(),
    ensures
        names.contains(without_name(names, name)[i]),
    decreases names.len(),
{
    if names.len() > 0 {
        let front = names.drop_last();
        let rest = without_name(front, name);
        if i < rest.len() {
            lemma_without_name_within(front, name, i);
            let k = choose|k: int| 0 <= k < front.len() && front[k] == rest[i];
            assert(names[k] == without_name(names, name)[i]);
        } else {
            assert(names[names.len() - 1] == names.last());
        }
    }
}

/// What is seen and what remains after a name was seen and taken out of what remains, and another
/// was added to both unless it was seen.
pub proof fn lemma_noted_known(
    own: Seq<Seq<u8>>,
    seen: Seq<Seq<Seq<u8>>>,
    unknowns: Seq<Seq<Seq<u8>>>,
    name: Seq<Seq<u8>>,
    target: Option<Seq<Seq<u8>>>,
)
    requires
        listed(seen, own),
        only_as(unknowns, own),
    ensures
        ({
            let noted_seen = with_name(seen, name);
            let noted_unknowns = without_name(unknowns, name);
            let follows = target is Some && !listed(noted_seen, target->0);
            let last_seen = if follows {
                with_name(noted_seen, target->0)
            } else {
                noted_seen
            };
            let last_unknowns = if follows {
                with_name(noted_unknowns, target->0)
            } else {
                noted_unknowns
            };
            &&& listed(last_seen, own)
            &&& only_as(last_unknowns, own)
        }),
{
    let noted_seen = with_name(seen, name);
    let noted_unknowns = without_name(unknowns, name);
    let follows = target is Some && !listed(noted_seen, target->0);
    let last_unknowns = if follows {
        with_name(noted_unknowns, target->0)
    } else {
        noted_unknowns
    };
    lemma_with_name(seen, name, own);
    if follows {
        lemma_with_name(noted_seen, target->0, own);
    }
    assert forall|i: int|
        0 <= i < last_unknowns.len() && fold(#[trigger] last_unknowns[i]) == fold(
            own,
        ) implies last_unknowns[i] == own by {
        if i < noted_unknowns.len() {
            assert(last_unknowns[i] == noted_unknowns[i]);
            lemma_without_name_within(unknowns, name, i);
            let k = choose|k: int| 0 <= k < unknowns.len() && unknowns[k] == noted_unknowns[i];
            assert(fold(unknowns[k]) == fold(own));
        } else {
            assert(last_unknowns[i] == target->0);
            lemma_listed_folds(noted_seen, own, target->0);
        }
    }
}

/// Adding answers keeps what is known of the name of the query.
pub proof fn lemma_answers_keep_known(state: QueryStateView, records: Seq<RecordView>)
    requires
        own_known(state),
    ensures
        own_known(with_answers(state, records)),
    decreases records.len(),
{
    lemma_noted_keeps(state, records);
    if records.len() > 0 {
        let before = all_noted(state, records.drop_last());
        let record = records.last();
        lemma_noted_keeps(state, records.drop_last());
        lemma_answers_keep_known(state, records.drop_last());
        lemma_noted_known(
            state.query.name,
            before.seen,
            before.unknowns,
            record.name,
            match record.data {
                Some(RDataView::Cname(target)) => Some(target),
                _ => None,
            },
        );
    }
}

/// A query whose own name does not remain to be looked up has it nowhere among those that do.
pub proof fn lemma_answers_keep_done(state: QueryStateView, records: Seq<RecordView>)
    requires
        own_done(state),
    ensures
        own_done(with_answers(state, records)),
{
    lemma_noted_keeps(state, records);
    law_answers_decide_what_remains(state, records, state.query.name);
}

/// In the state in which the targets of aliases are looked up, the name of the query is not.
pub proof fn lemma_targets_done(state: QueryStateView)
    requires
        own_known(state),
    ensures
        own_done(for_targets(state)),
{
    lemma_unseen_targets(state.aliases, state.seen, state.query.name);
}

/// The targets of aliases that have not been seen do not hold a name that has.
proof fn lemma_unseen_targets(
    aliases: Seq<(Seq<Seq<u8>>, Seq<Seq<u8>>)>,
    seen: Seq<Seq<Seq<u8>>>,
    name: Seq<Seq<u8>>,
)
    requires
        listed(seen, name),
    ensures
        !listed(unseen_targets(aliases, seen), name),
    decreases aliases.len(),
{
    if aliases.len() > 0 {
        let target = aliases.last().1;
        lemma_unseen_targets(aliases.drop_last(), seen, name);
        if !listed(seen, target) {
            lemma_with_name(unseen_targets(aliases.drop_last(), seen), target, name);
            if fold(target) == fold(name) {
                lemma_listed_folds(seen, name, target);
            }
        }
    }
}

/// Taking the first name that remains keeps what is known of the name of the query.
pub proof fn lemma_next_keeps_known(state: QueryStateView)
    requires
        state.unknowns.len() > 0,
    ensures
        own_known(state) ==> own_known(
            QueryStateView { unknowns: state.unknowns.drop_first(), ..state },
        ),
        own_done(state) ==> own_done(
            QueryStateView { unknowns: state.unknowns.drop_first(), ..state },
        ) && fold(state.unknowns[0]) != fold(state.query.name),
{
    let rest = state.unknowns.drop_first();
    assert forall|i: int|
        0 <= i < rest.len() && own_known(state) && fold(#[trigger] rest[i]) == fold(
            state.query.name,
        ) implies rest[i] == state.query.name by {
        assert(rest[i] == state.unknowns[i + 1]);
    }
    if listed(rest, state.query.name) {
        lemma_rest_listed(state.unknowns, state.query.name);
    }
}

/// What is done to the state of a query.
pub enum Move {
    /// Answers are added.
    Answers(Seq<RecordView>),
    /// A name that remains to be looked up is taken.
    Next,
    /// Something that touches neither what is seen nor what remains.
    Other,
}

/// Whether a move leads from one state to another, as far as what is seen and what remains go.
pub open spec fn moves_to(before: QueryStateView, step: Move, after: QueryStateView) -> bool {
    match step {
        Move::Answers(records) => after.seen == with_answers(before, records).seen
            && after.unknowns == with_answers(before, records).unknowns,
        Move::Next => before.unknowns.len() > 0 && after.seen == before.seen && after.unknowns
            == before.unknowns.drop_first(),
        Move::Other => after.seen == before.seen && after.unknowns == before.unknowns,
    }
}

/// Whether moves lead from each state to the next, from that of a query that has just come.
pub open spec fn course(states: Seq<QueryStateView>, moves: Seq<Move>) -> bool {
    &&& states.len() == moves.len() + 1
    &&& states[0] == fresh(states[0].query, states[0].recursion_desired)
    &&& forall|i: int|
        0 <= i < moves.len() ==> moves_to(states[i], #[trigger] moves[i], states[i + 1])
}

/// Whether each name that remains was seen, and none is there twice.
pub open spec fn remaining_sound(state: QueryStateView) -> bool {
    &&& names_apart(state.unknowns)
    &&& forall|name: Seq<Seq<u8>>| #[trigger] listed(state.unknowns, name) ==> listed(
        state.seen,
        name,
    )
}

/// Taking note of answers leaves no name there twice among those that remain.
proof fn lemma_noted_apart(state: QueryStateView, records: Seq<RecordView>)
    requires
        names_apart(state.unknowns),
    ensures
        names_apart(all_noted(state, records).unknowns),
    decreases records.len(),
{
    if records.len() > 0 {
        let before = all_noted(state, records.drop_last());
        let record = records.last();
        lemma_noted_apart(state, records.drop_last());
        lemma_without_name_apart(before.unknowns, record.name);
        if let Some(RDataView::Cname(target)) = record.data {
            lemma_with_name_apart(without_name(before.unknowns, record.name), target);
        }
    }
}

/// The names that remain after the first.
proof fn lemma_rest_listed(names: Seq<Seq<Seq<u8>>>, name: Seq<Seq<u8>>)
    requires
        names.len() > 0,
        listed(names.drop_first(), name),
    ensures
        listed(names, name),
        names_apart(names) ==> fold(names[0]) != fold(name),
{
    let rest = names.drop_first();
    let i = choose|i: int| 0 <= i < rest.len() && fold(#[trigger] rest[i]) == fold(name);
    assert(names[i + 1] == rest[i]);
}

/// In every state of a course the names that remain were seen, each once.
proof fn lemma_course_sound(states: Seq<QueryStateView>, moves: Seq<Move>, at: int)
    requires
        course(states, moves),
        0 <= at < states.len(),
    ensures
        remaining_sound(states[at]),
    decreases at,
{
    if at > 0 {
        let before = states[at - 1];
        let after = states[at];
        lemma_course_sound(states, moves, at - 1);
        assert(moves_to(before, moves[at - 1], after));
        match moves[at - 1] {
            Move::Answers(records) => {
                lemma_noted_apart(before, records);
                assert forall|name: Seq<Seq<u8>>| #[trigger] listed(
                    after.unknowns,
                    name,
                ) implies listed(after.seen, name) by {
                    law_answers_decide_what_remains(before, records, name);
                }
            },
            Move::Next => {
                assert forall|i: int, j: int| 0 <= i < j < after.unknowns.len() implies fold(
                    #[trigger] after.unknowns[i],
                ) != fold(#[trigger] after.unknowns[j]) by {
                    assert(after.unknowns[i] == before.unknowns[i + 1]);
                    assert(after.unknowns[j] == before.unknowns[j + 1]);
                }
                assert forall|name: Seq<Seq<u8>>| #[trigger] listed(
                    after.unknowns,
                    name,
                ) implies listed(after.seen, name) by {
                    lemma_rest_listed(before.unknowns, name);
                }
            },
            Move::Other => {},
        }
    }
}

/// A name that was seen and does not remain never remains again.
proof fn lemma_done_stays_done(
    states: Seq<QueryStateView>,
    moves: Seq<Move>,
    name: Seq<Seq<u8>>,
    from: int,
    to: int,
)
    requires
        course(states, moves),
        0 <= from <= to < states.len(),
        listed(states[from].seen, name),
        !listed(states[from].unknowns, name),
    ensures
        listed(states[to].seen, name),
        !listed(states[to].unknowns, name),
    decreases to - from,
{
    if from < to {
        let before = states[to - 1];
        lemma_done_stays_done(states, moves, name, from, to - 1);
        assert(moves_to(before, moves[to - 1], states[to]));
        match moves[to - 1] {
            Move::Answers(records) => {
                law_answers_decide_what_remains(before, records, name);
            },
            Move::Next => {
                if listed(states[to].unknowns, name) {
                    lemma_rest_listed(before.unknowns, name);
                }
            },
            Move::Other => {},
        }
    }
}

/// From the time that a query has come, no name is taken twice to be looked up, however answers and
/// names follow each other.
pub proof fn law_no_name_is_taken_twice(
    states: Seq<QueryStateView>,
    moves: Seq<Move>,
    first: int,
    second: int,
)
    requires
        course(states, moves),
        0 <= first < second < moves.len(),
        moves[first] is Next,
        moves[second] is Next,
    ensures
        fold(states[first].unknowns[0]) != fold(states[second].unknowns[0]),
{
    let name = states[first].unknowns[0];
    let other = states[second].unknowns[0];
    assert(moves_to(states[first], moves[first], states[first + 1]));
    assert(moves_to(states[second], moves[second], states[second + 1]));
    lemma_course_sound(states, moves, first);
    assert(listed(states[first].unknowns, name));
    if listed(states[first + 1].unknowns, name) {
        lemma_rest_listed(states[first].unknowns, name);
    }
    lemma_done_stays_done(states, moves, name, first + 1, second);
    if fold(name) == fold(other) {
        assert(fold(states[second].unknowns[0]) == fold(name));
    }
}

/// From the time that a query has come, a name that an answer was for is not taken any more.
pub proof fn law_answered_names_are_not_taken(
    states: Seq<QueryStateView>,
    moves: Seq<Move>,
    first: int,
    second: int,
    records: Seq<RecordView>,
    name: Seq<Seq<u8>>,
)
    requires
        course(states, moves),
        0 <= first < second < moves.len(),
        moves[first] == Move::Answers(records),
        moves[second] is Next,
        owned(records, name),
    ensures
        fold(states[second].unknowns[0]) != fold(name),
{
    assert(moves_to(states[first], moves[first], states[first + 1]));
    assert(moves_to(states[second], moves[second], states[second + 1]));
    law_answers_decide_what_remains(states[first], records, name);
    lemma_done_stays_done(states, moves, name, first + 1, second);
    if fold(states[second].unknowns[0]) == fold(name) {
        assert(listed(states[second].unknowns, name));
    }
}

/// Answers of which one is of the type that is asked for make no error; others leave the response
/// code as it was.
pub proof fn law_answers_decide_the_response_code(
    state: QueryStateView,
    records: Seq<RecordView>,
)
    ensures
        with_answers(state, records).response_code == if exists|i: int|
            0 <= i < records.len() && (#[trigger] records[i]).record_type
                == state.query.query_type {
            ResponseCode::NoError
        } else {
            state.response_code
        },
    decreases records.len(),
{
    if records.len() > 0 {
        let front = records.drop_last();
        law_answers_decide_the_response_code(state, front);
        lemma_noted_keeps(state, front);
        if exists|i: int|
            0 <= i < records.len() && (#[trigger] records[i]).record_type
                == state.query.query_type {
            let i = choose|i: int|
                0 <= i < records.len() && (#[trigger] records[i]).record_type
                    == state.query.query_type;
            if i < front.len() {
                assert(front[i] == records[i]);
            } else {
                assert(records.last() == records[i]);
            }
        }
        if exists|i: int|
            0 <= i < front.len() && (#[trigger] front[i]).record_type == state.query.query_type {
            let i = choose|i: int|
                0 <= i < front.len() && (#[trigger] front[i]).record_type
                    == state.query.query_type;
            assert(records[i] == front[i]);
        }
        assert(records[records.len() - 1] == records.last());
    }
}

} // verus!
