//! Answering a query: from the records that are known, and by asking other servers for the rest.

use vstd::prelude::*;
use crate::config::zones::{configured, soa_of, Upstream, ZoneConfig, ZoneConfigView, Zones};
use crate::dns::chain::{data_views, gathered, resolution};
use crate::dns::names::{lemma_with_name, lemma_without_name, listed, with_name};
use crate::dns::query::{
    alias_views, all_noted, for_targets, fresh, lemma_answers_keep_done, lemma_answers_keep_known,
    lemma_fresh_known, lemma_next_keeps_known, lemma_noted_keeps, lemma_targets_done, noted,
    own_done, own_known, soa_view, unseen_targets, with_alias, with_answers, Query, QueryState,
    QueryStateView, QueryView,
};
use crate::dns::record;
use crate::dns::record::{answers, raw_record, record_views, ttl_or, RData};
use crate::dns::rr;
use crate::dns::rr::{type_of, views, DnsClass, RDataView, RecordType, ResponseCode};
use crate::dns::set::{found, law_lookup_finds_all_records, set_wf, RecordSet, RecordSetView};
use crate::ip::{IpAddr, SocketAddr};
use crate::name::{fold, name_from_text, Fqdn, NameError};

verus! {

/// The records and zones that a query is answered from.
#[derive(Debug)]
pub struct LockedServerState {
    pub records: RecordSet,
    pub zones: Zones,
}

/// What the records under a name make of a query: the response code, the aliases to resolve, and
/// the answers.
#[verifier::ext_equal]
pub struct Taken {
    pub response_code: ResponseCode,
    pub aliases: Seq<(Seq<Seq<u8>>, Seq<Seq<u8>>)>,
    pub records: Seq<rr::RecordView>,
}

/// What records under a name make of a query. A record of the type that was asked for, or of an
/// address, shows that the name exists. A local alias is noted for later, or answered as an alias
/// where aliases are followed directly.
pub open spec fn taken(
    state: QueryStateView,
    ttl: u32,
    name: Seq<Seq<u8>>,
    records: Seq<record::RecordView>,
) -> Taken
    decreases records.len(),
{
    if records.len() == 0 {
        Taken {
            response_code: state.response_code,
            aliases: state.aliases,
            records: Seq::empty(),
        }
    } else {
        taken_more(state, ttl, name, taken(state, ttl, name, records.drop_last()), records.last())
    }
}

/// What one more record makes of a query.
pub open spec fn taken_more(
    state: QueryStateView,
    ttl: u32,
    name: Seq<Seq<u8>>,
    before: Taken,
    record: record::RecordView,
) -> Taken {
    let record_type = type_of(record.rdata);
    let query_type = state.query.query_type;
    let response_code = if record_type == query_type || record_type == RecordType::A || record_type
        == RecordType::Aaaa {
        ResponseCode::NoError
    } else {
        before.response_code
    };
    if !answers(record.rdata, query_type) {
        Taken { response_code, ..before }
    } else if record.rdata is Aname && query_type != RecordType::Aname {
        let target = record.rdata->Aname_0;
        if state.resolve_aliases {
            Taken {
                response_code,
                records: before.records.push(
                    rr::record_of(name, ttl_or(record.ttl, ttl), RDataView::Cname(target)),
                ),
                ..before
            }
        } else {
            Taken { response_code, aliases: with_alias(before.aliases, name, target), ..before }
        }
    } else {
        Taken { response_code, records: before.records.push(raw_record(record, ttl)), ..before }
    }
}

/// The state of a query after a name was looked up among the records.
pub open spec fn looked_up(
    set: RecordSetView,
    config: ZoneConfigView,
    state: QueryStateView,
    name: Seq<Seq<u8>>,
) -> QueryStateView {
    let records = found(set, name, state.query.query_class, state.query.query_type);
    let result = taken(state, config.ttl, name, records);
    let own = fold(name) == fold(state.query.name);
    let noted = QueryStateView {
        response_code: result.response_code,
        aliases: result.aliases,
        recursion_available: state.recursion_available || (config.upstreams.len() > 0 && own),
        ..state
    };
    if result.records.len() == 0 {
        noted
    } else {
        let answered = with_answers(noted, result.records);
        QueryStateView {
            soa: if own {
                soa_of(config)
            } else {
                answered.soa
            },
            ..answered
        }
    }
}

/// How many answers records under a name give rests on the type that is asked for and on how aliases
/// are followed alone.
proof fn lemma_taken_len(
    a: QueryStateView,
    b: QueryStateView,
    ttl: u32,
    name: Seq<Seq<u8>>,
    records: Seq<record::RecordView>,
)
    requires
        a.query.query_type == b.query.query_type,
        a.resolve_aliases == b.resolve_aliases,
    ensures
        taken(a, ttl, name, records).records.len() == taken(b, ttl, name, records).records.len(),
    decreases records.len(),
{
    if records.len() > 0 {
        lemma_taken_len(a, b, ttl, name, records.drop_last());
    }
}

/// The servers to ask for a name: those of its zone, where no record is known and recursion is
/// desired.
pub open spec fn to_ask(
    set: RecordSetView,
    config: ZoneConfigView,
    state: QueryStateView,
    name: Seq<Seq<u8>>,
) -> Seq<Upstream> {
    if found(set, name, state.query.query_class, state.query.query_type).len() == 0
        && state.recursion_desired {
        config.upstreams
    } else {
        Seq::empty()
    }
}

impl LockedServerState {
    /// The configuration for a name.
    pub open spec fn config(self, name: Seq<Seq<u8>>) -> ZoneConfigView {
        configured(self.zones.defaults(), self.zones.zones(), name)
    }

    /// Whether records under a name give answers to a query.
    pub open spec fn answers_to(self, state: QueryStateView, name: Seq<Seq<u8>>) -> bool {
        taken(
            state,
            self.config(name).ttl,
            name,
            found(self.records@, name, state.query.query_class, state.query.query_type),
        ).records.len() > 0
    }

    /// Whether the start of authority that looking a name up needs can hold its lifetimes. One is
    /// needed only for the name of the query, where there are answers to it.
    pub open spec fn soa_fits(self, state: QueryStateView, name: Seq<Seq<u8>>) -> bool {
        fold(name) == fold(state.query.name) && self.answers_to(state, name)
            ==> self.zones.soa_fits(name)
    }

    /// Whether the start of authority that the answer to a query needs, if it needs one, can hold its
    /// lifetimes.
    pub fn check_soa(&self, state: &QueryState) -> (r: bool)
        ensures
            r == self.soa_fits(state@, state@.query.name),
    {
        let query_type = state.query_type();
        let records = self.records.lookup(&state.query.name, state.query_class(), query_type);
        let ghost all = record_views(records@);
        let ghost ttl = self.config(state@.query.name).ttl;
        let ghost name = state@.query.name;
        let mut any = false;
        let mut i: usize = 0;
        assert(all.take(0) =~= Seq::empty());
        while i < records.len()
            invariant
                i <= records.len(),
                all == record_views(records@),
                query_type == state@.query.query_type,
                any == (taken(state@, ttl, name, all.take(i as int)).records.len() > 0),
            decreases records.len() - i,
        {
            assert(all.take(i + 1).drop_last() =~= all.take(i as int));
            assert(all.take(i + 1).last() == records@[i as int]@);
            let alias = match records[i].rdata() {
                RData::Aname(_) => query_type != RecordType::Aname,
                _ => false,
            };
            if records[i].rdata().matches(query_type) && (!alias || state.resolve_aliases) {
                any = true;
            }
            i += 1;
        }
        assert(all.take(i as int) =~= all);
        !any || self.zones.check_soa(&state.query.name)
    }

    /// Takes the records under a name into the state of a query. The result has the answers.
    fn take(
        &self,
        name: &Fqdn,
        config: &ZoneConfig,
        records: &Vec<record::Record>,
        query_state: &mut QueryState,
    ) -> (r: Vec<rr::Record>)
        ensures
            ({
                let result = taken(old(query_state)@, config.ttl, name@, record_views(records@));
                &&& views(r@) == result.records
                &&& final(query_state)@ == (QueryStateView {
                    response_code: result.response_code,
                    aliases: result.aliases,
                    ..old(query_state)@
                })
            }),
    {
        let mut out: Vec<rr::Record> = Vec::new();
        let ghost start = query_state@;
        let ghost all = record_views(records@);
        let query_type = query_state.query_type();
        let mut i: usize = 0;
        assert(all.take(0) =~= Seq::empty());
        assert(views(out@) =~= Seq::empty());
        assert(query_state@ =~= (QueryStateView {
            response_code: start.response_code,
            aliases: start.aliases,
            ..start
        }));
        while i < records.len()
            invariant
                i <= records.len(),
                all == record_views(records@),
                query_type == start.query.query_type,
                views(out@) == taken(start, config.ttl, name@, all.take(i as int)).records,
                query_state@ == (QueryStateView {
                    response_code: taken(
                        start,
                        config.ttl,
                        name@,
                        all.take(i as int),
                    ).response_code,
                    aliases: taken(start, config.ttl, name@, all.take(i as int)).aliases,
                    ..start
                }),
            decreases records.len() - i,
        {
            let ghost part = all.take(i as int);
            let ghost before = taken(start, config.ttl, name@, part);
            let ghost more = all.take(i + 1);
            assert(more.drop_last() =~= part);
            assert(more.last() == records@[i as int]@);
            let record = &records[i];
            let record_type = record.rdata().record_type();
            if record_type == query_type || record_type == RecordType::A || record_type
                == RecordType::Aaaa {
                query_state.response_code = ResponseCode::NoError;
            }
            if record.rdata().matches(query_type) {
                match record.rdata() {
                    RData::Aname(target) if query_type != RecordType::Aname => {
                        if !query_state.resolve_aliases {
                            query_state.add_alias(name, target);
                        } else {
                            let ttl: u32 = match record.ttl {
                                Some(ttl) => ttl,
                                None => config.ttl,
                            };
                            let answer = rr::Record::from_rdata(
                                name.clone(),
                                ttl,
                                rr::RData::Cname(target.clone()),
                            );
                            out.push(answer);
                            assert(views(out@) =~= before.records.push(answer@));
                        }
                    },
                    _ => {
                        let answer = record.raw(config);
                        out.push(answer);
                        assert(views(out@) =~= before.records.push(answer@));
                    },
                }
            }
            i += 1;
            assert(query_state@ =~= (QueryStateView {
                response_code: taken(start, config.ttl, name@, more).response_code,
                aliases: taken(start, config.ttl, name@, more).aliases,
                ..start
            }));
        }
        assert(all.take(i as int) =~= all);
        out
    }

    /// Looks a name up among the records. The result has the servers that are to be asked for it.
    pub fn resolve_name(&self, name: &Fqdn, query_state: &mut QueryState) -> (r: Vec<Upstream>)
        requires
            self.soa_fits(old(query_state)@, name@),
        ensures
            final(query_state)@ == looked_up(
                self.records@,
                self.config(name@),
                old(query_state)@,
                name@,
            ),
            r@ == to_ask(self.records@, self.config(name@), old(query_state)@, name@),
            set_wf(self.records@),
    {
        let config = self.zones.zone_config(name);
        let query_class = query_state.query_class();
        let query_type = query_state.query_type();
        let records = self.records.lookup(name, query_class, query_type);
        let needs_recursion = records.len() == 0;
        assert(record_views(records@).len() == records.len());
        let ghost start = query_state@;
        let answers = self.take(name, &config, &records, query_state);
        let own = name.same(&query_state.query.name);
        if config.upstreams.len() > 0 && own {
            query_state.recursion_available = true;
        }
        let ghost noted = query_state@;
        assert(views(answers@).len() == answers.len());
        if answers.len() > 0 {
            query_state.add_answers(answers);
            if own {
                assert(self.answers_to(start, name@));
                query_state.soa = config.soa();
            }
        }
        assert(query_state@ =~= looked_up(self.records@, self.config(name@), start, name@));
        if needs_recursion && query_state.recursion_desired {
            config.upstreams
        } else {
            let none: Vec<Upstream> = Vec::new();
            assert(none@ =~= Seq::empty());
            none
        }
    }
}

/// What another server replied.
#[derive(Debug)]
pub struct Message {
    pub response_code: ResponseCode,
    pub recursion_available: bool,
    pub answers: Vec<rr::Record>,
    pub additionals: Vec<rr::Record>,
    pub name_servers: Vec<rr::Record>,
}

/// What another server replied, by the labels of its names.
#[verifier::ext_equal]
pub struct MessageView {
    pub response_code: ResponseCode,
    pub recursion_available: bool,
    pub answers: Seq<rr::RecordView>,
    pub additionals: Seq<rr::RecordView>,
    pub name_servers: Seq<rr::RecordView>,
}

impl View for Message {
    type V = MessageView;

    open spec fn view(&self) -> MessageView {
        MessageView {
            response_code: self.response_code,
            recursion_available: self.recursion_available,
            answers: views(self.answers@),
            additionals: views(self.additionals@),
            name_servers: views(self.name_servers@),
        }
    }
}

/// The records that are no start of authority.
pub open spec fn without_soa(records: Seq<rr::RecordView>) -> Seq<rr::RecordView>
    decreases records.len(),
{
    if records.len() == 0 {
        Seq::empty()
    } else {
        let rest = without_soa(records.drop_last());
        if records.last().record_type == RecordType::Soa {
            rest
        } else {
            rest.push(records.last())
        }
    }
}

/// The last start of authority among records.
pub open spec fn last_soa(records: Seq<rr::RecordView>) -> Option<rr::RecordView>
    decreases records.len(),
{
    if records.len() == 0 {
        None
    } else if records.last().record_type == RecordType::Soa {
        Some(records.last())
    } else {
        last_soa(records.drop_last())
    }
}

/// The state of a query after another server replied to a question for a name. The answers and
/// additional records are added. For the name of the query itself the reply also decides the
/// response code, whether recursion is available, the name servers and the authority.
pub open spec fn replied(
    state: QueryStateView,
    name: Seq<Seq<u8>>,
    message: MessageView,
) -> QueryStateView {
    let answered = with_answers(state, message.answers);
    let added = QueryStateView {
        additionals: answered.additionals + message.additionals,
        ..answered
    };
    if fold(name) == fold(state.query.name) {
        QueryStateView {
            response_code: message.response_code,
            recursion_available: message.recursion_available,
            name_servers: added.name_servers + without_soa(message.name_servers),
            soa: last_soa(message.name_servers),
            ..added
        }
    } else {
        added
    }
}

/// Parts records into those that are no start of authority and the last that is one.
pub(crate) fn part_soa(records: &Vec<rr::Record>) -> (r: (Vec<rr::Record>, Option<rr::Record>))
    ensures
        views(r.0@) == without_soa(views(records@)),
        soa_view(r.1) == last_soa(views(records@)),
{
    let mut out: Vec<rr::Record> = Vec::new();
    let mut soa: Option<rr::Record> = None;
    let ghost all = views(records@);
    let mut i: usize = 0;
    assert(all.take(0) =~= Seq::empty());
    assert(views(out@) =~= Seq::empty());
    while i < records.len()
        invariant
            i <= records.len(),
            all == views(records@),
            views(out@) == without_soa(all.take(i as int)),
            soa_view(soa) == last_soa(all.take(i as int)),
        decreases records.len() - i,
    {
        assert(all.take(i + 1).drop_last() =~= all.take(i as int));
        assert(all.take(i + 1).last() == records@[i as int]@);
        let record = records[i].clone();
        if record.record_type == RecordType::Soa {
            soa = Some(record);
        } else {
            let ghost before = views(out@);
            out.push(record);
            assert(views(out@) =~= before.push(records@[i as int]@));
        }
        i += 1;
    }
    assert(all.take(i as int) =~= all);
    (out, soa)
}

impl Upstream {
    /// Takes the reply to a question for a name into the state of a query.
    pub fn resolve(&self, name: &Fqdn, message: Message, query_state: &mut QueryState)
        ensures
            final(query_state)@ == replied(old(query_state)@, name@, message@),
    {
        let ghost start = query_state@;
        let ghost reply = message@;
        proof {
            lemma_noted_keeps(start, reply.answers);
        }
        let Message {
            response_code,
            recursion_available,
            answers,
            additionals,
            name_servers,
        } = message;
        query_state.add_answers(answers);
        query_state.add_additionals(additionals);
        let ghost added = query_state@;
        if name.same(&query_state.query.name) {
            query_state.response_code = response_code;
            query_state.recursion_available = recursion_available;
            let (mut servers, soa) = part_soa(&name_servers);
            let ghost parted = views(servers@);
            query_state.name_servers.append(&mut servers);
            query_state.soa = soa;
            assert(views(query_state.name_servers@) =~= added.name_servers + parted);
        }
        assert(query_state@ =~= replied(start, name@, reply));
    }
}

/// A question for another server.
#[derive(Debug)]
pub struct Question {
    pub upstream: Upstream,
    pub query: Query,
}

/// A query that is being answered.
#[derive(Debug)]
pub struct Resolver {
    /// The state of the query.
    pub state: QueryState,
    /// The state in which the targets of its aliases are looked up, once that has begun.
    pub targets: Option<QueryState>,
    /// The name that was looked up last.
    pub name: Fqdn,
    /// The servers that are still to be asked for that name.
    pub upstreams: Vec<Upstream>,
}

/// A query that is being answered, by the labels of its names.
#[verifier::ext_equal]
pub struct ResolverView {
    pub state: QueryStateView,
    pub targets: Option<QueryStateView>,
    pub name: Seq<Seq<u8>>,
    pub upstreams: Seq<Upstream>,
}

impl View for Resolver {
    type V = ResolverView;

    open spec fn view(&self) -> ResolverView {
        ResolverView {
            state: self.state@,
            targets: match self.targets {
                Some(state) => Some(state@),
                None => None,
            },
            name: self.name@,
            upstreams: self.upstreams@,
        }
    }
}

impl ResolverView {
    /// The state that names are looked up in.
    pub open spec fn active(self) -> QueryStateView {
        match self.targets {
            Some(state) => state,
            None => self.state,
        }
    }

    /// This with another state that names are looked up in.
    pub open spec fn with_active(self, state: QueryStateView) -> ResolverView {
        match self.targets {
            Some(_) => ResolverView { targets: Some(state), ..self },
            None => ResolverView { state, ..self },
        }
    }

    /// Whether another server is to be asked next.
    pub open spec fn waits(self) -> bool {
        self.upstreams.len() > 0
    }

    /// Whether nothing remains to be looked up.
    pub open spec fn exhausted(self) -> bool {
        &&& !self.waits()
        &&& self.active().unknowns.len() == 0
        &&& self.targets is Some || self.state.aliases.len() == 0
    }

    /// The next step of looking names up: the first that remains, or the targets of the aliases
    /// when none does.
    pub open spec fn step(self, server: LockedServerState) -> ResolverView {
        if self.waits() || self.exhausted() {
            self
        } else if self.active().unknowns.len() > 0 {
            let state = self.active();
            let name = state.unknowns[0];
            let rest = QueryStateView { unknowns: state.unknowns.drop_first(), ..state };
            let config = server.config(name);
            ResolverView {
                name,
                upstreams: to_ask(server.records@, config, rest, name),
                ..self.with_active(looked_up(server.records@, config, rest, name))
            }
        } else {
            ResolverView { targets: Some(for_targets(self.state)), ..self }
        }
    }

    /// So many steps.
    pub open spec fn steps(self, server: LockedServerState, count: nat) -> ResolverView
        decreases count,
    {
        if count == 0 {
            self
        } else {
            self.steps(server, (count - 1) as nat).step(server)
        }
    }

    /// Whether the name of the query was seen, and is looked up once: it does not remain to be looked
    /// up where the targets of aliases are.
    pub open spec fn sound(self) -> bool {
        own_known(self.state) && (self.targets matches Some(targets) ==> targets.query
            == self.state.query && own_done(targets))
    }

    /// Whether looking up the names that remain leads to another state: so many steps until another
    /// server is to be asked, with the question for it, or until none remains.
    pub open spec fn advances(
        self,
        server: LockedServerState,
        after: ResolverView,
        question: Option<Question>,
    ) -> bool {
        &&& exists|count: nat| after == #[trigger] self.steps(server, count)
        &&& after.state.query == self.state.query
        &&& match question {
            Some(question) => after.waits() && question.upstream == after.upstreams[0]
                && question.query@ == (QueryView { name: after.name, ..after.active().query }),
            None => after.exhausted(),
        }
    }

    /// This after the server that is asked has replied, or has not.
    pub open spec fn after_reply(self, message: Option<MessageView>) -> ResolverView {
        ResolverView {
            upstreams: self.upstreams.drop_first(),
            ..match message {
                Some(message) => self.with_active(replied(self.active(), self.name, message)),
                None => self,
            }
        }
    }
}

/// The name that data leads to.
pub open spec fn target_of(data: RDataView) -> Option<Seq<Seq<u8>>> {
    match data {
        RDataView::Cname(name) => Some(name),
        RDataView::Aname(name) => Some(name),
        _ => None,
    }
}

/// Whether some record leads to a name.
pub open spec fn led_to(records: Seq<record::RecordView>, name: Seq<Seq<u8>>) -> bool {
    exists|i: int|
        0 <= i < records.len() && target_of((#[trigger] records[i]).rdata) == Some(name)
}

/// The number of records that lead to a name that was not seen.
pub open spec fn unseen_count(records: Seq<record::RecordView>, seen: Seq<Seq<Seq<u8>>>) -> nat
    decreases records.len(),
{
    if records.len() == 0 {
        0
    } else {
        let rest = unseen_count(records.drop_last(), seen);
        match target_of(records.last().rdata) {
            Some(name) => if listed(seen, name) {
                rest
            } else {
                rest + 1
            },
            None => rest,
        }
    }
}

/// How much there is to look up at most: the names that remain, and the records that lead to a
/// name that was not seen.
pub open spec fn weight(records: Seq<record::RecordView>, state: QueryStateView) -> nat {
    unseen_count(records, state.seen) + state.unknowns.len()
}

/// A name that is seen makes fewer records lead to names that were not.
pub proof fn lemma_unseen_shrinks(
    records: Seq<record::RecordView>,
    seen: Seq<Seq<Seq<u8>>>,
    name: Seq<Seq<u8>>,
)
    ensures
        unseen_count(records, with_name(seen, name)) <= unseen_count(records, seen),
        led_to(records, name) && !listed(seen, name) ==> unseen_count(
            records,
            with_name(seen, name),
        ) < unseen_count(records, seen),
    decreases records.len(),
{
    if records.len() > 0 {
        let rest = records.drop_last();
        lemma_unseen_shrinks(rest, seen, name);
        if let Some(t) = target_of(records.last().rdata) {
            lemma_with_name(seen, name, t);
        }
        if led_to(records, name) && !listed(seen, name) {
            let i = choose|i: int|
                0 <= i < records.len() && target_of((#[trigger] records[i]).rdata) == Some(name);
            if i < rest.len() {
                assert(target_of(rest[i].rdata) == Some(name));
            } else {
                assert(records.last() == records[i]);
            }
        }
    }
}

/// Taking note of an answer that comes from a record leaves no more to look up.
proof fn lemma_noted_weight(
    records: Seq<record::RecordView>,
    state: QueryStateView,
    record: rr::RecordView,
)
    requires
        record.data matches Some(RDataView::Cname(target)) ==> led_to(records, target),
    ensures
        weight(records, noted(state, record)) <= weight(records, state),
{
    let seen = with_name(state.seen, record.name);
    lemma_unseen_shrinks(records, state.seen, record.name);
    lemma_without_name(state.unknowns, record.name, record.name);
    if let Some(RDataView::Cname(target)) = record.data {
        if !listed(seen, target) {
            lemma_unseen_shrinks(records, seen, target);
        }
    }
}

/// Whether each answer that leads to a name comes from a record that does.
pub open spec fn sourced(records: Seq<record::RecordView>, given: Seq<rr::RecordView>) -> bool {
    forall|i: int|
        0 <= i < given.len() ==> ((#[trigger] given[i]).data matches Some(RDataView::Cname(target))
            ==> led_to(records, target))
}

/// Taking note of answers that come from records leaves no more to look up.
proof fn lemma_all_noted_weight(
    records: Seq<record::RecordView>,
    state: QueryStateView,
    given: Seq<rr::RecordView>,
)
    requires
        sourced(records, given),
    ensures
        weight(records, all_noted(state, given)) <= weight(records, state),
    decreases given.len(),
{
    if given.len() > 0 {
        let rest = given.drop_last();
        assert(sourced(records, rest)) by {
            assert forall|i: int| 0 <= i < rest.len() implies ((
            #[trigger] rest[i]).data matches Some(RDataView::Cname(target)) ==> led_to(
                records,
                target,
            )) by {
                assert(rest[i] == given[i]);
            }
        }
        lemma_all_noted_weight(records, state, rest);
        assert(given.last() == given[given.len() - 1]);
        lemma_noted_weight(records, all_noted(state, rest), given.last());
    }
}

/// The answers that are taken from records come from them.
proof fn lemma_taken_sourced(
    records: Seq<record::RecordView>,
    state: QueryStateView,
    ttl: u32,
    name: Seq<Seq<u8>>,
    part: Seq<record::RecordView>,
)
    requires
        forall|i: int|
            0 <= i < part.len() ==> (target_of((#[trigger] part[i]).rdata) matches Some(target)
                ==> led_to(records, target)),
    ensures
        sourced(records, taken(state, ttl, name, part).records),
    decreases part.len(),
{
    if part.len() > 0 {
        let rest = part.drop_last();
        assert forall|i: int| 0 <= i < rest.len() implies (target_of(
            (#[trigger] rest[i]).rdata,
        ) matches Some(target) ==> led_to(records, target)) by {
            assert(rest[i] == part[i]);
        }
        lemma_taken_sourced(records, state, ttl, name, rest);
        assert(part.last() == part[part.len() - 1]);
        let before = taken(state, ttl, name, rest).records;
        let after = taken(state, ttl, name, part).records;
        assert forall|i: int| 0 <= i < after.len() implies ((
        #[trigger] after[i]).data matches Some(RDataView::Cname(target)) ==> led_to(
            records,
            target,
        )) by {
            if i < before.len() {
                assert(after[i] == before[i]);
            }
        }
    }
}

/// Looking a name up leaves no more to look up than there was.
proof fn lemma_looked_up_weight(
    set: RecordSetView,
    config: ZoneConfigView,
    state: QueryStateView,
    name: Seq<Seq<u8>>,
)
    requires
        set_wf(set),
    ensures
        weight(set.records, looked_up(set, config, state, name)) <= weight(set.records, state),
{
    let records = found(set, name, state.query.query_class, state.query.query_type);
    assert forall|i: int| 0 <= i < records.len() implies (target_of(
        (#[trigger] records[i]).rdata,
    ) matches Some(target) ==> led_to(set.records, target)) by {
        let record = records[i];
        if state.query.query_type != RecordType::Ptr {
            assert(records.contains(record));
            law_lookup_finds_all_records(set.records, name, record);
            let k = choose|k: int| 0 <= k < set.records.len() && set.records[k] == record;
            assert(target_of(set.records[k].rdata) == target_of(record.rdata));
        }
    }
    lemma_taken_sourced(set.records, state, config.ttl, name, records);
    let result = taken(state, config.ttl, name, records);
    let noted = QueryStateView {
        response_code: result.response_code,
        aliases: result.aliases,
        recursion_available: state.recursion_available || (config.upstreams.len() > 0 && fold(name)
            == fold(state.query.name)),
        ..state
    };
    lemma_all_noted_weight(set.records, noted, result.records);
}

impl Resolver {
    /// A query that has just come.
    pub fn new(query: Query, recursion_desired: bool) -> (r: Resolver)
        ensures
            r@ == (ResolverView {
                state: fresh(query@, recursion_desired),
                targets: None,
                name: query@.name,
                upstreams: Seq::empty(),
            }),
            r@.sound(),
    {
        proof {
            lemma_fresh_known(query@, recursion_desired);
        }
        let name = query.name.clone();
        let resolver = Resolver {
            state: QueryState::new(query, recursion_desired),
            targets: None,
            name,
            upstreams: Vec::new(),
        };
        assert(resolver@.upstreams =~= Seq::empty());
        resolver
    }

    /// Looks up the names that remain, until another server is to be asked or none remains.
    pub fn advance(&mut self, server: &LockedServerState) -> (r: Option<Question>)
        requires
            old(self)@.sound(),
            server.soa_fits(old(self)@.state, old(self)@.state.query.name),
        ensures
            old(self)@.advances(*server, final(self)@, r),
            final(self)@.sound(),
    {
        let ghost start = self@;
        let ghost mut count: nat = 0;
        let ghost records = server.records@.records;
        while self.upstreams.len() == 0
            invariant
                server.soa_fits(start.state, start.state.query.name),
                records == server.records@.records,
                self@ == start.steps(*server, count),
                self@.sound(),
                self@.state.query == start.state.query,
                self@.state.resolve_aliases == start.state.resolve_aliases,
            ensures
                self@ == start.steps(*server, count),
                self@.sound(),
                self@.state.query == start.state.query,
                self@.state.resolve_aliases == start.state.resolve_aliases,
                self@.waits() || self@.exhausted(),
            decreases
                if self.targets is None {
                    1int
                } else {
                    0int
                },
                weight(records, self@.active()),
        {
            let ghost before = self@;
            match &mut self.targets {
                Some(state) => {
                    let ghost taking = state@;
                    match state.next_unknown() {
                        Some(name) => {
                            let ghost rest = state@;
                            proof {
                                lemma_next_keeps_known(taking);
                            }
                            let upstreams = server.resolve_name(&name, state);
                            proof {
                                lemma_looked_up_weight(
                                    server.records@,
                                    server.config(name@),
                                    rest,
                                    name@,
                                );
                                lemma_looked_up_keeps(
                                    server.records@,
                                    server.config(name@),
                                    rest,
                                    name@,
                                );
                            }
                            self.upstreams = upstreams;
                            self.name = name;
                        },
                        None => {
                            break ;
                        },
                    }
                },
                None => {
                    let ghost taking = self.state@;
                    match self.state.next_unknown() {
                        Some(name) => {
                            let ghost rest = self.state@;
                            proof {
                                lemma_next_keeps_known(taking);
                                lemma_taken_len(
                                    rest,
                                    start.state,
                                    server.config(name@).ttl,
                                    name@,
                                    found(
                                        server.records@,
                                        name@,
                                        rest.query.query_class,
                                        rest.query.query_type,
                                    ),
                                );
                            }
                            let upstreams = server.resolve_name(&name, &mut self.state);
                            proof {
                                lemma_looked_up_weight(
                                    server.records@,
                                    server.config(name@),
                                    rest,
                                    name@,
                                );
                                lemma_looked_up_keeps(
                                    server.records@,
                                    server.config(name@),
                                    rest,
                                    name@,
                                );
                            }
                            self.upstreams = upstreams;
                            self.name = name;
                        },
                        None => {
                            if self.state.aliases.len() == 0 {
                                break ;
                            }
                            proof {
                                lemma_targets_done(self.state@);
                            }
                            let targets = self.state.for_aliases();
                            self.targets = Some(targets);
                        },
                    }
                },
            }
            proof {
                assert(self@ =~= before.step(*server));
                count = count + 1;
            }
        }
        if self.upstreams.len() == 0 {
            return None;
        }
        let query = match &self.targets {
            Some(state) => &state.query,
            None => &self.state.query,
        };
        Some(
            Question {
                upstream: self.upstreams[0],
                query: Query {
                    name: self.name.clone(),
                    query_class: query.query_class,
                    query_type: query.query_type,
                },
            },
        )
    }

    /// Looks up the names that remain as `advance` does, unless the answer needs a start of authority
    /// that cannot hold its lifetimes. Then there is nothing, and nothing changes.
    pub fn try_advance(&mut self, server: &LockedServerState) -> (r: Option<Option<Question>>)
        requires
            old(self)@.sound(),
        ensures
            match r {
                Some(question) => server.soa_fits(old(self)@.state, old(self)@.state.query.name)
                    && old(self)@.advances(*server, final(self)@, question),
                None => final(self)@ == old(self)@ && !server.soa_fits(
                    old(self)@.state,
                    old(self)@.state.query.name,
                ),
            },
            final(self)@.sound(),
    {
        if server.check_soa(&self.state) {
            Some(self.advance(server))
        } else {
            None
        }
    }

    /// Takes the reply of the server that was asked, if one came.
    pub fn reply(&mut self, message: Option<Message>)
        requires
            old(self)@.waits(),
        ensures
            final(self)@ == old(self)@.after_reply(
                match message {
                    Some(message) => Some(message@),
                    None => None,
                },
            ),
            final(self)@.state.query == old(self)@.state.query,
            old(self)@.sound() ==> final(self)@.sound(),
    {
        let ghost start = self@;
        proof {
            if message is Some {
                lemma_noted_keeps(start.active(), message->0@.answers);
                if start.sound() {
                    if start.targets is Some {
                        lemma_answers_keep_done(start.active(), message->0@.answers);
                    } else {
                        lemma_answers_keep_known(start.active(), message->0@.answers);
                    }
                }
            }
        }
        let upstream = self.upstreams.remove(0);
        assert(self.upstreams@ =~= start.upstreams.drop_first());
        if let Some(message) = message {
            match &mut self.targets {
                Some(state) => upstream.resolve(&self.name, message, state),
                None => upstream.resolve(&self.name, message, &mut self.state),
            }
        }
    }

    /// Whether no alias of the query leads round in a circle.
    pub fn can_finish(&self) -> (r: bool)
        ensures
            r == self@.ends(),
    {
        match &self.targets {
            None => true,
            Some(targets) => {
                let mut i: usize = 0;
                while i < self.state.aliases.len()
                    invariant
                        i <= self.state.aliases.len(),
                        self@.targets == Some(targets@),
                        forall|j: int|
                            0 <= j < i ==> resolution(
                                targets@.answers + targets@.additionals,
                                (#[trigger] self@.state.aliases[j]).1,
                            ) is Some,
                    decreases self.state.aliases.len() - i,
                {
                    if !targets.resolves(&self.state.aliases[i].1) {
                        let ghost alias = self@.state.aliases[i as int];
                        return false;
                    }
                    i += 1;
                }
                true
            },
        }
    }

    /// Answers the aliases of the query with what their targets gave.
    pub fn finish(&mut self, server: &LockedServerState)
        requires
            old(self)@.ends(),
        ensures
            final(self)@ == (ResolverView { state: old(self)@.answer(*server), ..old(self)@ }),
    {
        let ghost start = self@;
        if let Some(targets) = &self.targets {
            if self.state.response_code == ResponseCode::NXDomain {
                self.state.response_code = targets.response_code;
            }
            let mut records: Vec<rr::Record> = Vec::new();
            let ghost all = targets@.answers + targets@.additionals;
            let ghost aliases = start.state.aliases;
            let ghost query_type = start.state.query.query_type;
            let mut i: usize = 0;
            assert(aliases.take(0) =~= Seq::empty());
            assert(views(records@) =~= Seq::empty());
            while i < self.state.aliases.len()
                invariant
                    i <= self.state.aliases.len(),
                    aliases == alias_views(self.state.aliases@),
                    aliases == start.state.aliases,
                    query_type == self.state.query.query_type,
                    start.targets == Some(targets@),
                    start.ends(),
                    all == targets@.answers + targets@.additionals,
                    views(records@) == alias_answers(
                        *server,
                        aliases.take(i as int),
                        all,
                        query_type,
                    ),
                decreases self.state.aliases.len() - i,
            {
                let ghost part = aliases.take(i + 1);
                assert(part.drop_last() =~= aliases.take(i as int));
                assert(part.last() == aliases[i as int]);
                let (name, alias) = &self.state.aliases[i];
                assert(aliases[i as int] == (name@, alias@));
                let config = server.zones.zone_config(name);
                let data = targets.resolve_name(alias);
                add_typed(&mut records, name, config.ttl, &data, self.state.query.query_type);
                i += 1;
            }
            assert(aliases.take(i as int) =~= aliases);
            self.state.add_answers(records);
        }
        assert(self@ =~= (ResolverView { state: start.answer(*server), ..start }));
    }
}

/// Records under a name for the data of one type.
pub open spec fn typed_records(
    name: Seq<Seq<u8>>,
    ttl: u32,
    data: Seq<RDataView>,
    query_type: RecordType,
) -> Seq<rr::RecordView>
    decreases data.len(),
{
    if data.len() == 0 {
        Seq::empty()
    } else {
        let rest = typed_records(name, ttl, data.drop_last(), query_type);
        if type_of(data.last()) == query_type {
            rest.push(rr::record_of(name, ttl, data.last()))
        } else {
            rest
        }
    }
}

/// Adds records under a name for the data of one type.
fn add_typed(
    records: &mut Vec<rr::Record>,
    name: &Fqdn,
    ttl: u32,
    data: &Vec<rr::RData>,
    query_type: RecordType,
)
    ensures
        views(final(records)@) == views(old(records)@) + typed_records(
            name@,
            ttl,
            data_views(data@),
            query_type,
        ),
{
    let ghost start = views(records@);
    let ghost all = data_views(data@);
    let mut i: usize = 0;
    assert(all.take(0) =~= Seq::empty());
    assert(views(records@) =~= start + Seq::empty());
    while i < data.len()
        invariant
            i <= data.len(),
            all == data_views(data@),
            views(records@) == start + typed_records(name@, ttl, all.take(i as int), query_type),
        decreases data.len() - i,
    {
        assert(all.take(i + 1).drop_last() =~= all.take(i as int));
        assert(all.take(i + 1).last() == data@[i as int]@);
        if data[i].record_type() == query_type {
            let ghost before = views(records@);
            let record = rr::Record::from_rdata(name.clone(), ttl, data[i].clone());
            records.push(record);
            assert(views(records@) =~= before.push(record@));
            assert(views(records@) =~= start + typed_records(
                name@,
                ttl,
                all.take(i + 1),
                query_type,
            ));
        }
        i += 1;
    }
    assert(all.take(i as int) =~= all);
}

/// The answers for aliases: under the name of each, the data of the type that was asked for that
/// its target leads to.
pub open spec fn alias_answers(
    server: LockedServerState,
    aliases: Seq<(Seq<Seq<u8>>, Seq<Seq<u8>>)>,
    all: Seq<rr::RecordView>,
    query_type: RecordType,
) -> Seq<rr::RecordView>
    decreases aliases.len(),
{
    if aliases.len() == 0 {
        Seq::empty()
    } else {
        let (name, target) = aliases.last();
        alias_answers(server, aliases.drop_last(), all, query_type) + typed_records(
            name,
            server.config(name).ttl,
            resolution(all, target)->0,
            query_type,
        )
    }
}

impl ResolverView {
    /// Whether no alias of the query leads round in a circle.
    pub open spec fn ends(self) -> bool {
        self.targets matches Some(targets) ==> forall|i: int|
            0 <= i < self.state.aliases.len() ==> resolution(
                targets.answers + targets.additionals,
                (#[trigger] self.state.aliases[i]).1,
            ) is Some
    }

    /// The state of the query when its aliases are answered. Where the name was not found, the
    /// targets decide whether it exists.
    pub open spec fn answer(self, server: LockedServerState) -> QueryStateView {
        match self.targets {
            None => self.state,
            Some(targets) => with_answers(
                QueryStateView {
                    response_code: if self.state.response_code == ResponseCode::NXDomain {
                        targets.response_code
                    } else {
                        self.state.response_code
                    },
                    ..self.state
                },
                alias_answers(
                    server,
                    self.state.aliases,
                    targets.answers + targets.additionals,
                    self.state.query.query_type,
                ),
            ),
        }
    }
}

/// Looking a name up keeps what was asked for and whether recursion is desired.
proof fn lemma_looked_up_keeps(
    set: RecordSetView,
    config: ZoneConfigView,
    state: QueryStateView,
    name: Seq<Seq<u8>>,
)
    ensures
        looked_up(set, config, state, name).query == state.query,
        looked_up(set, config, state, name).resolve_aliases == state.resolve_aliases,
        looked_up(set, config, state, name).recursion_desired == state.recursion_desired,
        own_known(state) ==> own_known(looked_up(set, config, state, name)),
        own_done(state) ==> own_done(looked_up(set, config, state, name)),
        looked_up(set, config, state, name).additionals == state.additionals,
        looked_up(set, config, state, name).name_servers == state.name_servers,
{
    let result = taken(
        state,
        config.ttl,
        name,
        found(set, name, state.query.query_class, state.query.query_type),
    );
    let noted = QueryStateView {
        response_code: result.response_code,
        aliases: result.aliases,
        recursion_available: state.recursion_available || (config.upstreams.len() > 0 && fold(name)
            == fold(state.query.name)),
        ..state
    };
    lemma_noted_keeps(noted, result.records);
    if own_known(state) {
        lemma_answers_keep_known(noted, result.records);
    }
    if own_done(state) {
        lemma_answers_keep_done(noted, result.records);
    }
}

/// A name for which records are known is asked of no other server.
pub proof fn law_known_names_are_not_asked(
    set: RecordSetView,
    config: ZoneConfigView,
    state: QueryStateView,
    name: Seq<Seq<u8>>,
)
    requires
        found(set, name, state.query.query_class, state.query.query_type).len() > 0,
    ensures
        to_ask(set, config, state, name).len() == 0,
{
}

/// Where recursion is not desired, no other server is asked, however many steps are taken.
pub proof fn law_without_recursion_nobody_is_asked(
    resolver: ResolverView,
    server: LockedServerState,
    count: nat,
)
    requires
        !resolver.waits(),
        !resolver.state.recursion_desired,
        !resolver.active().recursion_desired,
    ensures
        !resolver.steps(server, count).waits(),
        !resolver.steps(server, count).state.recursion_desired,
        !resolver.steps(server, count).active().recursion_desired,
    decreases count,
{
    if count > 0 {
        law_without_recursion_nobody_is_asked(resolver, server, (count - 1) as nat);
        let before = resolver.steps(server, (count - 1) as nat);
        if !before.exhausted() && before.active().unknowns.len() > 0 {
            let state = before.active();
            let name = state.unknowns[0];
            let rest = QueryStateView { unknowns: state.unknowns.drop_first(), ..state };
            lemma_looked_up_keeps(server.records@, server.config(name), rest, name);
        }
    }
}

/// The records that a name has, as they are sent.
pub open spec fn raw_records(records: Seq<record::RecordView>, ttl: u32) -> Seq<rr::RecordView> {
    Seq::new(records.len(), |i: int| raw_record(records[i], ttl))
}

/// The records of one type.
pub open spec fn of_type(records: Seq<record::RecordView>, query_type: RecordType) -> Seq<
    record::RecordView,
>
    decreases records.len(),
{
    if records.len() == 0 {
        Seq::empty()
    } else {
        let rest = of_type(records.drop_last(), query_type);
        if type_of(records.last().rdata) == query_type {
            rest.push(records.last())
        } else {
            rest
        }
    }
}

/// Whether none of some records is an alias.
pub open spec fn no_aliases(records: Seq<record::RecordView>) -> bool {
    forall|i: int|
        0 <= i < records.len() ==> !((#[trigger] records[i]).rdata is Cname) && !(
        records[i].rdata is Aname)
}

/// Whether one of some records holds an address.
pub open spec fn has_address(records: Seq<record::RecordView>) -> bool {
    exists|i: int|
        0 <= i < records.len() && ((#[trigger] records[i]).rdata is A || records[i].rdata is Aaaa)
}

/// The records of one type are those among the records that are of it.
proof fn lemma_of_type(records: Seq<record::RecordView>, query_type: RecordType)
    ensures
        forall|i: int|
            0 <= i < of_type(records, query_type).len() ==> records.contains(
                #[trigger] of_type(records, query_type)[i],
            ) && type_of(of_type(records, query_type)[i].rdata) == query_type,
    decreases records.len(),
{
    if records.len() > 0 {
        let front = records.drop_last();
        let rest = of_type(front, query_type);
        let all = of_type(records, query_type);
        lemma_of_type(front, query_type);
        assert forall|i: int| 0 <= i < all.len() implies records.contains(#[trigger] all[i])
            && type_of(all[i].rdata) == query_type by {
            if i < rest.len() {
                assert(all[i] == rest[i]);
                let k = choose|k: int| 0 <= k < front.len() && front[k] == rest[i];
                assert(records[k] == rest[i]);
            } else {
                assert(records[records.len() - 1] == all[i]);
            }
        }
    }
}

/// Of records that are no aliases, those of the type that is asked for are taken as they are.
proof fn lemma_taken_direct(
    state: QueryStateView,
    ttl: u32,
    name: Seq<Seq<u8>>,
    records: Seq<record::RecordView>,
)
    requires
        no_aliases(records),
    ensures
        taken(state, ttl, name, records).records == raw_records(
            of_type(records, state.query.query_type),
            ttl,
        ),
        taken(state, ttl, name, records).aliases == state.aliases,
        of_type(records, state.query.query_type).len() > 0 || has_address(records) ==> taken(
            state,
            ttl,
            name,
            records,
        ).response_code == ResponseCode::NoError,
    decreases records.len(),
{
    let query_type = state.query.query_type;
    if records.len() > 0 {
        let rest = records.drop_last();
        assert(no_aliases(rest)) by {
            assert forall|i: int| 0 <= i < rest.len() implies !((#[trigger] rest[i]).rdata is Cname)
                && !(rest[i].rdata is Aname) by {
                assert(rest[i] == records[i]);
            }
        }
        lemma_taken_direct(state, ttl, name, rest);
        assert(records.last() == records[records.len() - 1]);
        if type_of(records.last().rdata) == query_type {
            assert(raw_records(of_type(records, query_type), ttl) =~= raw_records(
                of_type(rest, query_type),
                ttl,
            ).push(raw_record(records.last(), ttl)));
        }
        if has_address(records) {
            let i = choose|i: int|
                0 <= i < records.len() && ((#[trigger] records[i]).rdata is A
                    || records[i].rdata is Aaaa);
            if i < rest.len() {
                assert(rest[i] == records[i]);
                assert(has_address(rest));
            }
        }
    } else {
        assert(raw_records(of_type(records, query_type), ttl) =~= Seq::empty());
    }
}

/// Records that are no aliases leave no name to look up.
proof fn lemma_noted_direct(state: QueryStateView, records: Seq<rr::RecordView>)
    requires
        state.unknowns.len() == 0,
        forall|i: int| 0 <= i < records.len() ==> !((#[trigger] records[i]).data matches Some(
            RDataView::Cname(_),
        )),
    ensures
        all_noted(state, records).unknowns.len() == 0,
        state.response_code == ResponseCode::NoError ==> all_noted(state, records).response_code
            == ResponseCode::NoError,
    decreases records.len(),
{
    if records.len() > 0 {
        let rest = records.drop_last();
        assert forall|i: int| 0 <= i < rest.len() implies !((
        #[trigger] rest[i]).data matches Some(RDataView::Cname(_))) by {
            assert(rest[i] == records[i]);
        }
        lemma_noted_direct(state, rest);
        assert(records.last() == records[records.len() - 1]);
        lemma_without_name(
            all_noted(state, rest).unknowns,
            records.last().name,
            records.last().name,
        );
    }
}

/// The start of answering a query.
pub open spec fn at_start(query: QueryView, recursion_desired: bool) -> ResolverView {
    ResolverView {
        state: fresh(query, recursion_desired),
        targets: None,
        name: query.name,
        upstreams: Seq::empty(),
    }
}

/// The first step of a query for a name that has records which are no aliases.
proof fn lemma_first_step(server: LockedServerState, query: QueryView, recursion_desired: bool)
    requires
        ({
            let records = found(
                server.records@,
                query.name,
                query.query_class,
                query.query_type,
            );
            &&& records.len() > 0
            &&& no_aliases(records)
            &&& of_type(records, query.query_type).len() > 0 || has_address(records)
        }),
    ensures
        ({
            let records = found(
                server.records@,
                query.name,
                query.query_class,
                query.query_type,
            );
            let end = at_start(query, recursion_desired).steps(server, 1);
            &&& end.exhausted()
            &&& end.answer(server).response_code == ResponseCode::NoError
            &&& end.answer(server).answers == raw_records(
                of_type(records, query.query_type),
                server.config(query.name).ttl,
            )
            &&& of_type(records, query.query_type).len() > 0 ==> end.answer(server).soa == soa_of(
                server.config(query.name),
            )
        }),
{
    let start = at_start(query, recursion_desired);
    let records = found(server.records@, query.name, query.query_class, query.query_type);
    let typed = of_type(records, query.query_type);
    let state = fresh(query, recursion_desired);
    let rest = QueryStateView { unknowns: state.unknowns.drop_first(), ..state };
    let config = server.config(query.name);
    assert(start.steps(server, 1) == start.steps(server, 0).step(server));
    lemma_taken_direct(rest, config.ttl, query.name, records);
    lemma_of_type(records, query.query_type);
    let result = taken(rest, config.ttl, query.name, records);
    let noted = QueryStateView {
        response_code: result.response_code,
        aliases: result.aliases,
        recursion_available: true,
        ..rest
    };
    assert forall|i: int| 0 <= i < result.records.len() implies !((
    #[trigger] result.records[i]).data matches Some(RDataView::Cname(_))) by {
        assert(result.records[i] == raw_record(typed[i], config.ttl));
        let k = choose|k: int| 0 <= k < records.len() && records[k] == typed[i];
        assert(!(records[k].rdata is Cname));
    }
    lemma_noted_direct(noted, result.records);
    lemma_noted_keeps(noted, result.records);
    assert(state.answers + result.records =~= result.records);
}

/// A query for a name that has records of the type it asks for, and no aliases, is answered with
/// exactly those records and without an error, after one step, and nobody is asked.
pub proof fn law_known_names_are_answered(
    server: LockedServerState,
    query: QueryView,
    recursion_desired: bool,
)
    requires
        ({
            let records = found(
                server.records@,
                query.name,
                query.query_class,
                query.query_type,
            );
            &&& no_aliases(records)
            &&& of_type(records, query.query_type).len() > 0
        }),
    ensures
        ({
            let end = at_start(query, recursion_desired).steps(server, 1);
            &&& end.exhausted()
            &&& end.answer(server).response_code == ResponseCode::NoError
            &&& end.answer(server).answers == raw_records(
                of_type(
                    found(server.records@, query.name, query.query_class, query.query_type),
                    query.query_type,
                ),
                server.config(query.name).ttl,
            )
            &&& end.answer(server).soa == soa_of(server.config(query.name))
        }),
{
    lemma_first_step(server, query, recursion_desired);
}

/// A query for a name that has addresses but no records of the type it asks for, and no aliases, is
/// answered with nothing and without an error, for the name exists, and nobody is asked.
pub proof fn law_names_exist_for_other_types(
    server: LockedServerState,
    query: QueryView,
    recursion_desired: bool,
)
    requires
        ({
            let records = found(
                server.records@,
                query.name,
                query.query_class,
                query.query_type,
            );
            &&& no_aliases(records)
            &&& has_address(records)
            &&& of_type(records, query.query_type).len() == 0
        }),
    ensures
        ({
            let end = at_start(query, recursion_desired).steps(server, 1);
            &&& end.exhausted()
            &&& end.answer(server).response_code == ResponseCode::NoError
            &&& end.answer(server).answers.len() == 0
        }),
{
    lemma_first_step(server, query, recursion_desired);
}

/// A query for a name that has no records, for which nobody is asked, is answered with nothing but
/// that there is no such name.
pub proof fn law_unknown_names_do_not_exist(
    server: LockedServerState,
    query: QueryView,
    recursion_desired: bool,
)
    requires
        found(server.records@, query.name, query.query_class, query.query_type).len() == 0,
        !recursion_desired || server.config(query.name).upstreams.len() == 0,
    ensures
        ({
            let end = at_start(query, recursion_desired).steps(server, 1);
            &&& end.exhausted()
            &&& end.answer(server).response_code == ResponseCode::NXDomain
            &&& end.answer(server).answers.len() == 0
            &&& end.answer(server).soa is None
        }),
{
    let start = at_start(query, recursion_desired);
    assert(start.steps(server, 1) == start.steps(server, 0).step(server));
}

/// Whatever another server says of a name that is not the one the query asks for, it does not
/// decide the authority, nor whether recursion is available.
pub proof fn law_other_names_do_not_decide(
    state: QueryStateView,
    name: Seq<Seq<u8>>,
    message: MessageView,
)
    requires
        fold(name) != fold(state.query.name),
    ensures
        replied(state, name, message).soa == state.soa,
        replied(state, name, message).recursion_available == state.recursion_available,
        replied(state, name, message).name_servers == state.name_servers,
        replied(state, name, message).answers == state.answers + message.answers,
{
    lemma_noted_keeps(state, message.answers);
}

/// The data of records.
pub open spec fn data_of(records: Seq<record::RecordView>) -> Seq<RDataView> {
    Seq::new(records.len(), |i: int| records[i].rdata)
}

/// Records under a name that are no aliases resolve to their data.
proof fn lemma_direct_resolution(
    all: Seq<rr::RecordView>,
    part: Seq<rr::RecordView>,
    name: Seq<Seq<u8>>,
    depth: nat,
)
    requires
        forall|i: int|
            0 <= i < part.len() ==> fold((#[trigger] part[i]).name) == fold(name) && part[i].data
                is Some && !(part[i].data->0 is Cname),
    ensures
        gathered(all, part, name, depth) == Some(
            Seq::new(part.len(), |i: int| part[i].data->0),
        ),
    decreases part.len(),
{
    let whole = Seq::new(part.len(), |i: int| part[i].data->0);
    if part.len() > 0 {
        let rest = part.drop_last();
        assert forall|i: int| 0 <= i < rest.len() implies fold((#[trigger] rest[i]).name) == fold(
            name,
        ) && rest[i].data is Some && !(rest[i].data->0 is Cname) by {
            assert(rest[i] == part[i]);
        }
        lemma_direct_resolution(all, rest, name, depth);
        assert(part.last() == part[part.len() - 1]);
        assert(whole =~= Seq::new(rest.len(), |i: int| rest[i].data->0).push(part.last().data->0));
    } else {
        assert(whole =~= Seq::empty());
    }
}

/// Data that is all of one type gives a record each.
proof fn lemma_all_typed(
    name: Seq<Seq<u8>>,
    ttl: u32,
    data: Seq<RDataView>,
    query_type: RecordType,
)
    requires
        forall|i: int| 0 <= i < data.len() ==> type_of(#[trigger] data[i]) == query_type,
    ensures
        typed_records(name, ttl, data, query_type) == Seq::new(
            data.len(),
            |i: int| rr::record_of(name, ttl, data[i]),
        ),
    decreases data.len(),
{
    let whole = Seq::new(data.len(), |i: int| rr::record_of(name, ttl, data[i]));
    if data.len() > 0 {
        let rest = data.drop_last();
        assert forall|i: int| 0 <= i < rest.len() implies type_of(#[trigger] rest[i])
            == query_type by {
            assert(rest[i] == data[i]);
        }
        lemma_all_typed(name, ttl, rest, query_type);
        assert(data.last() == data[data.len() - 1]);
        assert(whole =~= Seq::new(
            rest.len(),
            |i: int| rr::record_of(name, ttl, rest[i]),
        ).push(rr::record_of(name, ttl, data.last())));
    } else {
        assert(whole =~= Seq::empty());
    }
}

/// Records of one type that has an answer make no error.
proof fn lemma_noted_code(state: QueryStateView, records: Seq<rr::RecordView>)
    requires
        records.len() > 0,
        records.last().record_type == state.query.query_type,
    ensures
        all_noted(state, records).response_code == ResponseCode::NoError,
{
    lemma_noted_keeps(state, records.drop_last());
}

/// A query for the addresses of a name that is a local alias of one other name, where that name has
/// addresses, is answered with those of the type that is asked for under the name that was asked for,
/// and without an error even where there are none of that type.
pub proof fn law_local_aliases_are_answered(
    server: LockedServerState,
    query: QueryView,
    recursion_desired: bool,
    alias: record::RecordView,
    target: Seq<Seq<u8>>,
)
    requires
        query.query_type == RecordType::A || query.query_type == RecordType::Aaaa,
        found(server.records@, query.name, query.query_class, query.query_type) == seq![alias],
        alias.rdata == RDataView::Aname(target),
        fold(target) != fold(query.name),
        ({
            let records = found(server.records@, target, query.query_class, query.query_type);
            &&& no_aliases(records)
            &&& of_type(records, query.query_type).len() > 0 || has_address(records)
        }),
    ensures
        ({
            let end = at_start(query, recursion_desired).steps(server, 3);
            let data = data_of(
                of_type(
                    found(server.records@, target, query.query_class, query.query_type),
                    query.query_type,
                ),
            );
            &&& end.exhausted()
            &&& end.ends()
            &&& end.answer(server).response_code == ResponseCode::NoError
            &&& end.answer(server).answers == Seq::new(
                data.len(),
                |i: int|
                    rr::RecordView {
                        name: query.name,
                        record_type: query.query_type,
                        class: DnsClass::In,
                        ttl: server.config(query.name).ttl,
                        data: Some(data[i]),
                    },
            )
        }),
{
    let start = at_start(query, recursion_desired);
    let set = server.records@;
    let records = found(set, target, query.query_class, query.query_type);
    let typed = of_type(records, query.query_type);
    lemma_of_type(records, query.query_type);
    // The alias itself.
    let one = start.steps(server, 1);
    assert(one == start.steps(server, 0).step(server));
    let state = start.state;
    let rest = QueryStateView { unknowns: state.unknowns.drop_first(), ..state };
    let config = server.config(query.name);
    let front = seq![alias].drop_last();
    assert(front =~= Seq::empty());
    assert(taken(rest, config.ttl, query.name, front).records.len() == 0);
    assert(seq![alias].last() == alias);
    let first = taken(rest, config.ttl, query.name, seq![alias]);
    assert(first.aliases =~= seq![(query.name, target)]);
    assert(first.records.len() == 0);
    assert(one.state.unknowns.len() == 0);
    // Its target.
    let two = start.steps(server, 2);
    assert(two == one.step(server));
    let targets = for_targets(one.state);
    assert(two.targets == Some(targets));
    let aliases = seq![(query.name, target)];
    assert(aliases.drop_last() =~= Seq::empty());
    assert(!listed(seq![query.name], target)) by {
        if listed(seq![query.name], target) {
            let i = choose|i: int|
                0 <= i < seq![query.name].len() && fold(#[trigger] seq![query.name][i]) == fold(
                    target,
                );
            assert(seq![query.name][i] == query.name);
        }
    }
    assert(unseen_targets(aliases.drop_last(), seq![query.name]).len() == 0);
    assert(unseen_targets(aliases, seq![query.name]) =~= seq![target]);
    let three = start.steps(server, 3);
    assert(three == two.step(server));
    let left = QueryStateView { unknowns: targets.unknowns.drop_first(), ..targets };
    let target_config = server.config(target);
    lemma_taken_direct(left, target_config.ttl, target, records);
    let result = taken(left, target_config.ttl, target, records);
    let noted = QueryStateView {
        response_code: result.response_code,
        aliases: result.aliases,
        recursion_available: true,
        ..left
    };
    assert forall|i: int| 0 <= i < result.records.len() implies !((
    #[trigger] result.records[i]).data matches Some(RDataView::Cname(_))) by {
        assert(result.records[i] == raw_record(typed[i], target_config.ttl));
        assert(type_of(typed[i].rdata) == query.query_type);
    }
    lemma_noted_direct(noted, result.records);
    lemma_noted_keeps(noted, result.records);
    assert(targets.answers + result.records =~= result.records);
    // What the target gives.
    let done = three.targets->0;
    let all = done.answers + done.additionals;
    assert(all =~= result.records);
    assert forall|i: int| 0 <= i < all.len() implies fold((#[trigger] all[i]).name) == fold(target)
        && all[i].data is Some && !(all[i].data->0 is Cname) by {
        assert(all[i] == raw_record(typed[i], target_config.ttl));
        assert(records.contains(typed[i]));
        law_lookup_finds_all_records(set.records, target, typed[i]);
    }
    lemma_direct_resolution(all, all, target, all.len());
    let data = data_of(typed);
    assert(Seq::new(all.len(), |i: int| all[i].data->0) =~= data);
    assert(resolution(all, target) == Some(data));
    assert forall|i: int| 0 <= i < data.len() implies type_of(#[trigger] data[i])
        == query.query_type by {
        assert(data[i] == typed[i].rdata);
    }
    lemma_all_typed(query.name, config.ttl, data, query.query_type);
    let given = typed_records(query.name, config.ttl, data, query.query_type);
    assert(alias_answers(server, aliases.drop_last(), all, query.query_type).len() == 0);
    assert(alias_answers(server, aliases, all, query.query_type) =~= given);
    let before = QueryStateView { response_code: done.response_code, ..three.state };
    if given.len() > 0 {
        assert(given.last() == given[given.len() - 1]);
        lemma_noted_code(before, given);
    }
    lemma_noted_keeps(before, given);
    assert(three.state.answers + given =~= given);
    assert(given =~= Seq::new(
        data.len(),
        |i: int|
            rr::RecordView {
                name: query.name,
                record_type: query.query_type,
                class: DnsClass::In,
                ttl: config.ttl,
                data: Some(data[i]),
            },
    ));
}

/// The addresses of one type among data, with no port.
pub open spec fn socket_addresses(data: Seq<RDataView>, query_type: RecordType) -> Seq<SocketAddr>
    decreases data.len(),
{
    if data.len() == 0 {
        Seq::empty()
    } else {
        let rest = socket_addresses(data.drop_last(), query_type);
        match data.last() {
            RDataView::A(ip) => if query_type == RecordType::A {
                rest.push(SocketAddr { ip: IpAddr::V4(ip), port: 0 })
            } else {
                rest
            },
            RDataView::Aaaa(ip) => if query_type == RecordType::Aaaa {
                rest.push(SocketAddr { ip: IpAddr::V6(ip), port: 0 })
            } else {
                rest
            },
            _ => rest,
        }
    }
}

/// Adds the addresses of one type among data, with no port.
fn add_addresses(out: &mut Vec<SocketAddr>, data: &Vec<rr::RData>, query_type: RecordType)
    ensures
        final(out)@ == old(out)@ + socket_addresses(data_views(data@), query_type),
{
    let ghost start = out@;
    let ghost all = data_views(data@);
    let mut i: usize = 0;
    assert(all.take(0) =~= Seq::empty());
    assert(out@ =~= start + Seq::empty());
    while i < data.len()
        invariant
            i <= data.len(),
            all == data_views(data@),
            out@ == start + socket_addresses(all.take(i as int), query_type),
        decreases data.len() - i,
    {
        assert(all.take(i + 1).drop_last() =~= all.take(i as int));
        assert(all.take(i + 1).last() == data@[i as int]@);
        match &data[i] {
            rr::RData::A(ip) => {
                if query_type == RecordType::A {
                    out.push(SocketAddr { ip: IpAddr::V4(*ip), port: 0 });
                }
            },
            rr::RData::Aaaa(ip) => {
                if query_type == RecordType::Aaaa {
                    out.push(SocketAddr { ip: IpAddr::V6(*ip), port: 0 });
                }
            },
            _ => {},
        }
        i += 1;
        assert(out@ =~= start + socket_addresses(all.take(i as int), query_type));
    }
    assert(all.take(i as int) =~= all);
}

/// The two queries by which the addresses of a host are found, with the name of the host.
pub fn http_queries(name: &str) -> (r: Result<(Fqdn, Resolver, Resolver), NameError>)
    ensures
        match name_from_text(name@) {
            Some(labels) => r matches Ok((fqdn, v4, v6)) && fqdn@ == labels && v4@.state == fresh(
                QueryView {
                    name: labels,
                    query_class: DnsClass::In,
                    query_type: RecordType::A,
                },
                true,
            ) && v6@.state == fresh(
                QueryView {
                    name: labels,
                    query_class: DnsClass::In,
                    query_type: RecordType::Aaaa,
                },
                true,
            ) && v4@.targets is None && v6@.targets is None && !v4@.waits() && !v6@.waits()
                && v4@.sound() && v6@.sound(),
            None => r matches Err(e) && e == NameError::Invalid,
        },
{
    match Fqdn::from_text(name) {
        Ok(name) => {
            let v4 = Resolver::new(Query::query(name.clone(), RecordType::A), true);
            let v6 = Resolver::new(Query::query(name.clone(), RecordType::Aaaa), true);
            Ok((name, v4, v6))
        },
        Err(e) => Err(e),
    }
}

/// The addresses of a host that the answers to its two queries give: first those of IPv4.
pub fn http_addresses(name: &Fqdn, v4: &QueryState, v6: &QueryState) -> (r: Vec<SocketAddr>)
    requires
        resolution(v4@.answers + v4@.additionals, name@) is Some,
        resolution(v6@.answers + v6@.additionals, name@) is Some,
    ensures
        r@ == socket_addresses(
            resolution(v4@.answers + v4@.additionals, name@)->0,
            RecordType::A,
        ) + socket_addresses(
            resolution(v6@.answers + v6@.additionals, name@)->0,
            RecordType::Aaaa,
        ),
{
    let mut out: Vec<SocketAddr> = Vec::new();
    let data4 = v4.resolve_name(name);
    add_addresses(&mut out, &data4, RecordType::A);
    let data6 = v6.resolve_name(name);
    add_addresses(&mut out, &data6, RecordType::Aaaa);
    assert(out@ =~= socket_addresses(data_views(data4@), RecordType::A) + socket_addresses(
        data_views(data6@),
        RecordType::Aaaa,
    ));
    out
}

} // verus!
