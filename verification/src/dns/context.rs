//! Answering a query from records in which local aliases are not followed.

use vstd::prelude::*;
use crate::config::zones::{
    configured, lemma_configured_folds, soa_of, DefaultZoneConfig, PartialZoneConfig, Upstream,
    ZoneConfig, ZoneConfigView, Zones,
};
use crate::dns::answers::lemma_soa_parts;
use crate::dns::names::{
    contains_name, insert_name, lemma_with_name, lemma_without_name, listed, remove_name, with_name,
    without_name,
};
use crate::dns::query::{
    aliased, fresh, lemma_aliased_last, lemma_fresh_known, lemma_listed_folds,
    lemma_next_keeps_known, lemma_noted_known, lemma_owned_last, own_known, owned, soa_view, Query,
    QueryState, QueryStateView, QueryView, ResponseHeader,
};
use crate::dns::record;
use crate::dns::record::{raw_record, record_views};
use crate::dns::resolver::{
    last_soa, led_to, lemma_unseen_shrinks, part_soa, sourced, target_of, weight,
    without_soa, LockedServerState, Message, MessageView, Question,
};
use crate::dns::rr;
use crate::dns::rr::{type_of, views, DnsClass, RDataView, RecordType, ResponseCode};
use crate::dns::set::{found, law_lookup_finds_all_records, set_wf, RecordSet, RecordSetView};
use crate::name::{fold, Fqdn};

verus! {

/// Whether a record is sent in answer to a query: it is of the type that is asked for, or an alias
/// where recursion is desired.
pub open spec fn sent(
    record: record::RecordView,
    query_type: RecordType,
    recursion_desired: bool,
) -> bool {
    type_of(record.rdata) == query_type || record.rdata is Cname && recursion_desired
}

/// The records that are sent in answer to a query.
pub open spec fn sent_records(
    records: Seq<record::RecordView>,
    ttl: u32,
    query_type: RecordType,
    recursion_desired: bool,
) -> Seq<rr::RecordView>
    decreases records.len(),
{
    if records.len() == 0 {
        Seq::empty()
    } else {
        let rest = sent_records(records.drop_last(), ttl, query_type, recursion_desired);
        if sent(records.last(), query_type, recursion_desired) {
            rest.push(raw_record(records.last(), ttl))
        } else {
            rest
        }
    }
}

/// A state in which an answer has been taken note of. Where recursion is desired, the name that it
/// leads to remains to be looked up unless it was seen.
pub open spec fn marked(state: QueryStateView, record: rr::RecordView) -> QueryStateView {
    let seen = with_name(state.seen, record.name);
    let unknowns = without_name(state.unknowns, record.name);
    let follows = match record.data {
        Some(RDataView::Cname(target)) => state.recursion_desired && !listed(seen, target),
        _ => false,
    };
    QueryStateView {
        seen: if follows {
            with_name(seen, record.data->0->Cname_0)
        } else {
            seen
        },
        unknowns: if follows {
            with_name(unknowns, record.data->0->Cname_0)
        } else {
            unknowns
        },
        ..state
    }
}

/// A state in which answers have been taken note of.
pub open spec fn all_marked(state: QueryStateView, records: Seq<rr::RecordView>) -> QueryStateView
    decreases records.len(),
{
    if records.len() == 0 {
        state
    } else {
        marked(all_marked(state, records.drop_last()), records.last())
    }
}

/// A state with answers added. Any answer shows that the name exists.
pub open spec fn answered(state: QueryStateView, records: Seq<rr::RecordView>) -> QueryStateView {
    let after = all_marked(state, records);
    QueryStateView {
        response_code: if records.len() > 0 && state.response_code == ResponseCode::NXDomain {
            ResponseCode::NoError
        } else {
            state.response_code
        },
        answers: state.answers + records,
        ..after
    }
}

/// The records that a name is answered with.
pub open spec fn local_answers(
    set: RecordSetView,
    config: ZoneConfigView,
    state: QueryStateView,
    name: Seq<Seq<u8>>,
) -> Seq<rr::RecordView> {
    sent_records(
        found(set, name, state.query.query_class, state.query.query_type),
        config.ttl,
        state.query.query_type,
        state.recursion_desired,
    )
}

/// The state of a query after a name was looked up among the records.
pub open spec fn looked_up_plain(
    set: RecordSetView,
    config: ZoneConfigView,
    state: QueryStateView,
    name: Seq<Seq<u8>>,
) -> QueryStateView {
    let records = local_answers(set, config, state, name);
    if records.len() == 0 {
        state
    } else {
        let after = answered(state, records);
        if fold(name) == fold(state.query.name) {
            QueryStateView {
                soa: soa_of(config),
                response_code: ResponseCode::NoError,
                ..after
            }
        } else {
            after
        }
    }
}

/// Whether there is a record under a name.
pub open spec fn named(set: RecordSetView, name: Seq<Seq<u8>>) -> bool {
    exists|i: int|
        0 <= i < set.records.len() && fold((#[trigger] set.records[i]).name) == fold(name)
}

/// The state of a query after another server replied to a question for a name. For the name of the
/// query itself the reply also decides the response code, though a name that has records exists.
pub open spec fn replied_plain(
    set: RecordSetView,
    config: ZoneConfigView,
    state: QueryStateView,
    name: Seq<Seq<u8>>,
    message: MessageView,
) -> QueryStateView {
    let after = answered(state, message.answers);
    let added = QueryStateView { additionals: after.additionals + message.additionals, ..after };
    if fold(name) == fold(state.query.name) {
        QueryStateView {
            response_code: if message.response_code == ResponseCode::NXDomain && named(set, name) {
                ResponseCode::NoError
            } else {
                message.response_code
            },
            recursion_available: message.recursion_available,
            name_servers: added.name_servers + without_soa(message.name_servers),
            soa: match soa_of(config) {
                Some(soa) => Some(soa),
                None => last_soa(message.name_servers),
            },
            ..added
        }
    } else {
        added
    }
}

/// Taking note of answers changes nothing but what is seen and what remains.
proof fn lemma_marked_keeps(state: QueryStateView, records: Seq<rr::RecordView>)
    ensures
        all_marked(state, records) == (QueryStateView {
            seen: all_marked(state, records).seen,
            unknowns: all_marked(state, records).unknowns,
            ..state
        }),
    decreases records.len(),
{
    if records.len() > 0 {
        lemma_marked_keeps(state, records.drop_last());
    }
}

/// Taking note of answers that come from records leaves no more to look up.
proof fn lemma_marked_weight(
    records: Seq<record::RecordView>,
    state: QueryStateView,
    given: Seq<rr::RecordView>,
)
    requires
        sourced(records, given),
    ensures
        weight(records, all_marked(state, given)) <= weight(records, state),
    decreases given.len(),
{
    if given.len() > 0 {
        let rest = given.drop_last();
        assert(sourced(records, rest)) by {
            assert forall|i: int| 0 <= i < rest.len() implies ((
            #[trigger] rest[i]).data matches Some(RDataView::Cname(target)) ==> led_to(
                records,
                target,
            )) by {
                assert(rest[i] == given[i]);
            }
        }
        lemma_marked_weight(records, state, rest);
        let before = all_marked(state, rest);
        let record = given.last();
        assert(record == given[given.len() - 1]);
        lemma_unseen_shrinks(records, before.seen, record.name);
        lemma_without_name(before.unknowns, record.name, record.name);
        if let Some(RDataView::Cname(target)) = record.data {
            let seen = with_name(before.seen, record.name);
            if !listed(seen, target) {
                lemma_unseen_shrinks(records, seen, target);
            }
        }
    }
}

/// The records that are sent come from those that are known.
proof fn lemma_sent_sourced(
    records: Seq<record::RecordView>,
    part: Seq<record::RecordView>,
    ttl: u32,
    query_type: RecordType,
    recursion_desired: bool,
)
    requires
        forall|i: int|
            0 <= i < part.len() ==> (target_of((#[trigger] part[i]).rdata) matches Some(target)
                ==> led_to(records, target)),
    ensures
        sourced(records, sent_records(part, ttl, query_type, recursion_desired)),
    decreases part.len(),
{
    if part.len() > 0 {
        let rest = part.drop_last();
        assert forall|i: int| 0 <= i < rest.len() implies (target_of(
            (#[trigger] rest[i]).rdata,
        ) matches Some(target) ==> led_to(records, target)) by {
            assert(rest[i] == part[i]);
        }
        lemma_sent_sourced(records, rest, ttl, query_type, recursion_desired);
        assert(part.last() == part[part.len() - 1]);
        let before = sent_records(rest, ttl, query_type, recursion_desired);
        let after = sent_records(part, ttl, query_type, recursion_desired);
        assert forall|i: int| 0 <= i < after.len() implies ((
        #[trigger] after[i]).data matches Some(RDataView::Cname(target)) ==> led_to(
            records,
            target,
        )) by {
            if i < before.len() {
                assert(after[i] == before[i]);
            }
        }
    }
}

/// Looking a name up leaves no more to look up than there was.
proof fn lemma_looked_up_plain_weight(
    set: RecordSetView,
    config: ZoneConfigView,
    state: QueryStateView,
    name: Seq<Seq<u8>>,
)
    requires
        set_wf(set),
    ensures
        weight(set.records, looked_up_plain(set, config, state, name)) <= weight(
            set.records,
            state,
        ),
{
    let records = found(set, name, state.query.query_class, state.query.query_type);
    assert forall|i: int| 0 <= i < records.len() implies (target_of(
        (#[trigger] records[i]).rdata,
    ) matches Some(target) ==> led_to(set.records, target)) by {
        let record = records[i];
        if state.query.query_type != RecordType::Ptr {
            assert(records.contains(record));
            law_lookup_finds_all_records(set.records, name, record);
            let k = choose|k: int| 0 <= k < set.records.len() && set.records[k] == record;
            assert(target_of(set.records[k].rdata) == target_of(record.rdata));
        }
    }
    lemma_sent_sourced(
        set.records,
        records,
        config.ttl,
        state.query.query_type,
        state.recursion_desired,
    );
    lemma_marked_weight(set.records, state, local_answers(set, config, state, name));
}

/// A query that is being answered.
#[derive(Debug)]
pub struct QueryContext {
    pub server: LockedServerState,
    pub state: QueryState,
    /// The name that was looked up last.
    pub name: Fqdn,
}

impl QueryContext {
    /// A query that has just come, to be answered from records and zones.
    pub fn new(records: RecordSet, zones: Zones, query: Query, recursion_desired: bool) -> (r:
        QueryContext)
        ensures
            r.server.records@ == records@,
            r.server.zones == zones,
            r.name@ == query@.name,
            r.state@ == fresh(query@, recursion_desired),
            own_known(r.state@),
    {
        proof {
            lemma_fresh_known(query@, recursion_desired);
        }
        let name = query.name.clone();
        QueryContext {
            server: LockedServerState { records, zones },
            state: QueryState::new(query, recursion_desired),
            name,
        }
    }

    /// Takes note of answers.
    fn mark(&mut self, record: &rr::Record)
        ensures
            final(self).state@ == marked(old(self).state@, record@),
            final(self).server == old(self).server,
            final(self).name == old(self).name,
    {
        insert_name(&mut self.state.seen, &record.name);
        remove_name(&mut self.state.unknowns, &record.name);
        if self.state.recursion_desired {
            if let Some(rr::RData::Cname(target)) = &record.data {
                if !contains_name(&self.state.seen, target) {
                    insert_name(&mut self.state.seen, target);
                    insert_name(&mut self.state.unknowns, target);
                }
            }
        }
        assert(self.state@ =~= marked(old(self).state@, record@));
    }

    /// Adds answers.
    fn add_answers(&mut self, records: Vec<rr::Record>)
        ensures
            final(self).state@ == answered(old(self).state@, views(records@)),
            final(self).server == old(self).server,
            final(self).name == old(self).name,
    {
        let ghost start = self.state@;
        let ghost all = views(records@);
        let mut records = records;
        let mut i: usize = 0;
        assert(all.take(0) =~= Seq::empty());
        while i < records.len()
            invariant
                i <= records.len(),
                all == views(records@),
                self.state@ == all_marked(start, all.take(i as int)),
                self.server == old(self).server,
                self.name == old(self).name,
            decreases records.len() - i,
        {
            assert(all.take(i + 1).drop_last() =~= all.take(i as int));
            assert(all.take(i + 1).last() == records@[i as int]@);
            self.mark(&records[i]);
            i += 1;
        }
        assert(all.take(i as int) =~= all);
        proof {
            lemma_marked_keeps(start, all);
        }
        if records.len() > 0 && self.state.response_code == ResponseCode::NXDomain {
            self.state.response_code = ResponseCode::NoError;
        }
        self.state.answers.append(&mut records);
        assert(views(self.state.answers@) =~= start.answers + all);
        assert(self.state@ =~= answered(start, all));
    }

    /// The records that a name is answered with.
    fn local_records(&self, name: &Fqdn, config: &ZoneConfig) -> (r: Vec<rr::Record>)
        ensures
            views(r@) == local_answers(self.server.records@, config@, self.state@, name@),
            set_wf(self.server.records@),
    {
        let query_type = self.state.query_type();
        let records = self.server.records.lookup(name, self.state.query_class(), query_type);
        let mut out: Vec<rr::Record> = Vec::new();
        let ghost all = record_views(records@);
        let ghost desired = self.state.recursion_desired;
        let mut i: usize = 0;
        assert(all.take(0) =~= Seq::empty());
        assert(views(out@) =~= Seq::empty());
        while i < records.len()
            invariant
                i <= records.len(),
                all == record_views(records@),
                desired == self.state.recursion_desired,
                views(out@) == sent_records(all.take(i as int), config.ttl, query_type, desired),
            decreases records.len() - i,
        {
            assert(all.take(i + 1).drop_last() =~= all.take(i as int));
            assert(all.take(i + 1).last() == records@[i as int]@);
            let record_type = records[i].rdata().record_type();
            let send = record_type == query_type || record_type == RecordType::Cname
                && self.state.recursion_desired;
            if send {
                let ghost before = views(out@);
                let answer = records[i].raw(config);
                out.push(answer);
                assert(views(out@) =~= before.push(answer@));
            }
            i += 1;
        }
        assert(all.take(i as int) =~= all);
        out
    }

    /// Looks a name up among the records. The result has the server that is to be asked for it.
    pub fn lookup_name(&mut self, name: &Fqdn) -> (r: Option<Upstream>)
        requires
            plain_soa_fits(old(self).server, old(self).state@, name@),
        ensures
            ({
                let set = old(self).server.records@;
                let config = old(self).server.config(name@);
                &&& final(self).state@ == looked_up_plain(set, config, old(self).state@, name@)
                &&& r == if local_answers(set, config, old(self).state@, name@).len() == 0
                    && config.upstreams.len() > 0 {
                    Some(config.upstreams[0])
                } else {
                    None
                }
            }),
            final(self).server == old(self).server,
            final(self).name == old(self).name,
            set_wf(old(self).server.records@),
    {
        let config = self.server.zones.zone_config(name);
        let records = self.local_records(name, &config);
        assert(views(records@).len() == records.len());
        if records.len() > 0 {
            let own = name.same(&self.state.query.name);
            self.add_answers(records);
            if own {
                self.state.soa = config.soa();
                self.state.response_code = ResponseCode::NoError;
            }
            None
        } else if config.upstreams.len() > 0 {
            Some(config.upstreams[0])
        } else {
            None
        }
    }

    /// Takes the reply of another server to a question for the name that was looked up last.
    pub fn reply(&mut self, message: Message)
        requires
            fold(old(self).name@) == fold(old(self).state@.query.name)
                ==> old(self).server.zones.soa_fits(old(self).state@.query.name),
        ensures
            final(self).state@ == replied_plain(
                old(self).server.records@,
                old(self).server.config(old(self).name@),
                old(self).state@,
                old(self).name@,
                message@,
            ),
            final(self).server == old(self).server,
            final(self).name == old(self).name,
            own_known(old(self).state@) ==> own_known(final(self).state@),
    {
        let ghost start = self.state@;
        let ghost reply = message@;
        proof {
            lemma_marked_keeps(start, reply.answers);
            if own_known(start) {
                lemma_marked_known(start, reply.answers);
            }
        }
        let Message {
            response_code,
            recursion_available,
            answers,
            additionals,
            name_servers,
        } = message;
        self.add_answers(answers);
        self.state.add_additionals(additionals);
        let ghost added = self.state@;
        if self.name.same(&self.state.query.name) {
            self.state.response_code = if response_code == ResponseCode::NXDomain
                && self.server.records.has_name(&self.name) {
                ResponseCode::NoError
            } else {
                response_code
            };
            self.state.recursion_available = recursion_available;
            let (mut servers, soa) = part_soa(&name_servers);
            let ghost parted = views(servers@);
            self.state.name_servers.append(&mut servers);
            assert(views(self.state.name_servers@) =~= added.name_servers + parted);
            let config = self.server.zones.zone_config(&self.name);
            proof {
                lemma_configured_folds(
                    self.server.zones.defaults(),
                    self.server.zones.zones(),
                    self.name@,
                    start.query.name,
                );
            }
            self.state.soa = match config.soa() {
                Some(record) => Some(record),
                None => soa,
            };
        }
        assert(self.state@ =~= replied_plain(
            self.server.records@,
            self.server.config(self.name@),
            start,
            self.name@,
            reply,
        ));
    }

    /// Looks up the names that remain, until another server is to be asked or none remains. The
    /// steps are those of `lookup_name`, each for the first name that remains. A server is asked
    /// as soon as a name has no answer among the records and its zone has a server to ask, and
    /// only then.
    pub fn perform_query(&mut self) -> (r: Option<Question>)
        requires
            own_known(old(self).state@),
            plain_soa_fits(old(self).server, old(self).state@, old(self).state@.query.name),
        ensures
            final(self).server == old(self).server,
            final(self).state@.query == old(self).state@.query,
            own_known(final(self).state@),
            performs(
                old(self).server,
                old(self).state@,
                old(self).name@,
                final(self).state@,
                final(self).name@,
                r,
            ),
    {
        let ghost start = self.state@;
        let ghost first = self.name@;
        let ghost records = self.server.records@.records;
        let ghost mut count: nat = 0;
        loop
            invariant
                self.server == old(self).server,
                plain_soa_fits(self.server, start, start.query.name),
                own_known(self.state@),
                self.state@.query == start.query,
                self.state@.recursion_desired == start.recursion_desired,
                records == self.server.records@.records,
                start == old(self).state@,
                first == old(self).name@,
                (self.state@, self.name@) == plain_steps(self.server, start, first, count),
                forall|k: nat| k < count ==> !#[trigger] plain_asks(self.server, start, first, k),
            decreases weight(records, self.state@),
        {
            let ghost before = self.state@;
            let name = match self.state.next_unknown() {
                Some(name) => name,
                None => {
                    assert(stops_at(self.server, start, first, count, false));
                    return None;
                },
            };
            let ghost rest = self.state@;
            proof {
                lemma_next_keeps_known(before);
            }
            let upstream = self.lookup_name(&name);
            assert(upstream is Some <==> plain_asks(self.server, start, first, count));
            proof {
                lemma_looked_up_plain_weight(
                    self.server.records@,
                    self.server.config(name@),
                    rest,
                    name@,
                );
                count = count + 1;
                lemma_looked_up_plain_keeps(
                    self.server.records@,
                    self.server.config(name@),
                    rest,
                    name@,
                );
            }
            self.name = name;
            assert((self.state@, self.name@) == plain_steps(self.server, start, first, count));
            if let Some(upstream) = upstream {
                let query = Query {
                    name: self.name.clone(),
                    query_class: self.state.query.query_class,
                    query_type: self.state.query.query_type,
                };
                assert(stops_at(self.server, start, first, count, true));
                return Some(Question { upstream, query });
            }
        }
    }

    /// Looks up the names that remain as `perform_query` does, unless the answer needs a start of
    /// authority that cannot hold its lifetimes. Then there is nothing, and nothing changes.
    pub fn try_perform_query(&mut self) -> (r: Option<Option<Question>>)
        requires
            own_known(old(self).state@),
        ensures
            final(self).server == old(self).server,
            own_known(final(self).state@),
            r is Some <==> plain_soa_fits(
                old(self).server,
                old(self).state@,
                old(self).state@.query.name,
            ),
            match r {
                Some(question) => performs(
                    old(self).server,
                    old(self).state@,
                    old(self).name@,
                    final(self).state@,
                    final(self).name@,
                    question,
                ),
                None => *final(self) == *old(self),
            },
    {
        let config = self.server.zones.zone_config(&self.state.query.name);
        let records = self.local_records(&self.state.query.name, &config);
        assert(views(records@).len() == records.len());
        if records.len() > 0 && !self.server.zones.check_soa(&self.state.query.name) {
            return None;
        }
        Some(self.perform_query())
    }

    /// Begins anew with another query. Nothing of the one before is left.
    pub fn restart(&mut self, query: Query, recursion_desired: bool)
        ensures
            final(self).state@ == fresh(query@, recursion_desired),
            final(self).name@ == query@.name,
            final(self).server == old(self).server,
            own_known(final(self).state@),
    {
        proof {
            lemma_fresh_known(query@, recursion_desired);
        }
        self.name = query.name.clone();
        self.state = QueryState::new(query, recursion_desired);
    }

    /// The answers to respond with.
    pub fn answers(&self) -> (r: &Vec<rr::Record>)
        ensures
            views(r@) == self.state@.answers,
    {
        &self.state.answers
    }

    /// The additional records.
    pub fn additionals(&self) -> (r: &Vec<rr::Record>)
        ensures
            views(r@) == self.state@.additionals,
    {
        &self.state.additionals
    }

    /// The name servers.
    pub fn name_servers(&self) -> (r: &Vec<rr::Record>)
        ensures
            views(r@) == self.state@.name_servers,
    {
        &self.state.name_servers
    }

    /// The start of authority.
    pub fn soa(&self) -> (r: &Option<rr::Record>)
        ensures
            soa_view(*r) == self.state@.soa,
    {
        &self.state.soa
    }

    /// The parts of the response header that the answer decides.
    pub fn header(&self) -> (r: ResponseHeader)
        ensures
            r == (ResponseHeader {
                authoritative: self.state@.soa is Some,
                recursion_available: self.state@.recursion_available,
                response_code: self.state@.response_code,
            }),
    {
        self.state.header()
    }
}

/// The state of a query, and the name that was looked up last, after so many names that remained.
pub open spec fn plain_steps(
    server: LockedServerState,
    state: QueryStateView,
    name: Seq<Seq<u8>>,
    count: nat,
) -> (QueryStateView, Seq<Seq<u8>>)
    decreases count,
{
    if count == 0 {
        (state, name)
    } else {
        let (before, last) = plain_steps(server, state, name, (count - 1) as nat);
        if before.unknowns.len() == 0 {
            (before, last)
        } else {
            let next = before.unknowns[0];
            let rest = QueryStateView { unknowns: before.unknowns.drop_first(), ..before };
            (looked_up_plain(server.records@, server.config(next), rest, next), next)
        }
    }
}

/// Whether the start of authority that looking a name up needs can hold its lifetimes. One is needed
/// only for the name of the query, where records answer it.
pub open spec fn plain_soa_fits(
    server: LockedServerState,
    state: QueryStateView,
    name: Seq<Seq<u8>>,
) -> bool {
    fold(name) == fold(state.query.name) && local_answers(
        server.records@,
        server.config(name),
        state,
        name,
    ).len() > 0 ==> server.zones.soa_fits(name)
}

/// Whether looking up the names that remain leads to a state, with a question for another server or
/// without one.
pub open spec fn performs(
    server: LockedServerState,
    state: QueryStateView,
    name: Seq<Seq<u8>>,
    after: QueryStateView,
    last: Seq<Seq<u8>>,
    question: Option<Question>,
) -> bool {
    &&& exists|count: nat|
        (after, last) == #[trigger] plain_steps(server, state, name, count) && stops_at(
            server,
            state,
            name,
            count,
            question is Some,
        )
    &&& after.query == state.query
    &&& match question {
        Some(question) => question.query@ == (QueryView { name: last, ..after.query })
            && server.config(last).upstreams.len() > 0 && question.upstream == server.config(
            last,
        ).upstreams[0],
        None => after.unknowns.len() == 0,
    }
}

/// Whether another server is to be asked after so many names: the next name that remains has no
/// answer among the records, and its zone has a server to ask.
pub open spec fn plain_asks(
    server: LockedServerState,
    state: QueryStateView,
    name: Seq<Seq<u8>>,
    count: nat,
) -> bool {
    let before = plain_steps(server, state, name, count).0;
    before.unknowns.len() > 0 && {
        let next = before.unknowns[0];
        let rest = QueryStateView { unknowns: before.unknowns.drop_first(), ..before };
        &&& local_answers(server.records@, server.config(next), rest, next).len() == 0
        &&& server.config(next).upstreams.len() > 0
    }
}

/// Whether looking names up stops after so many of them: no server was to be asked before the last
/// of them, and one is to be asked for the last exactly where this says so.
pub open spec fn stops_at(
    server: LockedServerState,
    state: QueryStateView,
    name: Seq<Seq<u8>>,
    count: nat,
    asks: bool,
) -> bool {
    &&& forall|k: nat| k + 1 < count ==> !#[trigger] plain_asks(server, state, name, k)
    &&& asks <==> count > 0 && plain_asks(server, state, name, (count - 1) as nat)
}

/// Taking note of answers keeps what is known of the name of the query.
proof fn lemma_marked_known(state: QueryStateView, records: Seq<rr::RecordView>)
    requires
        own_known(state),
    ensures
        own_known(all_marked(state, records)),
    decreases records.len(),
{
    lemma_marked_keeps(state, records);
    if records.len() > 0 {
        let before = all_marked(state, records.drop_last());
        let record = records.last();
        lemma_marked_keeps(state, records.drop_last());
        lemma_marked_known(state, records.drop_last());
        lemma_noted_known(
            state.query.name,
            before.seen,
            before.unknowns,
            record.name,
            match record.data {
                Some(RDataView::Cname(target)) if state.recursion_desired => Some(target),
                _ => None,
            },
        );
    }
}

/// Looking a name up keeps what was asked for, and what is known of its name.
proof fn lemma_looked_up_plain_keeps(
    set: RecordSetView,
    config: ZoneConfigView,
    state: QueryStateView,
    name: Seq<Seq<u8>>,
)
    ensures
        looked_up_plain(set, config, state, name).query == state.query,
        looked_up_plain(set, config, state, name).recursion_desired == state.recursion_desired,
        own_known(state) ==> own_known(looked_up_plain(set, config, state, name)),
{
    lemma_marked_keeps(state, local_answers(set, config, state, name));
    if own_known(state) {
        lemma_marked_known(state, local_answers(set, config, state, name));
    }
}

/// Whether two servers have the same records and zones.
pub open spec fn same_server(a: LockedServerState, b: LockedServerState) -> bool {
    &&& a.records@ == b.records@
    &&& a.zones.defaults() == b.zones.defaults()
    &&& a.zones.zones() == b.zones.zones()
}

/// The same records and zones lead through the same states.
proof fn lemma_same_steps(
    a: LockedServerState,
    b: LockedServerState,
    state: QueryStateView,
    name: Seq<Seq<u8>>,
    count: nat,
)
    requires
        same_server(a, b),
    ensures
        plain_steps(a, state, name, count) == plain_steps(b, state, name, count),
        plain_asks(a, state, name, count) == plain_asks(b, state, name, count),
    decreases count,
{
    if count > 0 {
        lemma_same_steps(a, b, state, name, (count - 1) as nat);
    }
}

/// Where no name remains, nothing changes any more, and nobody is asked.
proof fn lemma_steps_rest(
    server: LockedServerState,
    state: QueryStateView,
    name: Seq<Seq<u8>>,
    count: nat,
    later: nat,
)
    requires
        plain_steps(server, state, name, count).0.unknowns.len() == 0,
        count <= later,
    ensures
        plain_steps(server, state, name, later) == plain_steps(server, state, name, count),
        !plain_asks(server, state, name, later),
    decreases later,
{
    if count < later {
        lemma_steps_rest(server, state, name, count, (later - 1) as nat);
    }
}

/// The same query on the same records and zones is answered in the same way, up to the first
/// question for another server or to the end, whatever was asked before.
pub proof fn law_same_query_same_answer(
    a: LockedServerState,
    b: LockedServerState,
    query: QueryView,
    recursion_desired: bool,
    first: (QueryStateView, Seq<Seq<u8>>, Option<Question>),
    second: (QueryStateView, Seq<Seq<u8>>, Option<Question>),
)
    requires
        same_server(a, b),
        performs(a, fresh(query, recursion_desired), query.name, first.0, first.1, first.2),
        performs(b, fresh(query, recursion_desired), query.name, second.0, second.1, second.2),
    ensures
        first.0 == second.0,
        first.1 == second.1,
        first.2 is Some <==> second.2 is Some,
        first.2 is Some ==> first.2->0.upstream == second.2->0.upstream && first.2->0.query@
            == second.2->0.query@,
{
    let state = fresh(query, recursion_desired);
    let name = query.name;
    let m = choose|count: nat|
        (first.0, first.1) == #[trigger] plain_steps(a, state, name, count) && stops_at(
            a,
            state,
            name,
            count,
            first.2 is Some,
        );
    let n = choose|count: nat|
        (second.0, second.1) == #[trigger] plain_steps(b, state, name, count) && stops_at(
            b,
            state,
            name,
            count,
            second.2 is Some,
        );
    lemma_same_steps(a, b, state, name, m);
    lemma_same_steps(a, b, state, name, n);
    if m > 0 {
        lemma_same_steps(a, b, state, name, (m - 1) as nat);
    }
    if n > 0 {
        lemma_same_steps(a, b, state, name, (n - 1) as nat);
    }
    if first.2 is None {
        if m <= n {
            lemma_steps_rest(a, state, name, m, n);
        }
        if m < n {
            lemma_steps_rest(a, state, name, m, (n - 1) as nat);
        }
    }
    if second.2 is None {
        if n <= m {
            lemma_steps_rest(b, state, name, n, m);
        }
        if n < m {
            lemma_steps_rest(b, state, name, n, (m - 1) as nat);
        }
    }
    if first.2 is Some && m < n {
        assert(!plain_asks(b, state, name, (m - 1) as nat));
    }
    if second.2 is Some && n < m {
        assert(!plain_asks(a, state, name, (n - 1) as nat));
    }
}

/// Whether no zone has a server to ask.
pub open spec fn asks_nobody(server: LockedServerState) -> bool {
    &&& server.zones.defaults().upstream is None
    &&& forall|i: int|
        0 <= i < server.zones.zones().len() ==> (
        #[trigger] server.zones.zones()[i]).1.config.upstream is None
}

/// Zones that have no server to ask give none for any name.
proof fn lemma_no_upstreams(
    defaults: DefaultZoneConfig,
    zones: Seq<(Seq<Seq<u8>>, PartialZoneConfig)>,
    name: Seq<Seq<u8>>,
)
    requires
        defaults.upstream is None,
        forall|i: int|
            0 <= i < zones.len() ==> (#[trigger] zones[i]).1.config.upstream is None,
    ensures
        configured(defaults, zones, name).upstreams.len() == 0,
    decreases zones.len(),
{
    if zones.len() > 0 {
        let front = zones.drop_last();
        assert forall|i: int| 0 <= i < front.len() implies (
        #[trigger] front[i]).1.config.upstream is None by {
            assert(front[i] == zones[i]);
        }
        lemma_no_upstreams(defaults, front, name);
        assert(zones[zones.len() - 1] == zones.last());
    }
}

/// Where no zone has a server to ask, nobody is asked: a query is answered to its end.
pub proof fn law_without_upstreams_nobody_is_asked(
    server: LockedServerState,
    state: QueryStateView,
    name: Seq<Seq<u8>>,
    after: QueryStateView,
    last: Seq<Seq<u8>>,
    question: Option<Question>,
)
    requires
        asks_nobody(server),
        performs(server, state, name, after, last, question),
    ensures
        question is None,
        after.unknowns.len() == 0,
{
    lemma_no_upstreams(server.zones.defaults(), server.zones.zones(), last);
}

/// Where recursion is not desired, only records of the type that is asked for are sent.
pub proof fn law_aliases_need_recursion(
    records: Seq<record::RecordView>,
    ttl: u32,
    query_type: RecordType,
)
    ensures
        forall|i: int|
            0 <= i < sent_records(records, ttl, query_type, false).len() ==> (
            #[trigger] sent_records(records, ttl, query_type, false)[i]).record_type == query_type,
    decreases records.len(),
{
    if records.len() > 0 {
        let rest = sent_records(records.drop_last(), ttl, query_type, false);
        let all = sent_records(records, ttl, query_type, false);
        law_aliases_need_recursion(records.drop_last(), ttl, query_type);
        assert forall|i: int| 0 <= i < all.len() implies (#[trigger] all[i]).record_type
            == query_type by {
            if i < rest.len() {
                assert(all[i] == rest[i]);
            }
        }
    }
}

/// A name that has records exists, whatever another server says.
pub proof fn law_named_records_exist(
    set: RecordSetView,
    config: ZoneConfigView,
    state: QueryStateView,
    message: MessageView,
)
    requires
        named(set, state.query.name),
    ensures
        replied_plain(set, config, state, state.query.name, message).response_code
            != ResponseCode::NXDomain,
{
}

/// The answer that a record is to a query: it is sent whole where it is of the type that is asked for,
/// and where it is an alias and recursion is desired.
pub open spec fn plain_answer(
    record: record::RecordView,
    ttl: u32,
    query_type: RecordType,
    recursion_desired: bool,
) -> Option<rr::RecordView> {
    let record_type = match record.rdata {
        RDataView::A(_) => RecordType::A,
        RDataView::Aaaa(_) => RecordType::Aaaa,
        RDataView::Cname(_) => RecordType::Cname,
        RDataView::Aname(_) => RecordType::Aname,
        RDataView::Ptr(_) => RecordType::Ptr,
        RDataView::Ns(_) => RecordType::Ns,
        RDataView::Soa(_) => RecordType::Soa,
        RDataView::Other(code, _) => RecordType::Other(code),
    };
    if record_type == query_type || recursion_desired && record_type == RecordType::Cname {
        Some(
            rr::RecordView {
                name: record.name,
                record_type,
                class: DnsClass::In,
                ttl: match record.ttl {
                    Some(own) => own,
                    None => ttl,
                },
                data: Some(record.rdata),
            },
        )
    } else {
        None
    }
}

/// The records that are sent are the answers that the records are, in their order.
proof fn lemma_sent_answers(
    records: Seq<record::RecordView>,
    ttl: u32,
    query_type: RecordType,
    recursion_desired: bool,
)
    ensures
        sent_records(records, ttl, query_type, recursion_desired) == records.filter_map(
            |record: record::RecordView| plain_answer(record, ttl, query_type, recursion_desired),
        ),
    decreases records.len(),
{
    reveal(Seq::filter_map);
    if records.len() > 0 {
        lemma_sent_answers(records.drop_last(), ttl, query_type, recursion_desired);
    }
}

/// A name that is looked up adds to the answers what the records under it are, in their order. Where
/// there is such an answer, there is no error for the name of the query, which has the authority of its
/// zone, and a name that did not exist exists. Nothing else of the answer changes, and without such
/// an answer nothing does.
pub proof fn law_plain_lookups_decide(
    set: RecordSetView,
    config: ZoneConfigView,
    state: QueryStateView,
    name: Seq<Seq<u8>>,
)
    ensures
        ({
            let records = found(set, name, state.query.query_class, state.query.query_type);
            let given = records.filter_map(
                |record: record::RecordView|
                    plain_answer(
                        record,
                        config.ttl,
                        state.query.query_type,
                        state.recursion_desired,
                    ),
            );
            let own = fold(name) == fold(state.query.name);
            let after = looked_up_plain(set, config, state, name);
            &&& after.answers == state.answers + given
            &&& given.len() == 0 ==> after == state
            &&& after.response_code == if given.len() > 0 && (own || state.response_code
                == ResponseCode::NXDomain) {
                ResponseCode::NoError
            } else {
                state.response_code
            }
            &&& after.soa == if given.len() > 0 && own {
                soa_of(config)
            } else {
                state.soa
            }
            &&& after.recursion_available == state.recursion_available
            &&& after.additionals == state.additionals
            &&& after.name_servers == state.name_servers
            &&& after.query == state.query
            &&& after.recursion_desired == state.recursion_desired
        }),
{
    let records = found(set, name, state.query.query_class, state.query.query_type);
    lemma_sent_answers(records, config.ttl, state.query.query_type, state.recursion_desired);
    let given = local_answers(set, config, state, name);
    lemma_marked_keeps(state, given);
    if given.len() == 0 {
        assert(state.answers + given =~= state.answers);
    }
}

/// The reply of another server adds its answers and its additional records. For the name of the query
/// its response code and whether recursion is available are passed on, though a name that has records
/// exists; its name servers are added, and the authority is that of the zone, or else that of the
/// reply. For another name an answer shows that the name of the query exists.
pub proof fn law_plain_replies_are_passed_on(
    set: RecordSetView,
    config: ZoneConfigView,
    state: QueryStateView,
    name: Seq<Seq<u8>>,
    message: MessageView,
)
    ensures
        ({
            let after = replied_plain(set, config, state, name, message);
            let own = fold(name) == fold(state.query.name);
            let known = exists|i: int|
                0 <= i < set.records.len() && fold((#[trigger] set.records[i]).name) == fold(name);
            &&& after.answers == state.answers + message.answers
            &&& after.additionals == state.additionals + message.additionals
            &&& after.query == state.query
            &&& own ==> {
                &&& after.recursion_available == message.recursion_available
                &&& after.response_code == if message.response_code == ResponseCode::NXDomain
                    && known {
                    ResponseCode::NoError
                } else {
                    message.response_code
                }
                &&& after.name_servers == state.name_servers + message.name_servers.filter(
                    |record: rr::RecordView| record.record_type != RecordType::Soa,
                )
                &&& soa_of(config) is Some ==> after.soa == soa_of(config)
                &&& soa_of(config) is None ==> match after.soa {
                    Some(soa) => exists|i: int|
                        0 <= i < message.name_servers.len() && #[trigger] message.name_servers[i]
                            == soa && soa.record_type == RecordType::Soa && forall|j: int|
                            i < j < message.name_servers.len() ==> (
                            #[trigger] message.name_servers[j]).record_type != RecordType::Soa,
                    None => forall|i: int|
                        0 <= i < message.name_servers.len() ==> (
                        #[trigger] message.name_servers[i]).record_type != RecordType::Soa,
                }
            }
            &&& !own ==> {
                &&& after.recursion_available == state.recursion_available
                &&& after.response_code == if message.answers.len() > 0 && state.response_code
                    == ResponseCode::NXDomain {
                    ResponseCode::NoError
                } else {
                    state.response_code
                }
                &&& after.name_servers == state.name_servers
                &&& after.soa == state.soa
            }
        }),
{
    lemma_soa_parts(message.name_servers);
    lemma_marked_keeps(state, message.answers);
}

/// After answers were added, exactly these names remain to be looked up: those that did and have no
/// answers now, and, where recursion is desired, those that an answer leads to, that were not seen and
/// have no answers. Seen are those that were, those that have answers, and those that are followed.
pub proof fn law_plain_answers_decide_what_remains(
    state: QueryStateView,
    records: Seq<rr::RecordView>,
    name: Seq<Seq<u8>>,
)
    ensures
        ({
            let after = answered(state, records);
            let led = state.recursion_desired && aliased(records, name);
            &&& listed(after.unknowns, name) <==> !owned(records, name) && (listed(
                state.unknowns,
                name,
            ) || led && !listed(state.seen, name))
            &&& listed(after.seen, name) <==> listed(state.seen, name) || owned(records, name)
                || led
        }),
    decreases records.len(),
{
    if records.len() > 0 {
        let front = records.drop_last();
        let record = records.last();
        law_plain_answers_decide_what_remains(state, front, name);
        lemma_marked_keeps(state, front);
        let before = all_marked(state, front);
        let seen = with_name(before.seen, record.name);
        let unknowns = without_name(before.unknowns, record.name);
        lemma_with_name(before.seen, record.name, name);
        lemma_without_name(before.unknowns, record.name, name);
        if let Some(RDataView::Cname(target)) = record.data {
            lemma_with_name(seen, target, name);
            lemma_with_name(unknowns, target, name);
            if fold(name) == fold(target) {
                lemma_listed_folds(seen, name, target);
            }
        }
        lemma_owned_last(records, name);
        lemma_aliased_last(records, name);
    }
}

} // verus!
