//! What holds of the answers to queries, from the records that are known and from the replies of
//! other servers.

use vstd::prelude::*;
use crate::config::zones::{soa_of, ZoneConfigView};
use crate::dns::chain::resolution;
use crate::dns::names::{lemma_with_name, listed, with_name, without_name};
use crate::dns::query::{
    alias_place, aliased, all_noted, for_targets, fresh, law_answers_decide_the_response_code,
    law_answers_decide_what_remains, lemma_listed_folds, lemma_noted_keeps, owned, unseen_targets,
    with_alias, QueryStateView, QueryView,
};
use crate::dns::record;
use crate::dns::resolver::{
    alias_answers, at_start, last_soa, looked_up, replied, socket_addresses, taken, to_ask,
    typed_records, without_soa, LockedServerState, MessageView, ResolverView,
};
use crate::dns::rr;
use crate::dns::rr::{type_of, DnsClass, RDataView, RecordType, ResponseCode};
use crate::dns::set::{found, under, RecordSetView};
use crate::ip::{IpAddr, SocketAddr};
use crate::name::fold;

verus! {

/// The answer that a record under a name is to a query, if it is one: as it is where it is of the
/// type that is asked for, an alias always, and a local alias in the shape of an alias where these
/// are followed directly. A record without a lifetime has that of its zone.
pub open spec fn answer_of(
    record: record::RecordView,
    name: Seq<Seq<u8>>,
    ttl: u32,
    query_type: RecordType,
    resolve_aliases: bool,
) -> Option<rr::RecordView> {
    let lifetime = match record.ttl {
        Some(ttl) => ttl,
        None => ttl,
    };
    match record.rdata {
        RDataView::Cname(_) => Some(
            rr::RecordView {
                name: record.name,
                record_type: RecordType::Cname,
                class: DnsClass::In,
                ttl: lifetime,
                data: Some(record.rdata),
            },
        ),
        RDataView::Aname(target) => if query_type == RecordType::Aname {
            Some(
                rr::RecordView {
                    name: record.name,
                    record_type: RecordType::Aname,
                    class: DnsClass::In,
                    ttl: lifetime,
                    data: Some(record.rdata),
                },
            )
        } else if resolve_aliases && (query_type == RecordType::A || query_type
            == RecordType::Aaaa) {
            Some(
                rr::RecordView {
                    name,
                    record_type: RecordType::Cname,
                    class: DnsClass::In,
                    ttl: lifetime,
                    data: Some(RDataView::Cname(target)),
                },
            )
        } else {
            None
        },
        RDataView::A(_) => typed_answer(record, RecordType::A, lifetime, query_type),
        RDataView::Aaaa(_) => typed_answer(record, RecordType::Aaaa, lifetime, query_type),
        RDataView::Ptr(_) => typed_answer(record, RecordType::Ptr, lifetime, query_type),
        RDataView::Ns(_) => typed_answer(record, RecordType::Ns, lifetime, query_type),
        RDataView::Soa(_) => typed_answer(record, RecordType::Soa, lifetime, query_type),
        RDataView::Other(code, _) => typed_answer(
            record,
            RecordType::Other(code),
            lifetime,
            query_type,
        ),
    }
}

/// The answer that a record of a type is where that type is asked for.
pub open spec fn typed_answer(
    record: record::RecordView,
    record_type: RecordType,
    ttl: u32,
    query_type: RecordType,
) -> Option<rr::RecordView> {
    if record_type == query_type {
        Some(
            rr::RecordView {
                name: record.name,
                record_type,
                class: DnsClass::In,
                ttl,
                data: Some(record.rdata),
            },
        )
    } else {
        None
    }
}

/// Whether a record shows that its name exists: it holds an address, or is of the type that is asked
/// for.
pub open spec fn shows_name(record: record::RecordView, query_type: RecordType) -> bool {
    match record.rdata {
        RDataView::A(_) => true,
        RDataView::Aaaa(_) => true,
        RDataView::Cname(_) => query_type == RecordType::Cname,
        RDataView::Aname(_) => query_type == RecordType::Aname,
        RDataView::Ptr(_) => query_type == RecordType::Ptr,
        RDataView::Ns(_) => query_type == RecordType::Ns,
        RDataView::Soa(_) => query_type == RecordType::Soa,
        RDataView::Other(code, _) => query_type == RecordType::Other(code),
    }
}

/// Whether one of some records shows that its name exists.
pub open spec fn some_shows(records: Seq<record::RecordView>, query_type: RecordType) -> bool {
    exists|i: int| 0 <= i < records.len() && shows_name(#[trigger] records[i], query_type)
}

/// The answers that records under a name are to a query.
pub open spec fn answers_of(
    records: Seq<record::RecordView>,
    name: Seq<Seq<u8>>,
    ttl: u32,
    query_type: RecordType,
    resolve_aliases: bool,
) -> Seq<rr::RecordView> {
    records.filter_map(
        |record: record::RecordView| answer_of(record, name, ttl, query_type, resolve_aliases),
    )
}

/// What is known of a name are all records that have it, whatever their type, in the order in which
/// they came; of the name of an address, where that is asked for, it is the record that leads back.
pub proof fn law_all_records_are_found(
    set: RecordSetView,
    name: Seq<Seq<u8>>,
    class: DnsClass,
    query_type: RecordType,
)
    ensures
        class == DnsClass::In && query_type != RecordType::Ptr ==> found(
            set,
            name,
            class,
            query_type,
        ) == set.records.filter(|record: record::RecordView| fold(record.name) == fold(name)),
        class != DnsClass::In ==> found(set, name, class, query_type).len() == 0,
{
    lemma_under_filter(set.records, name);
}

/// The records under a name are those that have it.
proof fn lemma_under_filter(records: Seq<record::RecordView>, name: Seq<Seq<u8>>)
    ensures
        under(records, name) == records.filter(
            |record: record::RecordView| fold(record.name) == fold(name),
        ),
    decreases records.len(),
{
    reveal(Seq::filter);
    if records.len() > 0 {
        lemma_under_filter(records.drop_last(), name);
    } else {
        assert(under(records, name) =~= records);
    }
}

/// What records under a name make of a query.
proof fn lemma_taken(
    state: QueryStateView,
    ttl: u32,
    name: Seq<Seq<u8>>,
    records: Seq<record::RecordView>,
)
    ensures
        taken(state, ttl, name, records).records == answers_of(
            records,
            name,
            ttl,
            state.query.query_type,
            state.resolve_aliases,
        ),
        taken(state, ttl, name, records).response_code == if some_shows(
            records,
            state.query.query_type,
        ) {
            ResponseCode::NoError
        } else {
            state.response_code
        },
    decreases records.len(),
{
    let query_type = state.query.query_type;
    reveal(Seq::filter_map);
    if records.len() > 0 {
        let front = records.drop_last();
        let last = records.last();
        lemma_taken(state, ttl, name, front);
        assert(records[records.len() - 1] == last);
        let all = answers_of(records, name, ttl, query_type, state.resolve_aliases);
        let fewer = answers_of(front, name, ttl, query_type, state.resolve_aliases);
        match answer_of(last, name, ttl, query_type, state.resolve_aliases) {
            Some(answer) => {
                assert(all =~= fewer.push(answer));
            },
            None => {
                assert(all =~= fewer);
            },
        }
        if some_shows(front, query_type) {
            let i = choose|i: int|
                0 <= i < front.len() && shows_name(#[trigger] front[i], query_type);
            assert(records[i] == front[i]);
        }
        if some_shows(records, query_type) {
            let i = choose|i: int|
                0 <= i < records.len() && shows_name(#[trigger] records[i], query_type);
            if i < front.len() {
                assert(front[i] == records[i]);
            }
        }
    } else {
        assert(taken(state, ttl, name, records).records =~= answers_of(
            records,
            name,
            ttl,
            query_type,
            state.resolve_aliases,
        ));
    }
}

/// An answer of the type that is asked for comes from a record that shows that its name exists.
proof fn lemma_answer_shows(
    records: Seq<record::RecordView>,
    name: Seq<Seq<u8>>,
    ttl: u32,
    query_type: RecordType,
    resolve_aliases: bool,
    i: int,
)
    requires
        0 <= i < answers_of(records, name, ttl, query_type, resolve_aliases).len(),
    ensures
        exists|k: int|
            0 <= k < records.len() && answer_of(
                #[trigger] records[k],
                name,
                ttl,
                query_type,
                resolve_aliases,
            ) == Some(answers_of(records, name, ttl, query_type, resolve_aliases)[i]),
    decreases records.len(),
{
    reveal(Seq::filter_map);
    if records.len() > 0 {
        let front = records.drop_last();
        let fewer = answers_of(front, name, ttl, query_type, resolve_aliases);
        let all = answers_of(records, name, ttl, query_type, resolve_aliases);
        assert(records[records.len() - 1] == records.last());
        if i < fewer.len() {
            lemma_answer_shows(front, name, ttl, query_type, resolve_aliases, i);
            let k = choose|k: int|
                0 <= k < front.len() && answer_of(
                    #[trigger] front[k],
                    name,
                    ttl,
                    query_type,
                    resolve_aliases,
                ) == Some(fewer[i]);
            assert(records[k] == front[k]);
            assert(all[i] == fewer[i]);
        }
    }
}

/// A name that is looked up decides these things of a query, and no others. The answers are those
/// that the records under the name are, added in their order. There is no error from then on where one
/// of the records holds an address or is of the type that is asked for, whether or not it is sent.
/// For the name of the query itself recursion is available where its zone has servers to ask, and the
/// authority is that of its zone where there are answers.
pub proof fn law_lookups_decide(
    set: RecordSetView,
    config: ZoneConfigView,
    state: QueryStateView,
    name: Seq<Seq<u8>>,
)
    ensures
        ({
            let query_type = state.query.query_type;
            let records = found(set, name, state.query.query_class, query_type);
            let given = answers_of(records, name, config.ttl, query_type, state.resolve_aliases);
            let own = fold(name) == fold(state.query.name);
            let after = looked_up(set, config, state, name);
            &&& after.answers == state.answers + given
            &&& after.response_code == if exists|i: int|
                0 <= i < records.len() && shows_name(#[trigger] records[i], query_type) {
                ResponseCode::NoError
            } else {
                state.response_code
            }
            &&& after.recursion_available == (state.recursion_available || own
                && config.upstreams.len() > 0)
            &&& after.soa == if own && given.len() > 0 {
                soa_of(config)
            } else {
                state.soa
            }
            &&& after.additionals == state.additionals
            &&& after.name_servers == state.name_servers
            &&& after.query == state.query
            &&& after.recursion_desired == state.recursion_desired
            &&& after.resolve_aliases == state.resolve_aliases
        }),
{
    let query_type = state.query.query_type;
    let records = found(set, name, state.query.query_class, query_type);
    let given = answers_of(records, name, config.ttl, query_type, state.resolve_aliases);
    lemma_taken(state, config.ttl, name, records);
    let result = taken(state, config.ttl, name, records);
    let noted = QueryStateView {
        response_code: result.response_code,
        aliases: result.aliases,
        recursion_available: state.recursion_available || (config.upstreams.len() > 0 && fold(name)
            == fold(state.query.name)),
        ..state
    };
    lemma_noted_keeps(noted, given);
    law_answers_decide_the_response_code(noted, given);
    if given.len() == 0 {
        assert(state.answers + given =~= state.answers);
    }
    if exists|i: int| 0 <= i < given.len() && (#[trigger] given[i]).record_type == query_type {
        let i = choose|i: int| 0 <= i < given.len() && (#[trigger] given[i]).record_type == query_type;
        lemma_answer_shows(records, name, config.ttl, query_type, state.resolve_aliases, i);
        let k = choose|k: int|
            0 <= k < records.len() && answer_of(
                #[trigger] records[k],
                name,
                config.ttl,
                query_type,
                state.resolve_aliases,
            ) == Some(given[i]);
        assert(shows_name(records[k], query_type));
    }
}

/// The servers of its zone are asked for a name, all of them in their order, exactly where recursion
/// is desired and nothing is known of the name.
pub proof fn law_unknown_names_are_asked(
    set: RecordSetView,
    config: ZoneConfigView,
    state: QueryStateView,
    name: Seq<Seq<u8>>,
)
    ensures
        found(set, name, state.query.query_class, state.query.query_type).len() == 0
            && state.recursion_desired ==> to_ask(set, config, state, name) == config.upstreams,
        found(set, name, state.query.query_class, state.query.query_type).len() > 0
            || !state.recursion_desired ==> to_ask(set, config, state, name).len() == 0,
{
}

/// The last start of authority of a reply, and its other name servers.
pub proof fn lemma_soa_parts(records: Seq<rr::RecordView>)
    ensures
        without_soa(records) == records.filter(
            |record: rr::RecordView| record.record_type != RecordType::Soa,
        ),
        match last_soa(records) {
            Some(soa) => exists|i: int|
                0 <= i < records.len() && #[trigger] records[i] == soa && soa.record_type
                    == RecordType::Soa && forall|j: int|
                    i < j < records.len() ==> (#[trigger] records[j]).record_type
                        != RecordType::Soa,
            None => forall|i: int|
                0 <= i < records.len() ==> (#[trigger] records[i]).record_type != RecordType::Soa,
        },
    decreases records.len(),
{
    reveal(Seq::filter);
    if records.len() > 0 {
        let front = records.drop_last();
        lemma_soa_parts(front);
        assert(records[records.len() - 1] == records.last());
        if records.last().record_type != RecordType::Soa {
            match last_soa(front) {
                Some(soa) => {
                    let i = choose|i: int|
                        0 <= i < front.len() && #[trigger] front[i] == soa && soa.record_type
                            == RecordType::Soa && forall|j: int|
                            i < j < front.len() ==> (#[trigger] front[j]).record_type
                                != RecordType::Soa;
                    assert(records[i] == soa);
                    assert forall|j: int| i < j < records.len() implies (
                    #[trigger] records[j]).record_type != RecordType::Soa by {
                        if j < front.len() {
                            assert(records[j] == front[j]);
                        }
                    }
                },
                None => {
                    assert forall|i: int| 0 <= i < records.len() implies (
                    #[trigger] records[i]).record_type != RecordType::Soa by {
                        if i < front.len() {
                            assert(records[i] == front[i]);
                        }
                    }
                },
            }
        }
    } else {
        assert(without_soa(records) =~= records);
    }
}

/// The reply of another server to the question for the name of the query is passed on: the response
/// code and whether recursion is available are those of the reply, whatever records it holds. Its
/// answers, its additional records and its name servers are added to those that are there, and the
/// authority is the last that it holds.
pub proof fn law_replies_are_passed_on(
    state: QueryStateView,
    name: Seq<Seq<u8>>,
    message: MessageView,
)
    requires
        fold(name) == fold(state.query.name),
    ensures
        ({
            let after = replied(state, name, message);
            &&& after.response_code == message.response_code
            &&& after.recursion_available == message.recursion_available
            &&& after.answers == state.answers + message.answers
            &&& after.additionals == state.additionals + message.additionals
            &&& after.name_servers == state.name_servers + message.name_servers.filter(
                |record: rr::RecordView| record.record_type != RecordType::Soa,
            )
            &&& match after.soa {
                Some(soa) => exists|i: int|
                    0 <= i < message.name_servers.len() && #[trigger] message.name_servers[i] == soa
                        && soa.record_type == RecordType::Soa && forall|j: int|
                        i < j < message.name_servers.len() ==> (
                        #[trigger] message.name_servers[j]).record_type != RecordType::Soa,
                None => forall|i: int|
                    0 <= i < message.name_servers.len() ==> (
                    #[trigger] message.name_servers[i]).record_type != RecordType::Soa,
            }
            &&& after.aliases == state.aliases
        }),
{
    lemma_soa_parts(message.name_servers);
    lemma_noted_keeps(state, message.answers);
}

/// The reply of another server to the question for a name that the query led to adds its answers and
/// its additional records. There is no error from then on where one of the answers is of the type
/// that is asked for; nothing else of the answer changes.
pub proof fn law_replies_for_other_names_add(
    state: QueryStateView,
    name: Seq<Seq<u8>>,
    message: MessageView,
)
    requires
        fold(name) != fold(state.query.name),
    ensures
        ({
            let after = replied(state, name, message);
            &&& after.response_code == if exists|i: int|
                0 <= i < message.answers.len() && (#[trigger] message.answers[i]).record_type
                    == state.query.query_type {
                ResponseCode::NoError
            } else {
                state.response_code
            }
            &&& after.recursion_available == state.recursion_available
            &&& after.answers == state.answers + message.answers
            &&& after.additionals == state.additionals + message.additionals
            &&& after.name_servers == state.name_servers
            &&& after.soa == state.soa
            &&& after.aliases == state.aliases
        }),
{
    lemma_noted_keeps(state, message.answers);
    law_answers_decide_the_response_code(state, message.answers);
}

/// Whether states follow each other in the course of a query: each is a step after the one before, or
/// follows it when the server that was asked has replied, or has not.
pub open spec fn course_of(
    server: LockedServerState,
    query: QueryView,
    recursion_desired: bool,
    states: Seq<ResolverView>,
) -> bool {
    &&& states.len() > 0
    &&& states[0].state == fresh(query, recursion_desired)
    &&& states[0].targets is None
    &&& states[0].upstreams.len() == 0
    &&& forall|i: int|
        0 <= i < states.len() - 1 ==> follows(server, #[trigger] states[i], states[i + 1])
}

/// Whether a state follows another in the course of a query.
pub open spec fn follows(
    server: LockedServerState,
    before: ResolverView,
    after: ResolverView,
) -> bool {
    after == before.step(server) || before.waits() && exists|message: Option<MessageView>|
        after == #[trigger] before.after_reply(message)
}

/// Whether another server is being asked for the name of the query itself.
pub open spec fn asks_for_own(state: ResolverView) -> bool {
    state.waits() && fold(state.name) == fold(state.state.query.name)
}

/// Whether a name is looked up in a state.
pub open spec fn looks_up(state: ResolverView, name: Seq<Seq<u8>>) -> bool {
    &&& !state.waits()
    &&& match state.targets {
        Some(targets) => targets.unknowns.len() > 0 && targets.unknowns[0] == name
            && targets.query == state.state.query,
        None => state.state.unknowns.len() > 0 && state.state.unknowns[0] == name,
    }
}

/// Whether it is settled that the name of a query exists: in its own state, or in that of the targets
/// of its aliases.
pub open spec fn settled(state: ResolverView) -> bool {
    ||| state.state.response_code == ResponseCode::NoError
    ||| state.state.response_code == ResponseCode::NXDomain && (
    state.targets matches Some(targets) && targets.response_code == ResponseCode::NoError)
}

/// What one more state of a query keeps, where no server is asked for its own name.
proof fn lemma_follows(server: LockedServerState, before: ResolverView, after: ResolverView)
    requires
        follows(server, before, after),
        !asks_for_own(before),
        before.state.response_code == ResponseCode::NoError || before.state.response_code
            == ResponseCode::NXDomain,
        before.targets matches Some(targets) ==> targets.query == before.state.query,
    ensures
        after.state.query == before.state.query,
        after.state.response_code == ResponseCode::NoError || after.state.response_code
            == ResponseCode::NXDomain,
        after.targets matches Some(targets) ==> targets.query == after.state.query,
        settled(before) ==> settled(after),
{
    let active = before.active();
    if after == before.step(server) {
        if !before.waits() && !before.exhausted() && active.unknowns.len() > 0 {
            let name = active.unknowns[0];
            let rest = QueryStateView { unknowns: active.unknowns.drop_first(), ..active };
            law_lookups_decide(server.records@, server.config(name), rest, name);
        }
    } else {
        let message = choose|message: Option<MessageView>|
            after == #[trigger] before.after_reply(message);
        if let Some(message) = message {
            lemma_noted_keeps(active, message.answers);
            law_replies_for_other_names_add(active, before.name, message);
        }
    }
}

/// What every state in the course of a query keeps, where no server is asked for its own name.
proof fn lemma_course(
    server: LockedServerState,
    query: QueryView,
    recursion_desired: bool,
    states: Seq<ResolverView>,
    at: int,
)
    requires
        course_of(server, query, recursion_desired, states),
        0 <= at < states.len(),
        forall|i: int| 0 <= i < at ==> !asks_for_own(#[trigger] states[i]),
    ensures
        states[at].state.query == query,
        states[at].state.response_code == ResponseCode::NoError || states[at].state.response_code
            == ResponseCode::NXDomain,
        states[at].targets matches Some(targets) ==> targets.query == query,
    decreases at,
{
    if at > 0 {
        lemma_course(server, query, recursion_desired, states, at - 1);
        assert(follows(server, states[at - 1], states[at]));
        assert(!asks_for_own(states[at - 1]));
        lemma_follows(server, states[at - 1], states[at]);
    }
}

/// What is settled stays settled.
proof fn lemma_stays_settled(
    server: LockedServerState,
    query: QueryView,
    recursion_desired: bool,
    states: Seq<ResolverView>,
    from: int,
    to: int,
)
    requires
        course_of(server, query, recursion_desired, states),
        0 <= from <= to < states.len(),
        forall|i: int| 0 <= i < to ==> !asks_for_own(#[trigger] states[i]),
        settled(states[from]),
    ensures
        settled(states[to]),
    decreases to - from,
{
    if from < to {
        lemma_stays_settled(server, query, recursion_desired, states, from, to - 1);
        lemma_course(server, query, recursion_desired, states, to - 1);
        assert(follows(server, states[to - 1], states[to]));
        assert(!asks_for_own(states[to - 1]));
        lemma_follows(server, states[to - 1], states[to]);
    }
}

/// Answering the aliases of a query leaves it without an error where it is settled that the name
/// exists.
proof fn lemma_settled_answer(server: LockedServerState, state: ResolverView)
    requires
        settled(state),
    ensures
        state.answer(server).response_code == ResponseCode::NoError,
{
    if let Some(targets) = state.targets {
        let before = QueryStateView {
            response_code: if state.state.response_code == ResponseCode::NXDomain {
                targets.response_code
            } else {
                state.state.response_code
            },
            ..state.state
        };
        law_answers_decide_the_response_code(
            before,
            alias_answers(
                server,
                state.state.aliases,
                targets.answers + targets.additionals,
                state.state.query.query_type,
            ),
        );
    }
}

/// A query that is answered without asking another server for its own name has no error at its end
/// where some name that was looked up for it, whatever aliases led there, has a record that holds an
/// address or is of the type that is asked for.
pub proof fn law_existing_targets_are_no_error(
    server: LockedServerState,
    query: QueryView,
    recursion_desired: bool,
    states: Seq<ResolverView>,
    at: int,
    name: Seq<Seq<u8>>,
    record: record::RecordView,
)
    requires
        course_of(server, query, recursion_desired, states),
        0 <= at < states.len() - 1,
        forall|i: int| 0 <= i < states.len() - 1 ==> !asks_for_own(#[trigger] states[i]),
        looks_up(states[at], name),
        found(server.records@, name, query.query_class, query.query_type).contains(record),
        shows_name(record, query.query_type),
    ensures
        states.last().answer(server).response_code == ResponseCode::NoError,
{
    let before = states[at];
    let after = states[at + 1];
    lemma_course(server, query, recursion_desired, states, at);
    assert(follows(server, before, after));
    let active = before.active();
    let rest = QueryStateView { unknowns: active.unknowns.drop_first(), ..active };
    assert(after == before.step(server));
    let records = found(server.records@, name, query.query_class, query.query_type);
    let k = choose|k: int| 0 <= k < records.len() && records[k] == record;
    assert(shows_name(records[k], query.query_type));
    law_lookups_decide(server.records@, server.config(name), rest, name);
    assert(after.active().response_code == ResponseCode::NoError);
    assert(settled(after));
    lemma_stays_settled(server, query, recursion_desired, states, at + 1, states.len() - 1);
    lemma_settled_answer(server, states.last());
}

/// Whether names lead from that of a query to another, each by the one record that is known of it, an
/// alias of the next, and none is there twice.
pub open spec fn is_chain(
    server: LockedServerState,
    query: QueryView,
    names: Seq<Seq<Seq<u8>>>,
    links: Seq<record::RecordView>,
) -> bool {
    &&& names.len() == links.len() + 1
    &&& names[0] == query.name
    &&& forall|i: int|
        0 <= i < links.len() ==> found(
            server.records@,
            #[trigger] names[i],
            query.query_class,
            query.query_type,
        ) == seq![links[i]]
    &&& forall|i: int|
        0 <= i < links.len() ==> (#[trigger] links[i]).rdata == RDataView::Cname(names[i + 1])
            && fold(links[i].name) == fold(names[i])
    &&& forall|i: int, j: int|
        0 <= i < j < names.len() ==> fold(#[trigger] names[i]) != fold(#[trigger] names[j])
}

/// The aliases of a chain as they are sent.
pub open spec fn chain_answers(
    server: LockedServerState,
    names: Seq<Seq<Seq<u8>>>,
    links: Seq<record::RecordView>,
) -> Seq<rr::RecordView> {
    Seq::new(
        links.len(),
        |i: int|
            rr::RecordView {
                name: links[i].name,
                record_type: RecordType::Cname,
                class: DnsClass::In,
                ttl: match links[i].ttl {
                    Some(ttl) => ttl,
                    None => server.config(names[i]).ttl,
                },
                data: Some(RDataView::Cname(names[i + 1])),
            },
    )
}

/// Where following a chain stands after some of its names.
spec fn chain_at(
    server: LockedServerState,
    query: QueryView,
    recursion_desired: bool,
    names: Seq<Seq<Seq<u8>>>,
    links: Seq<record::RecordView>,
    at: int,
) -> bool {
    let view = at_start(query, recursion_desired).steps(server, at as nat);
    let state = view.state;
    &&& view.targets is None
    &&& !view.waits()
    &&& state.query == query
    &&& state.recursion_desired == recursion_desired
    &&& !state.resolve_aliases
    &&& state.aliases.len() == 0
    &&& state.unknowns == seq![names[at]]
    &&& forall|j: int| 0 <= j <= at ==> listed(state.seen, #[trigger] names[j])
    &&& forall|j: int| at < j < names.len() ==> !listed(state.seen, #[trigger] names[j])
    &&& state.answers == chain_answers(server, names, links).take(at)
    &&& state.response_code == if at > 0 && query.query_type == RecordType::Cname {
        ResponseCode::NoError
    } else {
        ResponseCode::NXDomain
    }
}

/// Following one more alias of a chain.
proof fn lemma_chain_step(
    server: LockedServerState,
    query: QueryView,
    recursion_desired: bool,
    names: Seq<Seq<Seq<u8>>>,
    links: Seq<record::RecordView>,
    at: int,
)
    requires
        is_chain(server, query, names, links),
        0 <= at < links.len(),
        chain_at(server, query, recursion_desired, names, links, at),
    ensures
        chain_at(server, query, recursion_desired, names, links, at + 1),
{
    let start = at_start(query, recursion_desired);
    let view = start.steps(server, at as nat);
    let state = view.state;
    let name = names[at];
    let next = names[at + 1];
    let link = links[at];
    assert(start.steps(server, (at + 1) as nat) == view.step(server));
    let after = view.step(server).state;
    let config = server.config(name);
    let rest = QueryStateView { unknowns: state.unknowns.drop_first(), ..state };
    assert(rest.unknowns =~= Seq::empty());
    let records = found(server.records@, name, query.query_class, query.query_type);
    assert(records == seq![link]);
    reveal(Seq::filter_map);
    reveal_with_fuel(Seq::filter_map, 2);
    law_lookups_decide(server.records@, config, rest, name);
    lemma_taken(rest, config.ttl, name, records);
    let given = answers_of(records, name, config.ttl, query.query_type, false);
    let answer = answer_of(link, name, config.ttl, query.query_type, false)->0;
    assert(records.drop_last() =~= Seq::empty());
    assert(given =~= seq![answer]);
    assert(answer == chain_answers(server, names, links)[at]);
    assert(chain_answers(server, names, links).take(at + 1) =~= chain_answers(
        server,
        names,
        links,
    ).take(at).push(answer));
    assert(after.answers =~= state.answers + given);
    // What is seen and what remains.
    let result = taken(rest, config.ttl, name, records);
    lemma_one_taken(rest, config.ttl, name, link);
    let noted = QueryStateView {
        response_code: result.response_code,
        aliases: result.aliases,
        recursion_available: rest.recursion_available || (config.upstreams.len() > 0 && fold(name)
            == fold(query.name)),
        ..rest
    };
    assert(given.drop_last() =~= Seq::empty());
    assert(all_noted(noted, given.drop_last()) == noted);
    lemma_listed_same(noted.seen, answer.name, name);
    assert(with_name(noted.seen, answer.name) == noted.seen);
    assert(without_name(noted.unknowns, answer.name) =~= Seq::empty());
    assert(!listed(noted.seen, next));
    let nothing = Seq::<Seq<Seq<u8>>>::empty();
    assert(!listed(nothing, next));
    assert(after.unknowns =~= seq![next]);
    assert(after.seen =~= noted.seen.push(next));
    assert forall|j: int| 0 <= j <= at + 1 implies listed(after.seen, #[trigger] names[j]) by {
        if j <= at {
            assert(listed(state.seen, names[j]));
            let i = choose|i: int|
                0 <= i < state.seen.len() && fold(#[trigger] state.seen[i]) == fold(names[j]);
            assert(after.seen[i] == state.seen[i]);
        } else {
            assert(after.seen[state.seen.len() as int] == next);
        }
    }
    assert forall|j: int| at + 1 < j < names.len() implies !listed(
        after.seen,
        #[trigger] names[j],
    ) by {
        assert(!listed(state.seen, names[j]));
        assert(fold(names[at + 1]) != fold(names[j]));
        if listed(after.seen, names[j]) {
            let i = choose|i: int|
                0 <= i < after.seen.len() && fold(#[trigger] after.seen[i]) == fold(names[j]);
            if i < state.seen.len() {
                assert(state.seen[i] == after.seen[i]);
            }
        }
    }
    if exists|i: int| 0 <= i < records.len() && shows_name(#[trigger] records[i], query.query_type) {
        let i = choose|i: int|
            0 <= i < records.len() && shows_name(#[trigger] records[i], query.query_type);
        assert(records[i] == link);
    }
    if query.query_type == RecordType::Cname {
        assert(shows_name(records[0], query.query_type));
    }
    let v = view.step(server);
    assert(v.targets is None);
    assert(!v.waits());
    assert(after.query == query);
    assert(after.aliases.len() == 0);
    assert(after.unknowns == seq![names[at + 1]]);
    assert(after.answers == chain_answers(server, names, links).take(at + 1));
    assert(after.response_code == if query.query_type == RecordType::Cname {
        ResponseCode::NoError
    } else {
        ResponseCode::NXDomain
    });
    assert(start.steps(server, (at + 1) as nat) == v);
    assert(!after.resolve_aliases);
}

/// An alias alone makes no local aliases.
proof fn lemma_one_taken(
    state: QueryStateView,
    ttl: u32,
    name: Seq<Seq<u8>>,
    link: record::RecordView,
)
    requires
        link.rdata is Cname,
    ensures
        taken(state, ttl, name, seq![link]).aliases == state.aliases,
{
    assert(seq![link].drop_last() =~= Seq::empty());
    assert(seq![link].last() == link);
    assert(taken(state, ttl, name, seq![link].drop_last()).aliases == state.aliases);
}

/// Whether a name is listed does not depend on its case.
proof fn lemma_listed_same(names: Seq<Seq<Seq<u8>>>, a: Seq<Seq<u8>>, b: Seq<Seq<u8>>)
    requires
        fold(a) == fold(b),
    ensures
        listed(names, a) == listed(names, b),
{
    if listed(names, a) {
        let i = choose|i: int| 0 <= i < names.len() && fold(#[trigger] names[i]) == fold(a);
        assert(fold(names[i]) == fold(b));
    }
    if listed(names, b) {
        let i = choose|i: int| 0 <= i < names.len() && fold(#[trigger] names[i]) == fold(b);
        assert(fold(names[i]) == fold(a));
    }
}

/// Following a chain to some of its names.
proof fn lemma_chain(
    server: LockedServerState,
    query: QueryView,
    recursion_desired: bool,
    names: Seq<Seq<Seq<u8>>>,
    links: Seq<record::RecordView>,
    at: int,
)
    requires
        is_chain(server, query, names, links),
        0 <= at < names.len(),
    ensures
        chain_at(server, query, recursion_desired, names, links, at),
    decreases at,
{
    if at == 0 {
        let state = fresh(query, recursion_desired);
        assert(at_start(query, recursion_desired).steps(server, 0) == at_start(
            query,
            recursion_desired,
        ));
        assert(chain_answers(server, names, links).take(0) =~= Seq::empty());
        assert(fold(state.seen[0]) == fold(names[0]));
        assert forall|j: int| 0 < j < names.len() implies !listed(
            state.seen,
            #[trigger] names[j],
        ) by {
            assert(fold(names[0]) != fold(names[j]));
            if listed(state.seen, names[j]) {
                let i = choose|i: int|
                    0 <= i < state.seen.len() && fold(#[trigger] state.seen[i]) == fold(names[j]);
                assert(state.seen[i] == names[0]);
            }
        }
    } else {
        lemma_chain(server, query, recursion_desired, names, links, at - 1);
        lemma_chain_step(server, query, recursion_desired, names, links, at - 1);
    }
}

/// Whether none of some records is an alias.
pub open spec fn alias_free(records: Seq<record::RecordView>) -> bool {
    forall|i: int|
        0 <= i < records.len() ==> !((#[trigger] records[i]).rdata is Cname) && !(
        records[i].rdata is Aname)
}

/// Records that are no aliases lead nowhere, and make no local aliases.
proof fn lemma_no_aliases_taken(
    state: QueryStateView,
    ttl: u32,
    name: Seq<Seq<u8>>,
    records: Seq<record::RecordView>,
)
    requires
        alias_free(records),
    ensures
        taken(state, ttl, name, records).aliases == state.aliases,
        forall|i: int|
            0 <= i < taken(state, ttl, name, records).records.len() ==> !((#[trigger] taken(
                state,
                ttl,
                name,
                records,
            ).records[i]).data matches Some(RDataView::Cname(_))),
    decreases records.len(),
{
    if records.len() > 0 {
        let front = records.drop_last();
        assert(alias_free(front)) by {
            assert forall|i: int| 0 <= i < front.len() implies !((#[trigger] front[i]).rdata is Cname)
                && !(front[i].rdata is Aname) by {
                assert(front[i] == records[i]);
            }
        }
        lemma_no_aliases_taken(state, ttl, name, front);
        assert(records[records.len() - 1] == records.last());
        let all = taken(state, ttl, name, records).records;
        let fewer = taken(state, ttl, name, front).records;
        assert forall|i: int| 0 <= i < all.len() implies !((
        #[trigger] all[i]).data matches Some(RDataView::Cname(_))) by {
            if i < fewer.len() {
                assert(all[i] == fewer[i]);
            }
        }
    }
}

/// Answers that lead nowhere leave nothing to look up where nothing remained.
proof fn lemma_nothing_remains(state: QueryStateView, records: Seq<rr::RecordView>)
    requires
        state.unknowns.len() == 0,
        forall|i: int|
            0 <= i < records.len() ==> !((#[trigger] records[i]).data matches Some(
                RDataView::Cname(_),
            )),
    ensures
        all_noted(state, records).unknowns.len() == 0,
    decreases records.len(),
{
    if records.len() > 0 {
        let front = records.drop_last();
        assert forall|i: int| 0 <= i < front.len() implies !((
        #[trigger] front[i]).data matches Some(RDataView::Cname(_))) by {
            assert(front[i] == records[i]);
        }
        lemma_nothing_remains(state, front);
        assert(records[records.len() - 1] == records.last());
        let before = all_noted(state, front);
        assert(without_name(before.unknowns, records.last().name).len() == 0);
    }
}

/// A query whose name leads by aliases to another, or by none, is answered with exactly those aliases
/// and then the records of the last name that are of the type that is asked for, each in its order.
/// There is no error where the last name has an address or a record of that type, whether or not one
/// is sent; where it has neither, the name does not exist. Nobody is asked, unless nothing is known of
/// the last name.
pub proof fn law_chains_are_answered(
    server: LockedServerState,
    query: QueryView,
    recursion_desired: bool,
    names: Seq<Seq<Seq<u8>>>,
    links: Seq<record::RecordView>,
)
    requires
        is_chain(server, query, names, links),
        ({
            let records = found(
                server.records@,
                names.last(),
                query.query_class,
                query.query_type,
            );
            &&& alias_free(records)
            &&& records.len() > 0 || !recursion_desired || server.config(
                names.last(),
            ).upstreams.len() == 0
        }),
    ensures
        ({
            let end = at_start(query, recursion_desired).steps(server, names.len());
            let last = names.last();
            let records = found(server.records@, last, query.query_class, query.query_type);
            &&& end.exhausted()
            &&& end.targets is None
            &&& end.answer(server).answers == chain_answers(server, names, links) + answers_of(
                records,
                last,
                server.config(last).ttl,
                query.query_type,
                false,
            )
            &&& end.answer(server).response_code == if (exists|i: int|
                0 <= i < records.len() && shows_name(#[trigger] records[i], query.query_type))
                || links.len() > 0 && query.query_type == RecordType::Cname {
                ResponseCode::NoError
            } else {
                ResponseCode::NXDomain
            }
            &&& end.answer(server).additionals.len() == 0
            &&& end.answer(server).name_servers.len() == 0
        }),
{
    let start = at_start(query, recursion_desired);
    let at = links.len() as int;
    let last = names.last();
    lemma_chain(server, query, recursion_desired, names, links, at);
    let view = start.steps(server, at as nat);
    let state = view.state;
    assert(names.len() == at + 1);
    assert(start.steps(server, names.len()) == view.step(server));
    let config = server.config(last);
    let rest = QueryStateView { unknowns: state.unknowns.drop_first(), ..state };
    assert(rest.unknowns =~= Seq::empty());
    let records = found(server.records@, last, query.query_class, query.query_type);
    law_lookups_decide(server.records@, config, rest, last);
    lemma_taken(rest, config.ttl, last, records);
    lemma_no_aliases_taken(rest, config.ttl, last, records);
    let result = taken(rest, config.ttl, last, records);
    let noted = QueryStateView {
        response_code: result.response_code,
        aliases: result.aliases,
        recursion_available: rest.recursion_available || (config.upstreams.len() > 0 && fold(last)
            == fold(query.name)),
        ..rest
    };
    lemma_nothing_remains(noted, result.records);
    lemma_noted_keeps(noted, result.records);
    assert(chain_answers(server, names, links).take(at) =~= chain_answers(server, names, links));
    lemma_chain_parts(server, query, recursion_desired, at as nat);
}

/// In the first states of a query there are neither additional records nor name servers.
proof fn lemma_chain_parts(
    server: LockedServerState,
    query: QueryView,
    recursion_desired: bool,
    count: nat,
)
    ensures
        ({
            let view = at_start(query, recursion_desired).steps(server, count);
            &&& view.state.additionals.len() == 0
            &&& view.state.name_servers.len() == 0
        }),
    decreases count,
{
    if count > 0 {
        lemma_chain_parts(server, query, recursion_desired, (count - 1) as nat);
        let view = at_start(query, recursion_desired).steps(server, (count - 1) as nat);
        let active = view.active();
        if active.unknowns.len() > 0 {
            let name = active.unknowns[0];
            let rest = QueryStateView { unknowns: active.unknowns.drop_first(), ..active };
            law_lookups_decide(server.records@, server.config(name), rest, name);
        }
    }
}

/// A query for a name of which nothing is known, where recursion is desired, is asked of the servers
/// of its zone, all in their order. When one replies, the query has the response code of the reply,
/// its answers and its additional records, and nothing else; when none does, there is no such name.
pub proof fn law_unknown_queries_are_forwarded(
    server: LockedServerState,
    query: QueryView,
    message: MessageView,
)
    requires
        found(server.records@, query.name, query.query_class, query.query_type).len() == 0,
        server.config(query.name).upstreams.len() > 0,
    ensures
        ({
            let asked = at_start(query, true).steps(server, 1);
            let answered = asked.after_reply(Some(message)).answer(server);
            &&& asked.waits()
            &&& asked.upstreams == server.config(query.name).upstreams
            &&& asked.name == query.name
            &&& asked.active().query == query
            &&& answered.response_code == message.response_code
            &&& answered.recursion_available == message.recursion_available
            &&& answered.answers == message.answers
            &&& answered.additionals == message.additionals
            &&& asked.after_reply(None).answer(server).response_code == ResponseCode::NXDomain
            &&& asked.after_reply(None).answer(server).answers.len() == 0
        }),
{
    let start = at_start(query, true);
    let state = start.state;
    let rest = QueryStateView { unknowns: state.unknowns.drop_first(), ..state };
    let config = server.config(query.name);
    assert(start.steps(server, 1) == start.steps(server, 0).step(server));
    law_lookups_decide(server.records@, config, rest, query.name);
    law_unknown_names_are_asked(server.records@, config, rest, query.name);
    let asked = start.steps(server, 1);
    let records = found(server.records@, query.name, query.query_class, query.query_type);
    assert(records =~= Seq::empty());
    reveal(Seq::filter_map);
    assert(asked.state.answers =~= Seq::empty());
    law_replies_are_passed_on(asked.state, query.name, message);
    assert(asked.state.answers + message.answers =~= message.answers);
    assert(asked.state.additionals + message.additionals =~= message.additionals);
}

/// Once a name was looked up, exactly these names remain: those that did and have no answers now, and
/// those that an answer leads to, that were not seen and have no answers.
pub proof fn law_lookups_decide_what_remains(
    set: RecordSetView,
    config: ZoneConfigView,
    state: QueryStateView,
    name: Seq<Seq<u8>>,
    other: Seq<Seq<u8>>,
)
    ensures
        ({
            let records = found(set, name, state.query.query_class, state.query.query_type);
            let given = answers_of(
                records,
                name,
                config.ttl,
                state.query.query_type,
                state.resolve_aliases,
            );
            let after = looked_up(set, config, state, name);
            &&& listed(after.unknowns, other) <==> !owned(given, other) && (listed(
                state.unknowns,
                other,
            ) || aliased(given, other) && !listed(state.seen, other))
            &&& listed(after.seen, other) <==> listed(state.seen, other) || owned(given, other)
                || aliased(given, other)
        }),
{
    let records = found(set, name, state.query.query_class, state.query.query_type);
    lemma_taken(state, config.ttl, name, records);
    let result = taken(state, config.ttl, name, records);
    let noted = QueryStateView {
        response_code: result.response_code,
        aliases: result.aliases,
        recursion_available: state.recursion_available || config.upstreams.len() > 0 && fold(name)
            == fold(state.query.name),
        ..state
    };
    law_answers_decide_what_remains(noted, result.records, other);
}

/// Whether a name is noted as a local alias of another.
pub open spec fn noted_as(
    aliases: Seq<(Seq<Seq<u8>>, Seq<Seq<u8>>)>,
    name: Seq<Seq<u8>>,
    target: Seq<Seq<u8>>,
) -> bool {
    exists|i: int|
        0 <= i < aliases.len() && fold((#[trigger] aliases[i]).0) == fold(name) && aliases[i].1
            == target
}

/// Whether no name is noted as a local alias twice.
pub open spec fn aliases_apart(aliases: Seq<(Seq<Seq<u8>>, Seq<Seq<u8>>)>) -> bool {
    forall|i: int, j: int|
        0 <= i < j < aliases.len() ==> fold((#[trigger] aliases[i]).0) != fold(
            (#[trigger] aliases[j]).0,
        )
}

/// The place of a name among aliases is the first that has it.
proof fn lemma_alias_place(aliases: Seq<(Seq<Seq<u8>>, Seq<Seq<u8>>)>, name: Seq<Seq<u8>>)
    ensures
        0 <= alias_place(aliases, name) <= aliases.len(),
        alias_place(aliases, name) < aliases.len() ==> fold(
            aliases[alias_place(aliases, name)].0,
        ) == fold(name),
        alias_place(aliases, name) == aliases.len() ==> forall|i: int|
            0 <= i < aliases.len() ==> fold((#[trigger] aliases[i]).0) != fold(name),
    decreases aliases.len(),
{
    if aliases.len() > 0 {
        let front = aliases.drop_last();
        lemma_alias_place(front, name);
        assert forall|i: int|
            alias_place(aliases, name) == aliases.len() && 0 <= i < aliases.len() implies fold(
            (#[trigger] aliases[i]).0,
        ) != fold(name) by {
            if i < front.len() {
                assert(front[i] == aliases[i]);
            }
        }
    }
}

/// A name that is made a local alias is one of its new target alone; other names are aliases of what
/// they were.
pub proof fn law_newest_alias_counts(
    aliases: Seq<(Seq<Seq<u8>>, Seq<Seq<u8>>)>,
    name: Seq<Seq<u8>>,
    target: Seq<Seq<u8>>,
    other: Seq<Seq<u8>>,
    other_target: Seq<Seq<u8>>,
)
    requires
        aliases_apart(aliases),
    ensures
        aliases_apart(with_alias(aliases, name, target)),
        fold(other) == fold(name) ==> (noted_as(
            with_alias(aliases, name, target),
            other,
            other_target,
        ) <==> other_target == target),
        fold(other) != fold(name) ==> (noted_as(
            with_alias(aliases, name, target),
            other,
            other_target,
        ) <==> noted_as(aliases, other, other_target)),
{
    let after = with_alias(aliases, name, target);
    let place = alias_place(aliases, name);
    lemma_alias_place(aliases, name);
    assert(fold(after[place].0) == fold(name) && after[place].1 == target);
    assert forall|i: int| 0 <= i < after.len() && i != place implies #[trigger] after[i]
        == aliases[i] && fold(after[i].0) != fold(name) by {
        if place < aliases.len() {
            assert(aliases[place].0 == after[place].0);
            if i < place {
                assert(fold(aliases[i].0) != fold(aliases[place].0));
            } else {
                assert(fold(aliases[place].0) != fold(aliases[i].0));
            }
        }
    }
    assert forall|i: int, j: int| 0 <= i < j < after.len() implies fold((#[trigger] after[i]).0)
        != fold((#[trigger] after[j]).0) by {
        if i != place && j != place {
            assert(fold(aliases[i].0) != fold(aliases[j].0));
        }
    }
    if noted_as(after, other, other_target) {
        let i = choose|i: int|
            0 <= i < after.len() && fold((#[trigger] after[i]).0) == fold(other) && after[i].1
                == other_target;
        if i != place {
            assert(aliases[i] == after[i]);
        }
    }
    if noted_as(aliases, other, other_target) && fold(other) != fold(name) {
        let i = choose|i: int|
            0 <= i < aliases.len() && fold((#[trigger] aliases[i]).0) == fold(other)
                && aliases[i].1 == other_target;
        assert(i != place);
        assert(after[i] == aliases[i]);
    }
}

/// Whether the last local alias among records leads to a target.
pub open spec fn last_aname(records: Seq<record::RecordView>, target: Seq<Seq<u8>>) -> bool {
    exists|i: int|
        0 <= i < records.len() && (#[trigger] records[i]).rdata == RDataView::Aname(target)
            && forall|j: int|
            i < j < records.len() ==> !((#[trigger] records[j]).rdata is Aname)
}

/// The aliases that records under a name leave.
proof fn lemma_taken_aliases(
    state: QueryStateView,
    ttl: u32,
    name: Seq<Seq<u8>>,
    records: Seq<record::RecordView>,
    other: Seq<Seq<u8>>,
    target: Seq<Seq<u8>>,
)
    requires
        aliases_apart(state.aliases),
    ensures
        ({
            let after = taken(state, ttl, name, records).aliases;
            let query_type = state.query.query_type;
            &&& aliases_apart(after)
            &&& noted_as(after, other, target) <==> if fold(other) == fold(name)
                && !state.resolve_aliases && (query_type == RecordType::A || query_type
                == RecordType::Aaaa) && (exists|i: int|
                0 <= i < records.len() && (#[trigger] records[i]).rdata is Aname) {
                last_aname(records, target)
            } else {
                noted_as(state.aliases, other, target)
            }
        }),
    decreases records.len(),
{
    if records.len() > 0 {
        let front = records.drop_last();
        let last = records.last();
        let n = records.len() - 1;
        lemma_taken_aliases(state, ttl, name, front, other, target);
        assert(records[n] == last);
        assert forall|i: int| 0 <= i < n implies #[trigger] records[i] == front[i] by {}
        assert forall|i: int| 0 <= i < n implies #[trigger] front[i] == records[i] by {}
        let before = taken(state, ttl, name, front).aliases;
        if let RDataView::Aname(to) = last.rdata {
            law_newest_alias_counts(before, name, to, other, target);
            if last_aname(records, target) {
                let i = choose|i: int|
                    0 <= i < records.len() && (#[trigger] records[i]).rdata == RDataView::Aname(
                        target,
                    ) && forall|j: int|
                        i < j < records.len() ==> !((#[trigger] records[j]).rdata is Aname);
                if i < n {
                    assert(!(records[n].rdata is Aname));
                }
            }
            if target == to {
                assert(records[n].rdata == RDataView::Aname(target));
            }
        } else {
            if last_aname(front, target) {
                let i = choose|i: int|
                    0 <= i < front.len() && (#[trigger] front[i]).rdata == RDataView::Aname(target)
                        && forall|j: int|
                        i < j < front.len() ==> !((#[trigger] front[j]).rdata is Aname);
                assert(records[i] == front[i]);
                assert forall|j: int| i < j < records.len() implies !(
                (#[trigger] records[j]).rdata is Aname) by {
                    if j < n {
                        assert(front[j] == records[j]);
                    }
                }
            }
            if last_aname(records, target) {
                let i = choose|i: int|
                    0 <= i < records.len() && (#[trigger] records[i]).rdata == RDataView::Aname(
                        target,
                    ) && forall|j: int|
                        i < j < records.len() ==> !((#[trigger] records[j]).rdata is Aname);
                assert(i < n);
                assert(front[i] == records[i]);
                assert forall|j: int| i < j < front.len() implies !(
                (#[trigger] front[j]).rdata is Aname) by {
                    assert(front[j] == records[j]);
                }
            }
        }
    }
}

/// A name that is looked up for an address is noted as a local alias of what the last of its local
/// aliases leads to. Where it has none, where they are followed directly and where no address is asked
/// for, nothing is noted; what is noted of other names stays.
pub proof fn law_local_aliases_are_noted(
    set: RecordSetView,
    config: ZoneConfigView,
    state: QueryStateView,
    name: Seq<Seq<u8>>,
    other: Seq<Seq<u8>>,
    target: Seq<Seq<u8>>,
)
    requires
        aliases_apart(state.aliases),
    ensures
        ({
            let after = looked_up(set, config, state, name).aliases;
            let query_type = state.query.query_type;
            let records = found(set, name, state.query.query_class, query_type);
            &&& aliases_apart(after)
            &&& noted_as(after, other, target) <==> if fold(other) == fold(name)
                && !state.resolve_aliases && (query_type == RecordType::A || query_type
                == RecordType::Aaaa) && (exists|i: int|
                0 <= i < records.len() && (#[trigger] records[i]).rdata is Aname) {
                last_aname(records, target)
            } else {
                noted_as(state.aliases, other, target)
            }
        }),
{
    let records = found(set, name, state.query.query_class, state.query.query_type);
    lemma_taken_aliases(state, config.ttl, name, records, other, target);
    let result = taken(state, config.ttl, name, records);
    let noted = QueryStateView {
        response_code: result.response_code,
        aliases: result.aliases,
        recursion_available: state.recursion_available || config.upstreams.len() > 0 && fold(name)
            == fold(state.query.name),
        ..state
    };
    lemma_noted_keeps(noted, result.records);
}

/// When no name of a query remains, exactly the targets of its local aliases that were not seen are
/// looked up, with the answers that are there; there is no such name until one of them shows one.
pub proof fn law_all_targets_are_looked_up(state: QueryStateView, name: Seq<Seq<u8>>)
    ensures
        ({
            let targets = for_targets(state);
            &&& listed(targets.unknowns, name) <==> !listed(state.seen, name) && exists|i: int|
                0 <= i < state.aliases.len() && fold((#[trigger] state.aliases[i]).1) == fold(name)
            &&& targets.response_code == ResponseCode::NXDomain
            &&& targets.query == state.query
            &&& targets.recursion_desired == state.recursion_desired
            &&& targets.resolve_aliases
            &&& targets.seen == state.seen
            &&& targets.answers == state.answers
            &&& targets.additionals == state.additionals
            &&& targets.aliases.len() == 0
        }),
{
    lemma_unseen_targets(state.aliases, state.seen, name);
}

/// The targets that were not seen.
proof fn lemma_unseen_targets(
    aliases: Seq<(Seq<Seq<u8>>, Seq<Seq<u8>>)>,
    seen: Seq<Seq<Seq<u8>>>,
    name: Seq<Seq<u8>>,
)
    ensures
        listed(unseen_targets(aliases, seen), name) <==> !listed(seen, name) && exists|i: int|
            0 <= i < aliases.len() && fold((#[trigger] aliases[i]).1) == fold(name),
    decreases aliases.len(),
{
    if aliases.len() > 0 {
        let front = aliases.drop_last();
        let rest = unseen_targets(front, seen);
        let target = aliases.last().1;
        lemma_unseen_targets(front, seen, name);
        lemma_with_name(rest, target, name);
        assert(aliases[aliases.len() - 1] == aliases.last());
        assert forall|i: int| 0 <= i < front.len() implies #[trigger] front[i] == aliases[i] by {}
        assert forall|i: int| 0 <= i < front.len() implies #[trigger] aliases[i] == front[i] by {}
        if fold(name) == fold(target) {
            lemma_listed_folds(seen, name, target);
        }
    }
}

/// Whether a record is the answer that some data is for a local alias.
pub open spec fn is_alias_answer(
    answer: rr::RecordView,
    name: Seq<Seq<u8>>,
    ttl: u32,
    data: Seq<RDataView>,
    query_type: RecordType,
) -> bool {
    &&& answer.name == name
    &&& answer.record_type == query_type
    &&& answer.class == DnsClass::In
    &&& answer.ttl == ttl
    &&& answer.data matches Some(held) && data.contains(held) && match held {
        RDataView::A(_) => query_type == RecordType::A,
        RDataView::Aaaa(_) => query_type == RecordType::Aaaa,
        RDataView::Cname(_) => query_type == RecordType::Cname,
        RDataView::Aname(_) => query_type == RecordType::Aname,
        RDataView::Ptr(_) => query_type == RecordType::Ptr,
        RDataView::Ns(_) => query_type == RecordType::Ns,
        RDataView::Soa(_) => query_type == RecordType::Soa,
        RDataView::Other(code, _) => query_type == RecordType::Other(code),
    }
}

/// The records for the data of one type are the answers that the data is.
proof fn lemma_typed_records(
    name: Seq<Seq<u8>>,
    ttl: u32,
    data: Seq<RDataView>,
    query_type: RecordType,
    answer: rr::RecordView,
)
    ensures
        typed_records(name, ttl, data, query_type).contains(answer) <==> is_alias_answer(
            answer,
            name,
            ttl,
            data,
            query_type,
        ),
    decreases data.len(),
{
    if data.len() > 0 {
        let front = data.drop_last();
        let rest = typed_records(name, ttl, front, query_type);
        let all = typed_records(name, ttl, data, query_type);
        lemma_typed_records(name, ttl, front, query_type, answer);
        assert(data[data.len() - 1] == data.last());
        assert forall|held: RDataView| #[trigger] data.contains(held) <==> front.contains(held)
            || held == data.last() by {
            if data.contains(held) {
                let i = choose|i: int| 0 <= i < data.len() && data[i] == held;
                if i < front.len() {
                    assert(front[i] == held);
                }
            }
            if front.contains(held) {
                let i = choose|i: int| 0 <= i < front.len() && front[i] == held;
                assert(data[i] == held);
            }
        }
        if all.contains(answer) {
            let i = choose|i: int| 0 <= i < all.len() && all[i] == answer;
            if i < rest.len() {
                assert(rest[i] == answer);
            }
        }
        if rest.contains(answer) {
            let i = choose|i: int| 0 <= i < rest.len() && rest[i] == answer;
            assert(all[i] == answer);
        }
        if type_of(data.last()) == query_type {
            assert(all[rest.len() as int] == rr::record_of(name, ttl, data.last()));
            if is_alias_answer(answer, name, ttl, data, query_type) && answer.data->0
                == data.last() {
                assert(answer == rr::record_of(name, ttl, data.last()));
            }
        }
    }
}

/// The answers for local aliases are exactly these: under the name of each, with the lifetime of its
/// zone, all data of the type that is asked for that its target leads to.
pub proof fn law_all_aliases_are_answered(
    server: LockedServerState,
    aliases: Seq<(Seq<Seq<u8>>, Seq<Seq<u8>>)>,
    all: Seq<rr::RecordView>,
    query_type: RecordType,
    answer: rr::RecordView,
)
    ensures
        alias_answers(server, aliases, all, query_type).contains(answer) <==> exists|i: int|
            0 <= i < aliases.len() && is_alias_answer(
                answer,
                (#[trigger] aliases[i]).0,
                server.config(aliases[i].0).ttl,
                resolution(all, aliases[i].1)->0,
                query_type,
            ),
    decreases aliases.len(),
{
    if aliases.len() > 0 {
        let front = aliases.drop_last();
        let (name, target) = aliases.last();
        let rest = alias_answers(server, front, all, query_type);
        let data = resolution(all, target)->0;
        let more = typed_records(name, server.config(name).ttl, data, query_type);
        law_all_aliases_are_answered(server, front, all, query_type, answer);
        lemma_typed_records(name, server.config(name).ttl, data, query_type, answer);
        assert(aliases[aliases.len() - 1] == aliases.last());
        assert forall|i: int| 0 <= i < front.len() implies #[trigger] front[i] == aliases[i] by {}
        assert forall|i: int| 0 <= i < front.len() implies #[trigger] aliases[i] == front[i] by {}
        let both = rest + more;
        if both.contains(answer) {
            let i = choose|i: int| 0 <= i < both.len() && both[i] == answer;
            if i < rest.len() {
                assert(rest[i] == answer);
            } else {
                assert(more[i - rest.len()] == answer);
            }
        }
        if rest.contains(answer) {
            let i = choose|i: int| 0 <= i < rest.len() && rest[i] == answer;
            assert(both[i] == answer);
        }
        if more.contains(answer) {
            let i = choose|i: int| 0 <= i < more.len() && more[i] == answer;
            assert(both[rest.len() + i] == answer);
        }
    }
}

/// When the targets of local aliases were looked up, the answers for the aliases are added. There is no
/// error where there is such an answer; else a name that was not found exists where the targets show
/// that it does. Nothing else of the answer changes.
pub proof fn law_targets_decide(server: LockedServerState, query: ResolverView)
    requires
        query.targets is Some,
    ensures
        ({
            let targets = query.targets->0;
            let given = alias_answers(
                server,
                query.state.aliases,
                targets.answers + targets.additionals,
                query.state.query.query_type,
            );
            let end = query.answer(server);
            &&& end.answers == query.state.answers + given
            &&& end.response_code == if given.len() > 0 {
                ResponseCode::NoError
            } else if query.state.response_code == ResponseCode::NXDomain {
                targets.response_code
            } else {
                query.state.response_code
            }
            &&& end.recursion_available == query.state.recursion_available
            &&& end.additionals == query.state.additionals
            &&& end.name_servers == query.state.name_servers
            &&& end.soa == query.state.soa
        }),
{
    let targets = query.targets->0;
    let all = targets.answers + targets.additionals;
    let query_type = query.state.query.query_type;
    let given = alias_answers(server, query.state.aliases, all, query_type);
    let before = QueryStateView {
        response_code: if query.state.response_code == ResponseCode::NXDomain {
            targets.response_code
        } else {
            query.state.response_code
        },
        ..query.state
    };
    lemma_noted_keeps(before, given);
    law_answers_decide_the_response_code(before, given);
    if given.len() > 0 {
        law_all_aliases_are_answered(server, query.state.aliases, all, query_type, given[0]);
        assert(given.contains(given[0]));
    }
}

/// A server that does not reply changes nothing but that the next one is asked for the same name, where
/// there is one.
pub proof fn law_silent_servers_are_passed_over(query: ResolverView)
    requires
        query.waits(),
    ensures
        ({
            let after = query.after_reply(None);
            &&& after.state == query.state
            &&& after.targets == query.targets
            &&& after.name == query.name
            &&& after.waits() <==> query.upstreams.len() > 1
            &&& query.upstreams.len() > 1 ==> after.upstreams[0] == query.upstreams[1]
        }),
{
}

/// The addresses that a host is reached at are all addresses of the type that is asked for, in their
/// order, with no port.
pub proof fn law_all_addresses_are_used(data: Seq<RDataView>, query_type: RecordType)
    ensures
        socket_addresses(data, query_type) == data.filter_map(
            |held: RDataView|
                match held {
                    RDataView::A(ip) => if query_type == RecordType::A {
                        Some(SocketAddr { ip: IpAddr::V4(ip), port: 0 })
                    } else {
                        None
                    },
                    RDataView::Aaaa(ip) => if query_type == RecordType::Aaaa {
                        Some(SocketAddr { ip: IpAddr::V6(ip), port: 0 })
                    } else {
                        None
                    },
                    _ => None,
                },
        ),
    decreases data.len(),
{
    reveal(Seq::filter_map);
    if data.len() > 0 {
        law_all_addresses_are_used(data.drop_last(), query_type);
    }
}

} // verus!
