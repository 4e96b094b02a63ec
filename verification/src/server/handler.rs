//! What a request for a name outside of all zones is answered with.

use vstd::prelude::*;
use crate::dns::handler::{
    edns_reply, error_msg, error_response, reply_edns, Edns, MessageType, OpCode, RequestInfo,
    Response, ResponseView,
};
use crate::dns::query::ResponseHeader;
use crate::dns::rr::{
    record_of, views, DnsClass, RData, RDataView, Record, RecordType, ResponseCode, Soa,
};
use crate::name::Fqdn;
use crate::upstream::UpstreamResponse;

verus! {

/// What is to be done with a request.
#[derive(Clone, Copy, PartialEq, Eq, Debug, Hash, Structural)]
pub enum Route {
    /// One of the zones answers it.
    Zone,
    /// It is forwarded to the upstream.
    Upstream,
}

/// Where a request goes: questions for records whose name is in no zone go to the upstream.
pub fn route(request: &RequestInfo, in_zone: bool) -> (r: Route)
    ensures
        r == if request.message_type == MessageType::Query && request.op_code == OpCode::Query
            && !in_zone {
            Route::Upstream
        } else {
            Route::Zone
        },
{
    if request.message_type == MessageType::Query && request.op_code == OpCode::Query && !in_zone {
        Route::Upstream
    } else {
        Route::Zone
    }
}

/// The response that a reply of the upstream to a question for a name gives.
pub open spec fn forwarded(
    edns: Option<Edns>,
    name: Seq<Seq<u8>>,
    reply: UpstreamResponse,
) -> ResponseView {
    ResponseView {
        edns: edns_reply(edns),
        header: ResponseHeader {
            authoritative: reply.authoritative,
            recursion_available: reply.recursion_available,
            response_code: ResponseCode::NoError,
        },
        answers: views(reply.answers@),
        name_servers: views(reply.name_servers@),
        soa: match reply.soa {
            Some(soa) => Some(record_of(name, 300, RDataView::Soa(soa@))),
            None => None,
        },
        additionals: views(reply.additionals@),
    }
}

/// What is to be done with a request that goes to the upstream.
#[derive(Debug)]
pub enum Forward {
    /// A response is sent at once.
    Respond(Response),
    /// The upstream is asked.
    Ask,
}

/// Decides on a request that goes to the upstream, where there may be one. A version of the
/// extension header that is not known is an error, and without an upstream the request is refused.
pub fn forward(request: &RequestInfo, has_upstream: bool) -> (r: Forward)
    ensures
        if request.edns is Some && request.edns->0.version > 0 {
            r matches Forward::Respond(response) && response@ == error_response(
                edns_reply(request.edns),
                ResponseCode::BadVers,
            )
        } else if has_upstream {
            r is Ask
        } else {
            r matches Forward::Respond(response) && response@ == error_response(
                edns_reply(request.edns),
                ResponseCode::Refused,
            )
        },
{
    let edns = reply_edns(&request.edns);
    if let Some(req_edns) = request.edns {
        if req_edns.version > 0 {
            return Forward::Respond(error_msg(edns, ResponseCode::BadVers));
        }
    }
    if has_upstream {
        Forward::Ask
    } else {
        Forward::Respond(error_msg(edns, ResponseCode::Refused))
    }
}

/// The response to a request for which the upstream was asked. Without a reply it is refused.
pub fn upstream(request: &RequestInfo, name: &Fqdn, reply: Option<UpstreamResponse>) -> (r:
    Response)
    ensures
        r@ == match reply {
            Some(reply) => forwarded(request.edns, name@, reply),
            None => error_response(edns_reply(request.edns), ResponseCode::Refused),
        },
{
    let edns = reply_edns(&request.edns);
    match reply {
        Some(reply) => {
            let soa = match reply.soa {
                Some(soa) => Some(Record::from_rdata(name.clone(), 300, RData::Soa(soa))),
                None => None,
            };
            Response {
                edns,
                header: ResponseHeader {
                    authoritative: reply.authoritative,
                    recursion_available: reply.recursion_available,
                    response_code: ResponseCode::NoError,
                },
                answers: reply.answers,
                name_servers: reply.name_servers,
                soa,
                additionals: reply.additionals,
            }
        },
        None => error_msg(edns, ResponseCode::Refused),
    }
}

/// The reply of the upstream is passed on whole: its answers, its name servers and its additional
/// records, whether it is authoritative and whether recursion is available. Its authority is put under
/// the name that was asked for, and lasts five minutes.
pub proof fn law_upstream_replies_are_passed_on(
    edns: Option<Edns>,
    name: Seq<Seq<u8>>,
    reply: UpstreamResponse,
)
    ensures
        ({
            let response = forwarded(edns, name, reply);
            &&& response.header.response_code == ResponseCode::NoError
            &&& response.header.authoritative == reply.authoritative
            &&& response.header.recursion_available == reply.recursion_available
            &&& response.answers == views(reply.answers@)
            &&& response.name_servers == views(reply.name_servers@)
            &&& response.additionals == views(reply.additionals@)
            &&& response.soa is Some <==> reply.soa is Some
            &&& response.soa matches Some(record) ==> {
                &&& record.name == name
                &&& record.record_type == RecordType::Soa
                &&& record.class == DnsClass::In
                &&& record.ttl == 5 * 60
                &&& record.data == Some(RDataView::Soa(reply.soa->0@))
            }
            &&& response.edns is Some <==> edns is Some
        }),
{
}

} // verus!
