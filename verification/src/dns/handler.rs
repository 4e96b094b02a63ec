//! What a request is answered with.

use vstd::prelude::*;
use crate::dns::query::{soa_view, QueryState, QueryStateView, ResponseHeader};
use crate::dns::rr::{copy_records, views, Record, RecordView, ResponseCode};

verus! {

/// Whether a message asks or answers.
#[derive(Clone, Copy, PartialEq, Eq, Debug, Hash, Structural)]
pub enum MessageType {
    Query,
    Response,
}

/// What a message asks to be done.
#[derive(Clone, Copy, PartialEq, Eq, Debug, Hash, Structural)]
pub enum OpCode {
    Query,
    Other(u8),
}

/// The extension header of a message.
#[derive(Clone, Copy, PartialEq, Eq, Debug, Hash, Structural)]
pub struct Edns {
    pub version: u8,
    pub max_payload: u16,
    pub dnssec_ok: bool,
}

/// What a request says of itself.
#[derive(Clone, Copy, PartialEq, Eq, Debug, Hash, Structural)]
pub struct RequestInfo {
    pub message_type: MessageType,
    pub op_code: OpCode,
    pub edns: Option<Edns>,
}

/// A response to a request.
#[derive(Debug)]
pub struct Response {
    pub edns: Option<Edns>,
    pub header: ResponseHeader,
    pub answers: Vec<Record>,
    pub name_servers: Vec<Record>,
    pub soa: Option<Record>,
    pub additionals: Vec<Record>,
}

/// A response to a request, by the labels of its names.
#[verifier::ext_equal]
pub struct ResponseView {
    pub edns: Option<Edns>,
    pub header: ResponseHeader,
    pub answers: Seq<RecordView>,
    pub name_servers: Seq<RecordView>,
    pub soa: Option<RecordView>,
    pub additionals: Seq<RecordView>,
}

impl View for Response {
    type V = ResponseView;

    open spec fn view(&self) -> ResponseView {
        ResponseView {
            edns: self.edns,
            header: self.header,
            answers: views(self.answers@),
            name_servers: views(self.name_servers@),
            soa: soa_view(self.soa),
            additionals: views(self.additionals@),
        }
    }
}

/// The extension header that answers one: ours is version 0, and the payload may be 512 bytes at
/// least.
pub open spec fn edns_reply(edns: Option<Edns>) -> Option<Edns> {
    match edns {
        Some(edns) => Some(
            Edns {
                version: 0,
                max_payload: if edns.max_payload < 512 {
                    512
                } else {
                    edns.max_payload
                },
                dnssec_ok: false,
            },
        ),
        None => None,
    }
}

/// A response that carries nothing but an error.
pub open spec fn error_response(edns: Option<Edns>, response_code: ResponseCode) -> ResponseView {
    ResponseView {
        edns,
        header: ResponseHeader { authoritative: false, recursion_available: false, response_code },
        answers: Seq::empty(),
        name_servers: Seq::empty(),
        soa: None,
        additionals: Seq::empty(),
    }
}

/// The error that a request is refused with before anything is looked up. A version of the
/// extension header that is not known comes first, then a message that is no question, then a
/// question for something else than records.
pub open spec fn refusal(request: RequestInfo) -> Option<ResponseCode> {
    if request.edns is Some && request.edns->0.version > 0 {
        Some(ResponseCode::BadVers)
    } else if request.message_type == MessageType::Response {
        Some(ResponseCode::FormErr)
    } else if request.op_code != OpCode::Query {
        Some(ResponseCode::NotImp)
    } else {
        None
    }
}

/// The extension header that answers one.
pub fn reply_edns(edns: &Option<Edns>) -> (r: Option<Edns>)
    ensures
        r == edns_reply(*edns),
{
    match edns {
        Some(edns) => {
            let max_payload: u16 = if edns.max_payload < 512 {
                512
            } else {
                edns.max_payload
            };
            Some(Edns { version: 0, max_payload, dnssec_ok: false })
        },
        None => None,
    }
}

/// A response that carries nothing but an error.
pub fn error_msg(edns: Option<Edns>, response_code: ResponseCode) -> (r: Response)
    ensures
        r@ == error_response(edns, response_code),
{
    let response = Response {
        edns,
        header: ResponseHeader { authoritative: false, recursion_available: false, response_code },
        answers: Vec::new(),
        name_servers: Vec::new(),
        soa: None,
        additionals: Vec::new(),
    };
    assert(response@ =~= error_response(edns, response_code));
    response
}

/// The response to a request that is refused before anything is looked up. There is none for a
/// request that is to be answered.
pub fn refuse(request: &RequestInfo) -> (r: Option<Response>)
    ensures
        match refusal(*request) {
            Some(code) => r is Some && r->0@ == error_response(edns_reply(request.edns), code),
            None => r is None,
        },
{
    let edns = reply_edns(&request.edns);
    if let Some(req_edns) = request.edns {
        if req_edns.version > 0 {
            return Some(error_msg(edns, ResponseCode::BadVers));
        }
    }
    match request.message_type {
        MessageType::Query => match request.op_code {
            OpCode::Query => None,
            OpCode::Other(_) => Some(error_msg(edns, ResponseCode::NotImp)),
        },
        MessageType::Response => Some(error_msg(edns, ResponseCode::FormErr)),
    }
}

/// The response that the state of a query gives.
pub open spec fn state_response(edns: Option<Edns>, state: QueryStateView) -> ResponseView {
    ResponseView {
        edns: edns_reply(edns),
        header: ResponseHeader {
            authoritative: state.soa is Some,
            recursion_available: state.recursion_available,
            response_code: state.response_code,
        },
        answers: state.answers,
        name_servers: state.name_servers,
        soa: state.soa,
        additionals: state.additionals,
    }
}

/// The response to a request that was answered.
pub fn respond(request: &RequestInfo, state: &QueryState) -> (r: Response)
    ensures
        r@ == state_response(request.edns, state@),
{
    Response {
        edns: reply_edns(&request.edns),
        header: state.header(),
        answers: copy_records(&state.answers),
        name_servers: copy_records(&state.name_servers),
        soa: match &state.soa {
            Some(record) => Some(record.clone()),
            None => None,
        },
        additionals: copy_records(&state.additionals),
    }
}

/// The header that is reported where a response could not be sent.
pub fn serve_failed() -> (r: ResponseHeader)
    ensures
        r == (ResponseHeader {
            authoritative: false,
            recursion_available: false,
            response_code: ResponseCode::ServFail,
        }),
{
    ResponseHeader {
        authoritative: false,
        recursion_available: false,
        response_code: ResponseCode::ServFail,
    }
}

/// A request is refused exactly when it is no question for records in a version that is known, and
/// a refusal carries no records.
pub proof fn law_refused_requests(request: RequestInfo)
    ensures
        refusal(request) is None <==> request.message_type == MessageType::Query && request.op_code
            == OpCode::Query && (request.edns matches Some(edns) ==> edns.version == 0),
        refusal(request) matches Some(code) ==> error_response(
            edns_reply(request.edns),
            code,
        ).answers.len() == 0 && code != ResponseCode::NoError,
{
}

/// What a request is refused for: first a version of the extension header that is not known, then that
/// it is a response, then that it asks for something else than records.
pub proof fn law_reasons_to_refuse(request: RequestInfo)
    ensures
        ({
            let unknown_version = request.edns matches Some(edns) && edns.version != 0;
            let response = request.message_type == MessageType::Response;
            &&& refusal(request) == Some(ResponseCode::BadVers) <==> unknown_version
            &&& refusal(request) == Some(ResponseCode::FormErr) <==> !unknown_version && response
            &&& refusal(request) == Some(ResponseCode::NotImp) <==> !unknown_version && !response
                && request.op_code != OpCode::Query
        }),
{
}

/// An error is sent without authority, without recursion and without records.
pub proof fn law_errors_carry_no_records(edns: Option<Edns>, response_code: ResponseCode)
    ensures
        ({
            let response = error_response(edns, response_code);
            &&& response.edns == edns
            &&& response.header.response_code == response_code
            &&& !response.header.authoritative
            &&& !response.header.recursion_available
            &&& response.answers.len() == 0
            &&& response.name_servers.len() == 0
            &&& response.soa is None
            &&& response.additionals.len() == 0
        }),
{
}

/// A response has an extension header exactly when the request has one. It is of the first version,
/// takes what the request takes and 512 bytes at least, and asks for no signatures.
pub proof fn law_extensions_are_answered(edns: Option<Edns>)
    ensures
        edns is None <==> edns_reply(edns) is None,
        edns matches Some(asked) ==> edns_reply(edns) matches Some(given) && {
            &&& given.version == 0
            &&& !given.dnssec_ok
            &&& given.max_payload >= 512
            &&& asked.max_payload >= 512 ==> given.max_payload == asked.max_payload
            &&& asked.max_payload < 512 ==> given.max_payload == 512
        },
{
}

/// A query that was answered is sent with all that was found: its response code, whether recursion is
/// available, and its records, each in their section. It is authoritative where it has an authority.
pub proof fn law_answers_are_sent(edns: Option<Edns>, state: QueryStateView)
    ensures
        ({
            let response = state_response(edns, state);
            &&& response.header.response_code == state.response_code
            &&& response.header.recursion_available == state.recursion_available
            &&& response.header.authoritative <==> state.soa is Some
            &&& response.answers == state.answers
            &&& response.name_servers == state.name_servers
            &&& response.soa == state.soa
            &&& response.additionals == state.additionals
            &&& response.edns is Some <==> edns is Some
        }),
{
}

} // verus!
