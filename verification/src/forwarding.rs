//! Coordinates client validation, route selection and upstream exchange.
//!
//! Both client transports use this path. Socket framing belongs to the service
//! and `transport`; this module returns a complete DNS message or a decision
//! to discard the input without replying.
use crate::address::SocketAddress;
use crate::dns::error::ParseError;
use crate::dns::message::{Decision, Header, Message, Packet, Query, QueryDecision, Response};
use crate::dns::types::{MessageType, ResponseCode};
use crate::dns::{cookie, name, parser, policy, readback, replies, reply};
use crate::dns::{HEADER_LENGTH, MAX_MESSAGE_LENGTH};
use crate::routing::{self, RoutingTable, SelectionView, TableView};
use crate::text::concat;
use crate::transport::{Deadline, Transport};
use crate::upstream::{self, forward, ForwardError, ForwardFault, Moment, Step, StepView, WalkView};
use vstd::prelude::*;

verus! {

/// What becomes of bytes that arrived from a client.
pub enum IntakeView {
    /// Nothing is sent back.
    Silent { warning: Option<Seq<char>> },
    /// A local reply.
    Reply { wire: Seq<u8>, warning: Option<Seq<char>> },
    /// A query to be forwarded.
    Forward(Message),
}

/// The diagnostic about bytes that are no message.
pub open spec fn malformed(error: ParseError) -> Seq<char> {
    "malformed client packet: "@ + error.text()
}

/// Judges bytes from a client.
///
/// Without a readable header there is nothing to answer, and responses are never
/// answered. A broken query gets FORMERR, an unsupported one its own code.
pub open spec fn intake_of(wire: Seq<u8>) -> IntakeView {
    if wire.len() < HEADER_LENGTH {
        IntakeView::Silent { warning: Some(malformed(ParseError::UnexpectedEnd)) }
    } else if Header::of(wire).direction() != MessageType::Query {
        IntakeView::Silent { warning: None }
    } else {
        match parser::parsed(wire) {
            Err(error) => match parser::reply_context(wire) {
                Some(context) => IntakeView::Reply {
                    wire: reply::format_error(context),
                    warning: Some(malformed(error)),
                },
                None => IntakeView::Silent { warning: Some(malformed(error)) },
            },
            Ok(message) => match message.decision() {
                Decision::Ignore => IntakeView::Silent { warning: None },
                Decision::Reject(code) => IntakeView::Reply {
                    wire: reply::error_form(message, code),
                    warning: None,
                },
                Decision::Forward => IntakeView::Forward(message),
            },
        }
    }
}

/// What becomes of bytes that arrived from a client.
#[derive(Debug)]
pub enum Intake {
    Silent { warning: Option<String> },
    Reply { wire: Vec<u8>, warning: Option<String> },
    Forward(Packet),
}

/// A diagnostic that there may be.
pub open spec fn warning_view(warning: Option<String>) -> Option<Seq<char>> {
    match warning {
        Some(text) => Some(text@),
        None => None,
    }
}

impl View for Intake {
    type V = IntakeView;

    open spec fn view(&self) -> IntakeView {
        match self {
            Intake::Silent { warning } => IntakeView::Silent { warning: warning_view(*warning) },
            Intake::Reply { wire, warning } => IntakeView::Reply {
                wire: wire@,
                warning: warning_view(*warning),
            },
            Intake::Forward(packet) => IntakeView::Forward(packet@),
        }
    }
}

fn malformed_text(error: ParseError) -> (r: String)
    ensures
        r@ == malformed(error),
{
    concat("malformed client packet: ", error.message())
}

/// Judges bytes from a client before anything is sent upstream.
pub fn intake(wire: &[u8]) -> (r: Intake)
    ensures
        r@ == intake_of(wire@),
{
    let header = match Header::parse(wire) {
        Ok(header) => header,
        Err(error) => {
            return Intake::Silent { warning: Some(malformed_text(error)) };
        },
    };
    // Never respond to responses, avoiding reflection loops.
    if header.message_type() != MessageType::Query {
        return Intake::Silent { warning: None };
    }
    let packet = match Packet::parse_for_reply(wire) {
        Ok(packet) => packet,
        Err(failure) => {
            let warning = Some(malformed_text(failure.error));
            return match failure.format_reply() {
                Some(wire) => Intake::Reply { wire, warning },
                None => Intake::Silent { warning },
            };
        },
    };
    match packet.validate_query() {
        QueryDecision::Ignore => Intake::Silent { warning: None },
        QueryDecision::Reject(code) => {
            let wire: Vec<u8> = packet.error_reply(code);
            Intake::Reply { wire, warning: None }
        },
        QueryDecision::Forward(_) => Intake::Forward(packet),
    }
}

/// What a client gets after its query was forwarded.
pub struct ConclusionView {
    pub reply: Option<Seq<u8>>,
    pub warning: Option<Seq<char>>,
}

/// Answers a forwarded query.
///
/// Successful upstream replies regain the client's ID; oversized UDP replies
/// become complete minimal TC replies. Upstream failures become SERVFAIL, unless
/// the client would have to discard it for want of a server cookie.
pub open spec fn conclusion_of(
    query: Message,
    transport: Transport,
    outcome: Result<Message, ForwardFault>,
) -> ConclusionView {
    match outcome {
        Err(fault) => ConclusionView {
            reply: if reply::has_server_cookie(query) {
                None
            } else {
                Some(reply::error_form(query, ResponseCode::ServerFailure))
            },
            warning: Some("forwarding failed: "@ + fault.text()),
        },
        Ok(response) => ConclusionView {
            reply: Some(
                if transport == Transport::Udp && response.wire.len() > query.limit() {
                    reply::truncated_form(query, response)
                } else {
                    response.renamed(query.header.id).wire
                },
            ),
            warning: None,
        },
    }
}

/// What a client gets after its query was forwarded.
#[derive(Debug)]
pub struct Conclusion {
    pub reply: Option<Vec<u8>>,
    pub warning: Option<String>,
}

impl View for Conclusion {
    type V = ConclusionView;

    open spec fn view(&self) -> ConclusionView {
        ConclusionView {
            reply: match self.reply {
                Some(wire) => Some(wire@),
                None => None,
            },
            warning: warning_view(self.warning),
        }
    }
}

/// Produces the reply to a forwarded query.
pub fn conclude(query: &Query<'_>, transport: Transport, outcome: Result<Response, ForwardError>) -> (r:
    Conclusion)
    ensures
        r@ == conclusion_of(query@, transport, upstream::reply_view(outcome)),
{
    let response = match outcome {
        Ok(response) => response,
        Err(error) => {
            let warning = concat("forwarding failed: ", error.message().as_str());
            return Conclusion {
                reply: query.error_reply(ResponseCode::ServerFailure),
                warning: Some(warning),
            };
        },
    };
    let wire: Vec<u8> = if transport == Transport::Udp && response.wire().len()
        > query.udp_limit() {
        query.truncated_reply(&response)
    } else {
        response.with_id(query.id())
    };
    Conclusion { reply: Some(wire), warning: None }
}

/// The start of the walk of a query: through the group that its name selects, and
/// from the first server of that group.
pub open spec fn dispatched(
    table: TableView,
    query: Message,
    transport: Transport,
    deadline: Deadline,
    now: u64,
    stop: bool,
) -> StepView {
    (WalkView {
        query,
        servers: table.selected(query.questions[0].name).servers(),
        transport,
        deadline,
        place: 0,
        last: ForwardFault::Timeout,
        relayed: None,
    }).start(now, stop)
}

/// Selects the group of a query and turns to its first server.
pub fn dispatch<'a>(
    table: &'a RoutingTable,
    query: &'a Query<'a>,
    transport: Transport,
    deadline: Deadline,
    now: u64,
    stop: bool,
) -> (r: Step<'a>)
    ensures
        r@ == dispatched(table@, query@, transport, deadline, now, stop),
{
    let selection = table.select(query.name());
    forward(query, selection.upstreams(), transport, deadline, now, stop)
}

/// The server that a step exchanges with.
pub open spec fn contacted(step: StepView) -> Option<SocketAddress> {
    match step {
        StepView::Exchange { walk, .. } => Some(walk.servers[walk.place]),
        _ => None,
    }
}

/// Whatever the outside brings, a query reaches no server outside the group that
/// its name selects.
pub proof fn queries_stay_with_their_selection(
    table: TableView,
    query: Message,
    transport: Transport,
    deadline: Deadline,
    now: u64,
    stop: bool,
    moments: Seq<Moment>,
)
    ensures
        contacted(
            upstream::after(dispatched(table, query, transport, deadline, now, stop), moments),
        ) matches Some(server) ==> table.selected(
            query.questions[0].name,
        ).servers().contains(server),
{
    let walk = WalkView {
        query,
        servers: table.selected(query.questions[0].name).servers(),
        transport,
        deadline,
        place: 0,
        last: ForwardFault::Timeout,
        relayed: None,
    };
    upstream::every_walk_ends_inside_its_group(walk, now, stop, moments);
}

/// A query whose name lies at or below the suffix of a route reaches no server
/// outside the group of its most specific route: neither the default group nor a
/// less specific route ever sees it.
pub proof fn routed_queries_stay_with_their_route(
    table: TableView,
    query: Message,
    transport: Transport,
    deadline: Deadline,
    now: u64,
    stop: bool,
    moments: Seq<Moment>,
    matching: int,
)
    requires
        table.valid(),
        0 <= matching < table.routes.len(),
        name::within(query.questions[0].name, table.routes[matching].suffix),
    ensures
        ({
            let name = query.questions[0].name;
            let step = upstream::after(
                dispatched(table, query, transport, deadline, now, stop),
                moments,
            );
            table.selected(name) matches SelectionView::Routed(route) && {
                &&& table.routes.contains(route)
                &&& name::within(name, route.suffix)
                &&& forall|i: int|
                    0 <= i < table.routes.len() && name::within(
                        name,
                        (#[trigger] table.routes[i]).suffix,
                    ) ==> table.routes[i] == route || table.routes[i].suffix.len()
                        < route.suffix.len()
                &&& contacted(step) matches Some(server) ==> route.upstreams.contains(server)
            }
        }),
{
    routing::selection_is_the_longest_suffix(table, query.questions[0].name);
    queries_stay_with_their_selection(table, query, transport, deadline, now, stop, moments);
}

/// A reply over UDP never exceeds what its client takes.
pub proof fn udp_replies_fit_the_client(query: Message, outcome: Result<Message, ForwardFault>)
    requires
        parser::parsed(query.wire) == Ok::<Message, ParseError>(query),
        query.decision() is Forward,
        outcome matches Ok(response) ==> parser::parsed(response.wire) == Ok::<Message, ParseError>(
            response,
        ) && (response.edns is Some ==> query.edns is Some),
    ensures
        conclusion_of(query, Transport::Udp, outcome).reply matches Some(wire) ==> wire.len()
            <= query.limit(),
{
    match outcome {
        Err(_) => {
            readback::error_reply_answers_its_query(query, ResponseCode::ServerFailure);
            reply_is_its_wire(reply::error_form(query, ResponseCode::ServerFailure));
        },
        Ok(response) => {
            if response.wire.len() > query.limit() {
                readback::truncated_reply_answers_its_query(query, response);
                reply_is_its_wire(reply::truncated_form(query, response));
            }
        },
    }
}

/// A parsed message is its own bytes.
proof fn reply_is_its_wire(wire: Seq<u8>)
    ensures
        parser::parsed(wire) matches Ok(message) ==> message.wire == wire,
{
}

/// A relayed reply is the upstream's response, byte for byte, but for the
/// client's own identifier.
pub proof fn relayed_reply_keeps_every_byte(
    query: Message,
    transport: Transport,
    response: Message,
    i: int,
)
    requires
        transport == Transport::Tcp || response.wire.len() <= query.limit(),
        response.wire.len() >= 12,
        2 <= i < response.wire.len(),
    ensures
        conclusion_of(query, transport, Ok(response)).reply matches Some(wire) && wire.len()
            == response.wire.len() && wire[i] == response.wire[i] && wire[0] == (
        query.header.id.0 / 256) as u8 && wire[1] == (query.header.id.0 % 256) as u8,
{
}

/// Every query that a transport can carry is answered or forwarded: only an
/// unreadable header or a response is met with silence.
pub proof fn only_unreadable_bytes_and_responses_are_silent(wire: Seq<u8>)
    requires
        wire.len() <= MAX_MESSAGE_LENGTH,
    ensures
        intake_of(wire) is Silent <==> wire.len() < 12 || Header::of(wire).direction()
            == MessageType::Response,
{
}

/// How many bytes a client takes over UDP: 512 without EDNS, and otherwise what it
/// offers, but no less than 512 and no more than 1232.
pub open spec fn room(query: Message) -> int {
    match query.edns {
        None => 512,
        Some(opt) => if opt.udp_size < 512 {
            512
        } else if opt.udp_size < 1232 {
            opt.udp_size as int
        } else {
            1232
        },
    }
}

/// A response goes to its client whole, byte for byte behind the client's own
/// identifier, over TCP always and over UDP exactly where the client has room for it.
/// Otherwise the client is told that it was truncated.
pub proof fn responses_are_relayed_whole_where_they_fit(
    query: Message,
    transport: Transport,
    response: Message,
)
    requires
        parser::parsed(query.wire) == Ok::<Message, ParseError>(query),
        parser::parsed(response.wire) == Ok::<Message, ParseError>(response),
        query.questions.len() <= 1,
    ensures
        conclusion_of(query, transport, Ok(response)).reply matches Some(wire)
            && if transport == Transport::Tcp || response.wire.len() <= room(query) {
            &&& wire.len() == response.wire.len()
            &&& wire[0] == query.wire[0] && wire[1] == query.wire[1]
            &&& forall|i: int| 2 <= i < wire.len() ==> wire[i] == response.wire[i]
        } else {
            parser::parsed(wire) matches Ok(reply) && replies::replies_to(
                reply,
                query.header,
                query.questions,
                query.edns,
                response.code().code() as int,
                true,
            )
        },
        conclusion_of(query, transport, Ok(response)).warning is None,
{
    policy::identifiers_are_in_the_bytes(query);
    policy::identifiers_are_in_the_bytes(response);
    assert(query.limit() == room(query));
    if !(transport == Transport::Tcp || response.wire.len() <= room(query)) {
        replies::truncated_replies_echo_their_query(query, response);
    }
}

/// A query that could not be resolved is answered with SERVFAIL (code 2), unless its
/// client sent a server cookie: then it gets no reply.
pub proof fn failures_are_answered_with_servfail(
    query: Message,
    transport: Transport,
    fault: ForwardFault,
)
    requires
        parser::parsed(query.wire) == Ok::<Message, ParseError>(query),
        query.questions.len() <= 1,
    ensures
        ({
            let vouched = query.cookie matches Some(cookie::CookieField::Present(slot))
                && slot.data_len > 8;
            match conclusion_of(query, transport, Err(fault)).reply {
                None => vouched,
                Some(wire) => !vouched && (parser::parsed(wire) matches Ok(reply)
                    && replies::replies_to(
                    reply,
                    query.header,
                    query.questions,
                    query.edns,
                    2,
                    false,
                )),
            }
        }),
{
    policy::cookies_are_in_the_bytes(query);
    replies::error_replies_echo_their_query(query, ResponseCode::ServerFailure);
}

/// Bytes from a client are forwarded exactly where they parse as a message that is to
/// be forwarded, and are answered with its code where they parse as one that is to be
/// rejected.
pub proof fn clients_are_answered_by_decision(wire: Seq<u8>)
    requires
        parser::parsed(wire) is Ok,
        parser::parsed(wire)->Ok_0.questions.len() <= 1,
    ensures
        ({
            let message = parser::parsed(wire)->Ok_0;
            match message.decision() {
                Decision::Forward => intake_of(wire) == IntakeView::Forward(message),
                Decision::Ignore => intake_of(wire) is Silent,
                Decision::Reject(code) => intake_of(wire) matches IntakeView::Reply {
                    wire: sent,
                    warning,
                } && warning is None && (parser::parsed(sent) matches Ok(reply)
                    && replies::replies_to(
                    reply,
                    message.header,
                    message.questions,
                    message.edns,
                    code.code() as int,
                    false,
                )),
            }
        }),
{
    let message = parser::parsed(wire)->Ok_0;
    reply_is_its_wire(wire);
    policy::identifiers_are_in_the_bytes(message);
    match message.decision() {
        Decision::Reject(code) => {
            replies::error_replies_echo_their_query(message, code);
        },
        _ => {},
    }
}

/// Bytes that do not parse are answered with FORMERR (code 1) under their own identifier
/// where they have the header of a query; and with the header alone, unless their OPT is at
/// fault. Without a header, and to a response, nothing is sent.
pub proof fn broken_bytes_get_a_format_error(wire: Seq<u8>)
    requires
        wire.len() <= 65535,
        parser::parsed(wire) is Err,
    ensures
        intake_of(wire) is Silent <==> wire.len() < 12 || wire[2] >= 128,
        wire.len() >= 12 && wire[2] < 128 ==> (intake_of(wire) matches IntakeView::Reply {
            wire: sent,
            ..
        } && (parser::parsed(sent) matches Ok(reply) && {
            &&& reply.header.id == Header::of(wire).id
            &&& reply.header.flags >= 0x8000
            &&& reply.header.flags % 16 == 1
            &&& parser::parsed(wire) != Err::<Message, ParseError>(ParseError::InvalidEdns)
                ==> replies::replies_to(reply, Header::of(wire), Seq::empty(), None, 1, false)
        })),
{
    if wire.len() >= 12 {
        policy::directions_are_told_by_a_bit(wire);
        if wire[2] < 128 {
            if parser::parsed(wire) == Err::<Message, ParseError>(ParseError::InvalidEdns) {
                readback::format_reply_answers_its_query(wire);
                replies::format_replies_have_code_one(wire);
            } else {
                replies::broken_queries_get_a_header(wire);
            }
        }
    }
}

} // verus!
