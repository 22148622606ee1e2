//! What is done with a message, told by the numbers in it.
use crate::bytes;
use crate::dns::cookie::{self, CookieField, RetryView};
use crate::dns::error::ParseError;
use crate::dns::message::{Decision, Header, Message, SentView};
use crate::dns::name;
use crate::dns::parser;
use crate::dns::shape;
use crate::dns::structure::{self, Layout};
use crate::dns::types::ResponseCode;
use vstd::prelude::*;

verus! {

/// Whether a header says that a message is a response.
pub open spec fn is_response(wire: Seq<u8>) -> bool {
    wire[2] >= 128
}

/// The number of the operation in a header.
pub open spec fn operation_number(wire: Seq<u8>) -> int {
    (wire[2] / 8 % 16) as int
}

/// Whether a header has its TC bit set.
pub open spec fn is_cut(wire: Seq<u8>) -> bool {
    wire[2] / 2 % 2 == 1
}

/// The response code of a message: four bits in the header, and eight more in OPT.
pub open spec fn code_number(message: Message) -> int {
    message.wire[3] % 16 + 16 * (match message.edns {
        Some(opt) => opt.extended_rcode as int,
        None => 0,
    })
}

/// The header of a message that parses is that of its bytes.
proof fn header_is_in_the_bytes(message: Message)
    requires
        parser::parsed(message.wire) == Ok::<Message, ParseError>(message),
    ensures
        12 <= message.wire.len() <= 65535,
        message.header == Header::of(message.wire),
{
}

proof fn header_bits(wire: Seq<u8>)
    requires
        wire.len() >= 12,
    ensures
        ({
            let flags = Header::of(wire).flags;
            &&& flags == 256 * wire[2] + wire[3]
            &&& (flags >= 0x8000) == is_response(wire)
            &&& flags / 0x800 % 16 == operation_number(wire)
            &&& (flags / 0x200 % 2 == 1) == is_cut(wire)
            &&& flags % 16 == wire[3] % 16
        }),
{
}

proof fn code_agrees(message: Message)
    requires
        message.wire.len() >= 12,
        message.header == Header::of(message.wire),
    ensures
        message.code().code() == code_number(message),
        message.code() == ResponseCode::of(code_number(message) as u16),
        0 <= code_number(message) < 4096,
{
    header_bits(message.wire);
}

/// Whether a query asks for a type that is not relayed: OPT (41), TKEY (249), TSIG
/// (250), IXFR (251) and AXFR (252).
pub open spec fn asks_for_refused_type(message: Message) -> bool {
    let kind = message.questions[0].kind.code();
    kind == 41 || kind == 249 || kind == 250 || kind == 251 || kind == 252
}

/// A message is judged by its numbers. A response is ignored. A query of another
/// operation than QUERY is not implemented. One with other than one question, with TC,
/// a response code, answers, authorities or a malformed cookie is a format error. One
/// of another EDNS version than zero has a bad version. A signed one, or one for a type
/// that is not relayed, is refused. Every other query is forwarded.
pub proof fn messages_are_judged_by_their_numbers(message: Message)
    requires
        parser::parsed(message.wire) == Ok::<Message, ParseError>(message),
    ensures
        ({
            let wire = message.wire;
            let malformed = structure::field(wire, 4) != 1 || is_cut(wire) || code_number(message)
                != 0 || structure::field(wire, 6) != 0 || structure::field(wire, 8) != 0
                || message.cookie == Some(CookieField::Malformed);
            let other_version = message.edns matches Some(opt) && opt.version != 0;
            let refused = message.authenticated || asks_for_refused_type(message);
            match message.decision() {
                Decision::Ignore => is_response(wire),
                Decision::Reject(code) => !is_response(wire) && code.code() == (if operation_number(
                    wire,
                ) != 0 {
                    4int
                } else if malformed {
                    1int
                } else if other_version {
                    16int
                } else {
                    5int
                }) && (operation_number(wire) != 0 || malformed || other_version || refused),
                Decision::Forward => !is_response(wire) && operation_number(wire) == 0
                    && !malformed && !other_version && !refused,
            }
        }),
{
    shape::parsed_message_shape(message.wire);
    header_is_in_the_bytes(message);
    judged(message);
}

proof fn judged(message: Message)
    requires
        shape::message_ok(message),
        message.header == Header::of(message.wire),
    ensures
        ({
            let wire = message.wire;
            let malformed = structure::field(wire, 4) != 1 || is_cut(wire) || code_number(message)
                != 0 || structure::field(wire, 6) != 0 || structure::field(wire, 8) != 0
                || message.cookie == Some(CookieField::Malformed);
            let other_version = message.edns matches Some(opt) && opt.version != 0;
            let refused = message.authenticated || asks_for_refused_type(message);
            match message.decision() {
                Decision::Ignore => is_response(wire),
                Decision::Reject(code) => !is_response(wire) && code.code() == (if operation_number(
                    wire,
                ) != 0 {
                    4int
                } else if malformed {
                    1int
                } else if other_version {
                    16int
                } else {
                    5int
                }) && (operation_number(wire) != 0 || malformed || other_version || refused),
                Decision::Forward => !is_response(wire) && operation_number(wire) == 0
                    && !malformed && !other_version && !refused,
            }
        }),
{
    header_bits(message.wire);
    code_agrees(message);
    if message.questions.len() == 1 {
        assert(shape::question_ok(message.questions[0]));
    }
}

/// A query that lies in its bytes as one question, with no other record than an OPT at
/// most, goes to the servers of its name unless its type is one of those that are not
/// relayed.
pub proof fn plain_questions_are_forwarded(wire: Seq<u8>, layout: Layout)
    requires
        structure::laid_out(wire, layout),
        wire[2] < 2,
        wire[3] % 16 == 0,
        structure::field(wire, 4) == 1,
        structure::field(wire, 6) == 0,
        structure::field(wire, 8) == 0,
        structure::field(wire, 10) == 0,
    ensures
        parser::parsed(wire) matches Ok(message) && (message.decision() is Forward <==> {
            let kind = structure::kind_at(wire, 12);
            kind != 41 && !(249 <= kind <= 252)
        }),
{
    structure::laid_out_messages_parse(wire, layout);
    let message = parser::parsed(wire)->Ok_0;
    messages_are_judged_by_their_numbers(message);
    assert(layout.questions[0] == 12);
    assert(message.questions[0].kind.code() == structure::kind_at(wire, 12));
}

/// Whether the cookie of a response proves that it answers the one that was sent: it
/// has a server part behind the eight bytes of the client, and is there where it must
/// be.
pub open spec fn cookie_answers(sent: Message, response: Message, required: bool) -> bool {
    match (sent.cookie, response.cookie) {
        (Some(CookieField::Present(a)), Some(CookieField::Present(b))) => b.data_len >= 16
            && forall|k: int|
            0 <= k < 8 ==> #[trigger] sent.wire[a.data_at + k] == response.wire[b.data_at + k],
        (Some(CookieField::Present(_)), Some(CookieField::Malformed)) => false,
        (Some(CookieField::Present(_)), None) => !required,
        _ => true,
    }
}

proof fn cookies_agree(sent: Message, response: Message, required: bool)
    requires
        shape::message_ok(sent),
        shape::message_ok(response),
    ensures
        cookie::cookie_proved(sent, response, required) == cookie_answers(sent, response, required),
{
    match (sent.cookie, response.cookie) {
        (Some(CookieField::Present(a)), Some(CookieField::Present(b))) => {
            let left = cookie::cookie_data(sent)->0;
            let right = cookie::cookie_data(response)->0;
            assert forall|k: int| 0 <= k < 8 implies left.take(8)[k] == #[trigger] sent.wire[a.data_at
                + k] by {}
            assert forall|k: int| 0 <= k < 8 implies right.take(8)[k]
                == response.wire[b.data_at + k] by {}
            if cookie_answers(sent, response, required) {
                assert forall|k: int| 0 <= k < 8 implies left.take(8)[k] == right.take(8)[k] by {
                    assert(sent.wire[a.data_at + k] == response.wire[b.data_at + k]);
                }
                assert(left.take(8) =~= right.take(8));
            }
        },
        _ => {},
    }
}

/// A response is taken for the answer to a query that was sent exactly where it is a
/// complete response under the same identifier and operation, to the same question,
/// without a signature, with OPT of version zero at most and only where the query had
/// one, and with a cookie that answers the one that was sent.
pub proof fn answers_are_told_by_their_numbers(sent: SentView, response: Message)
    requires
        parser::parsed(sent.message.wire) == Ok::<Message, ParseError>(sent.message),
        parser::parsed(response.wire) == Ok::<Message, ParseError>(response),
        sent.message.decision() is Forward,
    ensures
        sent.accepts(response) <==> {
            let a = sent.message;
            let b = response;
            &&& is_response(b.wire)
            &&& !is_cut(b.wire)
            &&& b.wire[0] == a.wire[0] && b.wire[1] == a.wire[1]
            &&& operation_number(b.wire) == 0
            &&& b.questions.len() == 1
            &&& b.questions[0].kind.code() == a.questions[0].kind.code()
            &&& b.questions[0].class.code() == a.questions[0].class.code()
            &&& b.questions[0].name.len() == a.questions[0].name.len()
            &&& forall|i: int|
                0 <= i < a.questions[0].name.len() ==> name::spelled_alike(
                    b.questions[0].name[i],
                    #[trigger] a.questions[0].name[i],
                )
            &&& !b.authenticated
            &&& b.edns matches Some(opt) ==> opt.version == 0 && a.edns is Some
            &&& cookie_answers(a, b, sent.cookie_required)
        },
{
    shape::parsed_message_shape(sent.message.wire);
    shape::parsed_message_shape(response.wire);
    header_is_in_the_bytes(sent.message);
    header_is_in_the_bytes(response);
    accepted(sent, response);
}

proof fn accepted(sent: SentView, response: Message)
    requires
        shape::message_ok(sent.message),
        shape::message_ok(response),
        sent.message.header == Header::of(sent.message.wire),
        response.header == Header::of(response.wire),
        sent.message.decision() is Forward,
    ensures
        sent.accepts(response) <==> {
            let a = sent.message;
            let b = response;
            &&& is_response(b.wire)
            &&& !is_cut(b.wire)
            &&& b.wire[0] == a.wire[0] && b.wire[1] == a.wire[1]
            &&& operation_number(b.wire) == 0
            &&& b.questions.len() == 1
            &&& b.questions[0].kind.code() == a.questions[0].kind.code()
            &&& b.questions[0].class.code() == a.questions[0].class.code()
            &&& b.questions[0].name.len() == a.questions[0].name.len()
            &&& forall|i: int|
                0 <= i < a.questions[0].name.len() ==> name::spelled_alike(
                    b.questions[0].name[i],
                    #[trigger] a.questions[0].name[i],
                )
            &&& !b.authenticated
            &&& b.edns matches Some(opt) ==> opt.version == 0 && a.edns is Some
            &&& cookie_answers(a, b, sent.cookie_required)
        },
{
    let a = sent.message;
    let b = response;
    header_bits(a.wire);
    header_bits(b.wire);
    cookies_agree(a, b, sent.cookie_required);
    assert(shape::question_ok(a.questions[0]));
    assert((a.header.id == b.header.id) == (b.wire[0] == a.wire[0] && b.wire[1] == a.wire[1]));
    if b.questions.len() == 1 {
        assert(shape::question_ok(b.questions[0]));
        name::same_names_are_spelled_alike(b.questions[0].name, a.questions[0].name);
        assert((b.questions[0].kind == a.questions[0].kind) == (b.questions[0].kind.code()
            == a.questions[0].kind.code()));
        assert((b.questions[0].class == a.questions[0].class) == (b.questions[0].class.code()
            == a.questions[0].class.code()));
    }
}

/// A datagram says that its response did not fit exactly where it is a response with
/// TC, under the same identifier and operation, with one question that lies behind the
/// header and is the one that was asked; whatever follows it.
pub proof fn truncation_is_told_by_the_question(query: Message, wire: Seq<u8>)
    requires
        parser::parsed(query.wire) == Ok::<Message, ParseError>(query),
        query.decision() is Forward,
    ensures
        parser::truncation_of(query, wire, query.header.id) <==> {
            let end = structure::name_end(wire, 12);
            &&& wire.len() >= 12
            &&& is_response(wire)
            &&& is_cut(wire)
            &&& wire[0] == query.wire[0] && wire[1] == query.wire[1]
            &&& operation_number(wire) == 0
            &&& structure::field(wire, 4) == 1
            &&& structure::question_lies(wire, 12, end + 4)
            &&& structure::field(wire, end) == query.questions[0].kind.code()
            &&& structure::field(wire, end + 2) == query.questions[0].class.code()
            &&& name::name_at(wire, 12)->Ok_0.0.len() == query.questions[0].name.len()
            &&& forall|i: int|
                0 <= i < query.questions[0].name.len() ==> name::spelled_alike(
                    #[trigger] query.questions[0].name[i],
                    name::name_at(wire, 12)->Ok_0.0[i],
                )
        },
{
    shape::parsed_message_shape(query.wire);
    header_is_in_the_bytes(query);
    truncated(query, wire);
}

proof fn truncated(query: Message, wire: Seq<u8>)
    requires
        shape::message_ok(query),
        query.header == Header::of(query.wire),
        query.decision() is Forward,
    ensures
        parser::truncation_of(query, wire, query.header.id) <==> {
            let end = structure::name_end(wire, 12);
            &&& wire.len() >= 12
            &&& is_response(wire)
            &&& is_cut(wire)
            &&& wire[0] == query.wire[0] && wire[1] == query.wire[1]
            &&& operation_number(wire) == 0
            &&& structure::field(wire, 4) == 1
            &&& structure::question_lies(wire, 12, end + 4)
            &&& structure::field(wire, end) == query.questions[0].kind.code()
            &&& structure::field(wire, end + 2) == query.questions[0].class.code()
            &&& name::name_at(wire, 12)->Ok_0.0.len() == query.questions[0].name.len()
            &&& forall|i: int|
                0 <= i < query.questions[0].name.len() ==> name::spelled_alike(
                    #[trigger] query.questions[0].name[i],
                    name::name_at(wire, 12)->Ok_0.0[i],
                )
        },
{
    assert(shape::question_ok(query.questions[0]));
    header_bits(query.wire);
    if wire.len() >= 12 {
        header_bits(wire);
        assert((Header::of(wire).id == query.header.id) == (wire[0] == query.wire[0] && wire[1]
            == query.wire[1]));
        match name::name_at(wire, 12) {
            Ok((labels, end)) => {
                name::decoded_name_fits(wire, 12);
                name::same_names_are_spelled_alike(query.questions[0].name, labels);
                if end + 4 <= wire.len() {
                    assert(bytes::word_at(wire, end) == structure::field(wire, end));
                    assert(bytes::word_at(wire, end + 2) == structure::field(wire, end + 2));
                }
            },
            Err(_) => {},
        }
    }
}

/// What becomes of a query whose cookie was refused, told by the cookies.
///
/// Without a cookie there is nothing to retry. A response whose cookie is no server
/// cookie behind the client's own is discarded. A query that already has the offered
/// cookie is current. Otherwise it gets the offered one, where that moves no bytes behind
/// it and does not make it too long.
pub proof fn retries_are_told_by_the_cookies(query: Message, response: Message)
    requires
        parser::parsed(query.wire) == Ok::<Message, ParseError>(query),
        parser::parsed(response.wire) == Ok::<Message, ParseError>(response),
    ensures
        match (query.cookie, response.cookie) {
            (None, _) => cookie::retry_of(query, query.wire, response) is Absent,
            (Some(CookieField::Present(a)), Some(CookieField::Present(b))) => {
                let end = a.data_at + a.data_len;
                let same = |n: int|
                    forall|k: int|
                        0 <= k < n ==> #[trigger] query.wire[a.data_at + k] == response.wire[b.data_at
                            + k];
                match cookie::retry_of(query, query.wire, response) {
                    RetryView::Absent => false,
                    RetryView::Discard => b.data_len < 16 || !same(8) || query.wire.len()
                        - a.data_len + b.data_len > 65535,
                    RetryView::Current => b.data_len >= 16 && a.data_len == b.data_len && same(
                        a.data_len as int,
                    ),
                    RetryView::Leave => b.data_len >= 16 && same(8) && a.data_len != b.data_len
                        && end != query.wire.len(),
                    RetryView::Rewrite(wire) => {
                        &&& b.data_len >= 16 && same(8)
                        &&& a.data_len == b.data_len ==> !same(a.data_len as int)
                        &&& a.data_len == b.data_len || end == query.wire.len()
                        &&& wire.len() == query.wire.len() - a.data_len + b.data_len
                        &&& wire.len() <= 65535
                    },
                }
            },
            _ => cookie::retry_of(query, query.wire, response) is Discard,
        },
{
    shape::parsed_message_shape(query.wire);
    shape::parsed_message_shape(response.wire);
    retried(query, response);
}

proof fn retried(query: Message, response: Message)
    requires
        shape::message_ok(query),
        shape::cookie_inside(query.wire, query.cookie),
        shape::message_ok(response),
    ensures
        match (query.cookie, response.cookie) {
            (None, _) => cookie::retry_of(query, query.wire, response) is Absent,
            (Some(CookieField::Present(a)), Some(CookieField::Present(b))) => {
                let end = a.data_at + a.data_len;
                let same = |n: int|
                    forall|k: int|
                        0 <= k < n ==> #[trigger] query.wire[a.data_at + k] == response.wire[b.data_at
                            + k];
                match cookie::retry_of(query, query.wire, response) {
                    RetryView::Absent => false,
                    RetryView::Discard => b.data_len < 16 || !same(8) || query.wire.len()
                        - a.data_len + b.data_len > 65535,
                    RetryView::Current => b.data_len >= 16 && a.data_len == b.data_len && same(
                        a.data_len as int,
                    ),
                    RetryView::Leave => b.data_len >= 16 && same(8) && a.data_len != b.data_len
                        && end != query.wire.len(),
                    RetryView::Rewrite(wire) => {
                        &&& b.data_len >= 16 && same(8)
                        &&& a.data_len == b.data_len ==> !same(a.data_len as int)
                        &&& a.data_len == b.data_len || end == query.wire.len()
                        &&& wire.len() == query.wire.len() - a.data_len + b.data_len
                        &&& wire.len() <= 65535
                    },
                }
            },
            _ => cookie::retry_of(query, query.wire, response) is Discard,
        },
{
    match (query.cookie, response.cookie) {
        (Some(CookieField::Present(a)), Some(CookieField::Present(b))) => {
            let held = query.wire.subrange(a.data_at as int, a.data_at + a.data_len);
            let offered = response.wire.subrange(b.data_at as int, b.data_at + b.data_len);
            assert(forall|k: int|
                0 <= k < a.data_len ==> held[k] == #[trigger] query.wire[a.data_at + k]);
            assert(forall|k: int| 0 <= k < b.data_len ==> offered[k] == response.wire[b.data_at + k]);
            let same = |n: int|
                forall|k: int|
                    0 <= k < n ==> #[trigger] query.wire[a.data_at + k] == response.wire[b.data_at
                        + k];
            assert(same(8) == (held.take(8) == offered.take(8))) by {
                if same(8) {
                    assert forall|k: int| 0 <= k < 8 implies held.take(8)[k] == offered.take(
                        8,
                    )[k] by {
                        assert(query.wire[a.data_at + k] == response.wire[b.data_at + k]);
                    }
                    assert(held.take(8) =~= offered.take(8));
                }
                if held.take(8) == offered.take(8) {
                    assert forall|k: int| 0 <= k < 8 implies #[trigger] query.wire[a.data_at + k]
                        == response.wire[b.data_at + k] by {
                        assert(held.take(8)[k] == offered.take(8)[k]);
                    }
                }
            }
            if a.data_len == b.data_len && b.data_len >= 16 {
                if held.take(8) == offered.take(8) && held.skip(8) == offered.skip(8) {
                    assert forall|k: int| 0 <= k < a.data_len implies #[trigger] query.wire[a.data_at
                        + k] == response.wire[b.data_at + k] by {
                        if k < 8 {
                            assert(held.take(8)[k] == offered.take(8)[k]);
                        } else {
                            assert(held.skip(8)[k - 8] == offered.skip(8)[k - 8]);
                        }
                    }
                }
                if same(a.data_len as int) {
                    assert forall|k: int| 0 <= k < a.data_len - 8 implies held.skip(8)[k]
                        == offered.skip(8)[k] by {
                        assert(query.wire[a.data_at + (k + 8)] == response.wire[b.data_at + (k
                            + 8)]);
                    }
                    assert(held.skip(8) =~= offered.skip(8));
                }
            }
            if held.skip(8) == offered.skip(8) {
                assert(held.skip(8).len() == offered.skip(8).len());
            }
            rewriting_fits(query.wire, a, held.take(8), offered.skip(8));
        },
        _ => {},
    }
}

/// A rewriting fails only where the result is too long.
proof fn rewriting_fits(
    wire: Seq<u8>,
    slot: cookie::CookieSlot,
    client: Seq<u8>,
    server: Seq<u8>,
)
    requires
        shape::slot_ok(wire, slot),
        shape::slot_inside(wire, slot),
        wire.len() <= 65535,
        client.len() == 8,
    ensures
        8 <= server.len() <= 32 && wire.len() - slot.data_len + 8 + server.len() <= 65535
            ==> cookie::rewritten(wire, slot, client, server) is Some,
        cookie::rewritten(wire, slot, client, server) matches Some(out) ==> out.len() == wire.len()
            - slot.data_len + 8 + server.len() && out.len() <= 65535,
{
    let end = slot.data_at + slot.data_len;
    let body = wire.take(slot.data_at as int) + client + server + wire.skip(end);
    let sized = bytes::with_word(body, slot.length_at as int, (8 + server.len()) as u16);
    assert(sized[slot.rdlength_at as int] == wire[slot.rdlength_at as int]);
    assert(sized[slot.rdlength_at + 1] == wire[slot.rdlength_at + 1]);
}

/// The identifier of a message that parses is in its first two bytes.
pub proof fn identifiers_are_in_the_bytes(message: Message)
    requires
        parser::parsed(message.wire) == Ok::<Message, ParseError>(message),
    ensures
        12 <= message.wire.len() <= 65535,
        message.header == Header::of(message.wire),
        (message.header.id.0 / 256) as u8 == message.wire[0],
        (message.header.id.0 % 256) as u8 == message.wire[1],
{
    header_is_in_the_bytes(message);
}

/// The cookie of a message that parses is as long as its slot says.
pub proof fn cookies_are_in_the_bytes(message: Message)
    requires
        parser::parsed(message.wire) == Ok::<Message, ParseError>(message),
    ensures
        message.cookie matches Some(CookieField::Present(slot)) ==> cookie::cookie_data(
            message,
        ) matches Some(data) && data.len() == slot.data_len,
{
    shape::parsed_message_shape(message.wire);
}

/// The response code of a message that parses is the number of its twelve bits.
pub proof fn codes_are_their_numbers(message: Message)
    requires
        parser::parsed(message.wire) == Ok::<Message, ParseError>(message),
    ensures
        message.code().code() == code_number(message),
        message.code() == ResponseCode::of(code_number(message) as u16),
{
    header_is_in_the_bytes(message);
    code_agrees(message);
}

/// The direction of a message is its first bit behind the identifier.
pub proof fn directions_are_told_by_a_bit(wire: Seq<u8>)
    requires
        wire.len() >= 12,
    ensures
        Header::of(wire).direction() == crate::dns::types::MessageType::Response <==> wire[2] >= 128,
{
    header_bits(wire);
}

} // verus!
