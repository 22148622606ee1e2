//! What a local reply says, told by the numbers in it.
use crate::bytes;
use crate::dns::cookie;
use crate::dns::error::ParseError;
use crate::dns::message::{Edns, Header, Message, QuestionView, RecordSection};
use crate::dns::name;
use crate::dns::parser::{self, ScanView};
use crate::dns::readback;
use crate::dns::reply::{self, OptView};
use crate::dns::shape;
use crate::dns::structure;
use crate::dns::types::ResponseCode;
use vstd::prelude::*;

verus! {

/// The flags of a local reply: a response (QR) to the same operation, with RD and CD as
/// they were asked, TC as told, recursion available (RA) and the low bits of the code.
/// It claims no authority (AA) and no authentication (AD), and leaves Z clear.
pub open spec fn flags_of_a_reply(flags: int, asked: int, code: int, truncated: bool) -> bool {
    &&& 0x8000 <= flags <= 0xffff
    &&& flags / 0x800 % 16 == asked / 0x800 % 16
    &&& flags / 0x400 % 2 == 0
    &&& (flags / 0x200 % 2 == 1) == truncated
    &&& flags / 0x100 % 2 == asked / 0x100 % 2
    &&& flags / 0x80 % 2 == 1
    &&& flags / 0x40 % 2 == 0
    &&& flags / 0x20 % 2 == 0
    &&& flags / 0x10 % 2 == asked / 0x10 % 2
    &&& flags % 16 == code % 16
}

proof fn reply_flags_are_those(asked: u16, code: ResponseCode, truncated: bool)
    ensures
        flags_of_a_reply(
            reply::reply_flags(asked, code, truncated) as int,
            asked as int,
            code.code() as int,
            truncated,
        ),
{
    let op = asked / 0x800 % 16;
    let rd = asked / 0x100 % 2;
    let cd = asked / 0x10 % 2;
    let low = code.code() % 16;
    let tc: int = if truncated {
        1
    } else {
        0
    };
    flags_come_apart(op as int, tc, rd as int, cd as int, low as int);
}

/// A number made of flags gives each of them back.
proof fn flags_come_apart(op: int, tc: int, rd: int, cd: int, low: int)
    requires
        0 <= op < 16,
        0 <= tc < 2,
        0 <= rd < 2,
        0 <= cd < 2,
        0 <= low < 16,
    ensures
        ({
            let flags = 0x8000 + op * 0x800 + tc * 0x200 + rd * 0x100 + 0x80 + cd * 0x10 + low;
            &&& flags % 16 == low
            &&& flags / 0x10 % 2 == cd
            &&& flags / 0x20 % 2 == 0
            &&& flags / 0x40 % 2 == 0
            &&& flags / 0x80 % 2 == 1
            &&& flags / 0x100 % 2 == rd
            &&& flags / 0x200 % 2 == tc
            &&& flags / 0x400 % 2 == 0
            &&& flags / 0x800 % 16 == op
            &&& 0x8000 <= flags <= 0xffff
        }),
{
    let flags = 0x8000 + op * 0x800 + tc * 0x200 + rd * 0x100 + 0x80 + cd * 0x10 + low;
    let a = 0x400 + op * 0x40 + tc * 0x10 + rd * 8 + 4;
    let b = 0x80 + op * 8 + tc * 2 + rd;
    let c = 16 + op;
    assert(flags == 32 * a + (cd * 16 + low));
    assert(flags / 0x10 == 2 * a + cd);
    assert(flags / 0x20 == a);
    assert(flags / 0x40 == a / 2);
    assert(flags / 0x80 == a / 4);
    assert(a == 8 * b + 4);
    assert(flags == 256 * b + (128 + cd * 16 + low));
    assert(flags / 0x100 == b);
    assert(flags / 0x200 == 0x40 + op * 4 + tc);
    assert(flags / 0x400 == 0x20 + op * 2);
    assert(flags / 0x800 == c);
}

/// Whether a message is the local reply to a request with a header, questions and EDNS:
/// under its identifier, with exactly its questions and no other record than an OPT,
/// which is there where the request had one, offers 1232 bytes, is of version zero and
/// repeats the DO bit.
pub open spec fn replies_to(
    reply: Message,
    header: Header,
    questions: Seq<QuestionView>,
    edns: Option<Edns>,
    code: int,
    truncated: bool,
) -> bool {
    &&& reply.header.id == header.id
    &&& flags_of_a_reply(reply.header.flags as int, header.flags as int, code, truncated)
    &&& reply.questions == questions
    &&& reply.header.counts.questions == questions.len()
    &&& reply.header.counts.answers == 0
    &&& reply.header.counts.authorities == 0
    &&& reply.header.counts.additionals == (if edns is Some {
        1int
    } else {
        0int
    })
    &&& !reply.authenticated
    &&& reply.wire.len() <= 512
    &&& match (edns, reply.edns) {
        (None, None) => true,
        (Some(asked), Some(opt)) => opt.udp_size == 1232 && opt.version == 0 && opt.dnssec_ok
            == asked.dnssec_ok && opt.extended_rcode == code / 16 % 256,
        _ => false,
    }
}

#[verifier::opaque]
spec fn reads(wire: Seq<u8>, message: Message) -> bool {
    parser::parsed(wire) == Ok::<Message, ParseError>(message)
}

proof fn reply_reads(
    header: Header,
    question: Option<QuestionView>,
    code: ResponseCode,
    truncated: bool,
    opt: OptView,
    edns: Option<Edns>,
) -> (reply: Message)
    requires
        question matches Some(asked) ==> shape::question_ok(asked),
        readback::opt_ok(opt),
        match (opt, edns) {
            (OptView::Absent, None) => true,
            (OptView::Present { dnssec_ok, .. }, Some(asked)) => dnssec_ok == asked.dnssec_ok,
            _ => false,
        },
    ensures
        reads(reply::reply_form(header, question, code, truncated, opt), reply),
        reply.wire == reply::reply_form(header, question, code, truncated, opt),
        replies_to(
            reply,
            header,
            match question {
                Some(asked) => seq![asked],
                None => Seq::empty(),
            },
            edns,
            code.code() as int,
            truncated,
        ),
        opt matches OptView::Present { cookie: None, .. } ==> reply.cookie is None,
        opt is Absent ==> reply.cookie is None,
{
    readback::generated_reply_reads_back(header, question, code, truncated, opt);
    reply_flags_are_those(header.flags, code, truncated);
    reveal(reads);
    parser::parsed(reply::reply_form(header, question, code, truncated, opt))->Ok_0
}

/// An error reply parses as the reply to its query, with its code as far as it fits and
/// without a cookie.
pub proof fn error_replies_echo_their_query(message: Message, code: ResponseCode)
    requires
        parser::parsed(message.wire) == Ok::<Message, ParseError>(message),
        message.questions.len() <= 1,
    ensures
        parser::parsed(reply::error_form(message, code)) matches Ok(reply) && {
            &&& replies_to(
                reply,
                message.header,
                message.questions,
                message.edns,
                code.code() as int,
                false,
            )
            &&& reply.cookie is None
        },
{
    shape::parsed_message_shape(message.wire);
    let reply = error_reply_reads(message, code);
    reveal(reads);
}

proof fn error_reply_reads(message: Message, code: ResponseCode) -> (reply: Message)
    requires
        shape::message_ok(message),
        message.questions.len() <= 1,
    ensures
        reads(reply::error_form(message, code), reply),
        replies_to(
            reply,
            message.header,
            message.questions,
            message.edns,
            code.code() as int,
            false,
        ),
        reply.cookie is None,
{
    let question = reply::first_question(message);
    let opt = reply::opt_for(message.edns);
    if message.questions.len() == 1 {
        assert(shape::question_ok(message.questions[0]));
        assert(message.questions =~= seq![message.questions[0]]);
    } else {
        assert(message.questions =~= Seq::empty());
    }
    reply_reads(message.header, question, code, false, opt, message.edns)
}

/// A truncated reply parses as the reply to its query, with TC and the code of the
/// response that it stands for.
pub proof fn truncated_replies_echo_their_query(message: Message, response: Message)
    requires
        parser::parsed(message.wire) == Ok::<Message, ParseError>(message),
        parser::parsed(response.wire) == Ok::<Message, ParseError>(response),
        message.questions.len() <= 1,
    ensures
        parser::parsed(reply::truncated_form(message, response)) matches Ok(reply) && replies_to(
            reply,
            message.header,
            message.questions,
            message.edns,
            response.code().code() as int,
            true,
        ),
{
    shape::parsed_message_shape(message.wire);
    shape::parsed_message_shape(response.wire);
    let reply = truncated_reply_reads(message, response);
    reveal(reads);
}

proof fn truncated_reply_reads(message: Message, response: Message) -> (reply: Message)
    requires
        shape::message_ok(message),
        shape::message_ok(response),
        message.questions.len() <= 1,
    ensures
        reads(reply::truncated_form(message, response), reply),
        replies_to(
            reply,
            message.header,
            message.questions,
            message.edns,
            response.code().code() as int,
            true,
        ),
{
    let question = reply::first_question(message);
    let opt = match message.edns {
        Some(opt) => OptView::Present {
            dnssec_ok: opt.dnssec_ok,
            cookie: cookie::cookie_data(response),
        },
        None => OptView::Absent,
    };
    if message.questions.len() == 1 {
        assert(shape::question_ok(message.questions[0]));
        assert(message.questions =~= seq![message.questions[0]]);
    } else {
        assert(message.questions =~= Seq::empty());
    }
    assert(readback::opt_ok(opt));
    reply_reads(message.header, question, response.code(), true, opt, message.edns)
}

/// A query that is broken elsewhere than in its OPT is answered with FORMERR (code 1)
/// and the header alone.
pub proof fn broken_queries_get_a_header(wire: Seq<u8>)
    requires
        12 <= wire.len() <= 65535,
        wire[2] < 128,
        parser::parsed(wire) matches Err(error) && error != ParseError::InvalidEdns,
    ensures
        parser::reply_context(wire) matches Some(context) && (parser::parsed(
            reply::format_error(context),
        ) matches Ok(reply) && replies_to(reply, Header::of(wire), Seq::empty(), None, 1, false)),
{
    assert(parser::reply_context(wire) is Some);
    shape::reply_context_shape(wire);
    let context = parser::reply_context(wire)->0;
    assert(context.edns is None);
    let reply = reply_reads(
        context.header,
        None,
        ResponseCode::FormatError,
        false,
        OptView::Absent,
        None,
    );
    reveal(reads);
}

/// A query whose only record is an OPT with broken options is answered with FORMERR
/// (code 1), its question and a fresh OPT with its DO bit.
pub proof fn broken_options_get_a_fresh_opt(wire: Seq<u8>)
    requires
        12 <= wire.len() <= 65535,
        wire[2] < 128,
        wire[2] / 8 % 16 == 0,
        structure::field(wire, 4) == 1,
        structure::field(wire, 6) == 0,
        structure::field(wire, 8) == 0,
        structure::field(wire, 10) == 1,
        ({
            let at = structure::name_end(wire, 12) + 4;
            let end = structure::name_end(wire, at);
            let to = end + 10 + structure::field(wire, end + 8);
            &&& structure::question_lies(wire, 12, at)
            &&& name::name_at(wire, at) matches Ok((owner, _)) && owner.len() == 0
            &&& end + 10 <= wire.len()
            &&& structure::kind_at(wire, at) == 41
            &&& to > wire.len() || !structure::options_lie(wire, end + 10, to)
        }),
    ensures
        parser::parsed(wire) == Err::<Message, ParseError>(ParseError::InvalidEdns),
        parser::reply_context(wire) matches Some(context) && (parser::parsed(
            reply::format_error(context),
        ) matches Ok(reply) && {
            let at = structure::name_end(wire, 12) + 4;
            let end = structure::name_end(wire, at);
            &&& reply.questions.len() == 1
            &&& reply.questions[0].name == name::name_at(wire, 12)->Ok_0.0
            &&& reply.questions[0].kind.code() == structure::kind_at(wire, 12)
            &&& reply.questions[0].class.code() == structure::field(wire, at - 2)
            &&& reply.header.id.0 == structure::field(wire, 0)
            &&& reply.header.flags % 16 == 1
            &&& reply.edns matches Some(opt) && opt.udp_size == 1232 && opt.version == 0
                && opt.dnssec_ok == (wire[end + 6] >= 128)
        }),
{
    let at = structure::name_end(wire, 12) + 4;
    let none = ScanView {
        cursor: at,
        edns: None,
        cookie: None,
        authenticated: false,
        error: None,
    };
    structure::broken_opt_is_known(wire, at, none);
    let question = QuestionView {
        name: name::name_at(wire, 12)->Ok_0.0,
        kind: crate::dns::types::RecordType::of(bytes::word_at(wire, at - 4)),
        class: crate::dns::types::RecordClass::of(bytes::word_at(wire, at - 2)),
    };
    name::decoded_name_fits(wire, 12);
    name::decoded_name_fits(wire, at);
    readback::few_questions(wire, Some(question), at);
    let scan = parser::scan_record(wire, RecordSection::Additional, none);
    readback::few_records(wire, Header::of(wire).counts, at, scan);
    broken_context(wire, at, question, scan);
    shape::reply_context_shape(wire);
    let context = parser::reply_context(wire)->0;
    let reply = reply_reads(
        context.header,
        context.question,
        ResponseCode::FormatError,
        false,
        reply::opt_for(context.edns),
        context.edns,
    );
    reveal(reads);
    assert(bytes::word_at(wire, at - 4) == structure::field(wire, at - 4));
    assert(bytes::word_at(wire, at - 2) == structure::field(wire, at - 2));
}

/// What is known for a reply when the only record is refused.
proof fn broken_context(wire: Seq<u8>, at: int, question: QuestionView, scan: ScanView)
    requires
        12 <= wire.len() <= 65535,
        Header::of(wire).flags < 0x8000,
        Header::of(wire).counts.questions == 1,
        parser::counts_fit(Header::of(wire).counts, wire.len() as int),
        parser::questions_at(wire, 12, 1) == Ok::<(Seq<QuestionView>, int), ParseError>(
            (seq![question], at),
        ),
        parser::scan_records(wire, Header::of(wire).counts, at) == scan,
        scan.error == Some(ParseError::InvalidEdns),
        scan.edns is Some,
    ensures
        parser::parsed(wire) == Err::<Message, ParseError>(ParseError::InvalidEdns),
        parser::reply_context(wire) == Some(
            (reply::ContextView {
                header: Header::of(wire),
                question: Some(question),
                edns: scan.edns,
            }),
        ),
{
}

/// The reply to a broken query is a response with FORMERR (code 1).
pub proof fn format_replies_have_code_one(wire: Seq<u8>)
    requires
        parser::reply_context(wire) is Some,
    ensures
        parser::parsed(reply::format_error(parser::reply_context(wire)->0)) matches Ok(reply)
            && reply.header.flags >= 0x8000 && reply.header.flags % 16 == 1,
{
    shape::reply_context_shape(wire);
    let context = parser::reply_context(wire)->0;
    let reply = format_reply_reads(context);
    reveal(reads);
}

proof fn format_reply_reads(context: reply::ContextView) -> (reply: Message)
    requires
        context.question matches Some(asked) ==> shape::question_ok(asked),
    ensures
        reads(reply::format_error(context), reply),
        reply.header.flags >= 0x8000,
        reply.header.flags % 16 == 1,
{
    let question = if context.edns is None {
        None
    } else {
        context.question
    };
    reply_reads(
        context.header,
        question,
        ResponseCode::FormatError,
        false,
        reply::opt_for(context.edns),
        context.edns,
    )
}

} // verus!
