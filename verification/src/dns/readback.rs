//! Locally generated replies are messages that say what they were built to say.
use crate::bytes;
use crate::dns::cookie::{self, CookieField, CookieSlot, COOKIE_OPTION};
use crate::dns::error::ParseError;
use crate::dns::message::{self, Edns, Header, Message, QuestionView, RecordSection, SectionCounts};
use crate::dns::name;
use crate::dns::parser::{self, ScanView};
use crate::dns::reply::{self, ContextView, OptView};
use crate::dns::shape;
use crate::dns::types;
use crate::dns::types::{MessageType, ResponseCode};
use crate::dns::CLASSIC_UDP_LENGTH;
use vstd::prelude::*;

verus! {

/// An OPT whose cookie, where it has one, is of a length that the protocol knows.
pub open spec fn opt_ok(opt: OptView) -> bool {
    opt matches OptView::Present { cookie: Some(data), .. } ==> data.len() == 8 || 16 <= data.len()
        <= 40
}

/// The OPT metadata that a local reply is read with.
pub open spec fn reply_edns(code: ResponseCode, opt: OptView) -> Option<Edns> {
    match opt {
        OptView::Absent => None,
        OptView::Present { dnssec_ok, .. } => Some(
            Edns {
                udp_size: 1232,
                version: 0,
                extended_rcode: (code.code() / 16 % 256) as u8,
                dnssec_ok,
            },
        ),
    }
}

/// The questions that a local reply is read with.
pub open spec fn reply_questions(question: Option<QuestionView>) -> Seq<QuestionView> {
    match question {
        Some(asked) => seq![asked],
        None => Seq::empty(),
    }
}

proof fn header_reads_back(header: Header, rest: Seq<u8>)
    ensures
        header.form().len() == 12,
        Header::of(header.form() + rest) == header,
{
    let wire = header.form() + rest;
    assert(wire[0] == (header.id.0 / 256) as u8);
    assert(wire[1] == (header.id.0 % 256) as u8);
    assert(wire[2] == (header.flags / 256) as u8);
    assert(wire[3] == (header.flags % 256) as u8);
    assert(wire[4] == (header.counts.questions / 256) as u8);
    assert(wire[5] == (header.counts.questions % 256) as u8);
    assert(wire[6] == (header.counts.answers / 256) as u8);
    assert(wire[7] == (header.counts.answers % 256) as u8);
    assert(wire[8] == (header.counts.authorities / 256) as u8);
    assert(wire[9] == (header.counts.authorities % 256) as u8);
    assert(wire[10] == (header.counts.additionals / 256) as u8);
    assert(wire[11] == (header.counts.additionals % 256) as u8);
}

/// A question that was written out reads back unchanged, whatever stands around it.
pub proof fn question_reads_back(before: Seq<u8>, question: QuestionView, after: Seq<u8>)
    requires
        shape::question_ok(question),
    ensures
        parser::question_at(before + question.form() + after, before.len() as int) == Ok::<
            (QuestionView, int),
            ParseError,
        >((question, (before.len() + question.form().len()) as int)),
        5 <= question.form().len() <= 259,
{
    let tail = bytes::word_bytes(question.kind.code()) + bytes::word_bytes(question.class.code());
    let wire = before + question.form() + after;
    assert(wire =~= before + name::encoded(question.name) + (tail + after));
    name::encoded_name_reads_back(before, question.name, tail + after);
    let end = (before.len() + name::encoded(question.name).len()) as int;
    assert(wire[end] == tail[0]);
    assert(wire[end + 1] == tail[1]);
    assert(wire[end + 2] == tail[2]);
    assert(wire[end + 3] == tail[3]);
    assert(name::encoded(question.name).len() >= 1);
}

/// The cookie slot of an OPT record that starts at `at`.
pub open spec fn reply_cookie(at: int, opt: OptView) -> Option<CookieField> {
    match opt {
        OptView::Present { cookie: Some(data), .. } => Some(
            CookieField::Present(
                CookieSlot {
                    length_at: (at + 13) as usize,
                    data_at: (at + 15) as usize,
                    data_len: data.len() as usize,
                    rdlength_at: (at + 9) as usize,
                },
            ),
        ),
        _ => None,
    }
}

#[verifier::spinoff_prover]
proof fn opt_reads_back(
    before: Seq<u8>,
    code: ResponseCode,
    dnssec_ok: bool,
    cookie: Option<Seq<u8>>,
)
    requires
        opt_ok((OptView::Present { dnssec_ok, cookie })),
        12 <= before.len() <= 1000,
    ensures
        ({
            let opt = OptView::Present { dnssec_ok, cookie };
            let wire = before + reply::opt_form(code, dnssec_ok, cookie);
            let none = ScanView {
                cursor: before.len() as int,
                edns: None,
                cookie: None,
                authenticated: false,
                error: None,
            };
            &&& 11 <= reply::opt_form(code, dnssec_ok, cookie).len() <= 55
            &&& parser::scan_record(wire, RecordSection::Additional, none) == ScanView {
                cursor: wire.len() as int,
                edns: reply_edns(code, opt),
                cookie: reply_cookie(before.len() as int, opt),
                ..none
            }
        }),
{
    let form = reply::opt_form(code, dnssec_ok, cookie);
    let wire = before + form;
    let at = before.len() as int;
    let extended = code.code() / 16 % 256;
    let flag: int = if dnssec_ok {
        0x8000
    } else {
        0
    };
    let ttl = (extended * 16777216 + flag) as u32;
    let data = match cookie {
        Some(octets) => bytes::word_bytes(COOKIE_OPTION) + bytes::word_bytes(octets.len() as u16)
            + octets,
        None => Seq::empty(),
    };
    assert(form.len() == 11 + data.len());
    assert(wire[at] == 0);
    assert(name::name_at(wire, at) == Ok::<(Seq<Seq<u8>>, int), ParseError>(
        (Seq::empty(), at + 1),
    ));
    assert(wire[at + 1] == form[1] == 0);
    assert(wire[at + 2] == form[2] == 41);
    assert(wire[at + 3] == form[3] == 4);
    assert(wire[at + 4] == form[4] == 208);
    assert(wire[at + 5] == form[5] == bytes::double_word_bytes(ttl)[0]);
    assert(wire[at + 6] == form[6] == bytes::double_word_bytes(ttl)[1]);
    assert(wire[at + 7] == form[7] == bytes::double_word_bytes(ttl)[2]);
    assert(wire[at + 8] == form[8] == bytes::double_word_bytes(ttl)[3]);
    assert(wire[at + 9] == form[9] == 0);
    assert(wire[at + 10] == form[10] == data.len());
    bytes::double_word_reads_back(ttl);
    assert(bytes::double_word_at(wire, at + 5) == ttl);
    let start = at + 11;
    let end = start + data.len();
    assert(wire.subrange(start, end) =~= data);
    assert(parser::options_framed(data, 0)) by {
        reveal_with_fuel(parser::options_framed, 3);
    }
    match cookie {
        Some(octets) => {
            assert(wire[start] == data[0] == 0);
            assert(wire[start + 1] == data[1] == 10);
            assert(wire[start + 2] == data[2] == 0);
            assert(wire[start + 3] == data[3] == octets.len());
        },
        None => {},
    }
    assert(parser::edns_of(1232, ttl) == Edns {
        udp_size: 1232,
        version: 0,
        extended_rcode: extended as u8,
        dnssec_ok,
    });
}

/// A local reply parses, and reads back as what it was built from: identifier,
/// flags and question of the request, the code as far as it fits, OPT presence,
/// DO bit and cookie.
pub proof fn generated_reply_reads_back(
    header: Header,
    question: Option<QuestionView>,
    code: ResponseCode,
    truncated: bool,
    opt: OptView,
)
    requires
        question matches Some(asked) ==> shape::question_ok(asked),
        opt_ok(opt),
    ensures
        ({
            let wire = reply::reply_form(header, question, code, truncated, opt);
            let at = 12 + (match question {
                Some(asked) => asked.form().len() as int,
                None => 0,
            });
            &&& wire.len() <= 326
            &&& parser::parsed(wire) == Ok::<Message, ParseError>(
                Message {
                    wire,
                    header: reply::reply_header(header, question, code, truncated, opt),
                    questions: reply_questions(question),
                    edns: reply_edns(code, opt),
                    authenticated: false,
                    cookie: reply_cookie(at, opt),
                },
            )
        }),
{
    let head = reply::reply_header(header, question, code, truncated, opt);
    let middle = question_form(question);
    let front = head.form() + middle;
    let wire = reply::reply_form(header, question, code, truncated, opt);
    front_reads_back(head, question, Seq::empty());
    match opt {
        OptView::Present { dnssec_ok, cookie } => {
            let tail = reply::opt_form(code, dnssec_ok, cookie);
            assert(wire == front + tail);
            opt_reads_back(front, code, dnssec_ok, cookie);
            let scan = parser::scan_record(wire, RecordSection::Additional, at_front(front));
            whole_reads_back(head, question, tail, scan);
        },
        OptView::Absent => {
            assert(wire =~= front);
            assert(wire =~= front + Seq::<u8>::empty());
            whole_reads_back(head, question, Seq::empty(), at_front(front));
        },
    }
}

/// The wire form of a question that there may be.
spec fn question_form(question: Option<QuestionView>) -> Seq<u8> {
    match question {
        Some(asked) => asked.form(),
        None => Seq::empty(),
    }
}

/// Before the first record.
spec fn at_front(front: Seq<u8>) -> ScanView {
    ScanView {
        cursor: front.len() as int,
        edns: None,
        cookie: None,
        authenticated: false,
        error: None,
    }
}

/// A header and a question that there may be are read back, whatever follows.
proof fn front_reads_back(head: Header, question: Option<QuestionView>, tail: Seq<u8>)
    requires
        question matches Some(asked) ==> shape::question_ok(asked),
    ensures
        ({
            let front = head.form() + question_form(question);
            let wire = front + tail;
            &&& head.form().len() == 12
            &&& front.len() == 12 + question_form(question).len()
            &&& question matches Some(_) ==> 5 <= question_form(question).len() <= 259
            &&& Header::of(wire) == head
            &&& parser::questions_at(
                wire,
                12,
                if question is Some {
                    1
                } else {
                    0
                },
            ) == Ok::<(Seq<QuestionView>, int), ParseError>(
                (reply_questions(question), front.len() as int),
            )
        }),
{
    let middle = question_form(question);
    let wire = head.form() + middle + tail;
    header_reads_back(head, middle + tail);
    assert(wire =~= head.form() + (middle + tail));
    match question {
        Some(asked) => {
            question_reads_back(head.form(), asked, tail);
        },
        None => {},
    }
    few_questions(wire, question, (12 + middle.len()) as int);
}

/// A message is put together from bytes whose beginning is known to be a header and
/// a question that there may be.
proof fn front_and_record_read_back(
    front: Seq<u8>,
    tail: Seq<u8>,
    head: Header,
    question: Option<QuestionView>,
    scan: ScanView,
)
    requires
        head.counts.questions == (if question is Some {
            1int
        } else {
            0int
        }),
        head.counts.answers == 0,
        head.counts.authorities == 0,
        head.counts.additionals <= 1,
        head.counts.additionals == 1 ==> tail.len() >= 11,
        tail.len() <= 55,
        12 <= front.len() <= 271,
        question is Some ==> 17 <= front.len(),
        Header::of(front + tail) == head,
        parser::questions_at(front + tail, 12, head.counts.questions as nat) == Ok::<
            (Seq<QuestionView>, int),
            ParseError,
        >((reply_questions(question), front.len() as int)),
        scan == (if head.counts.additionals == 1 {
            parser::scan_record(front + tail, RecordSection::Additional, at_front(front))
        } else {
            at_front(front)
        }),
        scan.error is None,
        scan.cursor == front.len() + tail.len(),
    ensures
        parser::parsed(front + tail) == Ok::<Message, ParseError>(
            (Message {
                wire: front + tail,
                header: head,
                questions: reply_questions(question),
                edns: scan.edns,
                authenticated: scan.authenticated,
                cookie: scan.cookie,
            }),
        ),
{
    let wire = front + tail;
    few_records(wire, head.counts, front.len() as int, scan);
    assembled(wire, head, reply_questions(question), front.len() as int, scan);
}

/// A header, a question that there may be and a record that there may be are read
/// back from their wire forms.
proof fn whole_reads_back(
    head: Header,
    question: Option<QuestionView>,
    tail: Seq<u8>,
    scan: ScanView,
)
    requires
        question matches Some(asked) ==> shape::question_ok(asked),
        head.counts.questions == (if question is Some {
            1int
        } else {
            0int
        }),
        head.counts.answers == 0,
        head.counts.authorities == 0,
        head.counts.additionals <= 1,
        head.counts.additionals == 1 ==> tail.len() >= 11,
        tail.len() <= 55,
        ({
            let front = head.form() + question_form(question);
            let wire = front + tail;
            &&& scan == (if head.counts.additionals == 1 {
                parser::scan_record(wire, RecordSection::Additional, at_front(front))
            } else {
                at_front(front)
            })
            &&& scan.error is None
            &&& scan.cursor == wire.len()
        }),
    ensures
        parser::parsed(head.form() + question_form(question) + tail) == Ok::<Message, ParseError>(
            (Message {
                wire: head.form() + question_form(question) + tail,
                header: head,
                questions: reply_questions(question),
                edns: scan.edns,
                authenticated: scan.authenticated,
                cookie: scan.cookie,
            }),
        ),
{
    front_reads_back(head, question, tail);
    front_and_record_read_back(head.form() + question_form(question), tail, head, question, scan);
}

/// A message with one question at most is read in one step.
pub proof fn few_questions(wire: Seq<u8>, question: Option<QuestionView>, at: int)
    requires
        match question {
            Some(asked) => parser::question_at(wire, 12) == Ok::<(QuestionView, int), ParseError>(
                (asked, at),
            ),
            None => at == 12,
        },
    ensures
        parser::questions_at(
            wire,
            12,
            if question is Some {
                1
            } else {
                0
            },
        ) == Ok::<(Seq<QuestionView>, int), ParseError>((reply_questions(question), at)),
{
    reveal_with_fuel(parser::questions_at, 2);
    match question {
        Some(asked) => {
            assert(Seq::<QuestionView>::empty().push(asked) =~= seq![asked]);
        },
        None => {},
    }
}

/// A message with one record at most, an additional one, is scanned in one step.
pub proof fn few_records(wire: Seq<u8>, counts: SectionCounts, at: int, scan: ScanView)
    requires
        counts.answers == 0,
        counts.authorities == 0,
        counts.additionals <= 1,
        ({
            let none = ScanView {
                cursor: at,
                edns: None,
                cookie: None,
                authenticated: false,
                error: None,
            };
            scan == if counts.additionals == 1 {
                parser::scan_record(wire, RecordSection::Additional, none)
            } else {
                none
            }
        }),
    ensures
        parser::scan_records(wire, counts, at) == scan,
{
    reveal_with_fuel(parser::scan_section, 2);
}

/// A message is put together from its header, its questions and its records.
pub proof fn assembled(
    wire: Seq<u8>,
    head: Header,
    questions: Seq<QuestionView>,
    at: int,
    scan: ScanView,
)
    requires
        12 <= wire.len() <= 65535,
        Header::of(wire) == head,
        head.counts.questions <= 1,
        parser::counts_fit(head.counts, wire.len() as int),
        parser::questions_at(wire, 12, head.counts.questions as nat) == Ok::<
            (Seq<QuestionView>, int),
            ParseError,
        >((questions, at)),
        parser::scan_records(wire, head.counts, at) == scan,
        scan.error is None,
        scan.cursor == wire.len(),
    ensures
        parser::parsed(wire) == Ok::<Message, ParseError>(
            (Message {
                wire,
                header: head,
                questions,
                edns: scan.edns,
                authenticated: scan.authenticated,
                cookie: scan.cookie,
            }),
        ),
{
}

/// The flags of a local reply are those of a response to the same operation,
/// with TC as asked and the low bits of the code.
pub proof fn reply_flags_answer(flags: u16, code: ResponseCode, truncated: bool)
    ensures
        ({
            let reply = reply::reply_flags(flags, code, truncated);
            &&& reply >= 0x8000
            &&& reply / 0x800 % 16 == flags / 0x800 % 16
            &&& (reply / 0x200 % 2 == 1) == truncated
            &&& reply % 16 == code.code() % 16
        }),
{
}

proof fn reply_belongs(
    message: Message,
    reply: Message,
    code: ResponseCode,
    truncated: bool,
    opt: OptView,
)
    requires
        message.questions.len() <= 1,
        reply.header == reply::reply_header(
            message.header,
            reply::first_question(message),
            code,
            truncated,
            opt,
        ),
        reply.questions == reply_questions(reply::first_question(message)),
        reply.edns == reply_edns(code, opt),
        !reply.authenticated,
        (opt is Present) == (message.edns is Some),
    ensures
        reply.answers(message, message.header.id),
        reply.header.cut() == truncated,
        reply.code() == ResponseCode::of(
            (code.code() % (if message.edns is Some {
                4096
            } else {
                16
            })) as u16,
        ),
{
    reply_flags_answer(message.header.flags, code, truncated);
    assert(reply.questions =~= message.questions);
    assert(message::same_questions(reply.questions, message.questions));
    assert(code.code() % 4096 == code.code() / 16 % 256 * 16 + code.code() % 16);
}

/// An error reply to a parsed query is a response that belongs to it, small
/// enough for any client.
pub proof fn error_reply_answers_its_query(message: Message, code: ResponseCode)
    requires
        parser::parsed(message.wire) == Ok::<Message, ParseError>(message),
        message.questions.len() <= 1,
    ensures
        parser::parsed(reply::error_form(message, code)) matches Ok(reply) && {
            &&& reply.answers(message, message.header.id)
            &&& !reply.header.cut()
            &&& reply.wire.len() <= CLASSIC_UDP_LENGTH
            &&& reply.code() == ResponseCode::of(
                (code.code() % (if message.edns is Some {
                    4096
                } else {
                    16
                })) as u16,
            )
        },
{
    shape::parsed_message_shape(message.wire);
    let reply = error_reply_read(message, code);
    reveal(reads_as);
}

proof fn error_reply_read(message: Message, code: ResponseCode) -> (reply: Message)
    requires
        shape::message_ok(message),
        message.questions.len() <= 1,
    ensures
        reads_as(reply::error_form(message, code), reply),
        reply.answers(message, message.header.id),
        !reply.header.cut(),
        reply.wire.len() <= CLASSIC_UDP_LENGTH,
        reply.code() == ResponseCode::of(
            (code.code() % (if message.edns is Some {
                4096
            } else {
                16
            })) as u16,
        ),
{
    local_reply_read(message, code, false, reply::opt_for(message.edns))
}

/// A local reply belongs to its query.
proof fn local_reply_read(
    message: Message,
    code: ResponseCode,
    truncated: bool,
    opt: OptView,
) -> (reply: Message)
    requires
        shape::message_ok(message),
        message.questions.len() <= 1,
        opt_ok(opt),
        (opt is Present) == (message.edns is Some),
    ensures
        reads_as(
            reply::reply_form(
                message.header,
                reply::first_question(message),
                code,
                truncated,
                opt,
            ),
            reply,
        ),
        reply.answers(message, message.header.id),
        reply.header.cut() == truncated,
        reply.wire.len() <= CLASSIC_UDP_LENGTH,
        reply.code() == ResponseCode::of(
            (code.code() % (if message.edns is Some {
                4096
            } else {
                16
            })) as u16,
        ),
        opt matches OptView::Present { cookie, .. } ==> cookie::cookie_data(reply) == cookie,
{
    let question = reply::first_question(message);
    let reply = reply_read(message.header, question, code, truncated, opt);
    reply_belongs(message, reply, code, truncated, opt);
    reply_cookie_reads_back(message.header, question, code, truncated, opt, reply);
    reply
}

/// A broken query is answered, if at all, by a small response under its own
/// identifier that says FORMERR.
pub proof fn format_reply_answers_its_query(wire: Seq<u8>)
    ensures
        parser::reply_context(wire) matches Some(context) ==> (parser::parsed(
            reply::format_error(context),
        ) matches Ok(reply) && {
            &&& reply.header.direction() == MessageType::Response
            &&& reply.header.id == Header::of(wire).id
            &&& reply.header.operation() == Header::of(wire).operation()
            &&& reply.code() == ResponseCode::FormatError
            &&& reply.wire.len() <= CLASSIC_UDP_LENGTH
        }),
{
    match parser::reply_context(wire) {
        Some(context) => {
            shape::reply_context_shape(wire);
            let reply = format_reply_read(context);
            reveal(reads_as);
        },
        None => {},
    }
}

proof fn format_reply_read(context: ContextView) -> (reply: Message)
    requires
        context.question matches Some(asked) ==> shape::question_ok(asked),
    ensures
        reads_as(reply::format_error(context), reply),
        reply.header.direction() == MessageType::Response,
        reply.header.id == context.header.id,
        reply.header.operation() == context.header.operation(),
        reply.code() == ResponseCode::FormatError,
        reply.wire.len() <= CLASSIC_UDP_LENGTH,
{
    let question = if context.edns is None {
        None
    } else {
        context.question
    };
    let opt = reply::opt_for(context.edns);
    let reply = reply_read(context.header, question, ResponseCode::FormatError, false, opt);
    reply_flags_answer(context.header.flags, ResponseCode::FormatError, false);
    reply
}

/// A response is never answered, whether it parses or not.
pub proof fn responses_are_never_answered(wire: Seq<u8>)
    requires
        wire.len() >= 12,
        Header::of(wire).direction() == MessageType::Response,
    ensures
        match parser::parsed(wire) {
            Ok(message) => message.decision() is Ignore,
            Err(_) => parser::reply_context(wire) is None,
        },
{
}

/// A truncated reply is a response with TC that belongs to its query, carries the
/// code of the response it stands for, and is small enough for any client.
pub proof fn truncated_reply_answers_its_query(message: Message, response: Message)
    requires
        parser::parsed(message.wire) == Ok::<Message, ParseError>(message),
        parser::parsed(response.wire) == Ok::<Message, ParseError>(response),
        message.questions.len() <= 1,
        response.edns is Some ==> message.edns is Some,
    ensures
        parser::parsed(reply::truncated_form(message, response)) matches Ok(reply) && {
            &&& reply.answers(message, message.header.id)
            &&& reply.header.cut()
            &&& reply.wire.len() <= CLASSIC_UDP_LENGTH
            &&& reply.code() == response.code()
            &&& message.edns is Some ==> cookie::cookie_data(reply) == cookie::cookie_data(response)
        },
{
    shape::parsed_message_shape(message.wire);
    shape::parsed_message_shape(response.wire);
    let reply = truncated_reply_read(message, response);
    reveal(reads_as);
}

/// Whether bytes parse as a message.
#[verifier::opaque]
spec fn reads_as(wire: Seq<u8>, message: Message) -> bool {
    parser::parsed(wire) == Ok::<Message, ParseError>(message)
}

proof fn reply_read(
    header: Header,
    question: Option<QuestionView>,
    code: ResponseCode,
    truncated: bool,
    opt: OptView,
) -> (reply: Message)
    requires
        question matches Some(asked) ==> shape::question_ok(asked),
        opt_ok(opt),
    ensures
        reads_as(reply.wire, reply),
        reply.wire.len() <= 326,
        reply.wire == reply::reply_form(header, question, code, truncated, opt),
        reply.header == reply::reply_header(header, question, code, truncated, opt),
        reply.questions == reply_questions(question),
        reply.edns == reply_edns(code, opt),
        !reply.authenticated,
        reply.cookie == reply_cookie(
            12 + (match question {
                Some(asked) => asked.form().len() as int,
                None => 0,
            }),
            opt,
        ),
{
    generated_reply_reads_back(header, question, code, truncated, opt);
    reveal(reads_as);
    parser::parsed(reply::reply_form(header, question, code, truncated, opt))->Ok_0
}

proof fn truncated_reply_read(message: Message, response: Message) -> (reply: Message)
    requires
        shape::message_ok(message),
        shape::message_ok(response),
        message.questions.len() <= 1,
        response.edns is Some ==> message.edns is Some,
    ensures
        reads_as(reply::truncated_form(message, response), reply),
        reply.answers(message, message.header.id),
        reply.header.cut(),
        reply.wire.len() <= CLASSIC_UDP_LENGTH,
        reply.code() == response.code(),
        message.edns is Some ==> cookie::cookie_data(reply) == cookie::cookie_data(response),
{
    let opt = truncated_opt(message, response);
    assert(opt_ok(opt));
    code_fits(response);
    let code = response.code().code();
    assert(code % 4096 == code);
    assert(message.edns is None ==> code % 16 == code);
    local_reply_read(message, response.code(), true, opt)
}

/// The OPT of the truncated reply that stands for `response`.
spec fn truncated_opt(message: Message, response: Message) -> OptView {
    match message.edns {
        Some(opt) => OptView::Present {
            dnssec_ok: opt.dnssec_ok,
            cookie: cookie::cookie_data(response),
        },
        None => OptView::Absent,
    }
}

/// A code has twelve bits with OPT, and four without.
proof fn code_fits(message: Message)
    ensures
        message.code().code() < 4096,
        message.edns is None ==> message.code().code() < 16,
        ResponseCode::of(message.code().code()) == message.code(),
{
    let extended: int = match message.edns {
        Some(opt) => opt.extended_rcode as int,
        None => 0,
    };
    types::response_code_keeps_its_value((extended * 16 + message.header.flags % 16) as u16);
}

proof fn reply_cookie_reads_back(
    header: Header,
    question: Option<QuestionView>,
    code: ResponseCode,
    truncated: bool,
    opt: OptView,
    reply: Message,
)
    requires
        reply.wire == reply::reply_form(header, question, code, truncated, opt),
        reply.wire.len() <= 326,
        reply.cookie == reply_cookie(
            12 + (match question {
                Some(asked) => asked.form().len() as int,
                None => 0,
            }),
            opt,
        ),
        opt_ok(opt),
    ensures
        opt matches OptView::Present { cookie, .. } ==> cookie::cookie_data(reply) == cookie,
{
    match opt {
        OptView::Present { dnssec_ok, cookie: Some(data) } => {
            let head = reply::reply_header(header, question, code, truncated, opt).form();
            header_reads_back(reply::reply_header(header, question, code, truncated, opt), head);
            let middle = match question {
                Some(asked) => asked.form(),
                None => Seq::empty(),
            };
            let at = (12 + middle.len()) as int;
            let form = reply::opt_form(code, dnssec_ok, Some(data));
            assert(reply.wire =~= head + middle + form);
            assert(form.skip(15) =~= data);
            assert(reply.wire.subrange(at + 15, at + 15 + data.len()) =~= data);
        },
        _ => {},
    }
}

} // verus!
